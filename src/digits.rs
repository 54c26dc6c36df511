//! The mathematical model of a little-endian decimal digit sequence.
use vstd::prelude::*;

verus! {

/// `10^n`.
pub open spec fn pow10(n: nat) -> nat
    decreases n,
{
    if n == 0 {
        1
    } else {
        10 * pow10((n - 1) as nat)
    }
}

/// The digit at position `i`, or zero past the end of the sequence.
pub open spec fn digit_at(s: Seq<u32>, i: int) -> nat {
    if 0 <= i < s.len() {
        s[i] as nat
    } else {
        0
    }
}

/// The value of the lowest `n` positions of `s` (positions past the end count as zero).
pub open spec fn prefix_val(s: Seq<u32>, n: nat) -> nat
    decreases n,
{
    if n == 0 {
        0
    } else {
        prefix_val(s, (n - 1) as nat) + digit_at(s, n - 1) * pow10((n - 1) as nat)
    }
}

/// The number that a little-endian digit sequence denotes.
pub open spec fn val(s: Seq<u32>) -> nat {
    prefix_val(s, s.len())
}

/// Every entry is a decimal digit.
pub open spec fn all_digits(s: Seq<u32>) -> bool {
    forall|i: int| 0 <= i < s.len() ==> #[trigger] s[i] < 10
}

/// Non-empty, with no zero at the most significant end unless it is the only digit.
pub open spec fn is_trimmed(s: Seq<u32>) -> bool {
    &&& s.len() >= 1
    &&& (s.len() > 1 ==> s[s.len() - 1] != 0)
}

pub proof fn lemma_pow10_positive(n: nat)
    ensures
        pow10(n) >= 1,
    decreases n,
{
    if n > 0 {
        lemma_pow10_positive((n - 1) as nat);
    }
}

pub proof fn lemma_pow10_add(a: nat, b: nat)
    ensures
        pow10(a + b) == pow10(a) * pow10(b),
    decreases a,
{
    if a > 0 {
        let c = (a - 1) as nat;
        lemma_pow10_add(c, b);
        let x = pow10(c);
        let y = pow10(b);
        assert(pow10(c + b + 1) == 10 * pow10(c + b));
        assert(c + b + 1 == a + b);
        assert(pow10(a) == 10 * x);
        assert(10 * (x * y) == (10 * x) * y) by (nonlinear_arith);
        assert(pow10(a + b) == pow10(a) * pow10(b));
    } else {
        assert(pow10(0) == 1);
        assert(pow10(a + b) == pow10(b));
        assert(pow10(a + b) == pow10(a) * pow10(b));
    }
}

pub proof fn lemma_pow10_monotonic(a: nat, b: nat)
    requires
        a <= b,
    ensures
        pow10(a) <= pow10(b),
    decreases b,
{
    if a < b {
        lemma_pow10_monotonic(a, (b - 1) as nat);
        lemma_pow10_positive((b - 1) as nat);
    }
}

/// Positions at or past the end add nothing.
pub proof fn lemma_prefix_val_past_end(s: Seq<u32>, n: nat)
    requires
        n >= s.len(),
    ensures
        prefix_val(s, n) == val(s),
    decreases n,
{
    if n > s.len() {
        lemma_prefix_val_past_end(s, (n - 1) as nat);
        assert(digit_at(s, n - 1) == 0);
        assert(prefix_val(s, n) == prefix_val(s, (n - 1) as nat) + 0 * pow10((n - 1) as nat));
    }
}

/// A prefix of digits is below the next power of ten.
pub proof fn lemma_prefix_val_bound(s: Seq<u32>, n: nat)
    requires
        all_digits(s),
    ensures
        prefix_val(s, n) < pow10(n),
    decreases n,
{
    if n > 0 {
        let m = (n - 1) as nat;
        lemma_prefix_val_bound(s, m);
        let d = digit_at(s, m as int);
        assert(d <= 9);
        assert(d * pow10(m) <= 9 * pow10(m)) by (nonlinear_arith)
            requires
                d <= 9,
        ;
    }
}

pub proof fn lemma_val_bound(s: Seq<u32>)
    requires
        all_digits(s),
    ensures
        val(s) < pow10(s.len()),
{
    lemma_prefix_val_bound(s, s.len());
}

/// Two sequences agreeing on the positions below `n` have the same prefix value there.
pub proof fn lemma_prefix_val_agree(s: Seq<u32>, t: Seq<u32>, n: nat)
    requires
        forall|i: int| 0 <= i < n ==> digit_at(s, i) == digit_at(t, i),
    ensures
        prefix_val(s, n) == prefix_val(t, n),
    decreases n,
{
    if n > 0 {
        lemma_prefix_val_agree(s, t, (n - 1) as nat);
    }
}

/// Changing one position changes the value by the difference at that position's weight.
pub proof fn lemma_prefix_val_update(s: Seq<u32>, m: int, y: u32, n: nat)
    requires
        0 <= m < s.len(),
    ensures
        prefix_val(s.update(m, y), n) + (if m < n {
            s[m] as int * pow10(m as nat)
        } else {
            0
        }) == prefix_val(s, n) + (if m < n {
            y as int * pow10(m as nat)
        } else {
            0
        }),
    decreases n,
{
    if n > 0 {
        lemma_prefix_val_update(s, m, y, (n - 1) as nat);
    }
}

pub proof fn lemma_val_update(s: Seq<u32>, m: int, y: u32)
    requires
        0 <= m < s.len(),
    ensures
        val(s.update(m, y)) + s[m] * pow10(m as nat) == val(s) + y * pow10(m as nat),
{
    lemma_prefix_val_update(s, m, y, s.len());
}

/// Appending a digit adds it at the weight of the new top position.
pub proof fn lemma_val_push(s: Seq<u32>, d: u32)
    ensures
        val(s.push(d)) == val(s) + d * pow10(s.len()),
{
    let t = s.push(d);
    lemma_prefix_val_agree(s, t, s.len());
}

/// Splitting off the lowest digit.
pub proof fn lemma_prefix_val_first(s: Seq<u32>, n: nat)
    requires
        s.len() >= 1,
    ensures
        prefix_val(s, n + 1) == s[0] + 10 * prefix_val(s.drop_first(), n),
    decreases n,
{
    if n > 0 {
        let m = (n - 1) as nat;
        lemma_prefix_val_first(s, m);
        assert(digit_at(s, n as int) == digit_at(s.drop_first(), m as int));
        assert(10 * (digit_at(s.drop_first(), m as int) * pow10(m)) == digit_at(
            s.drop_first(),
            m as int,
        ) * (10 * pow10(m))) by (nonlinear_arith);
        assert(pow10(n) == 10 * pow10(m));
        assert(prefix_val(s.drop_first(), n) == prefix_val(s.drop_first(), m) + digit_at(
            s.drop_first(),
            m as int,
        ) * pow10(m));
    } else {
        assert(pow10(0) == 1);
        assert(prefix_val(s, 1) == prefix_val(s, 0) + digit_at(s, 0) * pow10(0));
        assert(prefix_val(s.drop_first(), 0) == 0);
    }
}

pub proof fn lemma_val_first(s: Seq<u32>)
    requires
        s.len() >= 1,
    ensures
        val(s) == s[0] + 10 * val(s.drop_first()),
{
    lemma_prefix_val_first(s, (s.len() - 1) as nat);
}

/// A one-digit sequence denotes its digit.
pub proof fn lemma_val_single(s: Seq<u32>)
    requires
        s.len() == 1,
    ensures
        val(s) == s[0],
{
    assert(pow10(0) == 1);
    assert(prefix_val(s, 1) == prefix_val(s, 0) + digit_at(s, 0) * pow10(0));
}

/// Removing trailing zeros keeps the value.
pub proof fn lemma_val_drop_last_zero(s: Seq<u32>)
    requires
        s.len() >= 1,
        s[s.len() - 1] == 0,
    ensures
        val(s.drop_last()) == val(s),
{
    lemma_val_push(s.drop_last(), 0);
    assert(s.drop_last().push(0) =~= s);
}

/// A trimmed digit sequence longer than one digit is at least the power of ten below its length.
pub proof fn lemma_trimmed_lower_bound(s: Seq<u32>)
    requires
        is_trimmed(s),
        s.len() > 1,
    ensures
        val(s) >= pow10((s.len() - 1) as nat),
{
    let k = (s.len() - 1) as nat;
    lemma_val_push(s.drop_last(), s[k as int]);
    assert(s.drop_last().push(s[k as int]) =~= s);
    let d = s[k as int];
    assert(d >= 1);
    assert(d * pow10(k) >= pow10(k)) by (nonlinear_arith)
        requires
            d >= 1,
    ;
}

/// The value of a trimmed sequence fixes its length.
pub proof fn lemma_trimmed_length_order(s: Seq<u32>, t: Seq<u32>)
    requires
        is_trimmed(s),
        is_trimmed(t),
        all_digits(s),
        all_digits(t),
        s.len() > t.len(),
    ensures
        val(s) > val(t),
{
    lemma_val_bound(t);
    lemma_trimmed_lower_bound(s);
    lemma_pow10_monotonic(t.len(), (s.len() - 1) as nat);
}

/// Zero is the single digit zero.
pub proof fn lemma_trimmed_zero(s: Seq<u32>)
    requires
        is_trimmed(s),
        all_digits(s),
    ensures
        val(s) == 0 <==> s =~= seq![0u32],
{
    if s.len() > 1 {
        lemma_trimmed_lower_bound(s);
        lemma_pow10_positive((s.len() - 1) as nat);
    } else {
        assert(pow10(0) == 1);
        assert(prefix_val(s, 1) == prefix_val(s, 0) + digit_at(s, 0) * pow10(0));
        assert(val(s) == s[0]);
    }
}

} // verus!
