//! Algebraic laws that the operations obey, stated over the values their contracts give.
use vstd::prelude::*;
use vstd::arithmetic::div_mod::{lemma_fundamental_div_mod, lemma_fundamental_div_mod_converse};
use crate::digits::{all_digits, lemma_trimmed_length_order, lemma_trimmed_zero, lemma_val_first, val};
use crate::division::trunc_div;
use crate::number::{
    chars_to_digits, decimal_value, digit_char, has_minus, is_decimal_text, unsigned_part,
    BigNumber, Sign,
};

verus! {

/// Digit sequences of one length with one value are the same sequence.
proof fn lemma_digits_unique(s: Seq<u32>, t: Seq<u32>)
    requires
        all_digits(s),
        all_digits(t),
        s.len() == t.len(),
        val(s) == val(t),
    ensures
        s == t,
    decreases s.len(),
{
    if s.len() > 0 {
        lemma_val_first(s);
        lemma_val_first(t);
        lemma_fundamental_div_mod_converse(val(s) as int, 10, val(s.drop_first()) as int, s[0] as int);
        lemma_fundamental_div_mod_converse(val(t) as int, 10, val(t.drop_first()) as int, t[0] as int);
        lemma_digits_unique(s.drop_first(), t.drop_first());
        assert(s =~= seq![s[0]] + s.drop_first());
        assert(t =~= seq![t[0]] + t.drop_first());
    } else {
        assert(s =~= t);
    }
}

/// Each integer has exactly one well-formed representation.
pub proof fn lemma_canonical(x: BigNumber, y: BigNumber)
    requires
        x.wf(),
        y.wf(),
        x.value() == y.value(),
    ensures
        x.digits@ == y.digits@,
        x.sign == y.sign,
{
    assert(x.mag() == y.mag());
    if x.digits@.len() > y.digits@.len() {
        lemma_trimmed_length_order(x.digits@, y.digits@);
    } else if x.digits@.len() < y.digits@.len() {
        lemma_trimmed_length_order(y.digits@, x.digits@);
    }
    lemma_digits_unique(x.digits@, y.digits@);
}

/// Rendering a parsed number gives decimal text of the same value, and it parses back to it.
pub proof fn law_render_parse_round_trip(s: Seq<char>, n: BigNumber)
    requires
        is_decimal_text(s),
        n.wf(),
        n.value() == decimal_value(s),
    ensures
        is_decimal_text(n.rendered()),
        decimal_value(n.rendered()) == decimal_value(s),
{
    let r = n.rendered();
    let len = n.digits@.len();
    let body = Seq::new(len, |i: int| digit_char(n.digits@[len - 1 - i]));
    assert(len >= 1);
    assert(digit_char(n.digits@[len - 1]) != '-');
    assert(unsigned_part(r) =~= body);
    assert forall|i: int| 0 <= i < len implies #[trigger] digit_char(n.digits@[i]) as u32 - '0' as u32
        == n.digits@[i] by {
        assert(n.digits@[i] < 10);
    }
    assert(chars_to_digits(body) =~= n.digits@) by {
        assert forall|i: int| 0 <= i < len implies chars_to_digits(body)[i] == n.digits@[i] by {
            assert(body[len - 1 - i] == digit_char(n.digits@[i]));
        }
    }
    assert forall|i: int| 0 <= i < unsigned_part(r).len() implies crate::number::is_digit_char(
        #[trigger] unsigned_part(r)[i],
    ) by {
        assert(n.digits@[len - 1 - i] < 10);
    }
    assert(has_minus(r) == (n.sign == Sign::Negative));
}

/// Addition is commutative: `a + b` and `b + a` give the same representation.
pub proof fn law_add_commutative(a: BigNumber, b: BigNumber, ab: BigNumber, ba: BigNumber)
    requires
        a.wf(),
        b.wf(),
        ab.wf(),
        ba.wf(),
        ab.value() == a.value() + b.value(),
        ba.value() == b.value() + a.value(),
    ensures
        ab.digits@ == ba.digits@,
        ab.sign == ba.sign,
{
    lemma_canonical(ab, ba);
}

/// Multiplication is commutative: `a * b` and `b * a` give the same representation.
pub proof fn law_multiply_commutative(a: BigNumber, b: BigNumber, ab: BigNumber, ba: BigNumber)
    requires
        a.wf(),
        b.wf(),
        ab.wf(),
        ba.wf(),
        ab.value() == a.value() * b.value(),
        ba.value() == b.value() * a.value(),
    ensures
        ab.digits@ == ba.digits@,
        ab.sign == ba.sign,
{
    assert(a.value() * b.value() == b.value() * a.value()) by (nonlinear_arith);
    lemma_canonical(ab, ba);
}

/// Adding the negation of a number gives the canonical zero: the single digit `0`, signed `Positive`.
pub proof fn law_additive_inverse(a: BigNumber, neg: BigNumber, sum: BigNumber)
    requires
        a.wf(),
        neg.wf(),
        sum.wf(),
        neg.value() == -a.value(),
        sum.value() == a.value() + neg.value(),
    ensures
        sum.digits@ == seq![0u32],
        sum.sign == Sign::Positive,
        sum.value() == 0,
{
    lemma_trimmed_zero(sum.digits@);
}

/// Exactly one of `a < b`, `a == b` (same digits and sign), `a > b` holds, and the sign of
/// `a - b` tells which.
pub proof fn law_comparison_total(a: BigNumber, b: BigNumber, diff: BigNumber)
    requires
        a.wf(),
        b.wf(),
        diff.wf(),
        diff.value() == a.value() - b.value(),
    ensures
        ({
            let lt = a.value() < b.value();
            let eq = a.digits@ == b.digits@ && a.sign == b.sign;
            let gt = a.value() > b.value();
            &&& (lt || eq || gt)
            &&& !(lt && eq)
            &&& !(lt && gt)
            &&& !(eq && gt)
            &&& (lt <==> diff.sign == Sign::Negative)
            &&& (eq <==> diff.digits@ == seq![0u32])
            &&& (gt <==> (diff.sign == Sign::Positive && diff.digits@ != seq![0u32]))
        }),
{
    lemma_trimmed_zero(diff.digits@);
    if a.value() == b.value() {
        lemma_canonical(a, b);
    }
}

/// Quotient times divisor plus remainder gives back the dividend; for a non-negative dividend and
/// a positive divisor the remainder lies in `[0, b)`.
pub proof fn law_division_consistent(
    a: BigNumber,
    b: BigNumber,
    q: BigNumber,
    qb: BigNumber,
    rem: BigNumber,
    back: BigNumber,
)
    requires
        a.wf(),
        b.wf(),
        b.value() != 0,
        q.value() == trunc_div(a.value(), b.value()),
        qb.value() == q.value() * b.value(),
        rem.value() == a.value() - qb.value(),
        back.value() == qb.value() + rem.value(),
    ensures
        back.value() == a.value(),
        a.value() >= 0 && b.value() > 0 ==> 0 <= rem.value() < b.value(),
{
    if a.value() >= 0 && b.value() > 0 {
        lemma_fundamental_div_mod(a.value(), b.value());
        let x = a.value();
        let d = b.value();
        let qq = x / d;
        assert(q.value() == qq);
        assert(qq * d == d * qq) by (nonlinear_arith);
        assert(0 <= x % d < d);
    }
}

} // verus!
