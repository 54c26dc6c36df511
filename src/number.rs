//! The signed big-number type: construction, normalization, comparison and digit shifts.
use vstd::prelude::*;
use vstd::arithmetic::div_mod::lemma_div_denominator;
use vstd::arithmetic::div_mod::lemma_fundamental_div_mod_converse;
use crate::digits::{
    all_digits, digit_at, is_trimmed, lemma_prefix_val_agree, lemma_prefix_val_bound,
    lemma_trimmed_length_order, lemma_trimmed_zero, lemma_val_drop_last_zero, lemma_val_first,
    lemma_val_push, lemma_pow10_positive, pow10, prefix_val, val,
};

verus! {

/// The sign of a number; zero is stored as `Positive`.
#[derive(Debug, Clone, Copy, PartialEq, Eq, Structural)]
pub enum Sign {
    Positive,
    Negative,
}

/// The two ways an operation can fail.
#[derive(Debug, Clone, Copy, PartialEq, Eq, Structural)]
pub enum BigNumberError {
    InvalidFormat,
    DivisionByZero,
}

/// A signed integer of unbounded magnitude: decimal digits, least significant first, and a sign.
#[derive(Debug, Clone)]
pub struct BigNumber {
    pub digits: Vec<u32>,
    pub sign: Sign,
}

/// The value of the characters `'0'..='9'`, most significant first, as a little-endian digit sequence.
pub open spec fn chars_to_digits(s: Seq<char>) -> Seq<u32> {
    Seq::new(s.len(), |i: int| (s[s.len() - 1 - i] as u32 - '0' as u32) as u32)
}

pub open spec fn is_digit_char(c: char) -> bool {
    '0' <= c && c <= '9'
}

pub open spec fn has_minus(s: Seq<char>) -> bool {
    s.len() > 0 && s[0] == '-'
}

/// The characters after the optional leading minus sign.
pub open spec fn unsigned_part(s: Seq<char>) -> Seq<char> {
    if has_minus(s) {
        s.drop_first()
    } else {
        s
    }
}

/// An optional `-` followed by one or more decimal digits.
pub open spec fn is_decimal_text(s: Seq<char>) -> bool {
    &&& unsigned_part(s).len() >= 1
    &&& forall|i: int| 0 <= i < unsigned_part(s).len() ==> is_digit_char(#[trigger] unsigned_part(s)[i])
}

/// The integer that decimal text denotes.
pub open spec fn decimal_value(s: Seq<char>) -> int {
    let m = val(chars_to_digits(unsigned_part(s))) as int;
    if has_minus(s) {
        -m
    } else {
        m
    }
}

/// The character of a decimal digit.
pub open spec fn digit_char(d: u32) -> char {
    if d == 0 {
        '0'
    } else if d == 1 {
        '1'
    } else if d == 2 {
        '2'
    } else if d == 3 {
        '3'
    } else if d == 4 {
        '4'
    } else if d == 5 {
        '5'
    } else if d == 6 {
        '6'
    } else if d == 7 {
        '7'
    } else if d == 8 {
        '8'
    } else {
        '9'
    }
}

fn digit_to_char(d: u32) -> (c: char)
    ensures
        c == digit_char(d),
{
    if d == 0 {
        '0'
    } else if d == 1 {
        '1'
    } else if d == 2 {
        '2'
    } else if d == 3 {
        '3'
    } else if d == 4 {
        '4'
    } else if d == 5 {
        '5'
    } else if d == 6 {
        '6'
    } else if d == 7 {
        '7'
    } else if d == 8 {
        '8'
    } else {
        '9'
    }
}

impl BigNumber {
    /// Canonical decimal text: `-` for a negative value, then the digits, most significant first.
    pub open spec fn rendered(&self) -> Seq<char> {
        let body = Seq::new(
            self.digits@.len(),
            |i: int| digit_char(self.digits@[self.digits@.len() - 1 - i]),
        );
        if self.sign == Sign::Negative {
            seq!['-'] + body
        } else {
            body
        }
    }

    /// The magnitude.
    pub open spec fn mag(&self) -> nat {
        val(self.digits@)
    }

    /// The signed value.
    pub open spec fn value(&self) -> int {
        if self.sign == Sign::Negative {
            -(self.mag() as int)
        } else {
            self.mag() as int
        }
    }

    /// Decimal digits, no redundant most-significant zeros, and zero signed `Positive`.
    pub open spec fn wf(&self) -> bool {
        &&& all_digits(self.digits@)
        &&& is_trimmed(self.digits@)
        &&& (self.mag() == 0 ==> self.sign == Sign::Positive)
    }
}

/// Exchanges the signs of two numbers, leaving their digits in place.
pub fn swap_sign_with_other(a: &mut BigNumber, b: &mut BigNumber)
    ensures
        final(a).sign == old(b).sign,
        final(b).sign == old(a).sign,
        final(a).digits@ == old(a).digits@,
        final(b).digits@ == old(b).digits@,
{
    let temp_sign = a.sign;
    a.sign = b.sign;
    b.sign = temp_sign;
}

/// Removing the lowest digit divides the value by ten.
proof fn lemma_val_drop_first(s: Seq<u32>)
    requires
        s.len() >= 1,
        all_digits(s),
    ensures
        val(s.drop_first()) == val(s) / 10,
        all_digits(s.drop_first()),
{
    lemma_val_first(s);
    lemma_fundamental_div_mod_converse(val(s) as int, 10, val(s.drop_first()) as int, s[0] as int);
}

/// Equal sequences above position `i` and a larger digit at `i - 1` give the larger value.
proof fn lemma_top_difference(a: Seq<u32>, b: Seq<u32>, i: nat)
    requires
        all_digits(a),
        all_digits(b),
        a.len() == b.len(),
        1 <= i <= a.len(),
        a[i - 1] > b[i - 1],
        forall|k: int| i <= k < a.len() ==> a[k] == b[k],
    ensures
        val(a) > val(b),
    decreases a.len() - i,
{
    if i == a.len() {
        let m = (i - 1) as nat;
        lemma_prefix_val_agree(a, b, 0);
        lemma_prefix_val_bound(b, m);
        let da = a[m as int] as int;
        let db = b[m as int] as int;
        let p = pow10(m) as int;
        assert(da * p >= db * p + p) by (nonlinear_arith)
            requires
                da >= db + 1,
                p >= 0,
        ;
        assert(digit_at(a, m as int) == da);
        assert(digit_at(b, m as int) == db);
        assert(val(a) == prefix_val(a, i));
        assert(val(b) == prefix_val(b, i));
        assert(prefix_val(a, i) == prefix_val(a, m) + da * p);
        assert(prefix_val(b, i) == prefix_val(b, m) + db * p);
    } else {
        let ghost a2 = a.drop_last();
        let ghost b2 = b.drop_last();
        lemma_top_difference(a2, b2, i);
        let n = (a.len() - 1) as nat;
        lemma_prefix_val_agree(a, a2, n);
        lemma_prefix_val_agree(b, b2, n);
        assert(prefix_val(a, a.len()) == prefix_val(a, n) + digit_at(a, n as int) * pow10(n));
        assert(prefix_val(b, b.len()) == prefix_val(b, n) + digit_at(b, n as int) * pow10(n));
    }
}

impl BigNumber {
    /// Makes the number non-negative.
    pub fn make_abs(&mut self)
        ensures
            final(self).digits@ == old(self).digits@,
            final(self).sign == Sign::Positive,
    {
        self.sign = Sign::Positive;
    }

    /// Multiplies the magnitude by `10^n` by inserting `n` zero digits at the low end.
    pub fn shift_left(&mut self, n: usize)
        ensures
            final(self).digits@ == Seq::new(n as nat, |i: int| 0u32) + old(self).digits@,
            final(self).mag() == old(self).mag() * pow10(n as nat),
            final(self).sign == old(self).sign,
            all_digits(old(self).digits@) ==> all_digits(final(self).digits@),
            old(self).wf() && old(self).mag() > 0 ==> final(self).wf() && final(self).mag() > 0,
    {
        proof {
            if old(self).wf() && old(self).mag() > 0 {
                lemma_trimmed_zero(old(self).digits@);
                lemma_pow10_positive(n as nat);
                let x = old(self).mag() as int;
                let p = pow10(n as nat) as int;
                assert(x * p >= 1) by (nonlinear_arith)
                    requires
                        x >= 1,
                        p >= 1,
                ;
            }
        }
        let mut i: usize = 0;
        proof {
            assert(pow10(0) == 1);
            assert(self.digits@ =~= Seq::new(0, |k: int| 0u32) + old(self).digits@);
        }
        while i < n
            invariant
                i <= n,
                self.digits@ == Seq::new(i as nat, |k: int| 0u32) + old(self).digits@,
                self.mag() == old(self).mag() * pow10(i as nat),
                self.sign == old(self).sign,
            decreases n - i,
        {
            let ghost before = self.digits@;
            self.digits.insert(0, 0);
            proof {
                assert(self.digits@.drop_first() =~= before);
                lemma_val_first(self.digits@);
                let x = old(self).mag() as int;
                let p = pow10(i as nat) as int;
                assert(10 * (x * p) == x * (10 * p)) by (nonlinear_arith);
                assert(pow10((i + 1) as nat) == 10 * pow10(i as nat));
            }
            i = i + 1;
            assert(self.digits@ =~= Seq::new(i as nat, |k: int| 0u32) + old(self).digits@);
        }
    }

    /// Divides the magnitude by `10^n`, discarding the lowest digits; an emptied number becomes `0`.
    pub fn shift_right(&mut self, n: usize)
        requires
            all_digits(old(self).digits@),
        ensures
            final(self).digits@ == (if n < old(self).digits@.len() {
                old(self).digits@.skip(n as int)
            } else {
                seq![0u32]
            }),
            final(self).mag() == old(self).mag() / pow10(n as nat),
            final(self).sign == old(self).sign,
            all_digits(final(self).digits@),
            is_trimmed(old(self).digits@) ==> is_trimmed(final(self).digits@),
    {
        let mut i: usize = 0;
        proof {
            assert(pow10(0) == 1);
            assert(old(self).digits@.skip(0) =~= old(self).digits@);
        }
        while i < n
            invariant
                i <= n,
                all_digits(self.digits@),
                self.mag() == old(self).mag() / pow10(i as nat),
                self.sign == old(self).sign,
                self.digits@.len() > 0 ==> self.digits@.last() == old(self).digits@.last()
                    && self.digits@.len() <= old(self).digits@.len(),
                self.digits@ == (if i <= old(self).digits@.len() {
                    old(self).digits@.skip(i as int)
                } else {
                    Seq::<u32>::empty()
                }),
            decreases n - i,
        {
            proof {
                lemma_pow10_positive(i as nat);
                lemma_div_denominator(old(self).mag() as int, pow10(i as nat) as int, 10);
                assert(pow10((i + 1) as nat) == pow10(i as nat) * 10);
            }
            if !self.digits.is_empty() {
                let ghost before = self.digits@;
                self.digits.remove(0);
                proof {
                    assert(self.digits@ =~= before.drop_first());
                    lemma_val_drop_first(before);
                    if i + 1 <= old(self).digits@.len() {
                        assert(self.digits@ =~= old(self).digits@.skip(i + 1));
                    } else {
                        assert(self.digits@ =~= Seq::<u32>::empty());
                    }
                }
            } else {
                proof {
                    assert(self.digits@ =~= Seq::<u32>::empty());
                    if i + 1 <= old(self).digits@.len() {
                        assert(old(self).digits@.skip(i + 1) =~= Seq::<u32>::empty());
                    }
                }
            }
            i = i + 1;
        }
        if self.digits.is_empty() {
            self.digits.push(0);
            proof {
                assert(self.digits@ =~= seq![0u32]);
                lemma_val_push(Seq::<u32>::empty(), 0);
                assert(Seq::<u32>::empty().push(0) =~= seq![0u32]);
            }
        }
    }

    /// Exchanges the digits of two numbers, leaving their signs in place.
    pub fn swap_digits(&mut self, other: &mut BigNumber)
        ensures
            final(self).digits@ == old(other).digits@,
            final(other).digits@ == old(self).digits@,
            final(self).sign == old(self).sign,
            final(other).sign == old(other).sign,
    {
        std::mem::swap(&mut self.digits, &mut other.digits);
    }

    /// Drops zero digits at the most significant end, keeping at least one digit.
    pub fn normalize(&mut self)
        requires
            all_digits(old(self).digits@),
        ensures
            all_digits(final(self).digits@),
            is_trimmed(final(self).digits@),
            final(self).mag() == old(self).mag(),
            final(self).sign == old(self).sign,
            is_trimmed(old(self).digits@) ==> final(self).digits@ == old(self).digits@,
    {
        while self.digits.len() > 1 && self.digits[self.digits.len() - 1] == 0
            invariant
                all_digits(self.digits@),
                self.mag() == old(self).mag(),
                self.sign == old(self).sign,
                is_trimmed(old(self).digits@) ==> self.digits@ == old(self).digits@,
            decreases self.digits@.len(),
        {
            let ghost before = self.digits@;
            self.digits.pop();
            proof {
                lemma_val_drop_last_zero(before);
                assert(self.digits@ =~= before.drop_last());
            }
        }
        if self.digits.len() == 0 {
            self.digits.push(0);
            proof {
                lemma_val_push(Seq::<u32>::empty(), 0);
                assert(self.digits@ =~= Seq::<u32>::empty().push(0));
            }
        }
    }

    /// Parses an optional `-` followed by one or more decimal digits.
    pub fn from_string(input: &str) -> (r: Result<BigNumber, BigNumberError>)
        ensures
            r is Ok <==> is_decimal_text(input@),
            r matches Ok(n) ==> n.wf() && n.value() == decimal_value(input@),
            r matches Err(e) ==> e == BigNumberError::InvalidFormat,
    {
        let len = input.unicode_len();
        let negative = len > 0 && input.get_char(0) == '-';
        let start: usize = if negative {
            1
        } else {
            0
        };
        let ghost body = unsigned_part(input@);
        assert(body =~= input@.subrange(start as int, len as int));
        if len == start {
            return Err(BigNumberError::InvalidFormat);
        }
        let mut digits: Vec<u32> = Vec::new();
        let mut i: usize = len;
        while i > start
            invariant
                start <= i <= len,
                len == input@.len(),
                body == input@.subrange(start as int, len as int),
                body == unsigned_part(input@),
                digits@ =~= chars_to_digits(body).subrange(0, (len - i) as int),
                forall|k: int| i <= k < len ==> is_digit_char(#[trigger] input@[k]),
                all_digits(digits@),
            decreases i,
        {
            let c = input.get_char(i - 1);
            if c < '0' || c > '9' {
                assert(!is_digit_char(body[i - 1 - start]));
                return Err(BigNumberError::InvalidFormat);
            }
            digits.push((c as u32) - ('0' as u32));
            i = i - 1;
        }
        assert(digits@ =~= chars_to_digits(body));
        assert forall|k: int| 0 <= k < body.len() implies is_digit_char(#[trigger] body[k]) by {
            assert(body[k] == input@[k + start]);
        }
        let mut n = BigNumber { digits, sign: Sign::Positive };
        n.normalize();
        if negative && !n.is_zero() {
            n.sign = Sign::Negative;
        }
        Ok(n)
    }

    /// The canonical decimal text of the number.
    pub fn render(&self) -> (r: Vec<char>)
        ensures
            r@ == self.rendered(),
    {
        let mut out: Vec<char> = Vec::new();
        if self.sign == Sign::Negative {
            out.push('-');
        }
        let ghost prefix = out@;
        let n = self.digits.len();
        let mut i: usize = n;
        while i > 0
            invariant
                i <= n,
                n == self.digits@.len(),
                prefix == (if self.sign == Sign::Negative {
                    seq!['-']
                } else {
                    Seq::<char>::empty()
                }),
                out@ == prefix + Seq::new(
                    (n - i) as nat,
                    |k: int| digit_char(self.digits@[n - 1 - k]),
                ),
            decreases i,
        {
            let c = digit_to_char(self.digits[i - 1]);
            out.push(c);
            i = i - 1;
            assert(out@ =~= prefix + Seq::new(
                (n - i) as nat,
                |k: int| digit_char(self.digits@[n - 1 - k]),
            ));
        }
        assert(out@ =~= self.rendered());
        out
    }

    /// Whether the magnitude is at least the other's.
    pub fn is_greater_than_or_equal_to(&self, other: &BigNumber) -> (r: bool)
        requires
            self.wf(),
            other.wf(),
        ensures
            r == (self.mag() >= other.mag()),
    {
        if self.digits.len() > other.digits.len() {
            proof {
                lemma_trimmed_length_order(self.digits@, other.digits@);
            }
            return true;
        } else if self.digits.len() < other.digits.len() {
            proof {
                lemma_trimmed_length_order(other.digits@, self.digits@);
            }
            return false;
        }
        let mut i: usize = self.digits.len();
        while i > 0
            invariant
                i <= self.digits@.len(),
                self.wf(),
                other.wf(),
                self.digits@.len() == other.digits@.len(),
                forall|k: int| i <= k < self.digits@.len() ==> self.digits@[k] == other.digits@[k],
            decreases i,
        {
            if self.digits[i - 1] > other.digits[i - 1] {
                proof {
                    lemma_top_difference(self.digits@, other.digits@, i as nat);
                }
                return true;
            } else if self.digits[i - 1] < other.digits[i - 1] {
                proof {
                    lemma_top_difference(other.digits@, self.digits@, i as nat);
                }
                return false;
            }
            i = i - 1;
        }
        proof {
            lemma_prefix_val_agree(self.digits@, other.digits@, self.digits@.len());
        }
        true
    }

    /// Whether the number is zero.
    pub fn is_zero(&self) -> (r: bool)
        requires
            self.wf(),
        ensures
            r == (self.value() == 0),
    {
        proof {
            lemma_trimmed_zero(self.digits@);
        }
        self.digits.len() == 1 && self.digits[0] == 0
    }

    /// Whether the sign is `Positive` (zero included).
    pub fn is_positive(&self) -> (r: bool)
        ensures
            r == (self.sign == Sign::Positive),
            self.wf() ==> (r == (self.value() >= 0)),
    {
        self.sign == Sign::Positive
    }

    /// Whether the sign is `Negative`.
    pub fn is_negative(&self) -> (r: bool)
        ensures
            r == (self.sign == Sign::Negative),
            self.wf() ==> (r == (self.value() < 0)),
    {
        self.sign == Sign::Negative
    }

    /// Signed `self <= other`.
    pub fn is_less_than_or_equal_to(&self, other: &BigNumber) -> (r: bool)
        requires
            self.wf(),
            other.wf(),
        ensures
            r == (self.value() <= other.value()),
    {
        if self.is_negative() && other.is_positive() {
            return true;
        } else if self.is_positive() && other.is_negative() {
            return false;
        }
        if self.is_positive() {
            other.is_greater_than_or_equal_to(self)
        } else {
            self.is_greater_than_or_equal_to(other)
        }
    }

    /// Signed `self < other`.
    pub fn is_less_than(&self, other: &BigNumber) -> (r: bool)
        requires
            self.wf(),
            other.wf(),
        ensures
            r == (self.value() < other.value()),
    {
        if self.sign != other.sign {
            return self.sign == Sign::Negative;
        }
        if self.is_positive() {
            !self.is_greater_than_or_equal_to(other)
        } else {
            !other.is_greater_than_or_equal_to(self)
        }
    }
}

} // verus!
