//! Addition, subtraction and multiplication.
use vstd::prelude::*;
use crate::digits::{
    all_digits, digit_at, is_trimmed, lemma_pow10_add, lemma_prefix_val_past_end,
    lemma_trimmed_length_order, lemma_trimmed_zero, lemma_val_bound, lemma_val_push,
    lemma_val_update, pow10, prefix_val, val,
};
use crate::number::{BigNumber, Sign};

verus! {

/// One column of an addition: writing the new digit and passing on the new carry accounts for
/// the added amount and the old carry.
proof fn lemma_column_step(
    v: int,
    new_v: int,
    old_digit: int,
    new_digit: int,
    c: int,
    c2: int,
    add: int,
    p: int,
)
    requires
        new_v + old_digit * p == v + new_digit * p,
        new_digit + 10 * c2 == old_digit + add + c,
    ensures
        new_v + c2 * (10 * p) == v + c * p + add * p,
{
    assert(new_digit * p + c2 * (10 * p) == old_digit * p + add * p + c * p) by (nonlinear_arith)
        requires
            new_digit + 10 * c2 == old_digit + add + c,
    ;
}

impl BigNumber {
    /// A copy with the same digits and sign.
    pub fn duplicate(&self) -> (r: BigNumber)
        ensures
            r.digits@ == self.digits@,
            r.sign == self.sign,
    {
        let digits = self.digits.clone();
        assert(digits@ =~= self.digits@);
        BigNumber { digits, sign: self.sign }
    }

    /// Gives a zero magnitude the `Positive` sign.
    pub(crate) fn fix_zero_sign(&mut self)
        requires
            all_digits(old(self).digits@),
            is_trimmed(old(self).digits@),
        ensures
            final(self).wf(),
            final(self).digits@ == old(self).digits@,
            final(self).mag() > 0 ==> final(self).sign == old(self).sign,
            final(self).value() == (if old(self).sign == Sign::Negative {
                -(old(self).mag() as int)
            } else {
                old(self).mag() as int
            }),
    {
        proof {
            lemma_trimmed_zero(self.digits@);
        }
        if self.digits.len() == 1 && self.digits[0] == 0 {
            self.sign = Sign::Positive;
        }
    }

    /// Adds the other's magnitude to this one's; the sign is kept.
    pub fn _add(&mut self, other: &BigNumber)
        requires
            all_digits(old(self).digits@),
            all_digits(other.digits@),
        ensures
            final(self).mag() == old(self).mag() + other.mag(),
            all_digits(final(self).digits@),
            is_trimmed(final(self).digits@),
            final(self).sign == old(self).sign,
    {
        let max_len = if self.digits.len() > other.digits.len() {
            self.digits.len()
        } else {
            other.digits.len()
        };
        while self.digits.len() < max_len
            invariant
                self.digits@.len() <= max_len,
                all_digits(self.digits@),
                self.mag() == old(self).mag(),
                self.sign == old(self).sign,
            decreases max_len - self.digits@.len(),
        {
            proof {
                lemma_val_push(self.digits@, 0);
            }
            self.digits.push(0);
        }
        let ghost padded = self.digits@;
        let mut carry: u32 = 0;
        let mut i: usize = 0;
        proof {
            assert(pow10(0) == 1);
        }
        while i < max_len
            invariant
                i <= max_len,
                self.digits@.len() == max_len,
                other.digits@.len() <= max_len,
                all_digits(self.digits@),
                all_digits(other.digits@),
                carry <= 1,
                padded.len() == max_len,
                forall|k: int| i <= k < max_len ==> self.digits@[k] == padded[k],
                val(self.digits@) + carry * pow10(i as nat) == val(padded) + prefix_val(
                    other.digits@,
                    i as nat,
                ),
                val(padded) == old(self).mag(),
                self.sign == old(self).sign,
            decreases max_len - i,
        {
            let other_digit = if i < other.digits.len() {
                other.digits[i]
            } else {
                0
            };
            let sum = self.digits[i] + other_digit + carry;
            let ghost before = self.digits@;
            self.digits.set(i, sum % 10);
            proof {
                lemma_val_update(before, i as int, sum % 10);
                assert(pow10((i + 1) as nat) == 10 * pow10(i as nat));
                assert(other_digit == digit_at(other.digits@, i as int));
                assert(prefix_val(other.digits@, (i + 1) as nat) == prefix_val(other.digits@, i as nat)
                    + digit_at(other.digits@, i as int) * pow10(i as nat));
                lemma_column_step(
                    val(before) as int,
                    val(self.digits@) as int,
                    before[i as int] as int,
                    (sum % 10) as int,
                    carry as int,
                    (sum / 10) as int,
                    other_digit as int,
                    pow10(i as nat) as int,
                );
            }
            carry = sum / 10;
            i = i + 1;
        }
        proof {
            lemma_prefix_val_past_end(other.digits@, max_len as nat);
        }
        if carry > 0 {
            proof {
                lemma_val_push(self.digits@, carry);
            }
            self.digits.push(carry);
        }
        self.normalize();
    }

    /// Subtracts the other's magnitude from this one's, which must be at least as large.
    /// The sign is kept, except that a zero result is `Positive`.
    pub fn _subtract(&mut self, other: &BigNumber)
        requires
            all_digits(old(self).digits@),
            all_digits(other.digits@),
            old(self).mag() >= other.mag(),
        ensures
            final(self).mag() == old(self).mag() - other.mag(),
            final(self).wf(),
            final(self).mag() > 0 ==> final(self).sign == old(self).sign,
            final(self).mag() == 0 ==> final(self).sign == Sign::Positive,
    {
        while self.digits.len() < other.digits.len()
            invariant
                all_digits(self.digits@),
                self.mag() == old(self).mag(),
                self.sign == old(self).sign,
            decreases other.digits@.len() - self.digits@.len(),
        {
            proof {
                lemma_val_push(self.digits@, 0);
            }
            self.digits.push(0);
        }
        let ghost padded = self.digits@;
        proof {
            assert(pow10(0) == 1);
        }
        let n = self.digits.len();
        let mut borrow: u32 = 0;
        let mut i: usize = 0;
        while i < n
            invariant
                i <= n,
                self.digits@.len() == n,
                other.digits@.len() <= n,
                all_digits(self.digits@),
                all_digits(other.digits@),
                borrow <= 1,
                padded.len() == n,
                forall|k: int| i <= k < n ==> self.digits@[k] == padded[k],
                val(self.digits@) - borrow * pow10(i as nat) == old(self).mag() - prefix_val(
                    other.digits@,
                    i as nat,
                ),
                self.sign == old(self).sign,
            decreases n - i,
        {
            let other_digit = if i < other.digits.len() {
                other.digits[i]
            } else {
                0
            };
            let d = self.digits[i];
            let ghost before = self.digits@;
            let new_digit: u32;
            let new_borrow: u32;
            if d >= other_digit + borrow {
                new_digit = d - other_digit - borrow;
                new_borrow = 0;
            } else {
                new_digit = d + 10 - other_digit - borrow;
                new_borrow = 1;
            }
            self.digits.set(i, new_digit);
            proof {
                lemma_val_update(before, i as int, new_digit);
                assert(pow10((i + 1) as nat) == 10 * pow10(i as nat));
                assert(other_digit == digit_at(other.digits@, i as int));
                assert(prefix_val(other.digits@, (i + 1) as nat) == prefix_val(other.digits@, i as nat)
                    + digit_at(other.digits@, i as int) * pow10(i as nat));
                let p = pow10(i as nat) as int;
                assert(new_digit * p - new_borrow * (10 * p) == d * p - other_digit * p - borrow * p)
                    by (nonlinear_arith)
                    requires
                        new_digit - 10 * new_borrow == d - other_digit - borrow,
                ;
            }
            borrow = new_borrow;
            i = i + 1;
        }
        proof {
            lemma_prefix_val_past_end(other.digits@, n as nat);
            lemma_val_bound(self.digits@);
            if borrow == 1 {
                assert(val(self.digits@) - pow10(n as nat) < 0);
            }
            assert(borrow == 0);
        }
        self.normalize();
        self.fix_zero_sign();
    }

    /// The number with the opposite sign; zero stays `Positive`.
    pub fn negate(&self) -> (r: BigNumber)
        requires
            self.wf(),
        ensures
            r.wf(),
            r.value() == -self.value(),
    {
        let mut r = self.duplicate();
        r.sign = match self.sign {
            Sign::Positive => Sign::Negative,
            Sign::Negative => Sign::Positive,
        };
        r.fix_zero_sign();
        r
    }

    /// Signed addition in place.
    pub fn add(&mut self, other: &BigNumber)
        requires
            old(self).wf(),
            other.wf(),
        ensures
            final(self).wf(),
            final(self).value() == old(self).value() + other.value(),
    {
        if self.sign != other.sign {
            if self.is_greater_than_or_equal_to(other) {
                self._subtract(other);
            } else {
                let mut r = other.duplicate();
                r._subtract(self);
                *self = r;
            }
        } else {
            self._add(other);
        }
        self.fix_zero_sign();
    }

    /// Signed subtraction in place: adds the negated operand.
    pub fn subtract(&mut self, other: &BigNumber)
        requires
            old(self).wf(),
            other.wf(),
        ensures
            final(self).wf(),
            final(self).value() == old(self).value() - other.value(),
    {
        let negated = other.negate();
        self.add(&negated);
    }

    /// Multiplies the magnitude by a small non-negative integer; the sign is kept unless the result is zero.
    pub fn multiply_by_int(&mut self, other: u32)
        requires
            old(self).wf(),
        ensures
            final(self).wf(),
            final(self).value() == old(self).value() * other,
    {
        let k = other as u64;
        let n = self.digits.len();
        let mut carry: u64 = 0;
        let mut i: usize = 0;
        proof {
            assert(pow10(0) == 1);
            assert(prefix_val(old(self).digits@, 0) == 0);
        }
        while i < n
            invariant
                i <= n,
                k == other,
                self.digits@.len() == n,
                n == old(self).digits@.len(),
                all_digits(self.digits@),
                all_digits(old(self).digits@),
                carry <= k,
                forall|j: int| i <= j < n ==> self.digits@[j] == old(self).digits@[j],
                val(self.digits@) + carry * pow10(i as nat) + prefix_val(old(self).digits@, i as nat)
                    == old(self).mag() + k * prefix_val(old(self).digits@, i as nat),
                self.sign == old(self).sign,
            decreases n - i,
        {
            let d = self.digits[i] as u64;
            assert(d * k <= 9 * k) by (nonlinear_arith)
                requires
                    d <= 9,
            ;
            let product = d * k + carry;
            let ghost before = self.digits@;
            self.digits.set(i, (product % 10) as u32);
            proof {
                lemma_val_update(before, i as int, (product % 10) as u32);
                assert(pow10((i + 1) as nat) == 10 * pow10(i as nat));
                let p = pow10(i as nat) as int;
                let pv = prefix_val(old(self).digits@, i as nat) as int;
                assert(digit_at(old(self).digits@, i as int) == d);
                assert(prefix_val(old(self).digits@, (i + 1) as nat) == pv + d * p);
                assert((product % 10) * p + (product / 10) * (10 * p) == (d * k) * p + carry * p)
                    by (nonlinear_arith)
                    requires
                        product == (product % 10) + 10 * (product / 10),
                        product == d * k + carry,
                ;
                assert(k * (pv + d * p) == k * pv + (d * k) * p) by (nonlinear_arith);
            }
            carry = product / 10;
            i = i + 1;
        }
        proof {
            lemma_prefix_val_past_end(old(self).digits@, n as nat);
            let m = old(self).mag() as int;
            assert(k * m == m * k) by (nonlinear_arith);
        }
        while carry > 0
            invariant
                all_digits(self.digits@),
                val(self.digits@) + carry * pow10(self.digits@.len()) == old(self).mag() * k,
                self.sign == old(self).sign,
                self.digits@.len() >= 1,
            decreases carry,
        {
            let ghost before = self.digits@;
            let ghost p = pow10(before.len());
            proof {
                lemma_val_push(before, (carry % 10) as u32);
                assert(pow10((before.len() + 1) as nat) == 10 * p);
                assert((carry / 10) * (10 * p) + (carry % 10) * p == carry * p) by (nonlinear_arith)
                    requires
                        carry == (carry % 10) + 10 * (carry / 10),
                ;
            }
            self.digits.push((carry % 10) as u32);
            carry = carry / 10;
        }
        self.normalize();
        self.fix_zero_sign();
        proof {
            let m = old(self).mag() as int;
            let kk = k as int;
            assert(-m * kk == -(m * kk)) by (nonlinear_arith);
        }
    }

    /// Signed schoolbook multiplication.
    pub fn multiply(&self, other: &BigNumber) -> (r: BigNumber)
        requires
            self.wf(),
            other.wf(),
            self.digits@.len() + other.digits@.len() <= usize::MAX,
        ensures
            r.wf(),
            r.value() == self.value() * other.value(),
    {
        let la = self.digits.len();
        let lb = other.digits.len();
        let total = la + lb;
        let mut digits: Vec<u32> = Vec::new();
        while digits.len() < total
            invariant
                digits@.len() <= total,
                forall|k: int| 0 <= k < digits@.len() ==> digits@[k] == 0,
                val(digits@) == 0,
            decreases total - digits@.len(),
        {
            proof {
                lemma_val_push(digits@, 0);
            }
            digits.push(0);
        }
        let ghost vb = other.mag() as int;
        proof {
            assert(prefix_val(self.digits@, 0) == 0);
        }
        let mut i: usize = 0;
        while i < la
            invariant
                i <= la,
                la == self.digits@.len(),
                lb == other.digits@.len(),
                total == la + lb,
                vb == other.mag(),
                self.wf(),
                other.wf(),
                digits@.len() == total,
                all_digits(digits@),
                forall|k: int| i + lb <= k < total ==> digits@[k] == 0,
                val(digits@) == prefix_val(self.digits@, i as nat) * vb,
            decreases la - i,
        {
            let a = self.digits[i];
            let ghost pi = pow10(i as nat) as int;
            let ghost base = prefix_val(self.digits@, i as nat) * vb;
            let mut carry: u32 = 0;
            let mut j: usize = 0;
            proof {
                assert(pow10(0) == 1);
                assert(prefix_val(other.digits@, 0) == 0);
                assert(pi * 1 == pi);
            }
            while j < lb
                invariant
                    i < la,
                    j <= lb,
                    la == self.digits@.len(),
                    lb == other.digits@.len(),
                    total == la + lb,
                    a == self.digits@[i as int],
                    a < 10,
                    other.wf(),
                    pi == pow10(i as nat),
                    digits@.len() == total,
                    all_digits(digits@),
                    carry <= 9,
                    forall|k: int| i + lb <= k < total ==> digits@[k] == 0,
                    val(digits@) + carry * pow10((i + j) as nat) == base + a * prefix_val(
                        other.digits@,
                        j as nat,
                    ) * pi,
                decreases lb - j,
            {
                let b = other.digits[j];
                let cell = digits[i + j];
                assert(a * b <= 81) by (nonlinear_arith)
                    requires
                        a < 10,
                        b < 10,
                ;
                let product = a * b + cell + carry;
                let ghost before = digits@;
                digits.set(i + j, product % 10);
                proof {
                    lemma_val_update(before, (i + j) as int, product % 10);
                    lemma_pow10_add(i as nat, j as nat);
                    let p = pow10((i + j) as nat) as int;
                    assert(pow10((i + j + 1) as nat) == 10 * p);
                    let pj = pow10(j as nat) as int;
                    let pvb = prefix_val(other.digits@, j as nat) as int;
                    assert(b == digit_at(other.digits@, j as int));
                    assert(prefix_val(other.digits@, (j + 1) as nat) == pvb + b * pj);
                    lemma_column_step(
                        val(before) as int,
                        val(digits@) as int,
                        cell as int,
                        (product % 10) as int,
                        carry as int,
                        (product / 10) as int,
                        (a * b) as int,
                        p,
                    );
                    assert(a * (pvb + b * pj) * pi == a * pvb * pi + (a * b) * (pi * pj))
                        by (nonlinear_arith);
                    assert(p == pi * pj);
                    assert(val(digits@) + cell * p == val(before) + (product % 10) * p);
                    assert(val(before) + carry * p == base + a * pvb * pi);
                    assert(val(digits@) + (product / 10) * (10 * p) == base + a * pvb * pi + (a * b)
                        * p);
                }
                carry = product / 10;
                j = j + 1;
            }
            let ghost before = digits@;
            digits.set(i + lb, carry);
            proof {
                lemma_val_update(before, (i + lb) as int, carry);
                lemma_prefix_val_past_end(other.digits@, lb as nat);
                assert(before[(i + lb) as int] == 0);
                assert(digits@ == before.update((i + lb) as int, carry));
                let m = (i + lb) as int;
                assert(val(digits@) + before[m] * pow10(m as nat) == val(before) + carry * pow10(
                    m as nat,
                ));
                assert(digit_at(self.digits@, i as int) == a);
                let w = pow10(m as nat) as int;
                let z = before[m] as int;
                assert(z * w == 0) by (nonlinear_arith)
                    requires
                        z == 0,
                ;
                assert(val(digits@) == val(before) + carry * pow10((i + lb) as nat));
                let pv = prefix_val(self.digits@, i as nat) as int;
                assert(prefix_val(self.digits@, (i + 1) as nat) == pv + a * pi);
                assert((pv + a * pi) * vb == pv * vb + a * vb * pi) by (nonlinear_arith);
            }
            i = i + 1;
        }
        proof {
            lemma_prefix_val_past_end(self.digits@, la as nat);
        }
        let sign = if self.sign == other.sign {
            Sign::Positive
        } else {
            Sign::Negative
        };
        let mut r = BigNumber { digits, sign };
        r.normalize();
        r.fix_zero_sign();
        proof {
            let x = self.mag() as int;
            let y = other.mag() as int;
            assert((-x) * (-y) == x * y) by (nonlinear_arith);
            assert((-x) * y == -(x * y)) by (nonlinear_arith);
            assert(x * (-y) == -(x * y)) by (nonlinear_arith);
        }
        r
    }
}

} // verus!
