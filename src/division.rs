//! Division, divisibility, integer square root and primality.
use vstd::prelude::*;
use vstd::arithmetic::div_mod::lemma_fundamental_div_mod_converse;
use crate::digits::{lemma_pow10_positive, lemma_trimmed_zero, lemma_val_single, pow10};
use crate::number::{BigNumber, BigNumberError, Sign};

verus! {

/// Division that rounds toward zero.
pub open spec fn trunc_div(a: int, b: int) -> int {
    let q = (abs(a) / abs(b)) as int;
    if (a < 0) != (b < 0) {
        -q
    } else {
        q
    }
}

pub open spec fn abs(a: int) -> nat {
    if a < 0 {
        (-a) as nat
    } else {
        a as nat
    }
}

/// `n` has no divisor strictly between one and itself.
pub open spec fn is_prime_nat(n: nat) -> bool {
    &&& n > 1
    &&& forall|d: nat| 2 <= d < n ==> #[trigger] (n % d) != 0
}

/// For a positive `c`, `c * c <= x` exactly when `x / c >= c`.
proof fn lemma_square_le_iff_div(x: nat, c: nat)
    requires
        c > 0,
    ensures
        (c * c <= x) == (x / c >= c),
{
    let q = x / c;
    let r = x % c;
    assert(x == q * c + r && 0 <= r < c) by {
        vstd::arithmetic::div_mod::lemma_fundamental_div_mod(x as int, c as int);
    }
    if q >= c {
        assert(q * c >= c * c) by (nonlinear_arith)
            requires
                q >= c,
                c > 0,
        ;
    } else {
        assert(q * c + r < c * c) by (nonlinear_arith)
            requires
                q < c,
                r < c,
                c > 0,
        ;
    }
}

/// A composite number has a divisor whose square does not exceed it.
proof fn lemma_small_factor(n: nat, d: nat) -> (e: nat)
    requires
        2 <= d < n,
        n % d == 0,
    ensures
        2 <= e,
        e * e <= n,
        n % e == 0,
{
    let q = n / d;
    vstd::arithmetic::div_mod::lemma_fundamental_div_mod(n as int, d as int);
    assert(n == d * q);
    assert(q >= 2) by (nonlinear_arith)
        requires
            n == d * q,
            d < n,
            d >= 2,
    ;
    if d * d <= n {
        d
    } else {
        assert(q * q <= n) by (nonlinear_arith)
            requires
                n == d * q,
                d * d > n,
                q >= 0,
        ;
        lemma_fundamental_div_mod_converse(n as int, q as int, d as int, 0);
        q
    }
}

impl BigNumber {
    /// A single-digit number.
    pub fn from_digit(d: u32) -> (r: BigNumber)
        requires
            d < 10,
        ensures
            r.wf(),
            r.value() == d,
    {
        let mut digits: Vec<u32> = Vec::new();
        digits.push(d);
        proof {
            lemma_val_single(digits@);
        }
        BigNumber { digits, sign: Sign::Positive }
    }

    /// Magnitude quotient and remainder by repeated subtraction of the divisor scaled by powers of ten.
    fn divide_magnitudes(&self, divisor: &BigNumber) -> (r: (BigNumber, BigNumber))
        requires
            self.wf(),
            divisor.wf(),
            divisor.mag() > 0,
        ensures
            r.0.wf(),
            r.1.wf(),
            r.0.sign == Sign::Positive,
            r.1.sign == Sign::Positive,
            r.0.mag() == self.mag() / divisor.mag(),
            r.1.mag() == self.mag() % divisor.mag(),
    {
        let ghost d = divisor.mag();
        let mut abs_divisor = divisor.duplicate();
        abs_divisor.make_abs();
        let mut quotient = BigNumber::from_digit(0);
        let mut remainder = self.duplicate();
        remainder.make_abs();
        while remainder.is_greater_than_or_equal_to(&abs_divisor)
            invariant
                abs_divisor.wf(),
                abs_divisor.mag() == d,
                d > 0,
                abs_divisor.sign == Sign::Positive,
                quotient.wf(),
                quotient.sign == Sign::Positive,
                remainder.wf(),
                remainder.sign == Sign::Positive,
                self.mag() == quotient.mag() * d + remainder.mag(),
            decreases remainder.mag(),
        {
            let mut count = BigNumber::from_digit(1);
            let mut scaled = abs_divisor.duplicate();
            let ghost mut k: nat = 0;
            proof {
                assert(pow10(0) == 1);
            }
            while scaled.is_less_than_or_equal_to(&remainder)
                invariant
                    d > 0,
                    remainder.wf(),
                    remainder.sign == Sign::Positive,
                    d <= remainder.mag(),
                    scaled.wf(),
                    scaled.sign == Sign::Positive,
                    count.wf(),
                    count.sign == Sign::Positive,
                    scaled.mag() == d * pow10(k),
                    count.mag() == pow10(k),
                    scaled.mag() <= 10 * remainder.mag(),
                    k >= 1 ==> d * pow10((k - 1) as nat) <= remainder.mag(),
                decreases 10 * remainder.mag() - scaled.mag(),
            {
                proof {
                    lemma_pow10_positive(k);
                    assert(d * pow10(k) >= 1) by (nonlinear_arith)
                        requires
                            d >= 1,
                            pow10(k) >= 1,
                    ;
                    assert(d * (pow10(k) * 10) == (d * pow10(k)) * 10) by (nonlinear_arith);
                    assert(pow10(k + 1) == 10 * pow10(k));
                    assert(pow10(1) == 10 * pow10(0));
                }
                scaled.shift_left(1);
                count.shift_left(1);
                proof {
                    k = k + 1;
                }
            }
            let ghost pk = pow10((k - 1) as nat);
            proof {
                lemma_pow10_positive((k - 1) as nat);
                assert(pow10(k) == 10 * pk);
                assert(pow10(1) == 10 * pow10(0));
                assert(d * pow10(k) == (d * pk) * 10) by (nonlinear_arith)
                    requires
                        pow10(k) == 10 * pk,
                ;
                lemma_fundamental_div_mod_converse((d * pow10(k)) as int, 10, (d * pk) as int, 0);
                lemma_fundamental_div_mod_converse(pow10(k) as int, 10, pk as int, 0);
                assert(d * pk >= 1) by (nonlinear_arith)
                    requires
                        d >= 1,
                        pk >= 1,
                ;
            }
            scaled.shift_right(1);
            count.shift_right(1);
            proof {
                lemma_trimmed_zero(scaled.digits@);
                lemma_trimmed_zero(count.digits@);
            }
            remainder._subtract(&scaled);
            quotient._add(&count);
            proof {
                lemma_trimmed_zero(remainder.digits@);
                lemma_trimmed_zero(quotient.digits@);
                let q = quotient.mag() as int;
                assert((q - pk) * d + d * pk == q * d) by (nonlinear_arith);
            }
        }
        proof {
            lemma_fundamental_div_mod_converse(
                self.mag() as int,
                d as int,
                quotient.mag() as int,
                remainder.mag() as int,
            );
        }
        (quotient, remainder)
    }

    /// Quotient rounded toward zero; fails on a zero divisor.
    pub fn divide(&self, divisor: &BigNumber) -> (r: Result<BigNumber, BigNumberError>)
        requires
            self.wf(),
            divisor.wf(),
        ensures
            r is Err <==> divisor.value() == 0,
            r matches Err(e) ==> e == BigNumberError::DivisionByZero,
            r matches Ok(q) ==> q.wf() && q.value() == trunc_div(self.value(), divisor.value()),
    {
        if divisor.is_zero() {
            return Err(BigNumberError::DivisionByZero);
        }
        let (mut quotient, _) = self.divide_magnitudes(divisor);
        if self.sign != divisor.sign {
            quotient.sign = Sign::Negative;
        }
        quotient.fix_zero_sign();
        Ok(quotient)
    }

    /// Whether the divisor's magnitude divides this magnitude; fails on a zero divisor.
    /// The remainder comes from the same long-division pass as `divide`.
    pub fn is_divisible_by(&self, divisor: &BigNumber) -> (r: Result<bool, BigNumberError>)
        requires
            self.wf(),
            divisor.wf(),
        ensures
            r is Err <==> divisor.value() == 0,
            r matches Err(e) ==> e == BigNumberError::DivisionByZero,
            r matches Ok(b) ==> b == (self.mag() % divisor.mag() == 0),
    {
        if divisor.is_zero() {
            return Err(BigNumberError::DivisionByZero);
        }
        let (_, remainder) = self.divide_magnitudes(divisor);
        Ok(remainder.is_zero())
    }

    /// The integer square root of a non-negative number, found one decimal position at a time
    /// from the most significant.
    pub fn sqrt(&self) -> (r: BigNumber)
        requires
            self.wf(),
            self.value() >= 0,
        ensures
            r.wf(),
            r.sign == Sign::Positive,
            r.mag() * r.mag() <= self.mag(),
            self.mag() < (r.mag() + 1) * (r.mag() + 1),
    {
        let mut root = BigNumber::from_digit(0);
        let mut k: usize = self.digits.len() / 2;
        let mut step = BigNumber::from_digit(1);
        step.shift_left(k);
        proof {
            assert(pow10(0) == 1);
        }
        loop
            invariant
                self.wf(),
                root.wf(),
                root.sign == Sign::Positive,
                root.mag() * root.mag() <= self.mag(),
                step.wf(),
                step.sign == Sign::Positive,
                step.mag() == pow10(k as nat),
            ensures
                self.mag() < (root.mag() + 1) * (root.mag() + 1),
            decreases k,
        {
            proof {
                lemma_pow10_positive(k as nat);
            }
            loop
                invariant
                    self.wf(),
                    root.wf(),
                    root.sign == Sign::Positive,
                    root.mag() * root.mag() <= self.mag(),
                    step.wf(),
                    step.sign == Sign::Positive,
                    step.mag() == pow10(k as nat),
                    step.mag() >= 1,
                ensures
                    root.wf(),
                    root.sign == Sign::Positive,
                    root.mag() * root.mag() <= self.mag(),
                    self.mag() < (root.mag() + step.mag()) * (root.mag() + step.mag()),
                decreases self.mag() - root.mag(),
            {
                proof {
                    lemma_pow10_positive(k as nat);
                    let x = root.mag();
                    assert(x <= x * x || x == 0) by (nonlinear_arith);
                }
                let mut candidate = root.duplicate();
                candidate._add(&step);
                proof {
                    lemma_trimmed_zero(candidate.digits@);
                }
                let (bound, _) = self.divide_magnitudes(&candidate);
                proof {
                    lemma_square_le_iff_div(self.mag(), candidate.mag());
                }
                if !bound.is_greater_than_or_equal_to(&candidate) {
                    break;
                }
                proof {
                    let c = candidate.mag();
                    assert(c <= c * c) by (nonlinear_arith)
                        requires
                            c >= 1,
                    ;
                }
                root = candidate;
            }
            if k == 0 {
                assert(pow10(0) == 1);
                break;
            }
            proof {
                lemma_pow10_positive((k - 1) as nat);
                assert(pow10(k as nat) == 10 * pow10((k - 1) as nat));
                lemma_fundamental_div_mod_converse(
                    pow10(k as nat) as int,
                    10,
                    pow10((k - 1) as nat) as int,
                    0,
                );
                assert(pow10(1) == 10 * pow10(0));
            }
            step.shift_right(1);
            k = k - 1;
            proof {
                lemma_trimmed_zero(step.digits@);
            }
        }
        root
    }

    /// Whether the magnitude is prime, by trial division up to the integer square root.
    pub fn is_prime(&self) -> (r: bool)
        requires
            self.wf(),
        ensures
            r == is_prime_nat(self.mag()),
    {
        if self.digits.len() == 1 && self.digits[0] <= 1 {
            proof {
                lemma_val_single(self.digits@);
            }
            return false;
        }
        proof {
            if self.digits@.len() > 1 {
                crate::digits::lemma_trimmed_lower_bound(self.digits@);
                crate::digits::lemma_pow10_monotonic(1, (self.digits@.len() - 1) as nat);
                assert(pow10(1) == 10 * pow10(0));
                assert(pow10(0) == 1);
            } else {
                lemma_val_single(self.digits@);
            }
        }
        let ghost n = self.mag();
        let mut magnitude = self.duplicate();
        magnitude.make_abs();
        let root = magnitude.sqrt();
        let one = BigNumber::from_digit(1);
        let mut divisor = BigNumber::from_digit(2);
        proof {
            let rm = root.mag();
            if rm == 0 {
                assert((rm + 1) * (rm + 1) == 1) by (nonlinear_arith)
                    requires
                        rm == 0,
                ;
            }
        }
        while divisor.is_less_than_or_equal_to(&root)
            invariant
                n == magnitude.mag(),
                n == self.mag(),
                n > 1,
                magnitude.wf(),
                root.wf(),
                root.sign == Sign::Positive,
                n < (root.mag() + 1) * (root.mag() + 1),
                root.mag() * root.mag() <= n,
                one.wf(),
                one.value() == 1,
                divisor.wf(),
                divisor.sign == Sign::Positive,
                divisor.mag() >= 2,
                divisor.mag() <= root.mag() + 1,
                forall|e: nat| 2 <= e < divisor.mag() ==> #[trigger] (n % e) != 0,
            decreases root.mag() + 1 - divisor.mag(),
        {
            match magnitude.is_divisible_by(&divisor) {
                Ok(true) => {
                    assert(n % divisor.mag() == 0);
                    let ghost dm = divisor.mag();
                    proof {
                        let rm = root.mag();
                        assert(rm < n) by (nonlinear_arith)
                            requires
                                rm * rm <= n,
                                n > 1,
                        ;
                        assert(2 <= dm < n);
                        assert(n % dm == 0);
                        assert(!is_prime_nat(n));
                    }
                    return false;
                },
                _ => {},
            }
            divisor.add(&one);
        }
        proof {
            assert forall|d: nat| 2 <= d < n implies #[trigger] (n % d) != 0 by {
                if n % d == 0 {
                    let e = lemma_small_factor(n, d);
                    let rm = root.mag();
                    if e >= divisor.mag() {
                        assert(e * e >= (rm + 1) * (rm + 1)) by (nonlinear_arith)
                            requires
                                e >= rm + 1,
                        ;
                    }
                }
            }
        }
        true
    }
}

} // verus!
