use bignum::number::{swap_sign_with_other, BigNumber, BigNumberError, Sign};

fn parse(s: &str) -> BigNumber {
    BigNumber::from_string(s).expect("valid decimal text")
}

fn text(n: &BigNumber) -> String {
    n.render().into_iter().collect()
}

#[test]
fn parse_stores_digits_least_significant_first() {
    let n = parse("-120");
    assert_eq!(n.digits, vec![0, 2, 1]);
    assert_eq!(n.sign, Sign::Negative);
}

#[test]
fn parse_collapses_leading_zeros_and_negative_zero() {
    assert_eq!(text(&parse("000123")), "123");
    assert_eq!(text(&parse("-000")), "0");
    assert_eq!(parse("-0").sign, Sign::Positive);
    assert_eq!(parse("-0").digits, vec![0]);
}

#[test]
fn parse_rejects_malformed_text() {
    for s in ["", "-", "12a", "--1", "+5", " 1", "1-", "١٢"] {
        assert_eq!(BigNumber::from_string(s).unwrap_err(), BigNumberError::InvalidFormat);
    }
}

#[test]
fn render_round_trip() {
    for s in ["0", "7", "-7", "1234567890123456789012345678901234567890", "-1000"] {
        assert_eq!(text(&parse(s)), s);
        assert_eq!(text(&parse(&text(&parse(s)))), s);
    }
}

#[test]
fn comparisons_are_total_and_agree_with_difference() {
    let values = ["-100", "-99", "-1", "0", "1", "99", "100"];
    for a in values {
        for b in values {
            let x = parse(a);
            let y = parse(b);
            let lt = x.is_less_than(&y);
            let gt = y.is_less_than(&x);
            let eq = x.digits == y.digits && x.sign == y.sign;
            assert_eq!([lt, eq, gt].iter().filter(|v| **v).count(), 1);
            assert_eq!(x.is_less_than_or_equal_to(&y), lt || eq);
            let mut d = x.duplicate();
            d.subtract(&y);
            assert_eq!(lt, d.is_negative());
            assert_eq!(eq, d.is_zero());
        }
    }
}

#[test]
fn magnitude_comparison_ignores_sign() {
    assert!(parse("-100").is_greater_than_or_equal_to(&parse("99")));
    assert!(parse("99").is_greater_than_or_equal_to(&parse("-99")));
    assert!(!parse("98").is_greater_than_or_equal_to(&parse("-99")));
    assert!(parse("0").is_greater_than_or_equal_to(&parse("0")));
}

#[test]
fn shifts_scale_by_ten() {
    let mut x = parse("12");
    x.shift_left(3);
    assert_eq!(text(&x), "12000");
    x.shift_right(2);
    assert_eq!(text(&x), "120");
    x.shift_right(5);
    assert_eq!(x.digits, vec![0]);
}

#[test]
fn normalize_drops_high_zeros() {
    let mut x = BigNumber { digits: vec![5, 0, 0], sign: Sign::Positive };
    x.normalize();
    assert_eq!(x.digits, vec![5]);
    let mut y = BigNumber { digits: vec![0, 0], sign: Sign::Positive };
    y.normalize();
    assert_eq!(y.digits, vec![0]);
    let mut z = BigNumber { digits: vec![], sign: Sign::Positive };
    z.normalize();
    assert_eq!(z.digits, vec![0]);
}

#[test]
fn swaps_exchange_parts() {
    let mut a = parse("12");
    let mut b = parse("-345");
    swap_sign_with_other(&mut a, &mut b);
    assert_eq!(a.sign, Sign::Negative);
    assert_eq!(b.sign, Sign::Positive);
    a.swap_digits(&mut b);
    assert_eq!(a.digits, vec![5, 4, 3]);
    assert_eq!(b.digits, vec![2, 1]);
    a.make_abs();
    assert_eq!(text(&a), "345");
}

#[test]
fn sign_predicates() {
    assert!(parse("0").is_positive());
    assert!(parse("0").is_zero());
    assert!(parse("-3").is_negative());
    assert!(!parse("3").is_negative());
    assert!(!parse("3").is_zero());
}

#[test]
fn magnitude_add_and_subtract() {
    let mut x = parse("-95");
    x._add(&parse("7"));
    assert_eq!(text(&x), "-102");
    let mut y = parse("100");
    y._subtract(&parse("-1"));
    assert_eq!(text(&y), "99");
}

#[test]
fn magnitude_subtract_to_zero_is_positive() {
    let mut x = parse("-5");
    x._subtract(&parse("5"));
    assert_eq!(x.digits, vec![0]);
    assert_eq!(x.sign, Sign::Positive);
    let mut y = parse("-12");
    y._subtract(&parse("5"));
    assert_eq!(text(&y), "-7");
}

#[test]
fn magnitude_subtract_accepts_redundant_high_zeros() {
    let mut x = BigNumber { digits: vec![3, 1], sign: Sign::Positive };
    x._subtract(&BigNumber { digits: vec![4, 0, 0, 0], sign: Sign::Positive });
    assert_eq!(x.digits, vec![9]);
    let mut y = BigNumber { digits: vec![0, 0, 1, 0, 0], sign: Sign::Negative };
    y._subtract(&BigNumber { digits: vec![1], sign: Sign::Positive });
    assert_eq!(y.digits, vec![9, 9]);
    assert_eq!(y.sign, Sign::Negative);
}

#[test]
fn shift_right_keeps_the_remaining_digits() {
    let mut x = BigNumber { digits: vec![5, 0], sign: Sign::Positive };
    x.shift_right(0);
    assert_eq!(x.digits, vec![5, 0]);
    let mut y = BigNumber { digits: vec![1, 2, 3], sign: Sign::Negative };
    y.shift_right(1);
    assert_eq!(y.digits, vec![2, 3]);
    assert_eq!(y.sign, Sign::Negative);
    y.shift_right(2);
    assert_eq!(y.digits, vec![0]);
}
