use bignum::number::{BigNumber, BigNumberError, Sign};

fn parse(s: &str) -> BigNumber {
    BigNumber::from_string(s).expect("valid decimal text")
}

fn text(n: &BigNumber) -> String {
    n.render().into_iter().collect()
}

fn sum(a: &str, b: &str) -> String {
    let mut x = parse(a);
    x.add(&parse(b));
    text(&x)
}

fn difference(a: &str, b: &str) -> String {
    let mut x = parse(a);
    x.subtract(&parse(b));
    text(&x)
}

fn product(a: &str, b: &str) -> String {
    text(&parse(a).multiply(&parse(b)))
}

fn quotient(a: &str, b: &str) -> String {
    text(&parse(a).divide(&parse(b)).expect("non-zero divisor"))
}

#[test]
fn add_positive_and_negative() {
    assert_eq!(sum("123", "-23"), "100");
    let mut x = parse("123");
    x.add(&parse("-23"));
    assert_eq!(x.digits, parse("100").digits);
    assert_eq!(x.sign, parse("100").sign);
}

#[test]
fn add_with_carry_into_new_digit() {
    assert_eq!(sum("999", "1"), "1000");
    assert_eq!(sum("-999", "-1"), "-1000");
    assert_eq!(sum("5", "5"), "10");
}

#[test]
fn add_signs_by_larger_magnitude() {
    assert_eq!(sum("-123", "23"), "-100");
    assert_eq!(sum("23", "-123"), "-100");
    assert_eq!(sum("-23", "123"), "100");
}

#[test]
fn add_is_commutative_on_examples() {
    for (a, b) in [("123", "-23"), ("-7", "19"), ("0", "-5"), ("999999", "1")] {
        assert_eq!(sum(a, b), sum(b, a));
    }
}

#[test]
fn add_negation_gives_positive_zero() {
    for s in ["0", "17", "-17", "100000"] {
        let a = parse(s);
        let mut x = a.duplicate();
        x.add(&a.negate());
        assert_eq!(x.digits, vec![0]);
        assert_eq!(x.sign, Sign::Positive);
        assert_eq!(text(&x), "0");
    }
}

#[test]
fn subtract_examples() {
    assert_eq!(difference("100", "1"), "99");
    assert_eq!(difference("1", "100"), "-99");
    assert_eq!(difference("-5", "-5"), "0");
    assert_eq!(difference("-5", "3"), "-8");
    assert_eq!(difference("1000", "999"), "1");
}

#[test]
fn multiply_999_by_999() {
    assert_eq!(product("999", "999"), "998001");
}

#[test]
fn multiply_signs_and_zero() {
    assert_eq!(product("-12", "12"), "-144");
    assert_eq!(product("-12", "-12"), "144");
    assert_eq!(product("-12", "0"), "0");
    assert_eq!(product("0", "-12"), "0");
    assert_eq!(product("12", "-12"), product("-12", "12"));
}

#[test]
fn multiply_by_small_integer() {
    let mut x = parse("-125");
    x.multiply_by_int(8);
    assert_eq!(text(&x), "-1000");
    let mut y = parse("99");
    y.multiply_by_int(123456);
    assert_eq!(text(&y), "12222144");
    let mut z = parse("-99");
    z.multiply_by_int(0);
    assert_eq!(text(&z), "0");
    assert_eq!(z.sign, Sign::Positive);
}

#[test]
fn divide_36_by_6() {
    assert_eq!(quotient("36", "6"), "6");
    assert_eq!(parse("36").is_divisible_by(&parse("6")), Ok(true));
}

#[test]
fn divide_truncates_toward_zero() {
    assert_eq!(quotient("7", "2"), "3");
    assert_eq!(quotient("-7", "2"), "-3");
    assert_eq!(quotient("7", "-2"), "-3");
    assert_eq!(quotient("-7", "-2"), "3");
    assert_eq!(quotient("1", "2"), "0");
    assert_eq!(quotient("-1", "2"), "0");
    assert_eq!(quotient("123456789", "1000"), "123456");
}

#[test]
fn division_consistency_on_examples() {
    for (a, b) in [("100", "7"), ("36", "6"), ("5", "9"), ("1000001", "13")] {
        let x = parse(a);
        let y = parse(b);
        let q = x.divide(&y).unwrap();
        let qb = q.multiply(&y);
        let mut rem = x.duplicate();
        rem.subtract(&qb);
        let mut back = qb.duplicate();
        back.add(&rem);
        assert_eq!(text(&back), a);
        assert!(rem.is_less_than(&y));
        assert!(!rem.is_negative());
    }
}

#[test]
fn division_by_zero_fails() {
    let zero = parse("0");
    for s in ["0", "5", "-5", "123456"] {
        let a = parse(s);
        assert_eq!(a.divide(&zero).unwrap_err(), BigNumberError::DivisionByZero);
        assert_eq!(a.is_divisible_by(&zero), Err(BigNumberError::DivisionByZero));
    }
    assert_eq!(parse("5").divide(&parse("-0")).unwrap_err(), BigNumberError::DivisionByZero);
}

#[test]
fn divisibility_examples() {
    assert_eq!(parse("35").is_divisible_by(&parse("6")), Ok(false));
    assert_eq!(parse("-36").is_divisible_by(&parse("-6")), Ok(true));
    assert_eq!(parse("0").is_divisible_by(&parse("6")), Ok(true));
    assert_eq!(parse("5").is_divisible_by(&parse("6")), Ok(false));
}

#[test]
fn prime_examples() {
    assert!(parse("17").is_prime());
    assert!(!parse("18").is_prime());
    assert!(!parse("1").is_prime());
    assert!(!parse("0").is_prime());
    assert!(parse("2").is_prime());
    assert!(!parse("4").is_prime());
    assert!(!parse("49").is_prime());
    assert!(parse("97").is_prime());
    assert!(parse("-17").is_prime());
}

#[test]
fn square_root_examples() {
    assert_eq!(text(&parse("36").sqrt()), "6");
    assert_eq!(text(&parse("35").sqrt()), "5");
    assert_eq!(text(&parse("0").sqrt()), "0");
    assert_eq!(text(&parse("1").sqrt()), "1");
    assert_eq!(text(&parse("99").sqrt()), "9");
    assert_eq!(text(&parse("100").sqrt()), "10");
    assert_eq!(text(&parse("1000000").sqrt()), "1000");
    assert_eq!(text(&parse("999999").sqrt()), "999");
}
