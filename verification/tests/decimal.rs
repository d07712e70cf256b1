use rustex::decimal::{compare, divide, integer_part, multiply, parse_decimal, subtract, subtract_from_ref};
use rustex::text::{chars_of, parse_u64, skip_leading, skip_trailing, split_ranges, IntError};
use rustex::{BigDec, Comparison};

fn d(s: &str) -> BigDec {
    parse_decimal(s).unwrap()
}

#[test]
fn decimals_are_read_with_their_scale() {
    let x = d("12.50");
    assert!(!x.negative);
    assert_eq!(x.digits, vec![1250]);
    assert_eq!(x.scale, 2);
    let y = d("-0.001");
    assert!(y.negative);
    assert_eq!(y.digits, vec![1]);
    assert_eq!(y.scale, 3);
    let z = d("4294967296");
    assert_eq!(z.digits, vec![0, 1]);
    assert_eq!(z.scale, 0);
    let e = d("1e3");
    assert_eq!(e.digits, vec![1]);
    assert_eq!(e.scale, -3);
}

#[test]
fn bad_decimals_are_refused() {
    assert!(parse_decimal("abc").is_err());
    assert!(parse_decimal("").is_err());
    assert!(parse_decimal("1.2.3").is_err());
}

#[test]
fn subtraction_is_exact() {
    assert!(subtract(&d("5"), &d("3")) == d("2"));
    assert!(subtract(&d("1.5"), &d("2.25")) == d("-0.75"));
    let r = subtract(&d("1.5"), &d("2.25"));
    assert!(r.negative);
    assert_eq!(r.digits, vec![75]);
    assert_eq!(r.scale, 2);
}

#[test]
fn multiplication_adds_scales() {
    let r = multiply(&d("1.5"), &d("2.25"));
    assert_eq!(r.digits, vec![3375]);
    assert_eq!(r.scale, 3);
    assert!(multiply(&d("-4"), &d("2.5")) == d("-10"));
}

#[test]
fn multiplication_by_one_normalizes_the_other_factor() {
    let r = multiply(&d("2.50"), &d("1"));
    assert_eq!(r.digits, vec![25]);
    assert_eq!(r.scale, 1);
    let r = multiply(&d("1.00"), &d("300"));
    assert_eq!(r.digits, vec![3]);
    assert_eq!(r.scale, -2);
    // at a scale beyond 38 the quick test does not recognize one
    let r = multiply(&d("2"), &d("1.000000000000000000000000000000000000000"));
    assert_eq!(r.scale, 39);
}

#[test]
fn subtraction_from_a_reference_keeps_the_right_zero() {
    let r = subtract_from_ref(&d("0.00"), d("0.0"));
    assert_eq!(r.scale, 1);
    let r = subtract(&d("0.00"), &d("0.0"));
    assert_eq!(r.scale, 2);
    assert!(subtract_from_ref(&d("5"), d("3.5")) == d("1.5"));
    assert!(subtract_from_ref(&d("0"), d("3.5")) == d("-3.5"));
}

#[test]
fn division_by_one_returns_the_dividend() {
    let r = divide(&d("12.340"), &d("1.0"));
    assert_eq!(r.digits, vec![12340]);
    assert_eq!(r.scale, 3);
}

#[test]
fn division_rounds_to_the_default_precision() {
    assert!(divide(&d("1"), &d("4")) == d("0.25"));
    assert!(divide(&d("10"), &d("-2")) == d("-5"));
    let third = divide(&d("1"), &d("3"));
    assert!(compare(&third, &d("0.3333333333")) == Comparison::Greater);
    assert!(compare(&third, &d("0.3333333334")) == Comparison::Less);
}

#[test]
fn comparison_is_by_value() {
    assert_eq!(compare(&d("1.0"), &d("1")), Comparison::Equal);
    assert_eq!(compare(&d("0.99"), &d("1")), Comparison::Less);
    assert_eq!(compare(&d("-1"), &d("-2")), Comparison::Greater);
    assert!(d("2.000") == d("2"));
    assert!(BigDec::zero() == d("0.000"));
    assert!(d("7.25").duplicate() == d("7.25"));
}

#[test]
fn integer_part_rounds_toward_zero() {
    assert!(integer_part(&d("-1.7")).unwrap() == d("-1"));
    assert!(integer_part(&d("2.999")).unwrap() == d("2"));
    let big = integer_part(&d("3e2")).unwrap();
    assert!(big == d("300"));
    assert_eq!(big.scale, 0);
}

#[test]
fn text_helpers() {
    let cs = chars_of("((a b))");
    assert_eq!(cs.len(), 7);
    let b = skip_leading(&cs, 0, cs.len(), '(');
    let e = skip_trailing(&cs, b, cs.len(), ')');
    assert_eq!((b, e), (2, 5));
    let parts = split_ranges(&cs, b, e, &chars_of(" "));
    assert_eq!(parts, vec![(2, 3), (4, 5)]);
    let digits = chars_of("+123");
    assert_eq!(parse_u64(&digits, 0, 4), Ok(123));
    assert_eq!(parse_u64(&digits, 1, 1), Err(IntError::Empty));
    assert_eq!(IntError::PosOverflow.text(), "number too large to fit in target type");
}
