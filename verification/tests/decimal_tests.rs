use pdf_expenses::decimal::Decimal;
use pdf_expenses::error::PdfError;

#[test]
fn parse_and_render_keep_fractional_digits() {
    let d = Decimal::parse("12.50").unwrap();
    assert_eq!(d.render(), "12.50");
    let d = Decimal::parse("0.5").unwrap();
    assert_eq!(d.render(), "0.5");
    let d = Decimal::parse("7").unwrap();
    assert_eq!(d.render(), "7");
    let d = Decimal::parse("-3.25").unwrap();
    assert_eq!(d.render(), "-3.25");
    let d = Decimal::parse("0.005").unwrap();
    assert_eq!(d.render(), "0.005");
    let d = Decimal::parse(".5").unwrap();
    assert_eq!(d.render(), "0.5");
}

#[test]
fn parse_rejects_malformed_numbers() {
    assert!(matches!(Decimal::parse(""), Err(PdfError::InvalidCost(_))));
    assert!(matches!(Decimal::parse("-"), Err(PdfError::InvalidCost(_))));
    assert!(matches!(Decimal::parse("."), Err(PdfError::InvalidCost(_))));
    assert!(matches!(Decimal::parse("1.2.3"), Err(PdfError::InvalidCost(_))));
    assert!(matches!(Decimal::parse("12a"), Err(PdfError::InvalidCost(_))));
    assert!(matches!(Decimal::parse("1 2"), Err(PdfError::InvalidCost(_))));
    assert!(matches!(Decimal::parse("1_000"), Err(PdfError::InvalidCost(_))));
    // a 29-digit mantissa is beyond the exact range
    assert!(matches!(
        Decimal::parse("10000000000000000000000000000"),
        Err(PdfError::InvalidCost(_))
    ));
}

#[test]
fn add_is_exact_at_the_larger_scale() {
    let a = Decimal::parse("0.1").unwrap();
    let b = Decimal::parse("0.25").unwrap();
    assert_eq!(a.add(b).render(), "0.35");
    let a = Decimal::parse("12.50").unwrap();
    let b = Decimal::parse("7.25").unwrap();
    assert_eq!(a.add(b).render(), "19.75");
}

#[test]
fn eq_value_sees_through_trailing_zeros() {
    let a = Decimal::parse("3.5").unwrap();
    let b = Decimal::parse("3.50").unwrap();
    assert!(a.eq_value(&b));
    let c = Decimal::parse("3.51").unwrap();
    assert!(!a.eq_value(&c));
}

#[test]
fn to_cents_rounds_half_to_even() {
    assert_eq!(Decimal::parse("10.01").unwrap().to_cents(), 1001);
    assert_eq!(Decimal::parse("7").unwrap().to_cents(), 700);
    assert_eq!(Decimal::parse("1.005").unwrap().to_cents(), 100);
    assert_eq!(Decimal::parse("1.015").unwrap().to_cents(), 102);
    assert_eq!(Decimal::parse("1.0051").unwrap().to_cents(), 101);
    assert_eq!(Decimal::parse("-1.005").unwrap().to_cents(), -100);
    assert_eq!(Decimal::parse("-10.01").unwrap().to_cents(), -1001);
}
