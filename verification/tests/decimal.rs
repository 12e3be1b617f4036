use grbl_rs::decimal::{Decimal, MAX_UNITS, UNITS_PER_ONE};

#[test]
fn parse_plain_numbers() {
    assert_eq!(Decimal::parse("0"), Some(Decimal::from_units(0)));
    assert_eq!(Decimal::parse("10.5"), Some(Decimal::from_units(105_000)));
    assert_eq!(Decimal::parse("-2.5"), Some(Decimal::from_units(-25_000)));
    assert_eq!(Decimal::parse("+3"), Some(Decimal::from_units(30_000)));
    assert_eq!(Decimal::parse("0.000"), Some(Decimal::zero()));
    assert_eq!(Decimal::parse("609.6"), Some(Decimal::from_units(6_096_000)));
    assert_eq!(Decimal::parse("007.0100"), Some(Decimal::from_units(70_100)));
    assert_eq!(Decimal::parse("5."), Some(Decimal::from_units(50_000)));
    assert_eq!(Decimal::parse(".5"), Some(Decimal::from_units(5_000)));
    assert_eq!(Decimal::parse("-.0001"), Some(Decimal::from_units(-1)));
    assert_eq!(Decimal::parse("-0"), Some(Decimal::zero()));
    assert_eq!(UNITS_PER_ONE, 10_000);
}

#[test]
fn parse_rounds_the_fifth_digit_half_up() {
    assert_eq!(Decimal::parse("1.00004"), Some(Decimal::from_units(10_000)));
    assert_eq!(Decimal::parse("1.00005"), Some(Decimal::from_units(10_001)));
    assert_eq!(Decimal::parse("1.000049999"), Some(Decimal::from_units(10_000)));
    assert_eq!(Decimal::parse("-1.99995"), Some(Decimal::from_units(-20_000)));
    assert_eq!(Decimal::parse("0.99995"), Some(Decimal::from_units(10_000)));
}

#[test]
fn parse_refuses_what_is_no_decimal() {
    for s in [
        "", " ", "-", "+", ".", "-.", "1e5", "inf", "NaN", "1,5", " 1", "1 ", "--1", "1-", "1.2.3",
        "0x10", "bad", "+-1",
    ] {
        assert_eq!(Decimal::parse(s), None, "{:?}", s);
    }
}

#[test]
fn parse_is_bounded() {
    assert_eq!(
        Decimal::parse("100000000000000"),
        Some(Decimal::from_units(MAX_UNITS))
    );
    assert_eq!(
        Decimal::parse("-100000000000000.0000"),
        Some(Decimal::from_units(-MAX_UNITS))
    );
    assert_eq!(Decimal::parse("100000000000000.0001"), None);
    assert_eq!(Decimal::parse("99999999999999.99995"), Some(Decimal::from_units(MAX_UNITS)));
    assert_eq!(Decimal::parse("100000000000001"), None);
    assert_eq!(Decimal::parse("99999999999999999999999999999999999999999"), None);
    assert_eq!(
        Decimal::parse("0000000000000000000000000000000000000000001"),
        Some(Decimal::from_units(10_000))
    );
}

#[test]
fn fixed_form_has_four_fractional_digits() {
    assert_eq!(Decimal::from_units(6_096_000).to_fixed4(), "609.6000");
    assert_eq!(Decimal::from_units(0).to_fixed4(), "0.0000");
    assert_eq!(Decimal::from_units(1).to_fixed4(), "0.0001");
    assert_eq!(Decimal::from_units(-1).to_fixed4(), "-0.0001");
    assert_eq!(Decimal::from_units(-25_000).to_fixed4(), "-2.5000");
    assert_eq!(Decimal::from_units(123_456_789).to_fixed4(), "12345.6789");
    assert_eq!(
        Decimal::from_units(i64::MAX).to_fixed4(),
        "922337203685477.5807"
    );
    assert_eq!(
        Decimal::from_units(i64::MIN).to_fixed4(),
        "-922337203685477.5808"
    );
}

#[test]
fn shortest_form_drops_what_is_not_needed() {
    assert_eq!(Decimal::from_units(0).render(), "0");
    assert_eq!(Decimal::from_units(10_000).render(), "1");
    assert_eq!(Decimal::from_units(-200_000).render(), "-20");
    assert_eq!(Decimal::from_units(15_000).render(), "1.5");
    assert_eq!(Decimal::from_units(1_250).render(), "0.125");
    assert_eq!(Decimal::from_units(-1).render(), "-0.0001");
    assert_eq!(Decimal::from_units(100_100).render(), "10.01");
    assert_eq!(Decimal::from_units(1_000).render(), "0.1");
}

#[test]
fn fixed_form_parses_back() {
    for units in [0i64, 1, -1, 9_999, 10_000, -10_001, 6_096_000, MAX_UNITS, -MAX_UNITS] {
        let d = Decimal::from_units(units);
        assert_eq!(Decimal::parse(&d.to_fixed4()), Some(d));
        assert_eq!(Decimal::parse(&d.render()), Some(d));
    }
}

#[test]
fn decimals_order_by_value() {
    assert!(Decimal::from_units(-1) < Decimal::from_units(0));
    assert!(Decimal::from_units(6_096_000) > Decimal::from_units(6_095_999));
    assert_eq!(Decimal::from_units(5), Decimal { units: 5 });
}
