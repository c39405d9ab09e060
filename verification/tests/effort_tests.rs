use aimstore::effort::Effort;
use aimstore::records::DecodeError;

#[test]
fn effort_text_has_exact_decimal_and_unit() {
    assert_eq!(Effort::Minutes(90).to_text(), "90min");
    assert_eq!(Effort::Hours(2).to_text(), "2h");
    assert_eq!(Effort::Days(0).to_text(), "0d");
    assert_eq!(Effort::Weeks(12).to_text(), "12w");
    assert_eq!(Effort::Months(5).to_text(), "5m");
    assert_eq!(Effort::Years(100).to_text(), "100y");
    assert_eq!(Effort::Years(u64::MAX).to_text(), "18446744073709551615y");
}

#[test]
fn effort_text_round_trips() {
    let cases = [
        Effort::Minutes(0),
        Effort::Minutes(90),
        Effort::Hours(24),
        Effort::Days(7),
        Effort::Weeks(52),
        Effort::Months(12),
        Effort::Years(u64::MAX),
    ];
    for e in cases {
        assert_eq!(Effort::from_text(&e.to_text()).unwrap(), e);
    }
}

#[test]
fn effort_parse_accepts_each_unit() {
    assert_eq!(Effort::from_text("90min").unwrap(), Effort::Minutes(90));
    assert_eq!(Effort::from_text("2h").unwrap(), Effort::Hours(2));
    assert_eq!(Effort::from_text("3d").unwrap(), Effort::Days(3));
    assert_eq!(Effort::from_text("4w").unwrap(), Effort::Weeks(4));
    assert_eq!(Effort::from_text("5m").unwrap(), Effort::Months(5));
    assert_eq!(Effort::from_text("6y").unwrap(), Effort::Years(6));
}

#[test]
fn effort_parse_rejects_malformed_text_without_panicking() {
    let bad = [
        "", "12", "min", "h", "y", "x5h", "5 h", " 5h", "5hh", "-3d", "3.5h", "5q",
        "18446744073709551616y", "99999999999999999999min",
    ];
    for text in bad {
        assert_eq!(Effort::from_text(text).unwrap_err(), DecodeError::InvalidEffort);
    }
}

#[test]
fn effort_parse_accepts_the_largest_magnitude() {
    assert_eq!(
        Effort::from_text("18446744073709551615y").unwrap(),
        Effort::Years(u64::MAX)
    );
}
