use aaf::write::{Rational, Timestamp};

#[test]
fn parses_rationals_as_python_does() {
    assert_eq!(Rational::parse("16/9"), Ok(Rational::new(16, 9)));
    assert_eq!(Rational::parse(" 24 "), Ok(Rational::new(24, 1)));
    assert_eq!(Rational::parse("23.976"), Ok(Rational::new(23976, 1000)));
    assert_eq!(Rational::parse("-1.5"), Ok(Rational::new(-15, 10)));
    assert_eq!(Rational::parse("1e3"), Ok(Rational::new(1000, 1)));
    assert_eq!(Rational::parse("5E-1"), Ok(Rational::new(5, 10)));
    assert_eq!(Rational::parse(".5"), Ok(Rational::new(5, 10)));
    assert_eq!(Rational::parse("0/0"), Ok(Rational::new(0, 1)));
    assert!(Rational::parse("1/0").is_err());
    assert!(Rational::parse("x").is_err());
    assert!(Rational::parse("").is_err());
}

#[test]
fn timestamps_from_unix_time() {
    let t = Timestamp::from_unix(1_714_979_289);
    assert_eq!(t.to_string(), "2024-05-06T07:08:09");
    assert_eq!(Timestamp::parse_iso("2024-05-06T07:08:09"), Some(t));
    assert_eq!(Timestamp::from_unix(0).to_string(), "1970-01-01T00:00:00");
    assert_eq!(t.to_unix(), 1_714_979_289);
    let leap = Timestamp::parse_iso("2000-02-29T23:59:59").unwrap();
    assert_eq!(Timestamp::from_unix(leap.to_unix()), leap);
}

#[test]
fn rationals_keep_underscores_spaces_and_signs_as_python_does() {
    assert_eq!(Rational::parse("1_000/3"), Ok(Rational::new(1000, 3)));
    assert_eq!(Rational::parse("+7 / 2"), Ok(Rational::new(7, 2)));
    assert!(Rational::parse("1__0").is_err());
    assert!(Rational::parse("_1").is_err());
    assert_eq!(Rational::parse("48/2"), Ok(Rational::new(48, 2)));
    assert_eq!(Rational::parse("2.5e-1"), Ok(Rational::new(25, 100)));
    assert!(Rational::parse("99999999999999999999").is_err());
    assert_eq!(Rational::parse("x").unwrap_err().to_string(), "'x' is not a rational number");
    assert_eq!(Rational::new(-3, 4).to_string(), "-3/4");
}

#[test]
fn times_before_the_epoch_and_odd_texts() {
    assert_eq!(Timestamp::from_unix(-1).to_string(), "1969-12-31T23:59:59");
    assert_eq!(Timestamp::from_unix(-1).to_unix(), -1);
    assert_eq!(Timestamp::parse_iso("2024-05-06 07:08:09"), None);
    assert_eq!(Timestamp::parse_iso("2024-05-06T07:08"), None);
    assert_eq!(Timestamp::parse_iso("+2024-05-06T07:08:09").unwrap().year, 2024);
    assert_eq!(Timestamp::parse_iso("2024-05-300T07:08:09"), None);
}

#[test]
fn a_rational_reads_back_from_its_text() {
    for (n, d) in [(30000, 1001), (-15, 10), (0, 1), (i64::MIN, 1), (48, 2)] {
        let r = Rational::new(n, d);
        assert_eq!(Rational::parse(&r.to_string()), Ok(r));
    }
}
