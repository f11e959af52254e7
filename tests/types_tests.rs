use kjson::{uuid_v4, uuid_v7, BigInt, Date, Decimal128, Duration, Instant};

#[test]
fn test_bigint() {
    let bi = BigInt::from_i64(123456789012345678);
    assert_eq!(bi.to_string(), "123456789012345678");
    assert_eq!(bi.to_kjson_string(), "123456789012345678n");
    let parsed = BigInt::from_str("123456789012345678n").unwrap();
    assert_eq!(parsed.to_string(), "123456789012345678");
}

#[test]
fn test_decimal128() {
    let d = Decimal128::from_str("99.99").unwrap();
    assert_eq!(d.to_string(), "99.99");
    assert_eq!(d.to_kjson_string(), "99.99m");
    let d2 = Decimal128::from_str("99.99m").unwrap();
    assert_eq!(d2.to_string(), "99.99");
}

#[test]
fn test_date() {
    let now = Instant::now();
    let date = Date::from_utc(now.epoch_seconds(), 0);
    let iso = date.to_iso8601().unwrap();
    let parsed = Date::from_iso8601(&iso).unwrap();
    assert_eq!(date.seconds, parsed.seconds);
}

#[test]
fn types_test_uuid_generation() {
    let u4 = uuid_v4();
    let u7 = uuid_v7();
    assert_ne!(u4, u7);
    assert_eq!(u4.get_version_num(), 4);
    assert_eq!(u7.get_version_num(), 7);
}

#[test]
fn bigint_canonical_forms() {
    assert_eq!(BigInt::from_str("0042").unwrap().to_string(), "42");
    assert_eq!(BigInt::from_str("-0").unwrap().to_string(), "0");
    assert_eq!(BigInt::from_str("-17n").unwrap().to_kjson_string(), "-17n");
    for bad in ["12a", "", "n", "-", "5nn", "+5", "1_000", "--1", " 1", "1.5"] {
        assert!(matches!(BigInt::from_str(bad), Err(kjson::Error::InvalidBigInt(_))), "{}", bad);
    }
    assert_eq!(BigInt::from_i64(i64::MIN).to_string(), "-9223372036854775808");
}

#[test]
fn decimal_forms_and_errors() {
    assert_eq!(Decimal128::from_str("-0.050m").unwrap().to_kjson_string(), "-0.050m");
    assert_eq!(Decimal128::from_str("7").unwrap().to_string(), "7");
    for bad in ["", "m", "-", ".5", "5.", "1.2.3", "1e5", "--1", "1mm"] {
        assert!(matches!(Decimal128::from_str(bad), Err(kjson::Error::InvalidDecimal128(_))), "{}", bad);
    }
    let small = Decimal128 { digits: "5".to_string(), exponent: -3, negative: false };
    assert_eq!(small.to_string(), "0.005");
    let whole = Decimal128 { digits: "12".to_string(), exponent: 2, negative: true };
    assert_eq!(whole.to_string(), "-1200");
}

#[test]
fn duration_iso_text() {
    assert_eq!(Duration::from_nanos(0).to_iso8601(), "PT0S");
    assert_eq!(Duration::from_days(2).to_iso8601(), "P2D");
    let d = Duration::from_days(1).add(&Duration::from_hours(2)).add(&Duration::from_minutes(3));
    assert_eq!(d.add(&Duration::from_millis(4500)).to_iso8601(), "P1DT2H3M4.5S");
    assert_eq!(Duration::from_seconds(-90).to_iso8601(), "-PT1M30S");
    assert_eq!(Duration::from_nanos(1).to_iso8601(), "PT0.000000001S");
    assert_eq!(Duration::from_nanos(i64::MIN).to_iso8601(), "-P106751DT23H47M16.854775808S");
}

#[test]
fn duration_iso_parse() {
    assert_eq!(Duration::from_iso8601("P1DT2H3M4.5S").unwrap().total_nanos(), 93_784_500_000_000);
    assert_eq!(Duration::from_iso8601("PT0S").unwrap().total_nanos(), 0);
    assert_eq!(Duration::from_iso8601("P").unwrap().total_nanos(), 0);
    assert_eq!(Duration::from_iso8601("PT1.1234567899S").unwrap().total_nanos(), 1_123_456_789);
    for bad in ["", "1D", "PT", "PTS", "P1H", "PT1.S", "PT1M2H", "P1DT", "-PT1S", "P99999999999999999999D"] {
        if bad == "PT" || bad == "P1DT" {
            assert!(Duration::from_iso8601(bad).is_ok());
        } else {
            assert!(matches!(Duration::from_iso8601(bad), Err(kjson::Error::InvalidDuration(_))), "{}", bad);
        }
    }
}

#[test]
fn duration_arithmetic() {
    let a = Duration::from_seconds(5);
    let b = Duration::from_seconds(7);
    assert_eq!(a.sub(&b).total_nanos(), -2_000_000_000);
    assert!(a.sub(&b).is_negative());
    assert_eq!(a.sub(&b).abs().total_nanos(), 2_000_000_000);
    assert_eq!(a.neg().total_nanos(), -5_000_000_000);
    assert!(a.sub(&a).is_zero());
}

#[test]
fn instant_iso_round_trip() {
    let i = Instant::from_iso8601("2025-01-10T12:00:00.123456789Z").unwrap();
    assert_eq!(i.epoch_nanos(), 1_736_510_400_123_456_789);
    assert_eq!(i.to_iso8601(), "2025-01-10T12:00:00.123456789Z");
    assert_eq!(i.epoch_millis(), 1_736_510_400_123);
    assert_eq!(i.epoch_seconds(), 1_736_510_400);
    let plain = Instant::from_iso8601("2025-01-10T12:00:00").unwrap();
    assert_eq!(plain.to_iso8601(), "2025-01-10T12:00:00Z");
    let offset = Instant::from_iso8601("2025-01-10T13:00:00+01:00").unwrap();
    assert_eq!(offset, plain);
    let before = Instant::from_nanos(-500_000_000);
    assert_eq!(before.to_iso8601(), "1969-12-31T23:59:59.5Z");
    assert_eq!(before.epoch_millis(), -500);
    assert_eq!(Instant::from_millis(1500).to_iso8601(), "1970-01-01T00:00:01.5Z");
    assert!(matches!(Instant::from_iso8601("2025-02-30T00:00:00Z"), Err(kjson::Error::InvalidDate(_))));
    assert!(Instant::from_iso8601("2025-01-10 12:00:00Z").is_err());
    assert_eq!(Instant::from_seconds(0).to_iso8601(), "1970-01-01T00:00:00Z");
}
