use influx_db_client::serialization::line_serialization;
use influx_db_client::{Decimal, Point, Points, Value};

#[test]
fn parse_reads_rendered_decimals() {
    assert_eq!(Decimal::parse("22.3"), Some(Decimal::new(223, 1)));
    assert_eq!(Decimal::parse("-0.005"), Some(Decimal::new(-5, 3)));
    assert_eq!(Decimal::parse("42"), Some(Decimal::new(42, 0)));
    assert_eq!(Decimal::parse("0"), Some(Decimal::new(0, 0)));
    assert_eq!(Decimal::parse("1.50"), Some(Decimal::new(150, 2)));
    assert_eq!(
        Decimal::parse("-9223372036854775808"),
        Some(Decimal::new(i64::MIN, 0))
    );
    assert_eq!(
        Decimal::parse("922337203685477580.7"),
        Some(Decimal::new(i64::MAX, 1))
    );
}

#[test]
fn parse_refuses_other_texts() {
    for text in [
        "", "-", ".", "1.", ".5", "+1", "007", "-0", "-0.0", "1e5", "inf", "NaN", "1.2.3", "12a",
        "9223372036854775808", "-9223372036854775809",
    ] {
        assert_eq!(Decimal::parse(text), None, "{}", text);
    }
}

#[test]
fn floats_render_as_their_decimal_text() {
    for f in [22.3f64, 12.6, -0.5, 1.0, 0.001, 123456.789] {
        let text = f.to_string();
        let d = Decimal::parse(&text).unwrap();
        let point = Point::new("m").add_field("f", Value::Float(d));
        assert_eq!(
            line_serialization(&Points::new(point)),
            format!("m f={}\n", text)
        );
    }
}

#[test]
fn value_conversions() {
    assert_eq!(Value::from(5i64), Value::Integer(5));
    assert_eq!(Value::from(-3i32), Value::Integer(-3));
    assert_eq!(Value::from(7i16), Value::Integer(7));
    assert_eq!(Value::from(-1i8), Value::Integer(-1));
    assert_eq!(Value::from(true), Value::Boolean(true));
    assert_eq!(Value::from("s".to_string()), Value::String("s".to_string()));
    assert_eq!(
        Value::from(Decimal::new(1, 1)),
        Value::Float(Decimal::new(1, 1))
    );
}
