use influx_db_client::{Decimal, Point, Points, Precision, Value};

#[test]
fn add_tag_replaces_in_place() {
    let p = Point::new("m")
        .add_tag("a", Value::Integer(1))
        .add_tag("b", Value::Integer(2))
        .add_tag("a", Value::Integer(3));
    assert_eq!(p.tags.len(), 2);
    assert_eq!(p.tags[0].0, "a");
    assert_eq!(p.tags[0].1, Value::Integer(3));
    assert_eq!(p.tags[1].0, "b");
}

#[test]
fn add_field_appends_in_order() {
    let p = Point::new("m")
        .add_field("z", Value::Boolean(true))
        .add_field("y", Value::Float(Decimal::new(1, 2)));
    assert_eq!(p.fields.len(), 2);
    assert_eq!(p.fields[0].0, "z");
    assert_eq!(p.fields[1].0, "y");
    assert_eq!(p.fields[1].1, Value::Float(Decimal { mantissa: 1, scale: 2 }));
    assert!(p.tags.is_empty());
    assert_eq!(p.timestamp, None);
}

#[test]
fn tag_and_field_may_share_a_name() {
    let p = Point::new("m")
        .add_tag("k", Value::Integer(1))
        .add_field("k", Value::Integer(2));
    assert_eq!(p.tags.len(), 1);
    assert_eq!(p.fields.len(), 1);
}

#[test]
fn points_push_and_next() {
    let mut points = Points::new(Point::new("a")).push(Point::new("b"));
    assert_eq!(points.point.len(), 2);
    assert_eq!(points.next().map(|p| p.measurement), Some("b".to_string()));
    assert_eq!(points.next().map(|p| p.measurement), Some("a".to_string()));
    assert_eq!(points.next(), None);
}

#[test]
fn precision_codes() {
    assert_eq!(Precision::Nanoseconds.to_str(), "n");
    assert_eq!(Precision::Microseconds.to_str(), "u");
    assert_eq!(Precision::Milliseconds.to_str(), "ms");
    assert_eq!(Precision::Seconds.to_str(), "s");
    assert_eq!(Precision::Minutes.to_str(), "m");
    assert_eq!(Precision::Hours.to_str(), "h");
}
