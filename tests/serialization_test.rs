use influx_db_client::serialization::{
    conversion, escape_keys_and_tags, escape_measurement, escape_string_field_value,
    line_serialization, quote_ident, quote_literal,
};
use influx_db_client::{Decimal, Point, Points, Value};

#[test]
fn line_serialization_test() {
    let point = Point::new("test")
        .add_field("somefield", Value::Integer(65))
        .add_tag("sometag", Value::Boolean(false));
    let points = Points::new(point);

    assert_eq!(
        line_serialization(&points),
        "test,sometag=false somefield=65i\n"
    )
}

#[test]
fn escape_keys_and_tags_test() {
    assert_eq!(
        escape_keys_and_tags("foo, hello=world"),
        "foo\\,\\ hello\\=world"
    )
}

#[test]
fn escape_measurement_test() {
    assert_eq!(escape_measurement("foo, hello"), "foo\\,\\ hello")
}

#[test]
fn escape_string_field_value_test() {
    assert_eq!(escape_string_field_value("\"foo"), "\"\\\"foo\"")
}

#[test]
fn quote_ident_test() {
    assert_eq!(quote_ident("root"), "\"root\"")
}

#[test]
fn quote_literal_test() {
    assert_eq!(quote_literal("root"), "\'root\'")
}

#[test]
fn quote_ident_escapes_backslash_quote_and_newline() {
    assert_eq!(quote_ident("a\\b\"c\nd"), "\"a\\\\b\\\"c\\nd\"")
}

#[test]
fn quote_literal_escapes_backslash_and_quote() {
    assert_eq!(quote_literal("it's\\"), "'it\\'s\\\\'")
}

#[test]
fn escape_measurement_keeps_equals_sign() {
    assert_eq!(escape_measurement("a=b"), "a=b")
}

#[test]
fn conversion_strips_quotes_and_trims() {
    assert_eq!(
        conversion("  {\"error\":\"unable to parse 'x'\\n\"}  "),
        "{error:unable to parse xn}"
    );
    assert_eq!(conversion(""), "");
    assert_eq!(conversion(" \t'\"\\ "), "");
}

#[test]
fn point_without_tags_or_timestamp() {
    let point = Point::new("cpu")
        .add_field("load", Value::Integer(3))
        .add_field("ok", Value::Boolean(true));
    assert_eq!(
        line_serialization(&Points::new(point)),
        "cpu load=3i,ok=true\n"
    )
}

#[test]
fn first_tag_follows_measurement() {
    let point = Point::new("my cpu")
        .add_tag("host name", Value::String("a,b".to_string()))
        .add_tag("rack", Value::Integer(-7))
        .add_field("v", Value::Integer(1));
    let line = line_serialization(&Points::new(point));
    assert!(line.starts_with("my\\ cpu,host\\ name=a\\,b"));
    assert_eq!(line, "my\\ cpu,host\\ name=a\\,b,rack=-7 v=1i\n");
}

#[test]
fn integer_fields_end_with_i_and_decimals_do_not() {
    let point = Point::new("m")
        .add_field("n", Value::Integer(-9223372036854775808))
        .add_field("f", Value::Float(Decimal::new(223, 1)))
        .add_field("g", Value::Float(Decimal::new(-5, 3)))
        .add_field("h", Value::Float(Decimal::new(42, 0)));
    assert_eq!(
        line_serialization(&Points::new(point)),
        "m n=-9223372036854775808i,f=22.3,g=-0.005,h=42\n"
    )
}

#[test]
fn tag_values_are_plain_text() {
    let point = Point::new("m")
        .add_tag("float", Value::Float(Decimal::new(126, 1)))
        .add_tag("number", Value::Integer(12))
        .add_tag("flag", Value::Boolean(true))
        .add_tag("text", Value::String("x=y".to_string()))
        .add_field("v", Value::Boolean(false));
    assert_eq!(
        line_serialization(&Points::new(point)),
        "m,float=12.6,number=12,flag=true,text=x\\=y v=false\n"
    )
}

#[test]
fn string_fields_are_quoted_once() {
    let point = Point::new("m")
        .add_field("quto1", Value::String("\"fda".to_string()))
        .add_field("quto", Value::String("\\\"fda".to_string()))
        .add_field("fd", Value::String("'3'".to_string()));
    assert_eq!(
        line_serialization(&Points::new(point)),
        "m quto1=\"\\\"fda\",quto=\"\\\\\\\"fda\",fd=\"'3'\"\n"
    )
}

#[test]
fn serializing_twice_gives_the_same_text() {
    let points = Points::new(
        Point::new("a")
            .add_tag("t", Value::String("x".to_string()))
            .add_field("f", Value::Float(Decimal::new(15, 1))),
    )
    .push(Point::new("b").add_field("g", Value::Integer(2)));
    assert_eq!(line_serialization(&points), line_serialization(&points));
}

#[test]
fn batch_gives_one_line_per_point() {
    let points = Points::create_new(vec![
        Point::new("a").add_field("f", Value::Integer(1)),
        Point::new("b").add_field("f", Value::Integer(2)).add_timestamp(1508981970),
        Point::new("c").add_field("f", Value::Boolean(true)),
    ]);
    let text = line_serialization(&points);
    assert_eq!(text, "a f=1i\nb f=2i 1508981970\nc f=true\n");
    assert_eq!(text.matches('\n').count(), 3);
}

#[test]
fn empty_batch_gives_empty_text() {
    assert_eq!(line_serialization(&Points::create_new(vec![])), "");
}

#[test]
fn point_without_fields_keeps_the_space() {
    assert_eq!(
        line_serialization(&Points::new(Point::new("m"))),
        "m \n"
    );
}

#[test]
fn timestamp_follows_fields() {
    let point = Point::new("m")
        .add_field("v", Value::Integer(0))
        .add_timestamp(-15);
    assert_eq!(line_serialization(&Points::new(point)), "m v=0i -15\n");
}
