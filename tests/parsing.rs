use mini_json::parse::{ParseError, ParseStep};
use mini_json::value::{JsonMap, JsonValue};

/// Parses `input`, reading each number literal that the parser asks for as
/// a double.
fn parse(input: &str) -> Result<JsonValue, ParseError> {
    let mut numbers: Vec<(String, Option<String>)> = Vec::new();
    loop {
        match JsonValue::parse(input, &numbers) {
            ParseStep::Done(r) => return r,
            ParseStep::NeedsNumber(lit) => {
                let read = lit.parse::<f64>().ok().map(|n| n.to_string());
                numbers.push((lit, read));
            }
        }
    }
}

fn number(n: f64) -> JsonValue {
    JsonValue::Number(n.to_string())
}

fn text(s: &str) -> JsonValue {
    JsonValue::String(s.to_string())
}

#[test]
fn test_parse_string() {
    assert_eq!(parse("\"Hello\"").unwrap(), text("Hello"));
}

#[test]
fn test_parse_number() {
    assert_eq!(parse("42").unwrap(), number(42.0));
    assert!(parse("42.abc").is_err());
}

#[test]
fn test_parse_boolean() {
    assert_eq!(parse("true").unwrap(), JsonValue::Boolean(true));
    assert_eq!(parse("false").unwrap(), JsonValue::Boolean(false));
    assert!(parse("tru").is_err());
}

#[test]
fn test_parse_null() {
    assert_eq!(parse("null").unwrap(), JsonValue::Null);
}

#[test]
fn test_parse_object() {
    let json_str = r#"
        {
            "key1": "value1",
            "key2": 10,
            "key3": false
        }
        "#;

    let mut expected = JsonMap::new();
    expected.insert("key1".to_string(), text("value1"));
    expected.insert("key2".to_string(), number(10.0));
    expected.insert("key3".to_string(), JsonValue::Boolean(false));

    assert_eq!(parse(json_str).unwrap(), JsonValue::Object(expected));
}

#[test]
fn test_stringify() {
    let mut map = JsonMap::new();
    map.insert("key1".to_string(), text("value1"));
    map.insert("key2".to_string(), number(42.0));
    map.insert("key3".to_string(), JsonValue::Boolean(true));
    map.insert("key4".to_string(), JsonValue::Null);

    let json = JsonValue::Object(map);
    let json_string = json.to_text();

    assert_eq!(
        json_string,
        r#"{"key1":"value1","key2":42,"key3":true,"key4":null}"#
    );
}

#[test]
fn empty_object_parses() {
    assert_eq!(parse("{}").unwrap(), JsonValue::Object(JsonMap::new()));
}

#[test]
fn compact_object_parses() {
    let mut expected = JsonMap::new();
    expected.insert("key1".to_string(), text("value1"));
    expected.insert("key2".to_string(), number(10.0));
    expected.insert("key3".to_string(), JsonValue::Boolean(false));
    assert_eq!(
        parse("{\"key1\":\"value1\",\"key2\":10,\"key3\":false}").unwrap(),
        JsonValue::Object(expected)
    );
}

#[test]
fn errors_by_category() {
    assert_eq!(parse("42.abc"), Err(ParseError::InvalidNumberFormat));
    assert_eq!(parse(""), Err(ParseError::EmptyInput));
    assert_eq!(parse("   \n\t"), Err(ParseError::EmptyInput));
    assert_eq!(parse("\"abc"), Err(ParseError::InvalidStringFormat));
    assert_eq!(parse("\""), Err(ParseError::InvalidStringFormat));
    assert_eq!(parse("tru"), Err(ParseError::InvalidNumberFormat));
}

#[test]
fn malformed_entries_are_rejected() {
    assert_eq!(parse("{\"a\"}"), Err(ParseError::InvalidObjectEntry));
    assert_eq!(parse("{\"a\":}"), Err(ParseError::InvalidObjectEntry));
    assert_eq!(parse("{:1}"), Err(ParseError::InvalidObjectEntry));
    assert_eq!(parse("{\"a\":1,}"), Err(ParseError::InvalidObjectEntry));
    assert_eq!(parse("{"), Err(ParseError::InvalidObjectEntry));
}

#[test]
fn first_failing_entry_decides() {
    assert_eq!(parse("{\"a\":4x,\"b\"}"), Err(ParseError::InvalidNumberFormat));
    assert_eq!(parse("{\"a\",\"b\":4x}"), Err(ParseError::InvalidObjectEntry));
    assert_eq!(parse("{\"a\":\"x}"), Err(ParseError::InvalidStringFormat));
}

#[test]
fn later_duplicate_key_wins() {
    let mut expected = JsonMap::new();
    expected.insert("a".to_string(), number(2.0));
    assert_eq!(parse("{\"a\":1,\"a\":2}").unwrap(), JsonValue::Object(expected));
}

#[test]
fn key_quotes_and_white_space_are_trimmed() {
    let mut expected = JsonMap::new();
    expected.insert("k".to_string(), JsonValue::Null);
    expected.insert("".to_string(), JsonValue::Boolean(true));
    assert_eq!(
        parse("\u{3000} { \"\"k\"\" : null , \"\":true }\n").unwrap(),
        JsonValue::Object(expected)
    );
}

#[test]
fn value_keeps_colons_after_the_first() {
    let mut expected = JsonMap::new();
    expected.insert("t".to_string(), text("a:b"));
    assert_eq!(parse("{\"t\":\"a:b\"}").unwrap(), JsonValue::Object(expected));
}

#[test]
fn nested_single_entry_object() {
    let mut inner = JsonMap::new();
    inner.insert("b".to_string(), number(1.0));
    let mut outer = JsonMap::new();
    outer.insert("a".to_string(), JsonValue::Object(inner));
    let v = parse("{\"a\":{\"b\":1}}").unwrap();
    assert_eq!(v, JsonValue::Object(outer));
    assert_eq!(v.to_text(), "{\"a\":{\"b\":1}}");
}

#[test]
fn numbers_render_as_doubles() {
    assert_eq!(parse("1e1").unwrap(), number(10.0));
    assert_eq!(parse(" -0.50 ").unwrap(), number(-0.5));
    assert_eq!(parse("10.0").unwrap().to_text(), "10");
}

#[test]
fn parser_asks_for_unread_literals() {
    let numbers: Vec<(String, Option<String>)> = Vec::new();
    assert_eq!(
        JsonValue::parse(" 7.5 ", &numbers),
        ParseStep::NeedsNumber("7.5".to_string())
    );
    let numbers = vec![("7.5".to_string(), Some("7.5".to_string()))];
    assert_eq!(
        JsonValue::parse(" 7.5 ", &numbers),
        ParseStep::Done(Ok(JsonValue::Number("7.5".to_string())))
    );
    let numbers = vec![("x".to_string(), None)];
    assert_eq!(
        JsonValue::parse("x", &numbers),
        ParseStep::Done(Err(ParseError::InvalidNumberFormat))
    );
}

#[test]
fn quoted_text_round_trips() {
    for s in ["", "plain", " padded ", "a,b:c{d}"] {
        let quoted = format!("\"{}\"", s);
        let v = parse(&quoted).unwrap();
        assert_eq!(v, text(s));
        assert_eq!(v.to_text(), quoted);
    }
}

#[test]
fn text_is_rendered_verbatim() {
    assert_eq!(text("say \"hi\"").to_text(), "\"say \"hi\"\"");
    assert_eq!(JsonValue::Boolean(false).to_text(), "false");
    assert_eq!(JsonValue::Null.to_text(), "null");
    assert_eq!(JsonValue::Object(JsonMap::new()).to_text(), "{}");
}

#[test]
fn keys_render_in_ascending_order_whatever_the_insertion_order() {
    let mut a = JsonMap::new();
    a.insert("key2".to_string(), number(42.0));
    a.insert("key1".to_string(), text("value1"));
    a.insert("key4".to_string(), JsonValue::Null);
    a.insert("key3".to_string(), JsonValue::Boolean(true));
    let mut b = JsonMap::new();
    b.insert("key3".to_string(), JsonValue::Boolean(true));
    b.insert("key4".to_string(), JsonValue::Null);
    b.insert("key1".to_string(), text("value1"));
    b.insert("key2".to_string(), number(42.0));
    assert_eq!(a.len(), 4);
    assert_eq!(a.key_at(0), "key1");
    assert_eq!(a.key_at(3), "key4");
    assert_eq!(a.value_at(1), &number(42.0));
    let ta = JsonValue::Object(a).to_text();
    assert_eq!(ta, JsonValue::Object(b).to_text());
    assert_eq!(ta, r#"{"key1":"value1","key2":42,"key3":true,"key4":null}"#);
}

#[test]
fn keys_order_by_code_point() {
    let mut m = JsonMap::new();
    m.insert("b".to_string(), JsonValue::Null);
    m.insert("ab".to_string(), JsonValue::Null);
    m.insert("a".to_string(), JsonValue::Null);
    m.insert("B".to_string(), JsonValue::Null);
    m.insert("é".to_string(), JsonValue::Null);
    assert_eq!(
        JsonValue::Object(m).to_text(),
        "{\"B\":null,\"a\":null,\"ab\":null,\"b\":null,\"é\":null}"
    );
}

#[test]
fn serialized_object_parses_back() {
    let mut m = JsonMap::new();
    m.insert("n".to_string(), number(-1.25));
    m.insert("t".to_string(), text("x y"));
    m.insert("z".to_string(), JsonValue::Null);
    let v = JsonValue::Object(m);
    assert_eq!(parse(&v.to_text()).unwrap(), v);
}

#[test]
fn double_renderings_parse_back() {
    let doubles = [
        0.0,
        -0.0,
        1.0,
        -2.5,
        0.001,
        1e300,
        -1e-300,
        123456789.125,
        f64::MAX,
        f64::MIN_POSITIVE,
    ];
    for n in doubles {
        let rendered = format!("{}", n);
        assert_eq!(parse(&rendered).unwrap(), number(n));
    }
}
