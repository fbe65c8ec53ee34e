use json_tree::JsonValue;

#[test]
fn parse_char_advances_on_match() {
    let (rest, matched) = JsonValue::parse_char("abc", 'a');
    assert_eq!(rest, "bc");
    assert_eq!(matched, Some('a'));

    let (rest, matched) = JsonValue::parse_char("abc", 'b');
    assert_eq!(rest, "abc");
    assert_eq!(matched, None);
}

#[test]
fn parse_sequence_advances_on_match() {
    let (rest, matched) = JsonValue::parse_sequence("null and more", "null");
    assert_eq!(rest, " and more");
    assert_eq!(matched, Some("null"));

    let (rest, matched) = JsonValue::parse_sequence("nul", "null");
    assert_eq!(rest, "nul");
    assert_eq!(matched, None);
}

#[test]
fn parse_span_is_total() {
    let (rest, span) = JsonValue::parse_span("12034abc", |c: char| c.is_ascii_digit());
    assert_eq!(span, "12034");
    assert_eq!(rest, "abc");

    let (rest, span) = JsonValue::parse_span("abc", |c: char| c.is_ascii_digit());
    assert_eq!(span, "");
    assert_eq!(rest, "abc");

    let (rest, span) = JsonValue::parse_span("", |_c: char| true);
    assert_eq!(span, "");
    assert_eq!(rest, "");
}

#[test]
fn parse_whitespaces_skips_blanks() {
    let (rest, span) = JsonValue::parse_whitespaces(" \t\n\rx");
    assert_eq!(span, " \t\n\r");
    assert_eq!(rest, "x");

    let (rest, span) = JsonValue::parse_whitespaces("\u{A0}\u{2003}\u{C}x");
    assert_eq!(span, "\u{A0}\u{2003}\u{C}");
    assert_eq!(rest, "x");

    let (rest, span) = JsonValue::parse_whitespaces("x ");
    assert_eq!(span, "");
    assert_eq!(rest, "x ");
}

#[test]
fn single_parsers_fail_without_consuming() {
    let (rest, value) = JsonValue::parse_null("nothing");
    assert_eq!(rest, "nothing");
    assert_eq!(value, None);

    let (rest, value) = JsonValue::parse_bool("tru");
    assert_eq!(rest, "tru");
    assert_eq!(value, None);

    let (rest, value) = JsonValue::parse_integer("x1");
    assert_eq!(rest, "x1");
    assert_eq!(value, None);

    let (rest, value) = JsonValue::parse_float("35,2");
    assert_eq!(rest, "35,2");
    assert_eq!(value, None);

    let (rest, value) = JsonValue::parse_string("\"open");
    assert_eq!(rest, "\"open");
    assert_eq!(value, None);

    let (rest, value) = JsonValue::parse_array("[1, 2");
    assert_eq!(rest, "[1, 2");
    assert_eq!(value, None);

    let (rest, value) = JsonValue::parse_object("{\"a\" 1}");
    assert_eq!(rest, "{\"a\" 1}");
    assert_eq!(value, None);
}

#[test]
fn parse_value_dispatches_in_priority_order() {
    let (rest, value) = JsonValue::parse_value("3.5]");
    assert_eq!(rest, "]");
    assert!(matches!(value, Some(JsonValue::Float(_))));

    let (rest, value) = JsonValue::parse_value("35]");
    assert_eq!(rest, "]");
    assert!(matches!(value, Some(JsonValue::Integer(35))));

    let (rest, value) = JsonValue::parse_try("nullnull");
    assert_eq!(rest, "null");
    assert!(matches!(value, Some(JsonValue::Null)));
}

#[test]
fn getters_fetch_the_right_variant() {
    assert_eq!(JsonValue::Bool(true).as_bool(), Some(true));
    assert_eq!(JsonValue::Null.as_bool(), None);
    assert_eq!(JsonValue::Integer(7).as_integer(), Some(7));
    assert_eq!(JsonValue::Bool(true).as_integer(), None);
    assert!(JsonValue::Integer(7).as_float().is_none());
    assert_eq!(
        JsonValue::String("hi".to_string()).as_string(),
        Some("hi")
    );
    assert_eq!(JsonValue::Null.as_string(), None);
    let arr = JsonValue::Array(vec![JsonValue::Null]);
    assert_eq!(arr.as_array(), Some(&[JsonValue::Null][..]));
    assert!(arr.as_object().is_none());
    let obj = JsonValue::Object(vec![("k".to_string(), JsonValue::Null)]);
    assert_eq!(
        obj.as_object(),
        Some(&vec![("k".to_string(), JsonValue::Null)])
    );
}
