use json_tree::JsonError;
use json_tree::JsonFloat;
use json_tree::JsonValue;
use json_tree::value::object_get;

#[test]
fn test_parse_json() {
    let input = r#"{
            "quiz": {
                "sport": {
                    "q1": {
                        "question": "Which one is correct team name in NBA?",
                        "options": [
                            "New York Bulls",
                            "Los Angeles Kings",
                            "Golden State Warriros",
                            "Huston Rocket"
                        ],
                        "answer": "Huston \"Rocket\""
                    }
                },
                "maths": {
                    "q1": {
                        "question": "5 + 7 = ?",
                        "options": [
                            "10",
                            "11",
                            "12",
                            "13"
                        ],
                        "answer": "12"
                    },
                    "q2": {
                        "question": "12 - 8 = ?",
                        "options": [
                            "1",
                            "2",
                            "3",
                            "4"
                        ],
                        "answer": "4"
                    }
                }
            }
        }"#;

    let value: JsonValue = JsonValue::from_str(input).unwrap();

    println!("{value:#?}");
}

#[test]
fn test_parse_float() {
    let input = 1324.34576.to_string();

    let JsonValue::Float(value) = JsonValue::from_str(&input).unwrap() else {
        panic!()
    };

    assert_eq!(input, value.to_decimal_string());
}

#[test]
fn test_parse_object() {
    let input = r#"{   "key"  :     true,  "key341": null  ,   "true" : 234  }"#;

    let JsonValue::Object(value) = JsonValue::from_str(input).unwrap() else {
        panic!()
    };

    println!("{value:?}");
}

#[test]
fn test_print_ages() {
    let input = r#"[
            {
                "name": "Jonson",
                "age": 19,
                "gender": "male"
            },
            {
                "name": "Mary",
                "age": 13,
                "gender": "female"
            },
            {
                "name": "Sofie",
                "age": 7,
                "gender": "female"
            },
            {
                "name": "Max",
                "age": 21,
                "gender": "male"
            },
            {
                "name": "Phill",
                "age": 35,
                "gender": "male"
            },
            {
                "name": "Joseph",
                "age": 15,
                "gender": "male"
            },
            {
                "name": "Kristy",
                "age": 25,
                "gendr": "female"
            }
        ]"#;

    let json: JsonValue = JsonValue::from_str(input).unwrap();

    if let JsonValue::Array(array) = json {
        for value in array {
            if let JsonValue::Object(object) = value {
                if let Some(JsonValue::Integer(age)) = object_get(&object, "age") {
                    if *age >= 18 {
                        println!("{object:#?}");
                    }
                }
            }
        }
    }
}

#[test]
fn float_before_integer() {
    let value = JsonValue::from_str("3.5").unwrap();
    assert_eq!(
        value,
        JsonValue::Float(JsonFloat {
            whole: 3,
            frac: 5,
            frac_len: 1
        })
    );
}

#[test]
fn object_with_three_entries() {
    let input = "{ \"key\" : true, \"key341\": null , \"true\" : 234 }";
    let JsonValue::Object(entries) = JsonValue::from_str(input).unwrap() else {
        panic!()
    };
    assert_eq!(entries.len(), 3);
    assert_eq!(object_get(&entries, "key"), Some(&JsonValue::Bool(true)));
    assert_eq!(object_get(&entries, "key341"), Some(&JsonValue::Null));
    assert_eq!(object_get(&entries, "true"), Some(&JsonValue::Integer(234)));
    assert_eq!(object_get(&entries, "missing"), None);
}

#[test]
fn array_of_integers() {
    let value = JsonValue::from_str("[1, 2, 3]").unwrap();
    assert_eq!(
        value,
        JsonValue::Array(vec![
            JsonValue::Integer(1),
            JsonValue::Integer(2),
            JsonValue::Integer(3),
        ])
    );
}

#[test]
fn float_digits_round_trip() {
    let JsonValue::Float(value) = JsonValue::from_str("1324.34576").unwrap() else {
        panic!()
    };
    assert_eq!(value.to_decimal_string(), "1324.34576");
}

#[test]
fn float_value_round_trip() {
    let JsonValue::Float(f) = JsonValue::from_str("0.25").unwrap() else {
        panic!()
    };
    let text = f.to_decimal_string();
    assert_eq!(text, "0.25");
    let reparsed = JsonValue::from_str(&text).unwrap();
    assert_eq!(reparsed, JsonValue::Float(f));
}

#[test]
fn trailing_garbage_is_reported() {
    let err = JsonValue::from_str("true false").unwrap_err();
    assert_eq!(err, JsonError::TrailingInput("false".to_string()));
}

#[test]
fn unmatched_brace_restores_everything() {
    let err = JsonValue::from_str("{ \"key\": true").unwrap_err();
    assert_eq!(err, JsonError::NoMatch("{ \"key\": true".to_string()));
}

#[test]
fn scalars_parse() {
    assert_eq!(JsonValue::from_str("null").unwrap(), JsonValue::Null);
    assert_eq!(JsonValue::from_str("true").unwrap(), JsonValue::Bool(true));
    assert_eq!(JsonValue::from_str("false").unwrap(), JsonValue::Bool(false));
    assert_eq!(JsonValue::from_str("234").unwrap(), JsonValue::Integer(234));
    assert_eq!(
        JsonValue::from_str("  true  ").unwrap(),
        JsonValue::Bool(true)
    );
}

#[test]
fn empty_containers() {
    assert_eq!(JsonValue::from_str("[]").unwrap(), JsonValue::Array(vec![]));
    assert_eq!(
        JsonValue::from_str("{}").unwrap(),
        JsonValue::Object(vec![])
    );
}

#[test]
fn integer_bounds() {
    assert_eq!(
        JsonValue::from_str("9223372036854775807").unwrap(),
        JsonValue::Integer(i64::MAX)
    );
    let err = JsonValue::from_str("9223372036854775808").unwrap_err();
    assert_eq!(
        err,
        JsonError::NoMatch("9223372036854775808".to_string())
    );
}

#[test]
fn float_edge_shapes() {
    assert_eq!(
        JsonValue::from_str(".5").unwrap(),
        JsonValue::Float(JsonFloat {
            whole: 0,
            frac: 5,
            frac_len: 1
        })
    );
    assert_eq!(
        JsonValue::from_str("3.").unwrap(),
        JsonValue::Float(JsonFloat {
            whole: 3,
            frac: 0,
            frac_len: 0
        })
    );
    assert_eq!(
        JsonValue::from_str(".").unwrap_err(),
        JsonError::NoMatch(".".to_string())
    );
    let JsonValue::Float(padded) = JsonValue::from_str("1.0005").unwrap() else {
        panic!()
    };
    assert_eq!(
        padded,
        JsonFloat {
            whole: 1,
            frac: 5,
            frac_len: 4
        }
    );
    assert_eq!(padded.to_decimal_string(), "1.0005");
}

#[test]
fn huge_whole_part_fails_cleanly() {
    let err = JsonValue::from_str("99999999999999999999.5").unwrap_err();
    assert_eq!(err, JsonError::NoMatch("99999999999999999999.5".to_string()));
}

#[test]
fn duplicate_keys_last_write_wins() {
    let JsonValue::Object(entries) = JsonValue::from_str("{\"a\": 1, \"a\": 2}").unwrap() else {
        panic!()
    };
    assert_eq!(entries.len(), 1);
    assert_eq!(object_get(&entries, "a"), Some(&JsonValue::Integer(2)));
}

#[test]
fn escaped_quote_stays_in_content() {
    let value = JsonValue::from_str(r#""a\"b""#).unwrap();
    assert_eq!(value, JsonValue::String("a\\\"b".to_string()));
}

#[test]
fn unterminated_string_fails() {
    let err = JsonValue::from_str("\"abc").unwrap_err();
    assert_eq!(err, JsonError::NoMatch("\"abc".to_string()));
}

#[test]
fn negative_numbers_are_not_recognized() {
    let err = JsonValue::from_str("-1").unwrap_err();
    assert_eq!(err, JsonError::NoMatch("-1".to_string()));
}

#[test]
fn unicode_whitespace_is_skipped() {
    let value = JsonValue::from_str("\u{A0}\u{C}true\u{3000}\u{85}").unwrap();
    assert_eq!(value, JsonValue::Bool(true));

    let input = "[\u{2028}1\u{2009},\u{1680}2\u{B}]";
    let value = JsonValue::from_str(input).unwrap();
    assert_eq!(
        value,
        JsonValue::Array(vec![JsonValue::Integer(1), JsonValue::Integer(2)])
    );

    let err = JsonValue::from_str("true\u{205F}false").unwrap_err();
    assert_eq!(err, JsonError::TrailingInput("false".to_string()));
}

#[test]
fn whitespace_between_tokens_is_irrelevant() {
    let tight = JsonValue::from_str("{\"a\":[1,2],\"b\":null}").unwrap();
    let spaced = JsonValue::from_str(" {\u{A0}\"a\" : [ 1 ,\t2 ] , \"b\" :\nnull }\u{2028}").unwrap();
    assert_eq!(tight, spaced);
}

#[test]
fn empty_input_fails() {
    assert_eq!(
        JsonValue::from_str("").unwrap_err(),
        JsonError::NoMatch("".to_string())
    );
    assert_eq!(
        JsonValue::from_str("   ").unwrap_err(),
        JsonError::NoMatch("".to_string())
    );
}
