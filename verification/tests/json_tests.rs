use js_runtime::json::{parse_json, Json};

#[test]
fn json_parser_handles_unicode_and_surrogate() {
    let j = r#""\u4e2d\ud835\udd4f""#;
    let v = parse_json(j).unwrap();
    assert_eq!(v.as_str().unwrap(), "中\u{1D54F}");
}

#[test]
fn json_parser_numbers_and_bools() {
    let v = parse_json(r#"[1, -2.5, true, false, null]"#).unwrap();
    if let Json::Array(a) = v {
        assert_eq!(a.len(), 5);
        assert_eq!(a[0].as_number_text().map(|t| t.parse::<f64>().unwrap()), Some(1.0));
        assert_eq!(a[1].as_number_text().map(|t| t.parse::<f64>().unwrap()), Some(-2.5));
    } else {
        panic!();
    }
}

#[test]
fn json_parser_error_messages() {
    assert!(parse_json("").is_err());
    assert!(parse_json("[1 2]").is_err());
    assert!(parse_json("{\"a\" 1}").is_err());
    assert!(parse_json("tru").is_err());
    assert!(parse_json("\"abc").is_err());
    assert_eq!(parse_json("1 x").unwrap().as_number_text(), Some("1"));
    assert_eq!(parse_json("[1,]").unwrap_err(), "unexpected byte 93");
    assert_eq!(parse_json("[").unwrap_err(), "unexpected end");
    assert_eq!(parse_json("{\"a\" 1}").unwrap_err(), "expected ':' in object");
}

#[test]
fn json_parser_objects_keep_last_value() {
    let v = parse_json(r#"{"a": 1, "b": "x", "a": 2}"#).unwrap();
    assert_eq!(v.get("a").and_then(|x| x.as_number_text()), Some("2"));
    assert_eq!(v.get("b").and_then(|x| x.as_str()), Some("x"));
    assert!(v.get("c").is_none());
    if let Json::Object(m) = v {
        assert_eq!(m.len(), 2);
        assert_eq!(m[0].0, "a");
    } else {
        panic!();
    }
}

#[test]
fn json_parser_escapes() {
    let v = parse_json(r#""a\n\t\"\\\/b""#).unwrap();
    assert_eq!(v.as_str(), Some("a\n\t\"\\/b"));
    assert_eq!(parse_json(r#""\x""#).unwrap_err(), "bad escape \\120");
    assert_eq!(parse_json(r#""\ud800""#).unwrap().as_str(), Some("\u{FFFD}"));
    assert_eq!(parse_json(r#""\ud800\u0041""#).unwrap().as_str(), Some("\u{FFFD}A"));
}

#[test]
fn json_error_for_each_failure() {
    let err = |s: &str| parse_json(s).unwrap_err();
    assert_eq!(err(""), "unexpected end");
    assert_eq!(err("   "), "unexpected end");
    assert_eq!(err("x"), "unexpected byte 120");
    assert_eq!(err("{\"a\" 1}"), "expected ':' in object");
    assert_eq!(err("{\"a\":1"), "unterminated object");
    assert_eq!(err("{\"a\":1 x}"), "expected ',' or '}'");
    assert_eq!(err("[1"), "unterminated array");
    assert_eq!(err("[1 2]"), "expected ',' or ']'");
    assert_eq!(err("{1:2}"), "expected string");
    assert_eq!(err("\"\\"), "bad escape");
    assert_eq!(err("\"\\u12"), "bad \\u");
    assert_eq!(err("\"\\u00€\""), "bad \\u utf8");
    assert_eq!(err("\"\\u00zz\""), "bad \\u hex");
    assert_eq!(err("\"\\ud835\\u00€\""), "bad \\u2 utf8");
    assert_eq!(err("\"\\ud835\\uzzzz\""), "bad \\u2 hex");
    assert_eq!(err("\"\\x\""), "bad escape \\120");
    assert_eq!(err("\"abc"), "unterminated string");
    assert_eq!(err("tru"), "bad bool");
    assert_eq!(err("nul"), "bad null");
    assert_eq!(err("-"), "bad number -: invalid float literal");
    assert_eq!(err("[1e]"), "bad number 1e: invalid float literal");
    assert_eq!(err("1.2.3"), "bad number 1.2.3: invalid float literal");
}

#[test]
fn json_values_exact() {
    assert_eq!(parse_json("\"\\u+041\"").unwrap().as_str(), Some("A"));
    assert_eq!(parse_json(" 01 ").unwrap().as_number_text(), Some("01"));
    assert_eq!(parse_json("1.5e+3").unwrap().as_number_text(), Some("1.5e+3"));
    assert!(matches!(parse_json("true").unwrap(), Json::Bool(true)));
    assert!(matches!(parse_json("false").unwrap(), Json::Bool(false)));
    assert!(matches!(parse_json("null").unwrap(), Json::Null));
    assert!(matches!(parse_json("{}").unwrap(), Json::Object(ref m) if m.is_empty()));
    assert!(matches!(parse_json("[]").unwrap(), Json::Array(ref a) if a.is_empty()));
    assert_eq!(parse_json("\"\\b\\f\\r\"").unwrap().as_str(), Some("\u{8}\u{c}\r"));
}
