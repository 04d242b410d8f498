use btc_contribs::json::{parse_json, Json, Parser};

fn text(j: Option<&Json>) -> Option<&str> {
    j.and_then(|v| v.string()).map(|s| s.as_str())
}

#[test]
fn reads_nested_values() {
    let j = parse_json(" {\"a\": [1, 2.5, -3e2], \"b\": {\"c\": \"d\"}, \"e\": null, \"f\": true} ").unwrap();
    assert_eq!(text(j.get_path(&["b", "c"])), Some("d"));
    assert_eq!(j.get("a").and_then(|a| a.array()).map(|a| a.len()), Some(3));
    assert_eq!(j.number_texts(), vec!["1", "2.5", "-3e2"]);
    assert!(j.get("e").is_some());
    assert!(j.get("zz").is_none());
    assert!(j.get_path(&["b", "c", "d"]).is_none());
    assert_eq!(j.get_path(&[]).map(|v| v.get("f").is_some()), Some(true));
}

#[test]
fn later_keys_replace_earlier_ones() {
    let j = parse_json("{\"a\": \"1\", \"a\": \"2\"}").unwrap();
    assert_eq!(text(j.get("a")), Some("2"));
}

#[test]
fn trailing_commas_are_read() {
    assert_eq!(parse_json("[1,]").unwrap().array().map(|a| a.len()), Some(1));
    assert!(parse_json("{\"a\": 1,}").unwrap().get("a").is_some());
}

#[test]
fn string_escapes() {
    let j = parse_json("\"\\\"\\\\\\/\\b\\f\\n\\r\\t\\u0041\\u00e9\"").unwrap();
    assert_eq!(j.string().map(|s| s.as_str()), Some("\"\\/\u{8}\u{c}\n\r\tAé"));
    // a lone surrogate is no character and is dropped
    assert_eq!(parse_json("\"a\\ud800b\"").unwrap().string().map(|s| s.as_str()), Some("ab"));
}

#[test]
fn errors() {
    assert_eq!(parse_json("").unwrap_err(), "invalid JSON value");
    assert_eq!(parse_json("[,1]").unwrap_err(), "invalid JSON value");
    assert_eq!(parse_json("[1 2]").unwrap_err(), "expected ',' or ']'");
    assert_eq!(parse_json("{\"a\": 1 \"b\": 2}").unwrap_err(), "expected ',' or '}'");
    assert_eq!(parse_json("{\"a\" 1}").unwrap_err(), "expected :");
    assert_eq!(parse_json("{1: 2}").unwrap_err(), "expected \"");
    assert_eq!(parse_json("\"abc").unwrap_err(), "unterminated string");
    assert_eq!(parse_json("\"abc\\").unwrap_err(), "unterminated escape");
    assert_eq!(parse_json("\"\\x\"").unwrap_err(), "invalid escape x");
    assert_eq!(parse_json("\"\\u12g4\"").unwrap_err(), "invalid unicode escape");
    assert_eq!(parse_json("1 2").unwrap_err(), "trailing JSON input");
    assert_eq!(parse_json("nul").unwrap_err(), "expected null");
    assert_eq!(parse_json("tru").unwrap_err(), "expected true");
    assert_eq!(parse_json("-").unwrap_err(), "invalid number -");
    assert_eq!(parse_json("1.2.3").unwrap_err(), "invalid number 1.2.3");
    assert_eq!(parse_json("1e").unwrap_err(), "invalid number 1e");
}

#[test]
fn numbers_keep_their_text() {
    let j = parse_json("[1., -0.5, 1e+5, 12]").unwrap();
    assert_eq!(j.number_texts(), vec!["1.", "-0.5", "1e+5", "12"]);
    let first = &j.array().unwrap()[0];
    assert_eq!(first.number_text().map(|s| s.as_str()), Some("1."));
}

#[test]
fn parser_steps() {
    let mut p = Parser { chars: " \n\tx".chars().collect(), pos: 0 };
    assert_eq!(p.peek(), Some(' '));
    p.ws();
    assert_eq!(p.pos, 3);
    assert_eq!(p.expect('y').unwrap_err(), "expected y");
    assert_eq!(p.pos, 4);
    assert_eq!(p.bump(), None);
    assert_eq!(p.peek(), None);
    let mut q = Parser { chars: "\"hi\" ".chars().collect(), pos: 0 };
    assert_eq!(q.string().unwrap(), "hi");
    assert_eq!(q.pos, 4);
}
