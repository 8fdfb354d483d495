use json_parser::ErrorKind;
use json_parser::json_text;
use json_parser::Value;

fn num(lit: &str) -> Value {
    Value::Number(lit.to_string())
}

fn text(s: &str) -> Value {
    Value::String(s.to_string())
}

/// A minimal serializer, used to check that parsing a value's rendering
/// gives the value back.
fn serialize(v: &Value) -> String {
    match v {
        Value::Null => "null".to_string(),
        Value::Bool(true) => "true".to_string(),
        Value::Bool(false) => "false".to_string(),
        Value::Number(lit) => lit.clone(),
        Value::String(s) => quote(s),
        Value::Array(a) => {
            let mut out = String::from("[");
            for (i, e) in a.iter().enumerate() {
                if i > 0 {
                    out.push(',');
                }
                out.push_str(&serialize(e));
            }
            out.push(']');
            out
        }
        Value::Object(m) => {
            let mut out = String::from("{");
            for (i, (k, e)) in m.iter().enumerate() {
                if i > 0 {
                    out.push(',');
                }
                out.push_str(&quote(k));
                out.push(':');
                out.push_str(&serialize(e));
            }
            out.push('}');
            out
        }
    }
}

fn quote(s: &str) -> String {
    let mut out = String::from("\"");
    for c in s.chars() {
        match c {
            '"' => out.push_str("\\\""),
            '\\' => out.push_str("\\\\"),
            '\n' => out.push_str("\\n"),
            '\r' => out.push_str("\\r"),
            '\t' => out.push_str("\\t"),
            '\u{8}' => out.push_str("\\b"),
            '\u{c}' => out.push_str("\\f"),
            _ => out.push(c),
        }
    }
    out.push('"');
    out
}

fn round_trips(d: &str) {
    let (v1, _) = json_text(d).expect("document should parse");
    let rendered = serialize(&v1);
    let (v2, _) = json_text(&rendered).expect("rendering should parse");
    assert_eq!(v1, v2);
}

#[test]
fn round_trip_documents() {
    round_trips("null");
    round_trips("false");
    round_trips("123.5");
    round_trips("[1, 2.5e-3, true, null, \"x\\ny\"]");
    round_trips("{\"a\": [1,2,{\"b\":\"q\\\"u\\\\o\\tt\"}], \"c\": {}, \"a\": false}");
    round_trips("[[],[[]],\"\\\\\",{\"k\":[0.5e+10,-0]}]");
}

#[test]
fn empty_input_fails() {
    let e = json_text("").unwrap_err();
    assert_eq!(e.kind, ErrorKind::NoValueMatched);
    assert_eq!(e.pos, 0);
}

#[test]
fn whitespace_only_fails() {
    let e = json_text("   ").unwrap_err();
    assert_eq!(e.kind, ErrorKind::NoValueMatched);
    assert_eq!(e.pos, 3);
    let e = json_text(" \t\r\n").unwrap_err();
    assert_eq!(e.kind, ErrorKind::NoValueMatched);
    assert_eq!(e.pos, 4);
}

#[test]
fn literals() {
    assert_eq!(json_text("null"), Ok((Value::Null, 4)));
    assert_eq!(json_text("true"), Ok((Value::Bool(true), 4)));
    assert_eq!(json_text("false"), Ok((Value::Bool(false), 5)));
}

#[test]
fn numbers() {
    let (v, end) = json_text("123.5").unwrap();
    assert_eq!(end, 5);
    match &v {
        Value::Number(lit) => {
            assert_eq!(lit, "123.5");
            assert_eq!(lit.parse::<f64>().unwrap(), 123.5);
        }
        other => panic!("expected a number, got {:?}", other),
    }
    let (v, end) = json_text("-0.001e2").unwrap();
    assert_eq!(end, 8);
    match &v {
        Value::Number(lit) => {
            assert_eq!(lit, "-0.001e2");
            assert_eq!(lit.parse::<f64>().unwrap(), -0.1);
        }
        other => panic!("expected a number, got {:?}", other),
    }
}

#[test]
fn number_lexing_edges() {
    // Digit runs are taken as they stand; no leading-zero restriction.
    assert_eq!(json_text("0123"), Ok((num("0123"), 4)));
    // A dangling exponent marker is not part of the literal.
    assert_eq!(json_text("1e"), Ok((num("1"), 1)));
    // A dot without following digits is not part of the literal.
    assert_eq!(json_text("7."), Ok((num("7"), 1)));
    // A sign alone is no number.
    let e = json_text("-").unwrap_err();
    assert_eq!(e.kind, ErrorKind::NoValueMatched);
    assert_eq!(e.pos, 0);
    // A leading plus sign is not accepted.
    let e = json_text("+1").unwrap_err();
    assert_eq!(e.kind, ErrorKind::NoValueMatched);
    assert_eq!(e.pos, 0);
}

#[test]
fn string_escapes() {
    assert_eq!(json_text("\"a\\nb\""), Ok((text("a\nb"), 6)));
    assert_eq!(
        json_text("\"\\\"\\\\\\/\\b\\f\\n\\r\\t\""),
        Ok((text("\"\\/\u{8}\u{c}\n\r\t"), 18))
    );
    assert_eq!(json_text("\"\""), Ok((text(""), 2)));
}

#[test]
fn unicode_escape_is_rejected() {
    // The \uXXXX form is not implemented: it fails as an invalid escape.
    let e = json_text("\"a\\u0041\"").unwrap_err();
    assert_eq!(e.kind, ErrorKind::InvalidEscape);
    assert_eq!(e.pos, 3);
}

#[test]
fn unterminated_string() {
    let e = json_text("\"abc").unwrap_err();
    assert_eq!(e.kind, ErrorKind::UnterminatedString);
    assert_eq!(e.pos, 4);
    let e = json_text("\"ab\\").unwrap_err();
    assert_eq!(e.kind, ErrorKind::UnterminatedString);
    assert_eq!(e.pos, 4);
}

#[test]
fn invalid_escape() {
    let e = json_text("\"a\\x\"").unwrap_err();
    assert_eq!(e.kind, ErrorKind::InvalidEscape);
    assert_eq!(e.pos, 3);
}

#[test]
fn arrays() {
    assert_eq!(json_text("[]"), Ok((Value::Array(vec![]), 2)));
    assert_eq!(
        json_text("[1, 2, 3]"),
        Ok((Value::Array(vec![num("1"), num("2"), num("3")]), 9))
    );
}

#[test]
fn array_trailing_comma_tolerated() {
    assert_eq!(
        json_text("[1,2,]"),
        Ok((Value::Array(vec![num("1"), num("2")]), 6))
    );
}

#[test]
fn array_leading_comma_tolerated() {
    assert_eq!(json_text("[,1]"), Ok((Value::Array(vec![num("1")]), 4)));
    assert_eq!(json_text("[,]"), Ok((Value::Array(vec![]), 3)));
}

#[test]
fn array_commas_are_optional() {
    assert_eq!(
        json_text("[1 2]"),
        Ok((Value::Array(vec![num("1"), num("2")]), 5))
    );
}

#[test]
fn unclosed_array() {
    let e = json_text("[1").unwrap_err();
    assert_eq!(e.kind, ErrorKind::UnclosedArray);
    assert_eq!(e.pos, 2);
    let e = json_text("[").unwrap_err();
    assert_eq!(e.kind, ErrorKind::UnclosedArray);
    assert_eq!(e.pos, 1);
}

#[test]
fn objects() {
    assert_eq!(json_text("{}"), Ok((Value::Object(vec![]), 2)));
    assert_eq!(
        json_text("{\"a\":1,\"b\":2}"),
        Ok((
            Value::Object(vec![
                ("a".to_string(), num("1")),
                ("b".to_string(), num("2")),
            ]),
            13
        ))
    );
}

#[test]
fn object_duplicate_key_last_write_wins() {
    assert_eq!(
        json_text("{\"k\":1,\"k\":2}"),
        Ok((Value::Object(vec![("k".to_string(), num("2"))]), 13))
    );
}

#[test]
fn object_member_errors() {
    let e = json_text("{\"a\": }").unwrap_err();
    assert_eq!(e.kind, ErrorKind::NoValueMatched);
    assert_eq!(e.pos, 6);
    let e = json_text("{1:2}").unwrap_err();
    assert_eq!(e.kind, ErrorKind::ExpectedStringKey);
    assert_eq!(e.pos, 1);
    let e = json_text("{\"a\" 1}").unwrap_err();
    assert_eq!(e.kind, ErrorKind::TokenMismatch);
    assert_eq!(e.pos, 5);
}

#[test]
fn unclosed_object() {
    let e = json_text("{").unwrap_err();
    assert_eq!(e.kind, ErrorKind::UnclosedObject);
    assert_eq!(e.pos, 1);
    let e = json_text("{\"a\":1").unwrap_err();
    assert_eq!(e.kind, ErrorKind::UnclosedObject);
    assert_eq!(e.pos, 6);
}

#[test]
fn surrounding_whitespace() {
    assert_eq!(
        json_text(" \t[ 1 , 2 ]\n"),
        Ok((Value::Array(vec![num("1"), num("2")]), 12))
    );
}

#[test]
fn trailing_characters_are_left_to_the_caller() {
    assert_eq!(json_text("1 x"), Ok((num("1"), 2)));
    assert_eq!(json_text("truex"), Ok((Value::Bool(true), 4)));
    let e = json_text("trap").unwrap_err();
    assert_eq!(e.kind, ErrorKind::NoValueMatched);
    assert_eq!(e.pos, 0);
}

#[test]
fn nesting_at_the_limit_parses() {
    let depth = json_parser::MAX_DEPTH;
    let d = "[".repeat(depth) + &"]".repeat(depth);
    let (mut v, end) = json_text(&d).expect("nesting at the limit should parse");
    assert_eq!(end, 2 * depth);
    let mut seen = 0usize;
    loop {
        match v {
            Value::Array(mut a) => {
                seen += 1;
                match a.pop() {
                    Some(inner) => {
                        assert!(a.is_empty());
                        v = inner;
                    }
                    None => break,
                }
            }
            other => panic!("expected only arrays, got {:?}", other),
        }
    }
    assert_eq!(seen, depth);
}

#[test]
fn nesting_past_the_limit_fails() {
    let d = "[".repeat(json_parser::MAX_DEPTH + 1) + &"]".repeat(json_parser::MAX_DEPTH + 1);
    let e = json_text(&d).unwrap_err();
    assert_eq!(e.kind, ErrorKind::NestingTooDeep);
}

#[test]
fn deeply_nested_input_fails_deterministically() {
    let d = "[".repeat(10_000) + &"]".repeat(10_000);
    let e = json_text(&d).unwrap_err();
    assert_eq!(e.kind, ErrorKind::NestingTooDeep);
    let e2 = json_text(&d).unwrap_err();
    assert_eq!(e, e2);
}

#[test]
fn composite_document() {
    let d = "{ \"menu\": { \"id\": 1, \"items\": [ {\"label\": \"Open\\t\"}, null, true, -2.5 ] }, \"empty\": [] }";
    let (v, end) = json_text(d).expect("composite document should parse");
    assert_eq!(end, d.chars().count());
    assert_eq!(
        v,
        Value::Object(vec![
            (
                "menu".to_string(),
                Value::Object(vec![
                    ("id".to_string(), num("1")),
                    (
                        "items".to_string(),
                        Value::Array(vec![
                            Value::Object(vec![("label".to_string(), text("Open\t"))]),
                            Value::Null,
                            Value::Bool(true),
                            num("-2.5"),
                        ])
                    ),
                ])
            ),
            ("empty".to_string(), Value::Array(vec![])),
        ])
    );
}
