use rsjsonnet_lang::error::EvalErrorKind;
use rsjsonnet_lang::json::{parse_json, std_parse_json, JsonErrorKind};
use rsjsonnet_lang::value::Value;

fn show(v: &Value) -> String {
    match v {
        Value::Null => "null".to_string(),
        Value::Bool(b) => b.to_string(),
        Value::Number(n) => format!("#{n}"),
        Value::String(s) => format!("{s:?}"),
        Value::Array(items) => {
            let parts: Vec<String> = items.iter().map(show).collect();
            format!("[{}]", parts.join(","))
        }
        Value::Object(fields) => {
            let parts: Vec<String> = fields.iter().map(|(k, v)| format!("{k}={}", show(v))).collect();
            format!("{{{}}}", parts.join(","))
        }
    }
}

fn parse_error_message(text: &str) -> String {
    parse_json(text).unwrap_err().message()
}

#[test]
fn parses_nested_values_keeping_field_order() {
    let v = parse_json(" {\"b\": [1, -2.5e3, true, null, 0], \"a\": \"x\\n\", \"c\": {}} \n").unwrap();
    assert_eq!(show(&v), "{b=[#1,#-2.5e3,true,null,#0],a=\"x\\n\",c={}}");
}

#[test]
fn parses_scalars_at_top_level() {
    assert_eq!(show(&parse_json("null").unwrap()), "null");
    assert_eq!(show(&parse_json("false").unwrap()), "false");
    assert_eq!(show(&parse_json("\t12.50E+2\r\n").unwrap()), "#12.50E+2");
    assert_eq!(show(&parse_json("[]").unwrap()), "[]");
    assert_eq!(show(&parse_json("[[], [[]]]").unwrap()), "[[],[[]]]");
}

#[test]
fn decodes_string_escapes() {
    let v = parse_json("\"q\\\"b\\\\s\\/ \\b\\f\\n\\r\\t \\u0041\\u00e9 \\ud83d\\ude00\"").unwrap();
    match v {
        Value::String(s) => assert_eq!(s, "q\"b\\s/ \u{8}\u{c}\n\r\t A\u{e9} \u{1F600}"),
        other => panic!("unexpected {other:?}"),
    }
}

#[test]
fn reports_where_and_why() {
    assert_eq!(parse_error_message("[1,]"), "line 1, column 4: expected value");
    assert_eq!(parse_error_message("\n  x"), "line 2, column 3: expected value");
    assert_eq!(parse_error_message("1 2"), "line 1, column 3: expected end-of-file");
    assert_eq!(parse_error_message("[1 2]"), "line 1, column 4: expected `]` or `,`");
    assert_eq!(parse_error_message("{\"a\": 1 2}"), "line 1, column 9: expected `}` or `,`");
    assert_eq!(parse_error_message("{1}"), "line 1, column 2: expected object key");
    assert_eq!(parse_error_message("{\"a\" 1}"), "line 1, column 6: expected `:`");
    assert_eq!(parse_error_message("01"), "line 1, column 1: invalid number");
    assert_eq!(parse_error_message("[-]"), "line 1, column 2: invalid number");
    assert_eq!(parse_error_message("1.e5"), "line 1, column 1: invalid number");
    assert_eq!(parse_error_message("\"abc"), "line 1, column 2: unfinished string");
    assert_eq!(parse_error_message("\"a\\qb\""), "line 1, column 3: invalid string escape");
    assert_eq!(parse_error_message("\"\\u12g4\""), "line 1, column 2: invalid string escape");
    assert_eq!(parse_error_message("\"\\udc00\""), "line 1, column 2: invalid string escape");
    assert_eq!(parse_error_message("\"a\tb\""), "line 1, column 3: invalid character in string");
    assert_eq!(
        parse_error_message("{\"a\":1,\"a\":2}"),
        "line 1, column 13: repeated field name \"a\""
    );
}

#[test]
fn error_kinds_are_reported() {
    let e = parse_json("{\"k\": 1, \"k\": 2}").unwrap_err();
    assert_eq!(e.line, 0);
    assert!(matches!(e.kind, JsonErrorKind::RepeatedFieldName(ref n) if n == "k"));
    let e = parse_json("").unwrap_err();
    assert!(matches!(e.kind, JsonErrorKind::ExpectedValue));
    assert_eq!((e.line, e.column), (0, 0));
    assert_eq!(JsonErrorKind::Expected1(':').text(), "expected `:`");
    assert_eq!(JsonErrorKind::NumberOverflow.text(), "number overflow");
}

#[test]
fn std_parse_json_sorts_fields() {
    let v = std_parse_json("{\"b\": 1, \"a\": {\"d\": 2, \"c\": [3]}}").unwrap();
    assert_eq!(show(&v), "{a={c=[#3],d=#2},b=#1}");
}

#[test]
fn std_parse_json_error_message() {
    match std_parse_json("[1,").unwrap_err() {
        EvalErrorKind::Other { span: None, message } => {
            assert_eq!(message, "failed to parse JSON: line 1, column 4: expected value")
        }
        other => panic!("unexpected {other:?}"),
    }
}
