use rsjsonnet_lang::error::EvalErrorKind;
use rsjsonnet_lang::radix::{parse_radix_digits, radix_cut_fits, std_parse_hex, std_parse_octal, RadixError};
use rsjsonnet_lang::value::Value;
use rsjsonnet_lang::yaml_text::{std_parse_yaml_text, yaml_raw_events, RawEvent, RawEventItem};
use rsjsonnet_lang::yaml::{parse_yaml_events, std_parse_yaml, EventItem, YamlError, YamlEvent};
use rsjsonnet_lang::yaml_scalar::{classify_scalar, is_decimal_number_text, scalar_fits, scalar_value, ScalarClass};

fn show(v: &Value) -> String {
    match v {
        Value::Null => "null".to_string(),
        Value::Bool(b) => b.to_string(),
        Value::Number(n) => format!("#{n}"),
        Value::String(s) => format!("{s:?}"),
        Value::Array(items) => {
            let parts: Vec<String> = items.iter().map(show).collect();
            format!("[{}]", parts.join(","))
        }
        Value::Object(fields) => {
            let parts: Vec<String> = fields.iter().map(|(k, v)| format!("{k}={}", show(v))).collect();
            format!("{{{}}}", parts.join(","))
        }
    }
}

fn message(e: EvalErrorKind) -> String {
    match e {
        EvalErrorKind::Other { span: None, message } => message,
        other => panic!("unexpected error {other:?}"),
    }
}

fn at(e: YamlEvent, line: usize, col: usize) -> EventItem {
    Ok((e, line, col))
}

fn ev(e: YamlEvent) -> EventItem {
    at(e, 1, 0)
}

fn plain(text: &str, anchor: usize) -> EventItem {
    let class = classify_scalar(true, text);
    let number = match class {
        ScalarClass::Decimal | ScalarClass::Octal(..) | ScalarClass::Hex(..) => Some(text.to_string()),
        _ => None,
    };
    ev(YamlEvent::Scalar { text: text.to_string(), value: scalar_value(text, class, number), anchor, tagged: false })
}

fn quoted(text: &str) -> EventItem {
    let class = classify_scalar(false, text);
    ev(YamlEvent::Scalar { text: text.to_string(), value: scalar_value(text, class, None), anchor: 0, tagged: false })
}

fn doc(explicit: bool, body: Vec<EventItem>) -> Vec<EventItem> {
    let mut out = vec![ev(YamlEvent::DocumentStart(explicit))];
    out.extend(body);
    out.push(ev(YamlEvent::DocumentEnd));
    out
}

fn stream(docs: Vec<Vec<EventItem>>) -> Vec<EventItem> {
    let mut out = vec![ev(YamlEvent::StreamStart)];
    for d in docs {
        out.extend(d);
    }
    out.push(ev(YamlEvent::StreamEnd));
    out
}

fn seq_start(anchor: usize) -> EventItem {
    ev(YamlEvent::SequenceStart { anchor, tagged: false })
}

fn map_start(anchor: usize) -> EventItem {
    ev(YamlEvent::MappingStart { anchor, tagged: false })
}

fn yaml_message(es: &[EventItem]) -> String {
    message(std_parse_yaml(es).unwrap_err())
}

#[test]
fn one_document_is_its_value() {
    let es = stream(vec![doc(
        false,
        vec![
            map_start(0),
            plain("b", 0),
            plain("1", 0),
            plain("a", 0),
            seq_start(0),
            quoted("x"),
            plain("null", 0),
            plain("True", 0),
            ev(YamlEvent::SequenceEnd),
            plain("c", 0),
            map_start(0),
            ev(YamlEvent::MappingEnd),
            ev(YamlEvent::MappingEnd),
        ],
    )]);
    let v = parse_yaml_events(&es).unwrap();
    assert_eq!(show(&v), "{a=[\"x\",null,true],b=#1,c={}}");
}

#[test]
fn several_documents_make_an_array() {
    let es = stream(vec![doc(false, vec![plain("1", 0)]), doc(true, vec![quoted("two")])]);
    assert_eq!(show(&parse_yaml_events(&es).unwrap()), "[#1,\"two\"]");
    let explicit = stream(vec![doc(true, vec![seq_start(0), ev(YamlEvent::SequenceEnd)])]);
    assert_eq!(show(&parse_yaml_events(&explicit).unwrap()), "[[]]");
}

#[test]
fn empty_stream_is_refused() {
    let es = stream(vec![]);
    assert!(matches!(parse_yaml_events(&es).unwrap_err(), YamlError::EmptyStream));
    assert_eq!(yaml_message(&es), "failed to parse YAML: empty stream");
}

#[test]
fn aliases_copy_their_anchor() {
    let es = stream(vec![doc(
        false,
        vec![
            seq_start(0),
            plain("7", 1),
            ev(YamlEvent::Alias(1)),
            seq_start(2),
            quoted("in"),
            ev(YamlEvent::SequenceEnd),
            ev(YamlEvent::Alias(2)),
            ev(YamlEvent::SequenceEnd),
        ],
    )]);
    assert_eq!(show(&parse_yaml_events(&es).unwrap()), "[#7,#7,[\"in\"],[\"in\"]]");
}

#[test]
fn alias_keys_take_the_scalar_text() {
    let es = stream(vec![doc(
        false,
        vec![map_start(0), plain("k", 3), plain("1", 0), ev(YamlEvent::Alias(3)), plain("2", 0), ev(YamlEvent::MappingEnd)],
    )]);
    assert_eq!(yaml_message(&es), "failed to parse YAML: repeated field name \"k\"");
}

#[test]
fn anchor_inside_itself_is_refused() {
    let es = stream(vec![doc(false, vec![seq_start(5), ev(YamlEvent::Alias(5)), ev(YamlEvent::SequenceEnd)])]);
    assert_eq!(yaml_message(&es), "failed to parse YAML: anchor contains itself");
}

#[test]
fn anchor_from_previous_document_is_refused() {
    let es = stream(vec![doc(false, vec![plain("1", 4)]), doc(true, vec![ev(YamlEvent::Alias(4))])]);
    assert_eq!(yaml_message(&es), "failed to parse YAML: alias refers to an anchor from a previous document");
}

#[test]
fn keys_must_be_scalars() {
    let es = stream(vec![doc(
        false,
        vec![map_start(0), at(YamlEvent::SequenceStart { anchor: 0, tagged: false }, 3, 4)],
    )]);
    assert_eq!(yaml_message(&es), "failed to parse YAML: object key is an array at line 3 column 4");
    let es = stream(vec![doc(false, vec![map_start(0), at(YamlEvent::MappingStart { anchor: 0, tagged: false }, 2, 0)])]);
    assert_eq!(yaml_message(&es), "failed to parse YAML: object key is an object at line 2 column 0");
}

#[test]
fn tags_are_refused() {
    let es = stream(vec![doc(false, vec![ev(YamlEvent::SequenceStart { anchor: 0, tagged: true })])]);
    assert_eq!(yaml_message(&es), "failed to parse YAML: tags are not allowed");
}

#[test]
fn parser_errors_pass_through() {
    let es = vec![ev(YamlEvent::StreamStart), Err("bad indentation at line 2".to_string())];
    assert_eq!(yaml_message(&es), "failed to parse YAML: bad indentation at line 2");
}

#[test]
fn events_out_of_order_are_refused() {
    let es = vec![ev(YamlEvent::StreamStart), ev(YamlEvent::SequenceEnd)];
    assert!(matches!(parse_yaml_events(&es).unwrap_err(), YamlError::Malformed));
    assert_eq!(YamlError::NumberOverflow.message(), "number overflow");
    assert_eq!(YamlError::KeyIsObject(1, 2).message(), "object key is an object at line 1 column 2");
}

#[test]
fn overflowing_number_is_refused() {
    let class = classify_scalar(true, "1e999");
    assert_eq!(class, ScalarClass::Decimal);
    let value = scalar_value("1e999", class, None);
    let es = stream(vec![doc(
        false,
        vec![ev(YamlEvent::Scalar { text: "1e999".to_string(), value, anchor: 0, tagged: false })],
    )]);
    assert_eq!(yaml_message(&es), "failed to parse YAML: number overflow");
}

#[test]
fn scalar_words() {
    for w in ["null", "Null", "NULL", "~"] {
        assert_eq!(classify_scalar(true, w), ScalarClass::Null);
    }
    for w in ["true", "True", "TRUE"] {
        assert_eq!(classify_scalar(true, w), ScalarClass::Bool(true));
    }
    for w in ["false", "False", "FALSE"] {
        assert_eq!(classify_scalar(true, w), ScalarClass::Bool(false));
    }
    assert_eq!(classify_scalar(true, "nULL"), ScalarClass::Text);
    assert_eq!(classify_scalar(false, "null"), ScalarClass::Text);
    assert_eq!(classify_scalar(false, "12"), ScalarClass::Text);
}

#[test]
fn scalar_numbers() {
    for t in ["0", "-7", "+3", "1.5e3", "+.5", "1.", "-1.e-3", "2E+10", ".5"] {
        assert!(is_decimal_number_text(t), "{t}");
        assert_eq!(classify_scalar(true, t), ScalarClass::Decimal, "{t}");
    }
    for t in ["", ".", "+", "e5", "1e", "1e+", "1.2.3", "1_000", "- 1", "0x", "1e5.0"] {
        assert!(!is_decimal_number_text(t), "{t}");
    }
    assert_eq!(classify_scalar(true, "0o17"), ScalarClass::Octal(15, 0));
    assert_eq!(classify_scalar(true, "0o00017"), ScalarClass::Octal(15, 0));
    assert_eq!(classify_scalar(true, "0x1F"), ScalarClass::Hex(31, 0));
    assert_eq!(classify_scalar(true, "0o9"), ScalarClass::Text);
    assert_eq!(classify_scalar(true, "0xzz"), ScalarClass::Text);
    assert_eq!(classify_scalar(true, "0o"), ScalarClass::Text);
    assert_eq!(classify_scalar(true, "-0x1"), ScalarClass::Text);
    assert_eq!(classify_scalar(true, "hello"), ScalarClass::Text);
    let long_hex = format!("0x{}", "f".repeat(40));
    assert_eq!(classify_scalar(true, &long_hex), ScalarClass::Hex(u128::MAX, 8));
}

#[test]
fn scalar_values() {
    assert!(matches!(scalar_value("~", ScalarClass::Null, None), Ok(Value::Null)));
    assert!(matches!(scalar_value("no", ScalarClass::Text, None), Ok(Value::String(s)) if s == "no"));
    assert!(matches!(scalar_value("1", ScalarClass::Decimal, Some("1".to_string())), Ok(Value::Number(n)) if n == "1"));
    assert!(matches!(scalar_value("0x1", ScalarClass::Hex(1, 0), None), Err(YamlError::NumberOverflow)));
}

#[test]
fn scalars_cut_between_characters() {
    let ok = format!("0o{}", "1".repeat(50));
    assert!(scalar_fits(true, &ok));
    let bad = format!("0o{}é", "1".repeat(41));
    assert!(!scalar_fits(true, &bad));
    assert!(scalar_fits(false, &bad));
    assert!(scalar_fits(true, "0o1é"));
    assert_eq!(classify_scalar(true, "0o1é"), ScalarClass::Text);
}

#[test]
fn radix_digits() {
    assert_eq!(parse_radix_digits("755", 8), Ok((493, 0)));
    assert_eq!(parse_radix_digits("ff", 16), Ok((255, 0)));
    assert_eq!(parse_radix_digits("000", 8), Ok((0, 0)));
    assert_eq!(parse_radix_digits("", 8), Err(RadixError::Empty));
    assert_eq!(parse_radix_digits("78", 8), Err(RadixError::InvalidDigit('8')));
    let many = "f".repeat(33);
    assert_eq!(parse_radix_digits(&many, 16), Ok((u128::MAX, 1)));
    let bad_tail = format!("{}g", "f".repeat(32));
    assert_eq!(parse_radix_digits(&bad_tail, 16), Err(RadixError::InvalidDigit('g')));
    let octal_tail = format!("{}9", "7".repeat(42));
    assert_eq!(parse_radix_digits(&octal_tail, 8), Ok(((1u128 << 126) - 1, 1)));
    assert!(radix_cut_fits("12", 8));
    assert!(!radix_cut_fits(&format!("{}é", "1".repeat(31)), 16));
    assert!(radix_cut_fits(&format!("{}é", "1".repeat(30)), 16));
}

#[test]
fn std_parse_octal_and_hex() {
    assert_eq!(std_parse_octal("755").unwrap(), (493, 0));
    assert_eq!(std_parse_hex("DeadBeef").unwrap(), (0xdeadbeef, 0));
    assert_eq!(message(std_parse_octal("").unwrap_err()), "octal integer without digits: \"\"");
    assert_eq!(message(std_parse_hex("").unwrap_err()), "hexadecimal integer without digits: \"\"");
    assert_eq!(message(std_parse_octal("78").unwrap_err()), "invalid octal digit: '8'");
    assert_eq!(message(std_parse_hex("0x1").unwrap_err()), "invalid hexadecimal digit: 'x'");
}

#[test]
fn mapping_keyed_by_its_own_alias_is_refused() {
    let es = stream(vec![doc(false, vec![map_start(1), ev(YamlEvent::Alias(1)), plain("1", 0), ev(YamlEvent::MappingEnd)])]);
    assert_eq!(yaml_message(&es), "failed to parse YAML: anchor contains itself");
}

fn text_numbers(raw: &[RawEventItem]) -> Vec<Option<String>> {
    raw.iter()
        .map(|r| match r {
            Ok((RawEvent::Scalar(text, true, _, _), _, _)) if text.parse::<f64>().is_ok() => Some(text.clone()),
            _ => None,
        })
        .collect()
}

#[test]
fn yaml_text_is_read_through_the_parser() {
    let text = "b: [true, x, 1]\na: null\n";
    let raw = yaml_raw_events(text);
    assert!(matches!(raw.first(), Some(Ok((RawEvent::StreamStart, _, _)))));
    assert!(matches!(raw.last(), Some(Ok((RawEvent::StreamEnd, _, _)))));
    let v = std_parse_yaml_text(text, &text_numbers(&raw)).unwrap().unwrap();
    match v {
        Value::Object(fields) => {
            let names: Vec<&str> = fields.iter().map(|(k, _)| k.as_str()).collect();
            assert_eq!(names, vec!["a", "b"]);
            match &fields[1].1 {
                Value::Array(items) => {
                    assert!(matches!(items[0], Value::Bool(true)));
                    assert!(matches!(&items[1], Value::String(s) if s == "x"));
                    assert!(matches!(&items[2], Value::Number(n) if n == "1"));
                }
                other => panic!("unexpected {other:?}"),
            }
        }
        other => panic!("unexpected {other:?}"),
    }
}

#[test]
fn yaml_text_stops_at_the_parser_error() {
    let text = "a: [1, 2\n";
    let raw = yaml_raw_events(text);
    assert!(matches!(raw.last(), Some(Err(_))));
    let e = std_parse_yaml_text(text, &text_numbers(&raw)).unwrap().unwrap_err();
    match e {
        rsjsonnet_lang::error::EvalErrorKind::Other { message, .. } => assert!(message.starts_with("failed to parse YAML: ")),
        other => panic!("unexpected {other:?}"),
    }
    assert!(std_parse_yaml_text(text, &vec![]).is_none());
}
