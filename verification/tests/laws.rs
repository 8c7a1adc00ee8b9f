use rsjsonnet_lang::json::parse_json;
use rsjsonnet_lang::manifest::{escape_string_json, manifest_json, ManifestJsonFormat};
use rsjsonnet_lang::normalize::{normalize, sort_field_vec};
use rsjsonnet_lang::merge_patch::std_merge_patch;
use rsjsonnet_lang::std_values::{std_join, std_prune, std_reverse};
use rsjsonnet_lang::strings::{split, str_replace};
use rsjsonnet_lang::value::Value;

fn st(t: &str) -> Value {
    Value::String(t.to_string())
}

fn num(t: &str) -> Value {
    Value::Number(t.to_string())
}

fn strings(v: Vec<String>) -> Value {
    Value::Array(v.into_iter().map(Value::String).collect())
}

#[test]
fn escaped_strings_parse_back() {
    for s in ["", "plain", "q\"uote\\", "\u{0}\u{8}\t\n\r\u{19}", "\u{7f}\u{85}\u{9f}é€😀", "/"] {
        match parse_json(&escape_string_json(s)).unwrap() {
            Value::String(t) => assert_eq!(t, s),
            other => panic!("unexpected {other:?}"),
        }
    }
}

#[test]
fn unescaped_controls_do_not_parse_back() {
    let e = parse_json(&escape_string_json("\u{1b}")).unwrap_err();
    assert_eq!(e.message(), "line 1, column 2: invalid character in string");
}

#[test]
fn split_then_join_gives_the_string_back() {
    for (s, sep) in [("a,b,,c", ","), ("", ","), ("abab", "ab"), ("xyz", "q"), (",,", ",")] {
        let parts = split(s, sep).unwrap();
        match std_join(&st(sep), &strings(parts)).unwrap() {
            Value::String(t) => assert_eq!(t, s),
            other => panic!("unexpected {other:?}"),
        }
    }
}

#[test]
fn replace_is_split_then_join() {
    for (s, pat, rep) in [("a.b.c", ".", "::"), ("aaa", "aa", "b"), ("", "x", "y"), ("abc", "abc", "")] {
        let parts = split(s, pat).unwrap();
        let joined = match std_join(&st(rep), &strings(parts)).unwrap() {
            Value::String(t) => t,
            other => panic!("unexpected {other:?}"),
        };
        assert_eq!(str_replace(s, pat, rep), joined);
    }
}

#[test]
fn sorted_fields_are_ordered_and_complete() {
    let fields = vec![
        ("zeta".to_string(), num("1")),
        ("alpha".to_string(), num("2")),
        ("Mid".to_string(), num("3")),
        ("alpha2".to_string(), num("4")),
    ];
    let sorted = sort_field_vec(fields);
    let names: Vec<String> = sorted.iter().map(|(k, _)| k.clone()).collect();
    assert_eq!(names, vec!["Mid", "alpha", "alpha2", "zeta"]);
    let again = sort_field_vec(sorted);
    let names2: Vec<String> = again.iter().map(|(k, _)| k.clone()).collect();
    assert_eq!(names2, names);
}

#[test]
fn normalized_objects_keep_their_fields() {
    let v = Value::Object(vec![("b".to_string(), num("1")), ("a".to_string(), num("2"))]);
    match normalize(&v) {
        Value::Object(fields) => {
            assert_eq!(fields.len(), 2);
            assert_eq!(fields[0].0, "a");
            assert_eq!(fields[1].0, "b");
        }
        other => panic!("unexpected {other:?}"),
    }
}

#[test]
fn reverse_twice_is_identity() {
    let v = Value::Array(vec![num("1"), st("x"), Value::Null]);
    match std_reverse(&std_reverse(&v).unwrap()).unwrap() {
        Value::Array(items) => {
            assert_eq!(items.len(), 3);
            assert!(matches!(&items[1], Value::String(s) if s == "x"));
        }
        other => panic!("unexpected {other:?}"),
    }
}

#[test]
fn prune_twice_is_prune_once() {
    let v = Value::Array(vec![Value::Null, Value::Array(vec![Value::Object(vec![])]), num("1")]);
    let once = std_prune(&v);
    let twice = std_prune(&once);
    assert_eq!(format!("{once:?}"), format!("{twice:?}"));
}

#[test]
fn merge_patch_twice_is_merge_patch_once() {
    let target = Value::Object(vec![("a".to_string(), num("1")), ("b".to_string(), num("2"))]);
    let patch = Value::Object(vec![
        ("a".to_string(), Value::Null),
        ("c".to_string(), Value::Object(vec![("d".to_string(), Value::Null)])),
    ]);
    let once = std_merge_patch(&target, &patch);
    let twice = std_merge_patch(&once, &patch);
    assert_eq!(format!("{once:?}"), format!("{twice:?}"));
}

#[test]
fn manifested_json_parses_back() {
    let v = Value::Object(vec![
        ("a".to_string(), Value::Array(vec![num("-0.5e+3"), Value::Null, Value::Bool(true), Value::Array(vec![])])),
        ("b \"q\"".to_string(), Value::Object(vec![("x".to_string(), st("é\n\u{7f}")), ("y".to_string(), Value::Object(vec![]))])),
        ("c".to_string(), Value::Bool(false)),
        ("d".to_string(), num("10")),
    ]);
    let one_line = ManifestJsonFormat::default_to_string();
    let expected = manifest_json(&v, &one_line);
    for fmt in [
        ManifestJsonFormat::default_manifest(),
        ManifestJsonFormat::default_to_string(),
        ManifestJsonFormat::for_std_manifest_ex("\t", "\r\n", " : "),
        ManifestJsonFormat::for_std_manifest_ex("", "", ":"),
    ] {
        let text = manifest_json(&v, &fmt);
        let back = parse_json(&text).unwrap();
        assert_eq!(manifest_json(&back, &one_line), expected);
    }
}

#[test]
fn repeated_keys_do_not_parse_back() {
    let v = Value::Object(vec![("a".to_string(), num("1")), ("a".to_string(), num("2"))]);
    let text = manifest_json(&v, &ManifestJsonFormat::default_to_string());
    assert_eq!(text.matches("\"a\": ").count(), 2);
    assert!(parse_json(&text).is_err());
}
