use rsjsonnet_lang::error::{EvalErrorKind, EvalErrorValueType};
use rsjsonnet_lang::manifest::{
    escape_string_json, escape_string_python, escape_string_toml, manifest_json, value_to_string, ManifestJsonFormat,
};
use rsjsonnet_lang::manifest_ini::manifest_ini;
use rsjsonnet_lang::manifest_python::{manifest_python, manifest_python_vars};
use rsjsonnet_lang::manifest_toml::{escape_key_toml, is_safe_toml_plain, manifest_toml_ex};
use rsjsonnet_lang::manifest_xml::manifest_xml_jsonml;
use rsjsonnet_lang::manifest_yaml::{manifest_yaml_doc, manifest_yaml_stream};
use rsjsonnet_lang::normalize::{normalize, sort_field_vec};
use rsjsonnet_lang::value::Value;
use rsjsonnet_lang::yaml_key::is_safe_yaml_plain;

fn num(t: &str) -> Value {
    Value::Number(t.to_string())
}

fn st(t: &str) -> Value {
    Value::String(t.to_string())
}

fn arr(items: Vec<Value>) -> Value {
    Value::Array(items)
}

fn obj(fields: Vec<(&str, Value)>) -> Value {
    Value::Object(fields.into_iter().map(|(k, v)| (k.to_string(), v)).collect())
}

fn message(e: EvalErrorKind) -> String {
    match e {
        EvalErrorKind::Other { span: None, message } => message,
        other => panic!("unexpected error {other:?}"),
    }
}

fn chars(s: &str) -> Vec<char> {
    s.chars().collect()
}

#[test]
fn json_escapes() {
    assert_eq!(escape_string_json("a\"b\\c"), "\"a\\\"b\\\\c\"");
    assert_eq!(escape_string_json("\u{8}\t\n\u{c}\r"), "\"\\b\\t\\n\\f\\r\"");
    assert_eq!(escape_string_json("\u{1}\u{19}"), "\"\\u0001\\u0019\"");
    assert_eq!(escape_string_json("\u{1b}\u{1f}"), "\"\u{1b}\u{1f}\"");
    assert_eq!(escape_string_json("\u{7f}\u{9f}\u{a0}"), "\"\\u007f\\u009f\u{a0}\"");
    assert_eq!(escape_string_json("é/€"), "\"é/€\"");
    assert_eq!(escape_string_python("x\n"), "\"x\\n\"");
    assert_eq!(escape_string_toml("x\n"), "\"x\\n\"");
}

#[test]
fn json_to_string_layout() {
    let v = obj(vec![("a", arr(vec![num("1"), num("2")])), ("b", st("x")), ("c", arr(vec![])), ("d", obj(vec![]))]);
    let text = manifest_json(&v, &ManifestJsonFormat::default_to_string());
    assert_eq!(text, "{\"a\": [1, 2], \"b\": \"x\", \"c\": [ ], \"d\": { }}");
}

#[test]
fn json_manifest_layout() {
    let v = obj(vec![("a", arr(vec![num("1"), num("2")])), ("b", obj(vec![])), ("c", arr(vec![]))]);
    let text = manifest_json(&v, &ManifestJsonFormat::default_manifest());
    assert_eq!(text, "{\n   \"a\": [\n      1,\n      2\n   ],\n   \"b\": { },\n   \"c\": [ ]\n}");
    assert_eq!(manifest_json(&Value::Null, &ManifestJsonFormat::default_manifest()), "null");
    assert_eq!(manifest_json(&Value::Bool(true), &ManifestJsonFormat::default_manifest()), "true");
}

#[test]
fn json_manifest_ex_layout() {
    let f = ManifestJsonFormat::for_std_manifest_ex("  ", "\n", ": ");
    assert_eq!(manifest_json(&arr(vec![]), &f), "[\n\n]");
    let v = obj(vec![("a", obj(vec![])), ("b", arr(vec![Value::Null]))]);
    assert_eq!(manifest_json(&v, &f), "{\n  \"a\": {\n\n  },\n  \"b\": [\n    null\n  ]\n}");
    let compact = ManifestJsonFormat::for_std_manifest_ex("", "", ":");
    assert_eq!(manifest_json(&v, &compact), "{\"a\":{},\"b\":[null]}");
}

#[test]
fn value_to_string_keeps_strings_raw() {
    assert_eq!(value_to_string(&st("a\"b")), "a\"b");
    assert_eq!(value_to_string(&arr(vec![st("a"), Value::Bool(false)])), "[\"a\", false]");
}

#[test]
fn yaml_doc_layout() {
    let v = obj(vec![
        ("a", num("1")),
        ("b", arr(vec![num("1"), st("x")])),
        ("c", obj(vec![("d", Value::Null)])),
        ("e", st("l1\nl2\n")),
    ]);
    assert_eq!(manifest_yaml_doc(&v, false, false), "a: 1\nb:\n- 1\n- \"x\"\nc:\n  d: null\ne: |\n  l1\n  l2");
    assert_eq!(
        manifest_yaml_doc(&v, true, false),
        "a: 1\nb:\n  - 1\n  - \"x\"\nc:\n  d: null\ne: |\n  l1\n  l2"
    );
    assert_eq!(
        manifest_yaml_doc(&v, false, true),
        "\"a\": 1\n\"b\":\n- 1\n- \"x\"\n\"c\":\n  \"d\": null\n\"e\": |\n  l1\n  l2"
    );
}

#[test]
fn yaml_doc_nesting() {
    let v = arr(vec![obj(vec![("k", num("1")), ("l", arr(vec![]))]), arr(vec![Value::Bool(true)]), obj(vec![])]);
    assert_eq!(manifest_yaml_doc(&v, false, false), "- k: 1\n  l: []\n-\n  - true\n- {}");
    assert_eq!(manifest_yaml_doc(&st("x\n"), false, false), "|\n  x");
    assert_eq!(manifest_yaml_doc(&obj(vec![("a b", num("1")), ("true", num("2"))]), false, false), "\"a b\": 1\n\"true\": 2");
}

#[test]
fn yaml_stream_layout() {
    let docs = vec![num("1"), obj(vec![("a", num("2"))])];
    assert_eq!(manifest_yaml_stream(&docs, false, true, false), "---\n1\n---\na: 2\n...\n");
    assert_eq!(manifest_yaml_stream(&docs, false, false, false), "---\n1\n---\na: 2\n");
    assert_eq!(manifest_yaml_stream(&vec![], false, true, false), "---\n\n...\n");
}

#[test]
fn yaml_plain_keys() {
    assert!(is_safe_yaml_plain(&chars("abc")));
    assert!(is_safe_yaml_plain(&chars("a_b-c")));
    assert!(!is_safe_yaml_plain(&chars("")));
    assert!(!is_safe_yaml_plain(&chars("a b")));
    assert!(!is_safe_yaml_plain(&chars("true")));
    assert!(!is_safe_yaml_plain(&chars("null")));
    assert!(!is_safe_yaml_plain(&chars("12")));
    assert!(is_safe_yaml_plain(&chars("-x")));
    assert!(!is_safe_yaml_plain(&chars("1.5")));
    assert!(!is_safe_yaml_plain(&chars("2024-01-02")));
    assert!(!is_safe_yaml_plain(&chars("0x1F")));
    assert!(!is_safe_yaml_plain(&chars("YES")));
}

#[test]
fn python_literals() {
    let v = obj(vec![("a", arr(vec![num("1"), Value::Null, Value::Bool(true)])), ("b", st("x")), ("c", obj(vec![]))]);
    assert_eq!(manifest_python(&v), "{\"a\": [1, None, True], \"b\": \"x\", \"c\": {}}");
    assert_eq!(manifest_python(&arr(vec![])), "[]");
    assert_eq!(manifest_python(&Value::Bool(false)), "False");
}

#[test]
fn python_vars() {
    let v = obj(vec![("a", num("1")), ("b", st("x"))]);
    assert_eq!(manifest_python_vars(&v).unwrap(), "a = 1\nb = \"x\"\n");
    match manifest_python_vars(&num("1")).unwrap_err() {
        EvalErrorKind::InvalidStdFuncArgType { func_name, arg_index, expected_types, got_type } => {
            assert_eq!(func_name, "manifestPythonVars");
            assert_eq!(arg_index, 0);
            assert_eq!(expected_types, vec![EvalErrorValueType::Object]);
            assert_eq!(got_type, EvalErrorValueType::Number);
        }
        other => panic!("unexpected {other:?}"),
    }
}

#[test]
fn ini_files() {
    let v = obj(vec![
        ("main", obj(vec![("a", st("1")), ("b", arr(vec![num("1"), num("2")]))])),
        ("sections", obj(vec![("s1", obj(vec![("c", Value::Bool(true))])), ("s2", obj(vec![]))])),
    ]);
    assert_eq!(manifest_ini(&v).unwrap(), "a = 1\nb = 1\nb = 2\n[s1]\nc = true\n[s2]\n");
    let no_main = obj(vec![("sections", obj(vec![("s", obj(vec![("k", st("v"))]))]))]);
    assert_eq!(manifest_ini(&no_main).unwrap(), "[s]\nk = v\n");
}

#[test]
fn ini_errors() {
    assert_eq!(message(manifest_ini(&obj(vec![("main", obj(vec![]))])).unwrap_err()), "missing \"sections\" field");
    assert_eq!(
        message(manifest_ini(&obj(vec![("sections", num("1"))])).unwrap_err()),
        "\"sections\" field must be an object"
    );
    assert_eq!(
        message(manifest_ini(&obj(vec![("sections", obj(vec![("s", num("1"))]))])).unwrap_err()),
        "ini section must be an object"
    );
    assert_eq!(
        message(manifest_ini(&obj(vec![("main", st("x")), ("sections", obj(vec![]))])).unwrap_err()),
        "ini section must be an object"
    );
    assert!(matches!(
        manifest_ini(&arr(vec![])).unwrap_err(),
        EvalErrorKind::InvalidStdFuncArgType { got_type: EvalErrorValueType::Array, .. }
    ));
}

#[test]
fn xml_from_jsonml() {
    let v = arr(vec![st("a"), obj(vec![("x", st("1")), ("y", num("2"))]), st("text"), arr(vec![st("b")])]);
    assert_eq!(manifest_xml_jsonml(&v).unwrap(), "<a x=\"1\" y=\"2\">text<b></b></a>");
    assert_eq!(manifest_xml_jsonml(&arr(vec![st("a"), st("t")])).unwrap(), "<a>t</a>");
    assert_eq!(manifest_xml_jsonml(&arr(vec![st("a"), arr(vec![st("b")])])).unwrap(), "<a><b></b></a>");
    assert_eq!(manifest_xml_jsonml(&arr(vec![st("a")])).unwrap(), "<a></a>");
}

#[test]
fn xml_errors() {
    assert_eq!(message(manifest_xml_jsonml(&arr(vec![])).unwrap_err()), "JsonML array is empty");
    assert_eq!(
        message(manifest_xml_jsonml(&arr(vec![num("1")])).unwrap_err()),
        "first element of JsonML array must be a string, got number"
    );
    assert_eq!(
        message(manifest_xml_jsonml(&arr(vec![st("a"), num("1")])).unwrap_err()),
        "second element of JsonML array must be a string, array or object, got number"
    );
    assert_eq!(
        message(manifest_xml_jsonml(&arr(vec![st("a"), st("t"), Value::Null])).unwrap_err()),
        "second element of JsonML array must be a string or array, got null"
    );
    assert_eq!(
        message(manifest_xml_jsonml(&arr(vec![st("a"), arr(vec![])])).unwrap_err()),
        "JsonML array is empty"
    );
}

#[test]
fn toml_documents() {
    let v = obj(vec![
        ("a", num("1")),
        ("arr", arr(vec![obj(vec![("d", num("1"))]), obj(vec![("d", num("2"))])])),
        ("b", st("x")),
        ("list", arr(vec![num("1"), num("2")])),
        ("t", obj(vec![("c", Value::Bool(true))])),
    ]);
    assert_eq!(
        manifest_toml_ex(&v, "  ").unwrap(),
        "a = 1\nb = \"x\"\nlist = [\n  1,\n  2\n]\n\n[[arr]]\n  d = 1\n\n[[arr]]\n  d = 2\n\n[t]\n  c = true"
    );
}

#[test]
fn toml_inline_values() {
    let v = obj(vec![
        ("e", arr(vec![])),
        ("m", arr(vec![num("1"), obj(vec![("k", arr(vec![num("2"), num("3")]))]), obj(vec![])])),
        ("q key", st("v")),
    ]);
    assert_eq!(manifest_toml_ex(&v, "").unwrap(), "e = []\nm = [\n1,\n{ k = [ 2, 3 ] },\n{  }\n]\n\"q key\" = \"v\"");
    let nested = obj(vec![("t", obj(vec![("u", obj(vec![("x", num("1"))]))]))]);
    assert_eq!(manifest_toml_ex(&nested, "  ").unwrap(), "\n\n[t]\n\n\n  [t.u]\n    x = 1");
}

#[test]
fn toml_refuses_null() {
    let v = obj(vec![("a", arr(vec![Value::Null]))]);
    assert_eq!(message(manifest_toml_ex(&v, "").unwrap_err()), "cannot manifest null in TOML");
    assert!(matches!(
        manifest_toml_ex(&st("x"), "").unwrap_err(),
        EvalErrorKind::InvalidStdFuncArgType { got_type: EvalErrorValueType::String, .. }
    ));
}

#[test]
fn toml_keys() {
    assert!(is_safe_toml_plain(&chars("a-b_9")));
    assert!(!is_safe_toml_plain(&chars("")));
    assert!(!is_safe_toml_plain(&chars("a.b")));
    assert_eq!(escape_key_toml("plain"), "plain");
    assert_eq!(escape_key_toml("a b"), "\"a b\"");
}

#[test]
fn normalize_sorts_fields_everywhere() {
    let v = obj(vec![("b", num("1")), ("a", arr(vec![obj(vec![("z", Value::Null), ("y", Value::Null)])]))]);
    let n = normalize(&v);
    assert_eq!(manifest_json(&n, &ManifestJsonFormat::default_to_string()), "{\"a\": [{\"y\": null, \"z\": null}], \"b\": 1}");
    let fields = vec![("b".to_string(), num("2")), ("B".to_string(), num("1")), ("ab".to_string(), num("3"))];
    let sorted = sort_field_vec(fields);
    let names: Vec<&str> = sorted.iter().map(|(k, _)| k.as_str()).collect();
    assert_eq!(names, vec!["B", "ab", "b"]);
}

#[test]
fn value_types_are_named() {
    assert_eq!(EvalErrorValueType::Null.to_str(), "null");
    assert_eq!(EvalErrorValueType::Bool.to_str(), "boolean");
    assert_eq!(EvalErrorValueType::Number.to_str(), "number");
    assert_eq!(EvalErrorValueType::String.to_str(), "string");
    assert_eq!(EvalErrorValueType::Array.to_str(), "array");
    assert_eq!(EvalErrorValueType::Object.to_str(), "object");
    assert_eq!(EvalErrorValueType::Function.to_str(), "function");
    assert_eq!(EvalErrorValueType::from_value(&obj(vec![])), EvalErrorValueType::Object);
}

#[test]
fn fields_are_written_in_the_order_of_their_names() {
    let v = obj(vec![("b", num("1")), ("a", obj(vec![("y", st("x")), ("x", Value::Null)]))]);
    assert_eq!(value_to_string(&v), "{\"a\": {\"x\": null, \"y\": \"x\"}, \"b\": 1}");
    assert_eq!(manifest_python(&v), "{\"a\": {\"x\": None, \"y\": \"x\"}, \"b\": 1}");
    assert_eq!(manifest_yaml_doc(&v, false, false), "a:\n  x: null\n  \"y\": \"x\"\nb: 1");
}
