use rsjsonnet_lang::error::{EvalErrorKind, EvalErrorValueType};
use rsjsonnet_lang::std_values::{
    std_decode_utf8, std_deep_join, std_encode_utf8, std_flatten_arrays, std_join, std_length,
    std_object_remove_key, std_prune, std_range, std_repeat, std_reverse, std_slice, std_type, std_all, std_any,
    std_flatten_deep_array, std_remove_at,
};
use rsjsonnet_lang::strings::member_string;
use rsjsonnet_lang::merge_patch::std_merge_patch;
use rsjsonnet_lang::value::Value;

fn num(t: &str) -> Value {
    Value::Number(t.to_string())
}

fn st(t: &str) -> Value {
    Value::String(t.to_string())
}

fn arr(items: Vec<Value>) -> Value {
    Value::Array(items)
}

fn obj(fields: Vec<(&str, Value)>) -> Value {
    Value::Object(fields.into_iter().map(|(k, v)| (k.to_string(), v)).collect())
}

fn show(v: &Value) -> String {
    match v {
        Value::Null => "null".to_string(),
        Value::Bool(b) => b.to_string(),
        Value::Number(n) => format!("#{n}"),
        Value::String(s) => format!("{s:?}"),
        Value::Array(items) => {
            let parts: Vec<String> = items.iter().map(show).collect();
            format!("[{}]", parts.join(","))
        }
        Value::Object(fields) => {
            let parts: Vec<String> = fields.iter().map(|(k, v)| format!("{k}={}", show(v))).collect();
            format!("{{{}}}", parts.join(","))
        }
    }
}

fn message(e: EvalErrorKind) -> String {
    match e {
        EvalErrorKind::Other { span: None, message } => message,
        other => panic!("unexpected error {other:?}"),
    }
}

fn arg_error(e: EvalErrorKind) -> (String, usize, Vec<EvalErrorValueType>, EvalErrorValueType) {
    match e {
        EvalErrorKind::InvalidStdFuncArgType { func_name, arg_index, expected_types, got_type } => {
            (func_name, arg_index, expected_types, got_type)
        }
        other => panic!("unexpected error {other:?}"),
    }
}

#[test]
fn length_of_values() {
    assert_eq!(std_length(&st("héllo")).unwrap(), 5);
    assert_eq!(std_length(&arr(vec![Value::Null, num("1")])).unwrap(), 2);
    assert_eq!(std_length(&obj(vec![("a", num("1"))])).unwrap(), 1);
    let (f, i, expected, got) = arg_error(std_length(&num("3")).unwrap_err());
    assert_eq!((f.as_str(), i, got), ("length", 0, EvalErrorValueType::Number));
    assert_eq!(
        expected,
        vec![
            EvalErrorValueType::String,
            EvalErrorValueType::Array,
            EvalErrorValueType::Object,
            EvalErrorValueType::Function
        ]
    );
}

#[test]
fn reverse_strings_and_arrays() {
    assert_eq!(show(&std_reverse(&st("abc")).unwrap()), "[\"c\",\"b\",\"a\"]");
    assert_eq!(show(&std_reverse(&arr(vec![num("1"), st("x"), Value::Null])).unwrap()), "[null,\"x\",#1]");
    assert_eq!(show(&std_reverse(&arr(vec![])).unwrap()), "[]");
    let twice = std_reverse(&std_reverse(&arr(vec![num("1"), num("2")])).unwrap()).unwrap();
    assert_eq!(show(&twice), "[#1,#2]");
    assert_eq!(arg_error(std_reverse(&Value::Bool(true)).unwrap_err()).3, EvalErrorValueType::Bool);
}

#[test]
fn flatten_arrays() {
    let v = arr(vec![arr(vec![num("1")]), arr(vec![]), arr(vec![num("2"), arr(vec![num("3")])])]);
    assert_eq!(show(&std_flatten_arrays(&v).unwrap()), "[#1,#2,[#3]]");
    let bad = arr(vec![arr(vec![]), st("x"), num("1")]);
    assert_eq!(message(std_flatten_arrays(&bad).unwrap_err()), "array item must be an array, got string");
    assert_eq!(arg_error(std_flatten_arrays(&obj(vec![])).unwrap_err()).0, "flattenArrays");
}

#[test]
fn repeat_values() {
    assert_eq!(show(&std_repeat(&st("ab"), 3).unwrap()), "\"ababab\"");
    assert_eq!(show(&std_repeat(&st("ab"), 0).unwrap()), "\"\"");
    assert_eq!(show(&std_repeat(&arr(vec![num("1"), Value::Null]), 2).unwrap()), "[#1,null,#1,null]");
    let (f, i, _, got) = arg_error(std_repeat(&num("1"), 2).unwrap_err());
    assert_eq!((f.as_str(), i, got), ("repeat", 0, EvalErrorValueType::Number));
}

#[test]
fn join_strings_and_arrays() {
    let items = arr(vec![st("a"), Value::Null, st("b"), st("")]);
    assert_eq!(show(&std_join(&st(", "), &items).unwrap()), "\"a, b, \"");
    assert_eq!(show(&std_join(&st("-"), &arr(vec![Value::Null])).unwrap()), "\"\"");
    let arrays = arr(vec![arr(vec![num("1")]), Value::Null, arr(vec![num("2"), num("3")])]);
    assert_eq!(show(&std_join(&arr(vec![num("0")]), &arrays).unwrap()), "[#1,#0,#2,#3]");
    assert_eq!(
        message(std_join(&st(","), &arr(vec![st("a"), num("1")])).unwrap_err()),
        "array item must null or string, got number"
    );
    assert_eq!(
        message(std_join(&arr(vec![]), &arr(vec![arr(vec![]), st("x")])).unwrap_err()),
        "array item must null or array, got string"
    );
    let (f, i, expected, got) = arg_error(std_join(&num("1"), &arr(vec![])).unwrap_err());
    assert_eq!((f.as_str(), i, got), ("join", 0, EvalErrorValueType::Number));
    assert_eq!(expected, vec![EvalErrorValueType::String, EvalErrorValueType::Array]);
    let (_, i, expected, got) = arg_error(std_join(&num("1"), &st("x")).unwrap_err());
    assert_eq!((i, got), (1, EvalErrorValueType::String));
    assert_eq!(expected, vec![EvalErrorValueType::Array]);
}

#[test]
fn deep_join_nested() {
    let v = arr(vec![st("a"), arr(vec![st("b"), arr(vec![]), arr(vec![st("c")])]), st("d")]);
    assert_eq!(std_deep_join(&v).unwrap(), "abcd");
    assert_eq!(std_deep_join(&st("x")).unwrap(), "x");
    assert_eq!(
        message(std_deep_join(&arr(vec![st("a"), arr(vec![Value::Bool(true)])])).unwrap_err()),
        "array item must be a string or array, got boolean"
    );
    assert_eq!(arg_error(std_deep_join(&Value::Null).unwrap_err()).0, "deepJoin");
}

#[test]
fn slices() {
    assert_eq!(show(&std_slice(&st("abcdefg"), 1, Some(6), 2).unwrap()), "\"bdf\"");
    assert_eq!(show(&std_slice(&st("abc"), 1, None, 1).unwrap()), "\"bc\"");
    assert_eq!(show(&std_slice(&st("abc"), 2, Some(1), 1).unwrap()), "\"\"");
    assert_eq!(show(&std_slice(&st("abc"), 5, None, 1).unwrap()), "\"\"");
    let a = arr(vec![num("0"), num("1"), num("2"), num("3"), num("4")]);
    assert_eq!(show(&std_slice(&a, 0, None, 3).unwrap()), "[#0,#3]");
    assert_eq!(show(&std_slice(&a, 1, Some(100), usize::MAX).unwrap()), "[#1]");
    assert_eq!(message(std_slice(&a, 0, None, 0).unwrap_err()), "slice step 0 is not a positive integer");
    assert_eq!(arg_error(std_slice(&num("1"), 0, None, 1).unwrap_err()).0, "slice");
}

#[test]
fn object_remove_key() {
    let o = obj(vec![("a", num("1")), ("b", num("2"))]);
    assert_eq!(show(&std_object_remove_key(&o, &st("a")).unwrap()), "{b=#2}");
    assert_eq!(show(&std_object_remove_key(&o, &st("z")).unwrap()), "{a=#1,b=#2}");
    assert_eq!(arg_error(std_object_remove_key(&arr(vec![]), &st("a")).unwrap_err()).1, 0);
    assert_eq!(arg_error(std_object_remove_key(&o, &num("1")).unwrap_err()).1, 1);
}

#[test]
fn prune_drops_empty_values() {
    let v = obj(vec![
        ("a", Value::Null),
        ("b", arr(vec![Value::Null, arr(vec![]), obj(vec![("x", obj(vec![]))]), num("0"), st("")])),
        ("c", obj(vec![("d", Value::Bool(false))])),
        ("e", arr(vec![arr(vec![Value::Null])])),
    ]);
    let p = std_prune(&v);
    assert_eq!(show(&p), "{b=[#0,\"\"],c={d=false}}");
    assert_eq!(show(&std_prune(&p)), show(&p));
    assert_eq!(show(&std_prune(&Value::Null)), "null");
}

#[test]
fn merge_patch_rfc_examples() {
    let target = obj(vec![
        ("a", st("b")),
        ("c", obj(vec![("d", st("e")), ("f", st("g"))])),
    ]);
    let patch = obj(vec![("a", st("z")), ("c", obj(vec![("f", Value::Null)]))]);
    assert_eq!(show(&std_merge_patch(&target, &patch)), "{a=\"z\",c={d=\"e\"}}");
    let target = obj(vec![("title", st("Goodbye!")), ("author", obj(vec![("givenName", st("John"))]))]);
    let patch = obj(vec![("title", st("Hello!")), ("phoneNumber", st("+01")), ("author", obj(vec![("familyName", Value::Null)]))]);
    assert_eq!(
        show(&std_merge_patch(&target, &patch)),
        "{author={givenName=\"John\"},phoneNumber=\"+01\",title=\"Hello!\"}"
    );
}

#[test]
fn merge_patch_edge_cases() {
    assert_eq!(show(&std_merge_patch(&obj(vec![("a", st("b"))]), &arr(vec![st("c")]))), "[\"c\"]");
    assert_eq!(show(&std_merge_patch(&obj(vec![("a", st("b"))]), &Value::Null)), "null");
    assert_eq!(show(&std_merge_patch(&st("x"), &obj(vec![("a", Value::Null)]))), "{}");
    assert_eq!(show(&std_merge_patch(&obj(vec![]), &obj(vec![("a", obj(vec![("b", Value::Null)]))]))), "{a={}}");
    let once = std_merge_patch(&obj(vec![("k", num("1"))]), &obj(vec![("k", Value::Null), ("m", num("2"))]));
    let twice = std_merge_patch(&once, &obj(vec![("k", Value::Null), ("m", num("2"))]));
    assert_eq!(show(&once), "{m=#2}");
    assert_eq!(show(&twice), show(&once));
}

#[test]
fn ranges() {
    assert_eq!(show(&std_range(-2, 2)), "[#-2,#-1,#0,#1,#2]");
    assert_eq!(show(&std_range(3, 3)), "[#3]");
    assert_eq!(show(&std_range(3, 2)), "[]");
    assert_eq!(show(&std_range(i32::MAX, i32::MAX)), "[#2147483647]");
    assert_eq!(show(&std_range(i32::MIN, i32::MIN)), "[#-2147483648]");
}

#[test]
fn utf8_bytes() {
    assert_eq!(show(&std_encode_utf8("aé")), "[#97,#195,#169]");
    assert_eq!(show(&std_encode_utf8("")), "[]");
    assert_eq!(std_decode_utf8(&[97, 195, 169]), "aé");
    assert_eq!(std_decode_utf8(&[97, 255, 98]), "a\u{fffd}b");
}

#[test]
fn type_names() {
    assert_eq!(std_type(&Value::Null), "null");
    assert_eq!(std_type(&Value::Bool(false)), "boolean");
    assert_eq!(std_type(&num("1")), "number");
    assert_eq!(std_type(&st("")), "string");
    assert_eq!(std_type(&arr(vec![])), "array");
    assert_eq!(std_type(&obj(vec![])), "object");
}

#[test]
fn all_and_any_stop_at_the_deciding_item() {
    assert_eq!(std_all(&arr(vec![])).unwrap(), true);
    assert_eq!(std_any(&arr(vec![])).unwrap(), false);
    assert_eq!(std_all(&arr(vec![Value::Bool(true), Value::Bool(true)])).unwrap(), true);
    assert_eq!(std_all(&arr(vec![Value::Bool(true), Value::Bool(false), num("1")])).unwrap(), false);
    assert_eq!(std_any(&arr(vec![Value::Bool(false), Value::Bool(true), num("1")])).unwrap(), true);
    assert_eq!(
        message(std_all(&arr(vec![Value::Bool(true), num("1")])).unwrap_err()),
        "array item 1 must be a boolean, got number"
    );
    assert_eq!(
        message(std_any(&arr(vec![Value::Bool(false), Value::Null])).unwrap_err()),
        "array item 1 must be a boolean, got null"
    );
    assert_eq!(
        arg_error(std_all(&st("x")).unwrap_err()),
        ("all".to_string(), 0, vec![EvalErrorValueType::Array], EvalErrorValueType::String)
    );
    assert_eq!(
        arg_error(std_any(&num("1")).unwrap_err()),
        ("any".to_string(), 0, vec![EvalErrorValueType::Array], EvalErrorValueType::Number)
    );
}

#[test]
fn flatten_deep_array_at_every_depth() {
    let v = arr(vec![num("1"), arr(vec![arr(vec![]), arr(vec![num("2"), arr(vec![st("3")])])]), obj(vec![("a", arr(vec![]))])]);
    assert_eq!(show(&std_flatten_deep_array(&v)), "[#1,#2,\"3\",{a=[]}]");
    assert_eq!(show(&std_flatten_deep_array(&num("5"))), "[#5]");
    assert_eq!(show(&std_flatten_deep_array(&arr(vec![]))), "[]");
}

#[test]
fn remove_at_a_whole_index() {
    let v = arr(vec![num("1"), num("2"), num("3")]);
    assert_eq!(show(&std_remove_at(&v, &num("1"), Some(1)).unwrap()), "[#1,#3]");
    assert_eq!(show(&std_remove_at(&v, &num("1.5"), None).unwrap()), "[#1,#2,#3]");
    assert_eq!(show(&std_remove_at(&v, &num("3"), Some(3)).unwrap()), "[#1,#2,#3]");
    assert_eq!(
        arg_error(std_remove_at(&v, &st("1"), None).unwrap_err()),
        ("containsAt".to_string(), 1, vec![EvalErrorValueType::Number], EvalErrorValueType::String)
    );
    assert_eq!(
        arg_error(std_remove_at(&st("x"), &num("0"), Some(0)).unwrap_err()),
        ("containsAt".to_string(), 0, vec![EvalErrorValueType::Array], EvalErrorValueType::String)
    );
}

#[test]
fn member_of_a_string() {
    assert!(member_string("hello", "ll"));
    assert!(member_string("hello", ""));
    assert!(!member_string("hello", "lo!"));
    assert!(!member_string("", "a"));
}
