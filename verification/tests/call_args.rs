use rsjsonnet_lang::call_args::{check_call_args, ArgSource, FuncParams, NamedArg};
use rsjsonnet_lang::error::EvalErrorKind;

fn params(ps: &[(&str, bool)]) -> FuncParams {
    FuncParams::new(ps.iter().map(|(n, d)| (n.to_string(), *d)).collect())
}

fn named(names: &[&str]) -> Vec<NamedArg> {
    names.iter().map(|n| NamedArg { name: n.to_string(), name_span: None }).collect()
}

#[test]
fn positional_then_named_then_defaults() {
    let p = params(&[("a", false), ("b", false), ("c", true), ("d", false)]);
    assert_eq!(p.len(), 4);
    let srcs = check_call_args(&p, 1, &named(&["d", "b"]), None).unwrap();
    assert_eq!(srcs, vec![ArgSource::Positional(0), ArgSource::Named(1), ArgSource::Default, ArgSource::Named(0)]);
    let all = check_call_args(&p, 4, &[], None).unwrap();
    assert_eq!(all, vec![ArgSource::Positional(0), ArgSource::Positional(1), ArgSource::Positional(2), ArgSource::Positional(3)]);
}

#[test]
fn binding_errors() {
    let p = params(&[("a", false), ("b", true)]);
    assert_eq!(
        check_call_args(&p, 3, &[], None).unwrap_err(),
        EvalErrorKind::TooManyCallArgs { span: None, num_params: 2 }
    );
    assert_eq!(
        check_call_args(&p, 0, &named(&["z"]), None).unwrap_err(),
        EvalErrorKind::UnknownCallParam { span: None, param_name: "z".to_string() }
    );
    assert_eq!(
        check_call_args(&p, 1, &named(&["a"]), None).unwrap_err(),
        EvalErrorKind::RepeatedCallParam { span: None, param_name: "a".to_string() }
    );
    assert_eq!(
        check_call_args(&p, 0, &named(&["b", "b"]), None).unwrap_err(),
        EvalErrorKind::RepeatedCallParam { span: None, param_name: "b".to_string() }
    );
    assert_eq!(
        check_call_args(&p, 0, &named(&["b"]), None).unwrap_err(),
        EvalErrorKind::CallParamNotBound { span: None, param_name: "a".to_string() }
    );
    assert_eq!(check_call_args(&p, 1, &[], None).unwrap(), vec![ArgSource::Positional(0), ArgSource::Default]);
}
