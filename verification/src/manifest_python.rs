//! Rendering of values as Python literals and Python variable assignments.

use vstd::prelude::*;
use crate::normalize::{normalize, normalize_model};
use crate::value::{Value, ValueModel, view_items, view_fields, lemma_view_array, lemma_view_object};
use crate::text::{chars_of, string_from_chars, push_str};
use crate::manifest::{json_quote, push_json_string};
use crate::error::{EvalErrorKind, EvalErrorValueType, arg_type_error, is_arg_type_error, type_of};

verus! {

/// The Python literal of a value.
pub open spec fn python_model(v: ValueModel) -> Seq<char>
    decreases v,
{
    match v {
        ValueModel::Null => seq!['N', 'o', 'n', 'e'],
        ValueModel::Bool(b) => if b {
            seq!['T', 'r', 'u', 'e']
        } else {
            seq!['F', 'a', 'l', 's', 'e']
        },
        ValueModel::Number(n) => n,
        ValueModel::String(s) => json_quote(s),
        ValueModel::Array(items) => if items.len() == 0 {
            seq!['[', ']']
        } else {
            seq!['['] + python_items(items) + seq![']']
        },
        ValueModel::Object(fields) => if fields.len() == 0 {
            seq!['{', '}']
        } else {
            seq!['{'] + python_fields(fields) + seq!['}']
        },
    }
}

/// The items of a list, separated by `, `.
pub open spec fn python_items(items: Seq<ValueModel>) -> Seq<char>
    decreases items,
{
    if items.len() == 0 {
        seq![]
    } else {
        let before = if items.len() == 1 {
            seq![]
        } else {
            python_items(items.subrange(0, items.len() - 1)) + seq![',', ' ']
        };
        before + python_model(items[items.len() - 1])
    }
}

/// The entries of a dictionary, separated by `, `.
pub open spec fn python_fields(fields: Seq<(Seq<char>, ValueModel)>) -> Seq<char>
    decreases fields,
{
    if fields.len() == 0 {
        seq![]
    } else {
        let before = if fields.len() == 1 {
            seq![]
        } else {
            python_fields(fields.subrange(0, fields.len() - 1)) + seq![',', ' ']
        };
        let last = fields[fields.len() - 1];
        before + json_quote(last.0) + seq![':', ' '] + python_model(last.1)
    }
}

/// One assignment line per field: the name, ` = `, the Python literal of
/// the value and a line break.
pub open spec fn python_vars_model(fields: Seq<(Seq<char>, ValueModel)>) -> Seq<char>
    decreases fields.len(),
{
    if fields.len() == 0 {
        seq![]
    } else {
        let last = fields.last();
        python_vars_model(fields.drop_last()) + last.0 + seq![' ', '=', ' '] + python_model(last.1) + seq!['\n']
    }
}

proof fn lemma_items_step(items: Seq<ValueModel>, i: int)
    requires
        0 <= i < items.len(),
    ensures
        python_items(items.subrange(0, i + 1)) == python_items(items.subrange(0, i)) + (if i > 0 {
            seq![',', ' ']
        } else {
            seq![]
        }) + python_model(items[i]),
{
    let sub = items.subrange(0, i + 1);
    assert(sub.subrange(0, sub.len() - 1) =~= items.subrange(0, i));
    assert(sub[sub.len() - 1] == items[i]);
    assert(python_items(items.subrange(0, 0)) == Seq::<char>::empty());
}

proof fn lemma_fields_step(fields: Seq<(Seq<char>, ValueModel)>, i: int)
    requires
        0 <= i < fields.len(),
    ensures
        python_fields(fields.subrange(0, i + 1)) == python_fields(fields.subrange(0, i)) + (if i > 0 {
            seq![',', ' ']
        } else {
            seq![]
        }) + json_quote(fields[i].0) + seq![':', ' '] + python_model(fields[i].1),
{
    let sub = fields.subrange(0, i + 1);
    assert(sub.subrange(0, sub.len() - 1) =~= fields.subrange(0, i));
    assert(sub[sub.len() - 1] == fields[i]);
    assert(python_fields(fields.subrange(0, 0)) == Seq::<char>::empty());
}

/// Appends the Python literal of `v`.
fn python_into(v: &Value, out: &mut Vec<char>)
    ensures
        final(out)@ == old(out)@ + python_model(v@),
    decreases v, 1nat,
{
    match v {
        Value::Null => {
            proof {
                reveal_strlit("None");
            }
            push_str(out, "None");
        },
        Value::Bool(b) => {
            proof {
                reveal_strlit("True");
                reveal_strlit("False");
            }
            if *b {
                push_str(out, "True");
            } else {
                push_str(out, "False");
            }
        },
        Value::Number(n) => {
            push_str(out, n.as_str());
        },
        Value::String(st) => {
            let cs = chars_of(st.as_str());
            push_json_string(out, cs.as_slice());
        },
        Value::Array(items) => {
            python_list_into(v, items, out);
        },
        Value::Object(fields) => {
            python_dict_into(v, fields, out);
        },
    }
}

/// Appends the Python list of the array `v`, whose items are `items`.
fn python_list_into(v: &Value, items: &Vec<Value>, out: &mut Vec<char>)
    requires
        *v == Value::Array(*items),
    ensures
        final(out)@ == old(out)@ + python_model(v@),
    decreases v, 0nat,
{
    proof {
        lemma_view_array(*items);
    }
    let ghost vi = view_items(items@);
    if items.len() == 0 {
        out.push('[');
        out.push(']');
        return;
    }
    out.push('[');
    let ghost start = out@;
    proof {
        assert(python_items(vi.subrange(0, 0)) == Seq::<char>::empty());
    }
    let mut i: usize = 0;
    while i < items.len()
        invariant
            0 <= i <= items@.len(),
            vi == view_items(items@),
            *v == Value::Array(*items),
            out@ == start + python_items(vi.subrange(0, i as int)),
        decreases items@.len() - i,
    {
        let ghost before = out@;
        if i > 0 {
            out.push(',');
            out.push(' ');
        }
        proof {
            assert(decreases_to!(*v => (*v)->Array_0));
            assert(decreases_to!(*items => items@));
            assert(decreases_to!(items@ => items@[i as int]));
        }
        python_into(&items[i], out);
        proof {
            assert(vi[i as int] == items@[i as int]@);
            lemma_items_step(vi, i as int);
            let sep = if i > 0 { seq![',', ' '] } else { Seq::<char>::empty() };
            let prev = python_items(vi.subrange(0, i as int));
            assert(out@ =~= start + (prev + sep + python_model(vi[i as int])));
        }
        i += 1;
    }
    out.push(']');
    proof {
        assert(vi.subrange(0, i as int) =~= vi);
    }
}

/// Appends the Python dictionary of the object `v`, whose fields are `fields`.
fn python_dict_into(v: &Value, fields: &Vec<(String, Value)>, out: &mut Vec<char>)
    requires
        *v == Value::Object(*fields),
    ensures
        final(out)@ == old(out)@ + python_model(v@),
    decreases v, 0nat,
{
    proof {
        lemma_view_object(*fields);
    }
    let ghost vf = view_fields(fields@);
    if fields.len() == 0 {
        out.push('{');
        out.push('}');
        return;
    }
    out.push('{');
    let ghost start = out@;
    proof {
        assert(python_fields(vf.subrange(0, 0)) == Seq::<char>::empty());
    }
    let mut i: usize = 0;
    while i < fields.len()
        invariant
            0 <= i <= fields@.len(),
            vf == view_fields(fields@),
            *v == Value::Object(*fields),
            out@ == start + python_fields(vf.subrange(0, i as int)),
        decreases fields@.len() - i,
    {
        if i > 0 {
            out.push(',');
            out.push(' ');
        }
        let name = chars_of(fields[i].0.as_str());
        push_json_string(out, name.as_slice());
        out.push(':');
        out.push(' ');
        proof {
            assert(decreases_to!(*v => (*v)->Object_0));
            assert(decreases_to!(*fields => fields@));
            assert(decreases_to!(fields@ => fields@[i as int]));
            assert(decreases_to!(fields@[i as int] => fields@[i as int].1));
        }
        python_into(&fields[i].1, out);
        proof {
            assert(vf[i as int] == (fields@[i as int].0@, fields@[i as int].1@));
            lemma_fields_step(vf, i as int);
            let sep = if i > 0 { seq![',', ' '] } else { Seq::<char>::empty() };
            let prev = python_fields(vf.subrange(0, i as int));
            assert(out@ =~= start + (prev + sep + json_quote(vf[i as int].0) + seq![':', ' '] + python_model(vf[i as int].1)));
        }
        i += 1;
    }
    out.push('}');
    proof {
        assert(vf.subrange(0, i as int) =~= vf);
    }
}

/// The Python literal of a value (`std.manifestPython`).
/// This writes the fields of each object in the order given.
fn manifest_python_in_order(v: &Value) -> (res: String)
    ensures
        res@ == python_model(v@),
{
    let mut out: Vec<char> = Vec::new();
    python_into(v, &mut out);
    proof {
        assert(Seq::<char>::empty() + python_model(v@) =~= python_model(v@));
    }
    string_from_chars(out.as_slice())
}

/// Python assignments of the fields of an object (`std.manifestPythonVars`);
/// any other value is refused.
/// This writes the fields of each object in the order given.
fn manifest_python_vars_in_order(v: &Value) -> (res: Result<String, EvalErrorKind>)
    ensures
        match v@ {
            ValueModel::Object(fields) => res matches Ok(s) && s@ == python_vars_model(fields),
            _ => res matches Err(e) && is_arg_type_error(
                e,
                "manifestPythonVars"@,
                0,
                seq![EvalErrorValueType::Object],
                type_of(v@),
            ),
        },
{
    let fields = match v {
        Value::Object(fields) => fields,
        _ => {
            return Err(
                arg_type_error(
                    "manifestPythonVars",
                    0,
                    EvalErrorValueType::Object,
                    EvalErrorValueType::from_value(v),
                ),
            );
        },
    };
    proof {
        lemma_view_object(*fields);
    }
    let ghost vf = view_fields(fields@);
    let mut out: Vec<char> = Vec::new();
    let mut i: usize = 0;
    while i < fields.len()
        invariant
            0 <= i <= fields@.len(),
            vf == view_fields(fields@),
            out@ == python_vars_model(vf.subrange(0, i as int)),
        decreases fields@.len() - i,
    {
        push_str(&mut out, fields[i].0.as_str());
        out.push(' ');
        out.push('=');
        out.push(' ');
        python_into(&fields[i].1, &mut out);
        out.push('\n');
        proof {
            let sub = vf.subrange(0, i + 1);
            assert(sub.drop_last() =~= vf.subrange(0, i as int));
            assert(sub.last() == (fields@[i as int].0@, fields@[i as int].1@));
        }
        i += 1;
    }
    proof {
        assert(vf.subrange(0, i as int) =~= vf);
    }
    Ok(string_from_chars(out.as_slice()))
}

/// The Python literal of a value (`std.manifestPython`).
pub fn manifest_python(v: &Value) -> (res: String)
    ensures
        res@ == python_model(normalize_model(v@)),
{
    let n = normalize(v);
    manifest_python_in_order(&n)
}

/// Python assignments of the fields of an object (`std.manifestPythonVars`);
/// any other value is refused.
pub fn manifest_python_vars(v: &Value) -> (res: Result<String, EvalErrorKind>)
    ensures
        match normalize_model(v@) {
            ValueModel::Object(fields) => res matches Ok(s) && s@ == python_vars_model(fields),
            _ => res matches Err(e) && is_arg_type_error(
                e,
                "manifestPythonVars"@,
                0,
                seq![EvalErrorValueType::Object],
                type_of(normalize_model(v@)),
            ),
        },
{
    let n = normalize(v);
    manifest_python_vars_in_order(&n)
}

} // verus!
