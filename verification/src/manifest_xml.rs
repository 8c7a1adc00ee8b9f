//! Rendering of JsonML arrays as XML.

use vstd::prelude::*;
use crate::normalize::{normalize, normalize_model};
use crate::value::{Value, ValueModel, view_items, view_fields, lemma_view_array, lemma_view_object};
use crate::text::{string_from_chars, push_str, concat_str};
use crate::manifest::{to_string_model, push_value_string};
use crate::error::{
    EvalErrorKind,
    EvalErrorValueType,
    arg_type_error,
    is_arg_type_error,
    is_other_error,
    other_error,
    type_of,
    value_type_text,
};

verus! {

/// The attributes of an element: ` name="value"` for each field, the value
/// written as a string.
pub open spec fn xml_attrs(fields: Seq<(Seq<char>, ValueModel)>) -> Seq<char>
    decreases fields.len(),
{
    if fields.len() == 0 {
        seq![]
    } else {
        xml_attrs(fields.drop_last()) + seq![' '] + fields.last().0 + seq!['=', '"'] + to_string_model(fields.last().1)
            + seq!['"']
    }
}

/// The XML of a JsonML element `[tag, attributes or child, children...]`,
/// or the message of the first error in it.
pub open spec fn xml_element(items: Seq<ValueModel>) -> Result<Seq<char>, Seq<char>>
    decreases items, 1nat,
{
    if items.len() == 0 {
        Err("JsonML array is empty"@)
    } else {
        match items[0] {
            ValueModel::String(tag) => {
                let open = seq!['<'] + tag;
                let close = seq!['<', '/'] + tag + seq!['>'];
                if items.len() == 1 {
                    Ok(open + seq!['>'] + close)
                } else {
                    let second = xml_second(items[1]);
                    match second {
                        Err(m) => Err(m),
                        Ok(second_text) => match xml_children(items.subrange(2, items.len() as int)) {
                            Err(m) => Err(m),
                            Ok(children) => Ok(open + second_text + children + close),
                        },
                    }
                }
            },
            _ => Err("first element of JsonML array must be a string, got "@ + value_type_text(type_of(items[0]))),
        }
    }
}

/// The second element of a JsonML array: text, a child element, or the
/// attributes.
pub open spec fn xml_second(item: ValueModel) -> Result<Seq<char>, Seq<char>>
    decreases item, 0nat,
{
    match item {
        ValueModel::String(s) => Ok(seq!['>'] + s),
        ValueModel::Array(a) => match xml_element(a) {
            Ok(t) => Ok(seq!['>'] + t),
            Err(m) => Err(m),
        },
        ValueModel::Object(fields) => Ok(xml_attrs(fields) + seq!['>']),
        _ => Err(
            "second element of JsonML array must be a string, array or object, got "@ + value_type_text(type_of(item)),
        ),
    }
}

/// The XML of the children after the second element: a string is written
/// as it is, an array as an element.
pub open spec fn xml_children(items: Seq<ValueModel>) -> Result<Seq<char>, Seq<char>>
    decreases items, 0nat,
{
    if items.len() == 0 {
        Ok(seq![])
    } else {
        match xml_children(items.drop_last()) {
            Err(m) => Err(m),
            Ok(before) => match items.last() {
                ValueModel::String(s) => Ok(before + s),
                ValueModel::Array(a) => match xml_element(a) {
                    Ok(t) => Ok(before + t),
                    Err(m) => Err(m),
                },
                _ => Err(
                    "second element of JsonML array must be a string or array, got "@ + value_type_text(
                        type_of(items.last()),
                    ),
                ),
            },
        }
    }
}

/// What an appending step promises: on `Ok` the text was appended, on `Err`
/// the error carries the message of the model.
pub open spec fn appended(
    model: Result<Seq<char>, Seq<char>>,
    res: Result<(), EvalErrorKind>,
    before: Seq<char>,
    after: Seq<char>,
) -> bool {
    match model {
        Ok(t) => res is Ok && after == before + t,
        Err(m) => res matches Err(e) && is_other_error(e, m),
    }
}

fn type_error(prefix: &str, v: &Value) -> (res: EvalErrorKind)
    ensures
        is_other_error(res, prefix@ + value_type_text(type_of(v@))),
{
    let t = EvalErrorValueType::from_value(v);
    other_error(concat_str(prefix, t.to_str()))
}

/// Appends the attributes of an element.
fn push_attrs(out: &mut Vec<char>, fields: &Vec<(String, Value)>)
    ensures
        final(out)@ == old(out)@ + xml_attrs(view_fields(fields@)),
{
    let ghost vf = view_fields(fields@);
    let ghost start = out@;
    let mut i: usize = 0;
    while i < fields.len()
        invariant
            0 <= i <= fields@.len(),
            vf == view_fields(fields@),
            out@ == start + xml_attrs(vf.subrange(0, i as int)),
        decreases fields@.len() - i,
    {
        out.push(' ');
        push_str(out, fields[i].0.as_str());
        out.push('=');
        out.push('"');
        push_value_string(out, &fields[i].1);
        out.push('"');
        proof {
            let sub = vf.subrange(0, i + 1);
            assert(sub.drop_last() =~= vf.subrange(0, i as int));
            assert(sub.last() == (fields@[i as int].0@, fields@[i as int].1@));
        }
        i += 1;
    }
    proof {
        assert(vf.subrange(0, i as int) =~= vf);
    }
}

/// Appends the XML of the element `v`, whose items are `items`.
fn element_into(v: &Value, items: &Vec<Value>, out: &mut Vec<char>) -> (res: Result<(), EvalErrorKind>)
    requires
        *v == Value::Array(*items),
    ensures
        appended(xml_element(view_items(items@)), res, old(out)@, final(out)@),
    decreases v, 1nat,
{
    proof {
        lemma_view_array(*items);
    }
    let ghost vi = view_items(items@);
    if items.len() == 0 {
        return Err(other_error(String::from_str("JsonML array is empty")));
    }
    let tag = match &items[0] {
        Value::String(tag) => tag,
        _ => {
            return Err(type_error("first element of JsonML array must be a string, got ", &items[0]));
        },
    };
    let ghost start = out@;
    out.push('<');
    push_str(out, tag.as_str());
    let ghost after_open = out@;
    if items.len() == 1 {
        out.push('>');
        out.push('<');
        out.push('/');
        push_str(out, tag.as_str());
        out.push('>');
        proof {
            assert(out@ =~= start + (seq!['<'] + tag@ + seq!['>'] + (seq!['<', '/'] + tag@ + seq!['>'])));
        }
        return Ok(());
    }
    let r = second_into(v, items, out);
    if r.is_err() {
        return r;
    }
    let ghost second = xml_second(vi[1])->Ok_0;
    let ghost after_second = out@;
    let r = children_into(v, items, out);
    if r.is_err() {
        proof {
            assert(items@.subrange(2, items@.len() as int).map_values(|x: Value| x@) =~= vi.subrange(2, vi.len() as int));
        }
        return r;
    }
    let ghost children = xml_children(view_items(items@.subrange(2, items@.len() as int)))->Ok_0;
    proof {
        assert(out@ == after_second + children);
        assert(after_second == after_open + second);
    }
    out.push('<');
    out.push('/');
    push_str(out, tag.as_str());
    out.push('>');
    proof {
        assert(vi.subrange(2, vi.len() as int) =~= view_items(items@.subrange(2, items@.len() as int)));
        let close = seq!['<', '/'] + tag@ + seq!['>'];
        assert(out@ =~= start + (seq!['<'] + tag@ + second + children + close));
    }
    Ok(())
}

/// Appends the second element of the element `v`, whose items are `items`.
fn second_into(v: &Value, items: &Vec<Value>, out: &mut Vec<char>) -> (res: Result<(), EvalErrorKind>)
    requires
        *v == Value::Array(*items),
        items@.len() >= 2,
    ensures
        appended(xml_second(items@[1]@), res, old(out)@, final(out)@),
    decreases v, 0nat,
{
    proof {
        assert(decreases_to!(*v => (*v)->Array_0));
        assert(decreases_to!(*items => items@));
        assert(decreases_to!(items@ => items@[1]));
    }
    let ghost start = out@;
    match &items[1] {
        Value::String(s) => {
            out.push('>');
            push_str(out, s.as_str());
            proof {
                assert(out@ =~= start + (seq!['>'] + s@));
            }
        },
        Value::Array(a) => {
            proof {
                lemma_view_array(*a);
            }
            out.push('>');
            let r = element_into(&items[1], a, out);
            if r.is_err() {
                return r;
            }
            proof {
                assert(out@ =~= start + (seq!['>'] + xml_element(view_items(a@))->Ok_0));
            }
        },
        Value::Object(fields) => {
            proof {
                lemma_view_object(*fields);
            }
            push_attrs(out, fields);
            out.push('>');
            proof {
                assert(out@ =~= start + (xml_attrs(view_fields(fields@)) + seq!['>']));
            }
        },
        _ => {
            return Err(
                type_error(
                    "second element of JsonML array must be a string, array or object, got ",
                    &items[1],
                ),
            );
        },
    }
    Ok(())
}

/// Appends the XML of the items of `items` from the third on.
fn children_into(v: &Value, items: &Vec<Value>, out: &mut Vec<char>) -> (res: Result<(), EvalErrorKind>)
    requires
        *v == Value::Array(*items),
        items@.len() >= 2,
    ensures
        appended(xml_children(view_items(items@.subrange(2, items@.len() as int))), res, old(out)@, final(out)@),
    decreases v, 0nat,
{
    let ghost vc = view_items(items@.subrange(2, items@.len() as int));
    let ghost start = out@;
    proof {
        assert(vc.subrange(0, 0) =~= Seq::<ValueModel>::empty());
    }
    let mut i: usize = 2;
    while i < items.len()
        invariant
            2 <= i <= items@.len(),
            *v == Value::Array(*items),
            vc == view_items(items@.subrange(2, items@.len() as int)),
            xml_children(vc.subrange(0, i - 2)) matches Ok(t) && out@ == start + t,
        decreases items@.len() - i,
    {
        let ghost sub = vc.subrange(0, i - 1);
        proof {
            assert(sub.drop_last() =~= vc.subrange(0, i - 2));
            assert(sub.last() == items@[i as int]@);
            assert(decreases_to!(*v => (*v)->Array_0));
            assert(decreases_to!(*items => items@));
            assert(decreases_to!(items@ => items@[i as int]));
        }
        match &items[i] {
            Value::String(s) => {
                push_str(out, s.as_str());
            },
            Value::Array(a) => {
                proof {
                    lemma_view_array(*a);
                }
                let r = element_into(&items[i], a, out);
                if r.is_err() {
                    proof {
                        lemma_children_err(vc, i - 1);
                    }
                    return r;
                }
            },
            _ => {
                proof {
                    lemma_children_err(vc, i - 1);
                }
                return Err(
                    type_error("second element of JsonML array must be a string or array, got ", &items[i]),
                );
            },
        }
        i += 1;
    }
    proof {
        assert(vc.subrange(0, i - 2) =~= vc);
    }
    Ok(())
}

/// Once a prefix of the children fails, all of them fail with the same message.
proof fn lemma_children_err(items: Seq<ValueModel>, n: int)
    requires
        0 <= n <= items.len(),
        xml_children(items.subrange(0, n)) is Err,
    ensures
        xml_children(items) == xml_children(items.subrange(0, n)),
    decreases items.len() - n,
{
    if n < items.len() {
        let next = items.subrange(0, n + 1);
        assert(next.drop_last() =~= items.subrange(0, n));
        lemma_children_err(items, n + 1);
    } else {
        assert(items.subrange(0, n) =~= items);
    }
}

/// XML text from a JsonML array (`std.manifestXmlJsonml`).
/// This writes the fields of each object in the order given.
fn manifest_xml_jsonml_in_order(v: &Value) -> (res: Result<String, EvalErrorKind>)
    ensures
        match v@ {
            ValueModel::Array(items) => match xml_element(items) {
                Ok(t) => res matches Ok(s) && s@ == t,
                Err(m) => res matches Err(e) && is_other_error(e, m),
            },
            _ => res matches Err(e) && is_arg_type_error(
                e,
                "manifestXmlJsonml"@,
                0,
                seq![EvalErrorValueType::Array],
                type_of(v@),
            ),
        },
{
    match v {
        Value::Array(items) => {
            proof {
                lemma_view_array(*items);
            }
            let mut out: Vec<char> = Vec::new();
            match element_into(v, items, &mut out) {
                Ok(()) => {
                    proof {
                        let t = xml_element(view_items(items@))->Ok_0;
                        assert(Seq::<char>::empty() + t =~= t);
                    }
                    Ok(string_from_chars(out.as_slice()))
                },
                Err(e) => Err(e),
            }
        },
        _ => Err(
            arg_type_error("manifestXmlJsonml", 0, EvalErrorValueType::Array, EvalErrorValueType::from_value(v)),
        ),
    }
}

/// XML text from a JsonML array (`std.manifestXmlJsonml`).
pub fn manifest_xml_jsonml(v: &Value) -> (res: Result<String, EvalErrorKind>)
    ensures
        match normalize_model(v@) {
            ValueModel::Array(items) => match xml_element(items) {
                Ok(t) => res matches Ok(s) && s@ == t,
                Err(m) => res matches Err(e) && is_other_error(e, m),
            },
            _ => res matches Err(e) && is_arg_type_error(
                e,
                "manifestXmlJsonml"@,
                0,
                seq![EvalErrorValueType::Array],
                type_of(normalize_model(v@)),
            ),
        },
{
    let n = normalize(v);
    manifest_xml_jsonml_in_order(&n)
}

} // verus!
