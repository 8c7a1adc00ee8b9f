//! Rendering of an object as an INI file.

use vstd::prelude::*;
use crate::normalize::{normalize, normalize_model};
use crate::value::{Value, ValueModel, view_items, view_fields, lemma_view_array, lemma_view_object};
use crate::text::{string_from_chars, push_str, str_eq};
use crate::manifest::{to_string_model, push_value_string};
use crate::error::{EvalErrorKind, EvalErrorValueType, arg_type_error, is_arg_type_error, is_other_error, other_error, type_of};

verus! {

/// The value of the first field named `name`, if any.
pub open spec fn find_field(fields: Seq<(Seq<char>, ValueModel)>, name: Seq<char>) -> Option<ValueModel>
    decreases fields.len(),
{
    if fields.len() == 0 {
        None
    } else if fields[0].0 == name {
        Some(fields[0].1)
    } else {
        find_field(fields.drop_first(), name)
    }
}

/// The lines `name = item` of one entry: one per item where the value is an
/// array, else one for the value.
pub open spec fn ini_entry(name: Seq<char>, v: ValueModel) -> Seq<char> {
    match v {
        ValueModel::Array(items) => ini_lines(name, items),
        _ => name + seq![' ', '=', ' '] + to_string_model(v) + seq!['\n'],
    }
}

/// The lines `name = item` for each item.
pub open spec fn ini_lines(name: Seq<char>, items: Seq<ValueModel>) -> Seq<char>
    decreases items.len(),
{
    if items.len() == 0 {
        seq![]
    } else {
        ini_lines(name, items.drop_last()) + name + seq![' ', '=', ' '] + to_string_model(items.last()) + seq!['\n']
    }
}

/// The body of a section: the entries of its fields, in order.
pub open spec fn ini_section(fields: Seq<(Seq<char>, ValueModel)>) -> Seq<char>
    decreases fields.len(),
{
    if fields.len() == 0 {
        seq![]
    } else {
        ini_section(fields.drop_last()) + ini_entry(fields.last().0, fields.last().1)
    }
}

/// The sections, each under its `[name]` line; or the message of the error
/// for the first section that is not an object.
pub open spec fn ini_sections(sections: Seq<(Seq<char>, ValueModel)>) -> Result<Seq<char>, Seq<char>>
    decreases sections.len(),
{
    if sections.len() == 0 {
        Ok(seq![])
    } else {
        match ini_sections(sections.drop_last()) {
            Err(m) => Err(m),
            Ok(before) => match sections.last().1 {
                ValueModel::Object(fields) => Ok(
                    before + seq!['['] + sections.last().0 + seq![']', '\n'] + ini_section(fields),
                ),
                _ => Err("ini section must be an object"@),
            },
        }
    }
}

/// The text of the `main` section, which may be absent.
pub open spec fn ini_main(fields: Seq<(Seq<char>, ValueModel)>) -> Result<Seq<char>, Seq<char>> {
    match find_field(fields, "main"@) {
        None => Ok(seq![]),
        Some(ValueModel::Object(main_fields)) => Ok(ini_section(main_fields)),
        Some(_) => Err("ini section must be an object"@),
    }
}

/// The INI text of the fields of an object, or the message of the error
/// that stops it.
pub open spec fn ini_model(fields: Seq<(Seq<char>, ValueModel)>) -> Result<Seq<char>, Seq<char>> {
    match find_field(fields, "sections"@) {
        None => Err("missing \"sections\" field"@),
        Some(sections) => {
            match ini_main(fields) {
                Err(m) => Err(m),
                Ok(main_text) => match sections {
                    ValueModel::Object(section_fields) => match ini_sections(section_fields) {
                        Ok(t) => Ok(main_text + t),
                        Err(m) => Err(m),
                    },
                    _ => Err("\"sections\" field must be an object"@),
                },
            }
        },
    }
}

/// The index of the first field named `name`, if any.
fn find_field_index(fields: &Vec<(String, Value)>, name: &str) -> (res: Option<usize>)
    ensures
        match res {
            Some(i) => i < fields@.len() && find_field(view_fields(fields@), name@) == Some(fields@[i as int].1@),
            None => find_field(view_fields(fields@), name@) is None,
        },
{
    let ghost vf = view_fields(fields@);
    proof {
        assert(vf.subrange(0, vf.len() as int) =~= vf);
    }
    let mut i: usize = 0;
    while i < fields.len()
        invariant
            0 <= i <= fields@.len(),
            vf == view_fields(fields@),
            find_field(vf, name@) == find_field(vf.subrange(i as int, vf.len() as int), name@),
        decreases fields@.len() - i,
    {
        let ghost rest = vf.subrange(i as int, vf.len() as int);
        proof {
            assert(rest[0] == (fields@[i as int].0@, fields@[i as int].1@));
            assert(rest.drop_first() =~= vf.subrange(i + 1, vf.len() as int));
        }
        if str_eq(fields[i].0.as_str(), name) {
            return Some(i);
        }
        i += 1;
    }
    proof {
        assert(vf.subrange(i as int, vf.len() as int).len() == 0);
    }
    None
}

/// Appends the entries of one field.
fn push_entry(out: &mut Vec<char>, name: &String, v: &Value)
    ensures
        final(out)@ == old(out)@ + ini_entry(name@, v@),
{
    match v {
        Value::Array(items) => {
            proof {
                lemma_view_array(*items);
            }
            let ghost vi = view_items(items@);
            let ghost start = out@;
            let mut i: usize = 0;
            while i < items.len()
                invariant
                    0 <= i <= items@.len(),
                    vi == view_items(items@),
                    out@ == start + ini_lines(name@, vi.subrange(0, i as int)),
                decreases items@.len() - i,
            {
                push_str(out, name.as_str());
                out.push(' ');
                out.push('=');
                out.push(' ');
                push_value_string(out, &items[i]);
                out.push('\n');
                proof {
                    let sub = vi.subrange(0, i + 1);
                    assert(sub.drop_last() =~= vi.subrange(0, i as int));
                    assert(sub.last() == items@[i as int]@);
                }
                i += 1;
            }
            proof {
                assert(vi.subrange(0, i as int) =~= vi);
            }
        },
        _ => {
            push_str(out, name.as_str());
            out.push(' ');
            out.push('=');
            out.push(' ');
            push_value_string(out, v);
            out.push('\n');
        },
    }
}

/// Appends the body of a section.
fn push_section(out: &mut Vec<char>, fields: &Vec<(String, Value)>)
    ensures
        final(out)@ == old(out)@ + ini_section(view_fields(fields@)),
{
    let ghost vf = view_fields(fields@);
    let ghost start = out@;
    let mut i: usize = 0;
    while i < fields.len()
        invariant
            0 <= i <= fields@.len(),
            vf == view_fields(fields@),
            out@ == start + ini_section(vf.subrange(0, i as int)),
        decreases fields@.len() - i,
    {
        push_entry(out, &fields[i].0, &fields[i].1);
        proof {
            let sub = vf.subrange(0, i + 1);
            assert(sub.drop_last() =~= vf.subrange(0, i as int));
            assert(sub.last() == (fields@[i as int].0@, fields@[i as int].1@));
        }
        i += 1;
    }
    proof {
        assert(vf.subrange(0, i as int) =~= vf);
    }
}

/// An INI file from an object with a `sections` field and an optional
/// `main` field (`std.manifestIni`).
/// This writes the fields of each object in the order given.
fn manifest_ini_in_order(ini: &Value) -> (res: Result<String, EvalErrorKind>)
    ensures
        match ini@ {
            ValueModel::Object(fields) => match ini_model(fields) {
                Ok(t) => res matches Ok(s) && s@ == t,
                Err(m) => res matches Err(e) && is_other_error(e, m),
            },
            _ => res matches Err(e) && is_arg_type_error(
                e,
                "manifestIni"@,
                0,
                seq![EvalErrorValueType::Object],
                type_of(ini@),
            ),
        },
{
    let fields = match ini {
        Value::Object(fields) => fields,
        _ => {
            return Err(
                arg_type_error("manifestIni", 0, EvalErrorValueType::Object, EvalErrorValueType::from_value(ini)),
            );
        },
    };
    proof {
        lemma_view_object(*fields);
    }
    let ghost vf = view_fields(fields@);
    let sections_index = match find_field_index(fields, "sections") {
        Some(i) => i,
        None => {
            return Err(other_error(String::from_str("missing \"sections\" field")));
        },
    };
    let mut out: Vec<char> = Vec::new();
    match find_field_index(fields, "main") {
        Some(m) => match &fields[m].1 {
            Value::Object(main_fields) => {
                proof {
                    lemma_view_object(*main_fields);
                }
                push_section(&mut out, main_fields);
            },
            _ => {
                return Err(other_error(String::from_str("ini section must be an object")));
            },
        },
        None => {},
    }
    let ghost main_text = out@;
    let sections = match &fields[sections_index].1 {
        Value::Object(sections) => sections,
        _ => {
            return Err(other_error(String::from_str("\"sections\" field must be an object")));
        },
    };
    proof {
        lemma_view_object(*sections);
    }
    let ghost vs = view_fields(sections@);
    let mut i: usize = 0;
    while i < sections.len()
        invariant
            0 <= i <= sections@.len(),
            vs == view_fields(sections@),
            ini_sections(vs.subrange(0, i as int)) matches Ok(t) && out@ == main_text + t,
            ini@ == ValueModel::Object(vf),
            ini_main(vf) == Ok::<Seq<char>, Seq<char>>(main_text),
            find_field(vf, "sections"@) == Some(ValueModel::Object(vs)),
        decreases sections@.len() - i,
    {
        proof {
            let sub = vs.subrange(0, i + 1);
            assert(sub.drop_last() =~= vs.subrange(0, i as int));
            assert(sub.last() == (sections@[i as int].0@, sections@[i as int].1@));
        }
        match &sections[i].1 {
            Value::Object(section_fields) => {
                proof {
                    lemma_view_object(*section_fields);
                }
                out.push('[');
                push_str(&mut out, sections[i].0.as_str());
                out.push(']');
                out.push('\n');
                push_section(&mut out, section_fields);
            },
            _ => {
                proof {
                    assert(ini_sections(vs.subrange(0, i + 1)) == Err::<Seq<char>, Seq<char>>(
                        "ini section must be an object"@,
                    ));
                    lemma_sections_err(vs, (i + 1) as int, "ini section must be an object"@);
                }
                return Err(other_error(String::from_str("ini section must be an object")));
            },
        }
        i += 1;
    }
    proof {
        assert(vs.subrange(0, i as int) =~= vs);
    }
    Ok(string_from_chars(out.as_slice()))
}

/// Once a prefix of the sections fails, all of them fail with the same message.
proof fn lemma_sections_err(sections: Seq<(Seq<char>, ValueModel)>, n: int, m: Seq<char>)
    requires
        0 <= n <= sections.len(),
        ini_sections(sections.subrange(0, n)) == Err::<Seq<char>, Seq<char>>(m),
    ensures
        ini_sections(sections) == Err::<Seq<char>, Seq<char>>(m),
    decreases sections.len() - n,
{
    if n < sections.len() {
        let next = sections.subrange(0, n + 1);
        assert(next.drop_last() =~= sections.subrange(0, n));
        lemma_sections_err(sections, n + 1, m);
    } else {
        assert(sections.subrange(0, n) =~= sections);
    }
}

/// An INI file from an object with a `sections` field and an optional
/// `main` field (`std.manifestIni`).
pub fn manifest_ini(ini: &Value) -> (res: Result<String, EvalErrorKind>)
    ensures
        match normalize_model(ini@) {
            ValueModel::Object(fields) => match ini_model(fields) {
                Ok(t) => res matches Ok(s) && s@ == t,
                Err(m) => res matches Err(e) && is_other_error(e, m),
            },
            _ => res matches Err(e) && is_arg_type_error(
                e,
                "manifestIni"@,
                0,
                seq![EvalErrorValueType::Object],
                type_of(normalize_model(ini@)),
            ),
        },
{
    let n = normalize(ini);
    manifest_ini_in_order(&n)
}

/// A string entry is written as it stands, without quotes: `name = s`.
pub proof fn law_ini_string_entry(name: Seq<char>, s: Seq<char>)
    ensures
        ini_entry(name, ValueModel::String(s)) == name + seq![' ', '=', ' '] + s + seq!['\n'],
{
}

/// An entry whose value is an array writes, for each item, exactly the line
/// that the entry would write with that item alone (an item that is itself
/// an array is written on one line, as `std.toString` writes it); no items
/// write nothing.
pub proof fn law_ini_array_entry(name: Seq<char>, items: Seq<ValueModel>, x: ValueModel)
    ensures
        ini_entry(name, ValueModel::Array(seq![])) == Seq::<char>::empty(),
        x !is Array ==> ini_entry(name, ValueModel::Array(items.push(x))) == ini_entry(name, ValueModel::Array(items))
            + ini_entry(name, x),
        ini_entry(name, ValueModel::Array(items.push(x))) == ini_entry(name, ValueModel::Array(items)) + name
            + seq![' ', '=', ' '] + to_string_model(x) + seq!['\n'],
{
    assert(items.push(x).drop_last() =~= items);
}

} // verus!
