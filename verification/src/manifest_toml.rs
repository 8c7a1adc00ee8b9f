//! Rendering of an object as a TOML document.

use vstd::prelude::*;
use crate::normalize::{normalize, normalize_model};
use crate::value::{Value, ValueModel, view_items, view_fields, lemma_view_array, lemma_view_object};
use crate::text::{chars_of, string_from_chars, push_str, push_chars};
use crate::manifest::{json_quote, push_json_string, repeat};
use crate::error::{EvalErrorKind, EvalErrorValueType, arg_type_error, is_arg_type_error, is_other_error, other_error, type_of};

verus! {

/// Whether a key can stand in TOML without quotes: it is not empty and
/// holds only ASCII letters, digits, `_` and `-`.
pub open spec fn is_safe_toml_plain_model(s: Seq<char>) -> bool {
    s.len() > 0 && forall|i: int|
        0 <= i < s.len() ==> {
            let c = #[trigger] s[i];
            ('0' <= c && c <= '9') || ('A' <= c && c <= 'Z') || ('a' <= c && c <= 'z') || c == '_' || c == '-'
        }
}

/// A key as TOML writes it: bare where it can be, else quoted.
pub open spec fn toml_key(s: Seq<char>) -> Seq<char> {
    if is_safe_toml_plain_model(s) {
        s
    } else {
        json_quote(s)
    }
}

/// The message of the error for a null value.
pub open spec fn toml_null_message() -> Seq<char> {
    "cannot manifest null in TOML"@
}

/// Whether a null occurs anywhere in a value.
pub open spec fn has_null(v: ValueModel) -> bool
    decreases v, 1nat,
{
    match v {
        ValueModel::Null => true,
        ValueModel::Array(items) => items_have_null(items),
        ValueModel::Object(fields) => fields_have_null(fields),
        _ => false,
    }
}

/// Whether a null occurs anywhere in the items.
pub open spec fn items_have_null(items: Seq<ValueModel>) -> bool
    decreases items, 0nat,
{
    items.len() > 0 && (items_have_null(items.subrange(0, items.len() - 1)) || has_null(items[items.len() - 1]))
}

/// Whether a null occurs anywhere in the values of the fields.
pub open spec fn fields_have_null(fields: Seq<(Seq<char>, ValueModel)>) -> bool
    decreases fields, 0nat,
{
    fields.len() > 0 && (fields_have_null(fields.subrange(0, fields.len() - 1)) || has_null(
        fields[fields.len() - 1].1,
    ))
}

/// A null occurs in the items exactly where one occurs in some item.
pub proof fn lemma_items_have_null(items: Seq<ValueModel>)
    ensures
        items_have_null(items) == exists|i: int| 0 <= i < items.len() && has_null(#[trigger] items[i]),
    decreases items.len(),
{
    if items.len() > 0 {
        let prefix = items.subrange(0, items.len() - 1);
        lemma_items_have_null(prefix);
        if exists|i: int| 0 <= i < prefix.len() && has_null(#[trigger] prefix[i]) {
            let i = choose|i: int| 0 <= i < prefix.len() && has_null(#[trigger] prefix[i]);
            assert(has_null(items[i]));
        }
        if exists|i: int| 0 <= i < items.len() && has_null(#[trigger] items[i]) {
            let i = choose|i: int| 0 <= i < items.len() && has_null(#[trigger] items[i]);
            if i < items.len() - 1 {
                assert(has_null(prefix[i]));
            }
        }
    }
}

/// A null occurs in the fields exactly where one occurs in some field.
pub proof fn lemma_fields_have_null(fields: Seq<(Seq<char>, ValueModel)>)
    ensures
        fields_have_null(fields) == exists|i: int| 0 <= i < fields.len() && has_null(#[trigger] fields[i].1),
    decreases fields.len(),
{
    if fields.len() > 0 {
        let prefix = fields.subrange(0, fields.len() - 1);
        lemma_fields_have_null(prefix);
        if exists|i: int| 0 <= i < prefix.len() && has_null(#[trigger] prefix[i].1) {
            let i = choose|i: int| 0 <= i < prefix.len() && has_null(#[trigger] prefix[i].1);
            assert(has_null(fields[i].1));
        }
        if exists|i: int| 0 <= i < fields.len() && has_null(#[trigger] fields[i].1) {
            let i = choose|i: int| 0 <= i < fields.len() && has_null(#[trigger] fields[i].1);
            if i < fields.len() - 1 {
                assert(has_null(prefix[i].1));
            }
        }
    }
}

/// Whether a field becomes a table of its own: an object, or a non-empty
/// array of objects.
pub open spec fn is_sub_table(v: ValueModel) -> bool {
    match v {
        ValueModel::Object(_) => true,
        ValueModel::Array(items) => items.len() > 0 && forall|i: int|
            0 <= i < items.len() ==> (#[trigger] items[i]) is Object,
        _ => false,
    }
}

/// A value written inline at nesting `depth`; `single_line` keeps an array
/// on one line.
pub open spec fn toml_value(v: ValueModel, ind: Seq<char>, depth: nat, single_line: bool) -> Seq<char>
    decreases v,
{
    match v {
        ValueModel::Null => seq![],
        ValueModel::Bool(b) => if b {
            seq!['t', 'r', 'u', 'e']
        } else {
            seq!['f', 'a', 'l', 's', 'e']
        },
        ValueModel::Number(n) => n,
        ValueModel::String(s) => json_quote(s),
        ValueModel::Array(items) => if items.len() == 0 {
            seq!['[', ']']
        } else if single_line {
            seq!['[', ' '] + toml_items(items, ind, depth, true) + seq![' ', ']']
        } else {
            seq!['[', '\n'] + toml_items(items, ind, depth, false) + seq!['\n'] + repeat(ind, depth) + seq![']']
        },
        ValueModel::Object(fields) => if fields.len() == 0 {
            seq!['{', ' ', ' ', '}']
        } else {
            seq!['{', ' '] + toml_inline_fields(fields, ind, depth) + seq![' ', '}']
        },
    }
}

/// The items of an inline array.
pub open spec fn toml_items(items: Seq<ValueModel>, ind: Seq<char>, depth: nat, single_line: bool) -> Seq<char>
    decreases items,
{
    if items.len() == 0 {
        seq![]
    } else {
        let before = if items.len() == 1 {
            seq![]
        } else {
            toml_items(items.subrange(0, items.len() - 1), ind, depth, single_line) + if single_line {
                seq![',', ' ']
            } else {
                seq![',', '\n']
            }
        };
        let lead = if single_line {
            seq![]
        } else {
            repeat(ind, depth + 1)
        };
        before + lead + toml_value(items[items.len() - 1], ind, depth + 1, true)
    }
}

/// The fields of an inline table.
pub open spec fn toml_inline_fields(fields: Seq<(Seq<char>, ValueModel)>, ind: Seq<char>, depth: nat) -> Seq<char>
    decreases fields,
{
    if fields.len() == 0 {
        seq![]
    } else {
        let before = if fields.len() == 1 {
            seq![]
        } else {
            toml_inline_fields(fields.subrange(0, fields.len() - 1), ind, depth) + seq![',', ' ']
        };
        let last = fields[fields.len() - 1];
        before + toml_key(last.0) + seq![' ', '=', ' '] + toml_value(last.1, ind, depth + 1, true)
    }
}

/// The dotted path of a table, each part followed by `.`.
pub open spec fn toml_path(path: Seq<Seq<char>>) -> Seq<char>
    decreases path.len(),
{
    if path.len() == 0 {
        seq![]
    } else {
        toml_path(path.drop_last()) + toml_key(path.last()) + seq!['.']
    }
}

/// Whether some field is a plain value.
pub open spec fn any_plain(fields: Seq<(Seq<char>, ValueModel)>) -> bool {
    exists|i: int| 0 <= i < fields.len() && !is_sub_table(#[trigger] fields[i].1)
}

/// Whether some field is a table of its own.
pub open spec fn any_sub(fields: Seq<(Seq<char>, ValueModel)>) -> bool {
    exists|i: int| 0 <= i < fields.len() && is_sub_table(#[trigger] fields[i].1)
}

/// The `key = value` lines of the plain fields of a table.
pub open spec fn toml_plain(fields: Seq<(Seq<char>, ValueModel)>, ind: Seq<char>, depth: nat) -> Seq<char>
    decreases fields.len(),
{
    if fields.len() == 0 {
        seq![]
    } else {
        let before = toml_plain(fields.drop_last(), ind, depth);
        let last = fields.last();
        if is_sub_table(last.1) {
            before
        } else {
            before + (if any_plain(fields.drop_last()) {
                seq!['\n']
            } else {
                seq![]
            }) + repeat(ind, depth) + toml_key(last.0) + seq![' ', '=', ' '] + toml_value(last.1, ind, depth, false)
        }
    }
}

/// The header line of a table, after a blank line.
pub open spec fn table_header(path: Seq<Seq<char>>, key: Seq<char>, ind: Seq<char>) -> Seq<char> {
    seq!['\n'] + repeat(ind, path.len()) + seq!['['] + toml_path(path) + toml_key(key) + seq![']']
}

/// The header line of an item of an array of tables, after a blank line.
pub open spec fn array_table_header(path: Seq<Seq<char>>, key: Seq<char>, ind: Seq<char>) -> Seq<char> {
    seq!['\n'] + repeat(ind, path.len()) + seq!['[', '['] + toml_path(path) + toml_key(key) + seq![']', ']']
}

/// A table at `path`: its plain fields, then its sub-tables.
pub open spec fn toml_table(
    fields: Seq<(Seq<char>, ValueModel)>,
    has_header: bool,
    path: Seq<Seq<char>>,
    ind: Seq<char>,
) -> Seq<char>
    decreases fields, 2nat,
{
    (if has_header && fields.len() > 0 {
        seq!['\n']
    } else {
        seq![]
    }) + toml_plain(fields, ind, path.len()) + (if any_sub(fields) {
        seq!['\n']
    } else {
        seq![]
    }) + toml_sub_tables(fields, path, ind)
}

/// The sub-tables of a table, separated by line breaks.
pub open spec fn toml_sub_tables(fields: Seq<(Seq<char>, ValueModel)>, path: Seq<Seq<char>>, ind: Seq<char>) -> Seq<
    char,
>
    decreases fields, 1nat,
{
    if fields.len() == 0 {
        seq![]
    } else {
        let prefix = fields.subrange(0, fields.len() - 1);
        let before = toml_sub_tables(prefix, path, ind);
        let last = fields[fields.len() - 1];
        if is_sub_table(last.1) {
            before + (if any_sub(prefix) {
                seq!['\n']
            } else {
                seq![]
            }) + toml_sub_table(last.0, last.1, path, ind)
        } else {
            before
        }
    }
}

/// One field that is a table of its own, under its header.
pub open spec fn toml_sub_table(key: Seq<char>, v: ValueModel, path: Seq<Seq<char>>, ind: Seq<char>) -> Seq<char>
    decreases v, 1nat,
{
    match v {
        ValueModel::Object(fields) => table_header(path, key, ind) + toml_table(fields, true, path.push(key), ind),
        ValueModel::Array(items) => toml_array_tables(items, key, path, ind),
        _ => seq![],
    }
}

/// The items of an array of tables, each under its header.
pub open spec fn toml_array_tables(items: Seq<ValueModel>, key: Seq<char>, path: Seq<Seq<char>>, ind: Seq<char>) -> Seq<
    char,
>
    decreases items, 1nat,
{
    if items.len() == 0 {
        seq![]
    } else {
        let before = if items.len() == 1 {
            seq![]
        } else {
            toml_array_tables(items.subrange(0, items.len() - 1), key, path, ind) + seq!['\n']
        };
        let table = match items[items.len() - 1] {
            ValueModel::Object(fields) => toml_table(fields, true, path.push(key), ind),
            _ => seq![],
        };
        before + array_table_header(path, key, ind) + table
    }
}

/// Whether a key can stand in TOML without quotes.
pub fn is_safe_toml_plain(s: &[char]) -> (res: bool)
    ensures
        res == is_safe_toml_plain_model(s@),
{
    if s.len() == 0 {
        return false;
    }
    let mut i: usize = 0;
    while i < s.len()
        invariant
            0 <= i <= s@.len(),
            forall|j: int|
                0 <= j < i ==> {
                    let c = #[trigger] s@[j];
                    ('0' <= c && c <= '9') || ('A' <= c && c <= 'Z') || ('a' <= c && c <= 'z') || c == '_' || c
                        == '-'
                },
        decreases s@.len() - i,
    {
        let c = s[i];
        if !(('0' <= c && c <= '9') || ('A' <= c && c <= 'Z') || ('a' <= c && c <= 'z') || c == '_' || c == '-') {
            return false;
        }
        i += 1;
    }
    true
}

/// A key as TOML writes it: bare where it can be, else quoted.
pub fn escape_key_toml(s: &str) -> (res: String)
    ensures
        res@ == toml_key(s@),
{
    let mut out: Vec<char> = Vec::new();
    push_key(&mut out, s);
    proof {
        assert(Seq::<char>::empty() + toml_key(s@) =~= toml_key(s@));
    }
    string_from_chars(out.as_slice())
}

fn push_key(out: &mut Vec<char>, s: &str)
    ensures
        final(out)@ == old(out)@ + toml_key(s@),
{
    let cs = chars_of(s);
    if is_safe_toml_plain(cs.as_slice()) {
        push_chars(out, cs.as_slice());
    } else {
        push_json_string(out, cs.as_slice());
    }
}

/// What a rendering step promises: `Ok` where no null occurs, with the text
/// appended; the null error where one occurs.
pub open spec fn rendered(has_null: bool, text: Seq<char>, res: Result<(), EvalErrorKind>, before: Seq<char>, after: Seq<
    char,
>) -> bool {
    if has_null {
        res matches Err(e) && is_other_error(e, toml_null_message())
    } else {
        res is Ok && after =~= before + text
    }
}

fn null_error() -> (res: EvalErrorKind)
    ensures
        is_other_error(res, toml_null_message()),
{
    other_error(String::from_str("cannot manifest null in TOML"))
}

/// `prefix` followed by one more `ind`.
fn deeper(prefix: &Vec<char>, ind: &String) -> (res: Vec<char>)
    ensures
        res@ == prefix@ + ind@,
{
    let mut child: Vec<char> = Vec::new();
    push_chars(&mut child, prefix.as_slice());
    push_str(&mut child, ind.as_str());
    proof {
        assert(Seq::<char>::empty() + prefix@ =~= prefix@);
    }
    child
}

/// Appends a value written inline at nesting `depth`, whose indentation is `prefix`.
fn value_into(
    v: &Value,
    ind: &String,
    prefix: &Vec<char>,
    Ghost(depth): Ghost<nat>,
    single_line: bool,
    out: &mut Vec<char>,
) -> (res: Result<(), EvalErrorKind>)
    requires
        prefix@ == repeat(ind@, depth),
    ensures
        rendered(has_null(v@), toml_value(v@, ind@, depth, single_line), res, old(out)@, final(out)@),
    decreases v, 1nat,
{
    match v {
        Value::Null => {
            let e = null_error();
            proof {
                assert(v@ == ValueModel::Null);
                assert(has_null(v@));
                assert(is_other_error(e, toml_null_message()));
            }
            Err(e)
        },
        Value::Bool(b) => {
            proof {
                reveal_strlit("true");
                reveal_strlit("false");
            }
            if *b {
                push_str(out, "true");
            } else {
                push_str(out, "false");
            }
            Ok(())
        },
        Value::Number(n) => {
            push_str(out, n.as_str());
            Ok(())
        },
        Value::String(st) => {
            let cs = chars_of(st.as_str());
            push_json_string(out, cs.as_slice());
            Ok(())
        },
        Value::Array(items) => array_value_into(v, items, ind, prefix, Ghost(depth), single_line, out),
        Value::Object(fields) => inline_table_into(v, fields, ind, prefix, Ghost(depth), out),
    }
}

proof fn lemma_items_step(items: Seq<ValueModel>, i: int, ind: Seq<char>, depth: nat, single_line: bool)
    requires
        0 <= i < items.len(),
    ensures
        toml_items(items.subrange(0, i + 1), ind, depth, single_line) == toml_items(
            items.subrange(0, i),
            ind,
            depth,
            single_line,
        ) + (if i == 0 {
            seq![]
        } else if single_line {
            seq![',', ' ']
        } else {
            seq![',', '\n']
        }) + (if single_line {
            seq![]
        } else {
            repeat(ind, depth + 1)
        }) + toml_value(items[i], ind, depth + 1, true),
{
    let sub = items.subrange(0, i + 1);
    assert(sub.subrange(0, sub.len() - 1) =~= items.subrange(0, i));
    assert(sub[sub.len() - 1] == items[i]);
    assert(toml_items(items.subrange(0, 0), ind, depth, single_line) == Seq::<char>::empty());
}

/// Appends an inline array.
fn array_value_into(
    v: &Value,
    items: &Vec<Value>,
    ind: &String,
    prefix: &Vec<char>,
    Ghost(depth): Ghost<nat>,
    single_line: bool,
    out: &mut Vec<char>,
) -> (res: Result<(), EvalErrorKind>)
    requires
        *v == Value::Array(*items),
        prefix@ == repeat(ind@, depth),
    ensures
        rendered(has_null(v@), toml_value(v@, ind@, depth, single_line), res, old(out)@, final(out)@),
    decreases v, 0nat,
{
    proof {
        lemma_view_array(*items);
    }
    let ghost vi = view_items(items@);
    if items.len() == 0 {
        out.push('[');
        out.push(']');
        return Ok(());
    }
    let ghost start = out@;
    out.push('[');
    if single_line {
        out.push(' ');
    } else {
        out.push('\n');
    }
    let ghost open = out@;
    let child = deeper(prefix, ind);
    proof {
        assert(toml_items(vi.subrange(0, 0), ind@, depth, single_line) == Seq::<char>::empty());
    }
    let mut i: usize = 0;
    while i < items.len()
        invariant
            0 <= i <= items@.len(),
            vi == view_items(items@),
            *v == Value::Array(*items),
            v@ == ValueModel::Array(vi),
            child@ == repeat(ind@, depth + 1),
            forall|j: int| 0 <= j < i ==> !has_null(#[trigger] vi[j]),
            out@ == open + toml_items(vi.subrange(0, i as int), ind@, depth, single_line),
        decreases items@.len() - i,
    {
        let ghost before = out@;
        if i > 0 {
            out.push(',');
            if single_line {
                out.push(' ');
            } else {
                out.push('\n');
            }
        }
        if !single_line {
            push_chars(out, child.as_slice());
        }
        let ghost mid = out@;
        proof {
            assert(decreases_to!(*v => (*v)->Array_0));
            assert(decreases_to!(*items => items@));
            assert(decreases_to!(items@ => items@[i as int]));
            assert(vi[i as int] == items@[i as int]@);
        }
        let r = value_into(&items[i], ind, &child, Ghost(depth + 1), true, out);
        if r.is_err() {
            proof {
                assert(has_null(vi[i as int]));
                lemma_items_have_null(vi);
            }
            return r;
        }
        proof {
            lemma_items_step(vi, i as int, ind@, depth, single_line);
            let sep = if i == 0 {
                seq![]
            } else if single_line {
                seq![',', ' ']
            } else {
                seq![',', '\n']
            };
            let lead = if single_line {
                seq![]
            } else {
                repeat(ind@, depth + 1)
            };
            let prev = toml_items(vi.subrange(0, i as int), ind@, depth, single_line);
            assert(mid == before + sep + lead);
            assert(out@ =~= open + (prev + sep + lead + toml_value(vi[i as int], ind@, depth + 1, true)));
        }
        i += 1;
    }
    let ghost body = out@;
    if single_line {
        out.push(' ');
        out.push(']');
    } else {
        out.push('\n');
        push_chars(out, prefix.as_slice());
        out.push(']');
    }
    proof {
        lemma_items_have_null(vi);
        assert(vi.subrange(0, i as int) =~= vi);
        let t = toml_items(vi, ind@, depth, single_line);
        if single_line {
            assert(out@ =~= start + (seq!['[', ' '] + t + seq![' ', ']']));
        } else {
            assert(out@ =~= start + (seq!['[', '\n'] + t + seq!['\n'] + repeat(ind@, depth) + seq![']']));
        }
    }
    Ok(())
}

proof fn lemma_inline_step(fields: Seq<(Seq<char>, ValueModel)>, i: int, ind: Seq<char>, depth: nat)
    requires
        0 <= i < fields.len(),
    ensures
        toml_inline_fields(fields.subrange(0, i + 1), ind, depth) == toml_inline_fields(fields.subrange(0, i), ind, depth)
            + (if i == 0 {
            seq![]
        } else {
            seq![',', ' ']
        }) + toml_key(fields[i].0) + seq![' ', '=', ' '] + toml_value(fields[i].1, ind, depth + 1, true),
{
    let sub = fields.subrange(0, i + 1);
    assert(sub.subrange(0, sub.len() - 1) =~= fields.subrange(0, i));
    assert(sub[sub.len() - 1] == fields[i]);
    assert(toml_inline_fields(fields.subrange(0, 0), ind, depth) == Seq::<char>::empty());
}

/// Appends an inline table.
fn inline_table_into(
    v: &Value,
    fields: &Vec<(String, Value)>,
    ind: &String,
    prefix: &Vec<char>,
    Ghost(depth): Ghost<nat>,
    out: &mut Vec<char>,
) -> (res: Result<(), EvalErrorKind>)
    requires
        *v == Value::Object(*fields),
        prefix@ == repeat(ind@, depth),
    ensures
        rendered(has_null(v@), toml_value(v@, ind@, depth, false), res, old(out)@, final(out)@),
        rendered(has_null(v@), toml_value(v@, ind@, depth, true), res, old(out)@, final(out)@),
    decreases v, 0nat,
{
    proof {
        lemma_view_object(*fields);
    }
    let ghost vf = view_fields(fields@);
    if fields.len() == 0 {
        out.push('{');
        out.push(' ');
        out.push(' ');
        out.push('}');
        return Ok(());
    }
    let ghost start = out@;
    out.push('{');
    out.push(' ');
    let ghost open = out@;
    let child = deeper(prefix, ind);
    proof {
        assert(toml_inline_fields(vf.subrange(0, 0), ind@, depth) == Seq::<char>::empty());
    }
    let mut i: usize = 0;
    while i < fields.len()
        invariant
            0 <= i <= fields@.len(),
            vf == view_fields(fields@),
            *v == Value::Object(*fields),
            v@ == ValueModel::Object(vf),
            child@ == repeat(ind@, depth + 1),
            forall|j: int| 0 <= j < i ==> !has_null(#[trigger] vf[j].1),
            out@ == open + toml_inline_fields(vf.subrange(0, i as int), ind@, depth),
        decreases fields@.len() - i,
    {
        let ghost before = out@;
        if i > 0 {
            out.push(',');
            out.push(' ');
        }
        push_key(out, fields[i].0.as_str());
        out.push(' ');
        out.push('=');
        out.push(' ');
        let ghost mid = out@;
        proof {
            assert(decreases_to!(*v => (*v)->Object_0));
            assert(decreases_to!(*fields => fields@));
            assert(decreases_to!(fields@ => fields@[i as int]));
            assert(decreases_to!(fields@[i as int] => fields@[i as int].1));
            assert(vf[i as int] == (fields@[i as int].0@, fields@[i as int].1@));
        }
        let r = value_into(&fields[i].1, ind, &child, Ghost(depth + 1), true, out);
        if r.is_err() {
            proof {
                assert(has_null(vf[i as int].1));
                lemma_fields_have_null(vf);
            }
            return r;
        }
        proof {
            lemma_inline_step(vf, i as int, ind@, depth);
            let sep = if i == 0 {
                seq![]
            } else {
                seq![',', ' ']
            };
            let prev = toml_inline_fields(vf.subrange(0, i as int), ind@, depth);
            assert(mid == before + sep + toml_key(vf[i as int].0) + seq![' ', '=', ' ']);
            assert(out@ =~= open + (prev + sep + toml_key(vf[i as int].0) + seq![' ', '=', ' '] + toml_value(
                vf[i as int].1,
                ind@,
                depth + 1,
                true,
            )));
        }
        i += 1;
    }
    out.push(' ');
    out.push('}');
    proof {
        lemma_fields_have_null(vf);
        assert(vf.subrange(0, i as int) =~= vf);
        let t = toml_inline_fields(vf, ind@, depth);
        assert(out@ =~= start + (seq!['{', ' '] + t + seq![' ', '}']));
    }
    Ok(())
}

/// Whether a value becomes a table of its own.
fn is_sub_table_value(v: &Value) -> (res: bool)
    ensures
        res == is_sub_table(v@),
{
    match v {
        Value::Object(_) => true,
        Value::Array(items) => {
            proof {
                lemma_view_array(*items);
            }
            let ghost vi = view_items(items@);
            if items.len() == 0 {
                return false;
            }
            let mut i: usize = 0;
            while i < items.len()
                invariant
                    0 <= i <= items@.len(),
                    vi == view_items(items@),
                    v@ == ValueModel::Array(vi),
                    forall|j: int| 0 <= j < i ==> (#[trigger] vi[j]) is Object,
                decreases items@.len() - i,
            {
                match &items[i] {
                    Value::Object(_) => {},
                    _ => {
                        proof {
                            assert(!(vi[i as int] is Object));
                        }
                        return false;
                    },
                }
                i += 1;
            }
            true
        },
        _ => false,
    }
}

proof fn lemma_plain_step(fields: Seq<(Seq<char>, ValueModel)>, i: int, ind: Seq<char>, depth: nat)
    requires
        0 <= i < fields.len(),
    ensures
        toml_plain(fields.subrange(0, i + 1), ind, depth) == if is_sub_table(fields[i].1) {
            toml_plain(fields.subrange(0, i), ind, depth)
        } else {
            toml_plain(fields.subrange(0, i), ind, depth) + (if any_plain(fields.subrange(0, i)) {
                seq!['\n']
            } else {
                seq![]
            }) + repeat(ind, depth) + toml_key(fields[i].0) + seq![' ', '=', ' '] + toml_value(
                fields[i].1,
                ind,
                depth,
                false,
            )
        },
        any_plain(fields.subrange(0, i + 1)) == (any_plain(fields.subrange(0, i)) || !is_sub_table(fields[i].1)),
        any_sub(fields.subrange(0, i + 1)) == (any_sub(fields.subrange(0, i)) || is_sub_table(fields[i].1)),
{
    let sub = fields.subrange(0, i + 1);
    assert(sub.drop_last() =~= fields.subrange(0, i));
    assert(sub.last() == fields[i]);
    if any_plain(fields.subrange(0, i)) {
        let j = choose|j: int| 0 <= j < i && !is_sub_table(#[trigger] fields.subrange(0, i)[j].1);
        assert(sub[j] == fields.subrange(0, i)[j]);
    }
    if !is_sub_table(fields[i].1) {
        assert(!is_sub_table(sub[i].1));
    }
    if any_plain(sub) {
        let j = choose|j: int| 0 <= j < i + 1 && !is_sub_table(#[trigger] sub[j].1);
        if j < i {
            assert(fields.subrange(0, i)[j] == sub[j]);
        }
    }
    if any_sub(fields.subrange(0, i)) {
        let j = choose|j: int| 0 <= j < i && is_sub_table(#[trigger] fields.subrange(0, i)[j].1);
        assert(sub[j] == fields.subrange(0, i)[j]);
    }
    if is_sub_table(fields[i].1) {
        assert(is_sub_table(sub[i].1));
    }
    if any_sub(sub) {
        let j = choose|j: int| 0 <= j < i + 1 && is_sub_table(#[trigger] sub[j].1);
        if j < i {
            assert(fields.subrange(0, i)[j] == sub[j]);
        }
    }
}

proof fn lemma_sub_tables_step(fields: Seq<(Seq<char>, ValueModel)>, i: int, path: Seq<Seq<char>>, ind: Seq<char>)
    requires
        0 <= i < fields.len(),
    ensures
        toml_sub_tables(fields.subrange(0, i + 1), path, ind) == if is_sub_table(fields[i].1) {
            toml_sub_tables(fields.subrange(0, i), path, ind) + (if any_sub(fields.subrange(0, i)) {
                seq!['\n']
            } else {
                seq![]
            }) + toml_sub_table(fields[i].0, fields[i].1, path, ind)
        } else {
            toml_sub_tables(fields.subrange(0, i), path, ind)
        },
{
    let sub = fields.subrange(0, i + 1);
    assert(sub.subrange(0, sub.len() - 1) =~= fields.subrange(0, i));
    assert(sub[sub.len() - 1] == fields[i]);
}

/// Appends the `key = value` lines of the plain fields of the table `obj`.
#[verifier::spinoff_prover]
#[verifier::rlimit(40)]
fn plain_into(
    obj: &Value,
    fields: &Vec<(String, Value)>,
    Ghost(path): Ghost<Seq<Seq<char>>>,
    ind: &String,
    prefix: &Vec<char>,
    out: &mut Vec<char>,
) -> (res: Result<(), EvalErrorKind>)
    requires
        *obj == Value::Object(*fields),
        prefix@ == repeat(ind@, path.len()),
    ensures
        match res {
            Ok(()) => final(out)@ == old(out)@ + toml_plain(view_fields(fields@), ind@, path.len()) && forall|j: int|
                0 <= j < fields@.len() && !is_sub_table(#[trigger] view_fields(fields@)[j].1) ==> !has_null(
                    view_fields(fields@)[j].1,
                ),
            Err(e) => fields_have_null(view_fields(fields@)) && is_other_error(e, toml_null_message()),
        },
    decreases obj, 2nat,
{
    let ghost vf = view_fields(fields@);
    let ghost start = out@;
    let mut emitted = false;
    proof {
        assert(vf.subrange(0, 0) =~= Seq::<(Seq<char>, ValueModel)>::empty());
    }
    let mut i: usize = 0;
    while i < fields.len()
        invariant
            0 <= i <= fields@.len(),
            vf == view_fields(fields@),
            *obj == Value::Object(*fields),
            prefix@ == repeat(ind@, path.len()),
            emitted == any_plain(vf.subrange(0, i as int)),
            forall|j: int| 0 <= j < i && !is_sub_table(#[trigger] vf[j].1) ==> !has_null(vf[j].1),
            out@ == start + toml_plain(vf.subrange(0, i as int), ind@, path.len()),
        decreases fields@.len() - i,
    {
        proof {
            assert(vf[i as int] == (fields@[i as int].0@, fields@[i as int].1@));
            lemma_plain_step(vf, i as int, ind@, path.len());
        }
        if !is_sub_table_value(&fields[i].1) {
            let ghost before = out@;
            if emitted {
                out.push('\n');
            }
            push_chars(out, prefix.as_slice());
            push_key(out, fields[i].0.as_str());
            out.push(' ');
            out.push('=');
            out.push(' ');
            let ghost mid = out@;
            proof {
                assert(decreases_to!(*obj => (*obj)->Object_0));
                assert(decreases_to!(*fields => fields@));
                assert(decreases_to!(fields@ => fields@[i as int]));
                assert(decreases_to!(fields@[i as int] => fields@[i as int].1));
            }
            let r = value_into(&fields[i].1, ind, prefix, Ghost(path.len()), false, out);
            if r.is_err() {
                proof {
                    assert(has_null(vf[i as int].1));
                    lemma_fields_have_null(vf);
                }
                return r;
            }
            proof {
                let sep = if emitted { seq!['\n'] } else { Seq::<char>::empty() };
                let prev = toml_plain(vf.subrange(0, i as int), ind@, path.len());
                let line = repeat(ind@, path.len()) + toml_key(vf[i as int].0) + seq![' ', '=', ' '];
                assert(mid == before + sep + line);
                assert(out@ =~= start + (prev + sep + line + toml_value(vf[i as int].1, ind@, path.len(), false)));
            }
            emitted = true;
        }
        i += 1;
    }
    proof {
        assert(vf.subrange(0, i as int) =~= vf);
    }
    Ok(())
}

/// Appends the sub-tables of the table `obj`.
fn sub_tables_into(
    obj: &Value,
    fields: &Vec<(String, Value)>,
    Ghost(path): Ghost<Seq<Seq<char>>>,
    path_chars: &Vec<char>,
    ind: &String,
    prefix: &Vec<char>,
    out: &mut Vec<char>,
) -> (res: Result<(), EvalErrorKind>)
    requires
        *obj == Value::Object(*fields),
        path_chars@ == toml_path(path),
        prefix@ == repeat(ind@, path.len()),
    ensures
        match res {
            Ok(()) => final(out)@ == old(out)@ + toml_sub_tables(view_fields(fields@), path, ind@) && forall|j: int|
                0 <= j < fields@.len() && is_sub_table(#[trigger] view_fields(fields@)[j].1) ==> !has_null(
                    view_fields(fields@)[j].1,
                ),
            Err(e) => fields_have_null(view_fields(fields@)) && is_other_error(e, toml_null_message()),
        },
    decreases obj, 2nat,
{
    let ghost vf = view_fields(fields@);
    let ghost start = out@;
    let mut emitted = false;
    proof {
        assert(vf.subrange(0, 0) =~= Seq::<(Seq<char>, ValueModel)>::empty());
    }
    let mut i: usize = 0;
    while i < fields.len()
        invariant
            0 <= i <= fields@.len(),
            vf == view_fields(fields@),
            *obj == Value::Object(*fields),
            path_chars@ == toml_path(path),
            prefix@ == repeat(ind@, path.len()),
            emitted == any_sub(vf.subrange(0, i as int)),
            forall|j: int| 0 <= j < i && is_sub_table(#[trigger] vf[j].1) ==> !has_null(vf[j].1),
            out@ == start + toml_sub_tables(vf.subrange(0, i as int), path, ind@),
        decreases fields@.len() - i,
    {
        proof {
            assert(vf[i as int] == (fields@[i as int].0@, fields@[i as int].1@));
            lemma_plain_step(vf, i as int, ind@, path.len());
            lemma_sub_tables_step(vf, i as int, path, ind@);
        }
        if is_sub_table_value(&fields[i].1) {
            let ghost before = out@;
            if emitted {
                out.push('\n');
            }
            let ghost mid = out@;
            proof {
                assert(decreases_to!(*obj => (*obj)->Object_0));
                assert(decreases_to!(*fields => fields@));
                assert(decreases_to!(fields@ => fields@[i as int]));
                assert(decreases_to!(fields@[i as int] => fields@[i as int].1));
            }
            let r = sub_table_into(&fields[i].0, &fields[i].1, Ghost(path), path_chars, ind, prefix, out);
            if r.is_err() {
                proof {
                    assert(has_null(vf[i as int].1));
                    lemma_fields_have_null(vf);
                }
                return r;
            }
            proof {
                let sep = if emitted { seq!['\n'] } else { Seq::<char>::empty() };
                let prev = toml_sub_tables(vf.subrange(0, i as int), path, ind@);
                assert(out@ =~= start + (prev + sep + toml_sub_table(vf[i as int].0, vf[i as int].1, path, ind@)));
            }
            emitted = true;
        }
        i += 1;
    }
    proof {
        assert(vf.subrange(0, i as int) =~= vf);
    }
    Ok(())
}

/// The path of a child table: the parent's path and the key, then `.`.
fn child_path(path_chars: &Vec<char>, key: &String) -> (res: Vec<char>)
    ensures
        res@ == path_chars@ + toml_key(key@) + seq!['.'],
{
    let mut p: Vec<char> = Vec::new();
    push_chars(&mut p, path_chars.as_slice());
    push_key(&mut p, key.as_str());
    p.push('.');
    proof {
        assert(p@ =~= path_chars@ + toml_key(key@) + seq!['.']);
    }
    p
}

/// Appends a header line: a blank line, the indentation, then the dotted
/// key between one or two pairs of brackets.
fn push_header(out: &mut Vec<char>, prefix: &Vec<char>, path_chars: &Vec<char>, key: &String, double: bool)
    ensures
        final(out)@ == old(out)@ + seq!['\n'] + prefix@ + (if double {
            seq!['[', '[']
        } else {
            seq!['[']
        }) + path_chars@ + toml_key(key@) + (if double {
            seq![']', ']']
        } else {
            seq![']']
        }),
{
    let ghost start = out@;
    out.push('\n');
    push_chars(out, prefix.as_slice());
    out.push('[');
    if double {
        out.push('[');
    }
    push_chars(out, path_chars.as_slice());
    push_key(out, key.as_str());
    out.push(']');
    if double {
        out.push(']');
    }
    proof {
        let open = if double { seq!['[', '['] } else { seq!['['] };
        let close = if double { seq![']', ']'] } else { seq![']'] };
        assert(out@ =~= start + seq!['\n'] + prefix@ + open + path_chars@ + toml_key(key@) + close);
    }
}

/// Appends one field that is a table of its own, under its header.
fn sub_table_into(
    key: &String,
    v: &Value,
    Ghost(path): Ghost<Seq<Seq<char>>>,
    path_chars: &Vec<char>,
    ind: &String,
    prefix: &Vec<char>,
    out: &mut Vec<char>,
) -> (res: Result<(), EvalErrorKind>)
    requires
        is_sub_table(v@),
        path_chars@ == toml_path(path),
        prefix@ == repeat(ind@, path.len()),
    ensures
        rendered(has_null(v@), toml_sub_table(key@, v@, path, ind@), res, old(out)@, final(out)@),
    decreases v, 4nat,
{
    let ghost start = out@;
    let child_chars = child_path(path_chars, key);
    let child_prefix = deeper(prefix, ind);
    proof {
        let p2 = path.push(key@);
        assert(p2.drop_last() =~= path);
        assert(child_chars@ == toml_path(p2));
        assert(child_prefix@ == repeat(ind@, p2.len()));
    }
    match v {
        Value::Object(fields) => {
            proof {
                lemma_view_object(*fields);
            }
            push_header(out, prefix, path_chars, key, false);
            let ghost mid = out@;
            let r = table_into(v, fields, true, Ghost(path.push(key@)), &child_chars, ind, &child_prefix, out);
            if r.is_err() {
                return r;
            }
            proof {
                assert(out@ =~= start + (table_header(path, key@, ind@) + toml_table(
                    view_fields(fields@),
                    true,
                    path.push(key@),
                    ind@,
                )));
            }
            Ok(())
        },
        Value::Array(items) => {
            array_tables_into(v, items, key, Ghost(path), path_chars, &child_chars, ind, prefix, &child_prefix, out)
        },
        _ => Ok(()),
    }
}

/// Appends the items of an array of tables, each under its header.
fn array_tables_into(
    v: &Value,
    items: &Vec<Value>,
    key: &String,
    Ghost(path): Ghost<Seq<Seq<char>>>,
    path_chars: &Vec<char>,
    child_chars: &Vec<char>,
    ind: &String,
    prefix: &Vec<char>,
    child_prefix: &Vec<char>,
    out: &mut Vec<char>,
) -> (res: Result<(), EvalErrorKind>)
    requires
        *v == Value::Array(*items),
        is_sub_table(v@),
        path_chars@ == toml_path(path),
        child_chars@ == toml_path(path.push(key@)),
        prefix@ == repeat(ind@, path.len()),
        child_prefix@ == repeat(ind@, path.push(key@).len()),
    ensures
        rendered(has_null(v@), toml_sub_table(key@, v@, path, ind@), res, old(out)@, final(out)@),
    decreases v, 3nat,
{
    proof {
        lemma_view_array(*items);
    }
    let ghost vi = view_items(items@);
    let ghost start = out@;
    let ghost p2 = path.push(key@);
    proof {
        assert(toml_array_tables(vi.subrange(0, 0), key@, path, ind@) == Seq::<char>::empty());
    }
    let mut i: usize = 0;
    while i < items.len()
        invariant
            0 <= i <= items@.len(),
            vi == view_items(items@),
            *v == Value::Array(*items),
            v@ == ValueModel::Array(vi),
            is_sub_table(v@),
            p2 == path.push(key@),
            path_chars@ == toml_path(path),
            child_chars@ == toml_path(p2),
            prefix@ == repeat(ind@, path.len()),
            child_prefix@ == repeat(ind@, p2.len()),
            forall|j: int| 0 <= j < i ==> !has_null(#[trigger] vi[j]),
            out@ == start + toml_array_tables(vi.subrange(0, i as int), key@, path, ind@),
        decreases items@.len() - i,
    {
        let ghost before = out@;
        if i > 0 {
            out.push('\n');
        }
        push_header(out, prefix, path_chars, key, true);
        let ghost mid = out@;
        proof {
            assert(vi[i as int] is Object);
            assert(decreases_to!(*v => (*v)->Array_0));
            assert(decreases_to!(*items => items@));
            assert(decreases_to!(items@ => items@[i as int]));
        }
        match &items[i] {
            Value::Object(fields) => {
                proof {
                    lemma_view_object(*fields);
                }
                let r = table_into(&items[i], fields, true, Ghost(p2), child_chars, ind, child_prefix, out);
                if r.is_err() {
                    proof {
                        assert(vi[i as int] == items@[i as int]@);
                        assert(items@[i as int]@ == ValueModel::Object(view_fields(fields@)));
                        lemma_items_have_null(vi);
                        assert(has_null(vi[i as int]));
                    }
                    return r;
                }
                proof {
                    assert(vi[i as int] == items@[i as int]@);
                    let sub = vi.subrange(0, i + 1);
                    assert(sub.subrange(0, sub.len() - 1) =~= vi.subrange(0, i as int));
                    assert(sub[sub.len() - 1] == vi[i as int]);
                    let sep = if i > 0 { seq!['\n'] } else { Seq::<char>::empty() };
                    let prev = toml_array_tables(vi.subrange(0, i as int), key@, path, ind@);
                    if i == 0 {
                        assert(prev == Seq::<char>::empty());
                    }
                    let table = toml_table(view_fields(fields@), true, p2, ind@);
                    assert(out@ =~= start + (prev + sep + array_table_header(path, key@, ind@) + table));
                }
            },
            _ => {
                return Ok(());
            },
        }
        i += 1;
    }
    proof {
        lemma_items_have_null(vi);
        assert(vi.subrange(0, i as int) =~= vi);
    }
    Ok(())
}

/// Appends a table: its plain fields, then its sub-tables.
fn table_into(
    obj: &Value,
    fields: &Vec<(String, Value)>,
    has_header: bool,
    Ghost(path): Ghost<Seq<Seq<char>>>,
    path_chars: &Vec<char>,
    ind: &String,
    prefix: &Vec<char>,
    out: &mut Vec<char>,
) -> (res: Result<(), EvalErrorKind>)
    requires
        *obj == Value::Object(*fields),
        path_chars@ == toml_path(path),
        prefix@ == repeat(ind@, path.len()),
    ensures
        rendered(
            fields_have_null(view_fields(fields@)),
            toml_table(view_fields(fields@), has_header, path, ind@),
            res,
            old(out)@,
            final(out)@,
        ),
    decreases obj, 3nat,
{
    let ghost vf = view_fields(fields@);
    let ghost start = out@;
    if has_header && fields.len() > 0 {
        out.push('\n');
    }
    let ghost a = out@;
    let r = plain_into(obj, fields, Ghost(path), ind, prefix, out);
    if r.is_err() {
        return r;
    }
    let ghost b = out@;
    let mut any = false;
    let mut i: usize = 0;
    while i < fields.len()
        invariant
            0 <= i <= fields@.len(),
            vf == view_fields(fields@),
            any == exists|j: int| 0 <= j < i && is_sub_table(#[trigger] vf[j].1),
        decreases fields@.len() - i,
    {
        proof {
            assert(vf[i as int] == (fields@[i as int].0@, fields@[i as int].1@));
        }
        let here = is_sub_table_value(&fields[i].1);
        proof {
            assert(here == is_sub_table(vf[i as int].1));
            if here {
                assert(0 <= i < i + 1 && is_sub_table(vf[i as int].1));
            }
        }
        if here {
            any = true;
        }
        i += 1;
    }
    if any {
        out.push('\n');
    }
    let ghost c = out@;
    let r = sub_tables_into(obj, fields, Ghost(path), path_chars, ind, prefix, out);
    if r.is_err() {
        return r;
    }
    proof {
        assert forall|j: int| 0 <= j < vf.len() implies !has_null(#[trigger] vf[j].1) by {
            if is_sub_table(vf[j].1) {
            } else {
            }
        }
        lemma_fields_have_null(vf);
        let h = if has_header && vf.len() > 0 { seq!['\n'] } else { Seq::<char>::empty() };
        let s = if any_sub(vf) { seq!['\n'] } else { Seq::<char>::empty() };
        assert(out@ =~= start + (h + toml_plain(vf, ind@, path.len()) + s + toml_sub_tables(vf, path, ind@)));
    }
    Ok(())
}

/// A TOML document from an object (`std.manifestTomlEx`); each nesting
/// level of a table is indented by `indent`.
/// This writes the fields of each object in the order given.
fn manifest_toml_ex_in_order(v: &Value, indent: &str) -> (res: Result<String, EvalErrorKind>)
    ensures
        match v@ {
            ValueModel::Object(fields) => if fields_have_null(fields) {
                res matches Err(e) && is_other_error(e, toml_null_message())
            } else {
                res matches Ok(s) && s@ == toml_table(fields, false, seq![], indent@)
            },
            _ => res matches Err(e) && is_arg_type_error(
                e,
                "manifestTomlEx"@,
                0,
                seq![EvalErrorValueType::Object],
                type_of(v@),
            ),
        },
{
    match v {
        Value::Object(fields) => {
            proof {
                lemma_view_object(*fields);
            }
            let ind = String::from_str(indent);
            let path_chars: Vec<char> = Vec::new();
            let prefix: Vec<char> = Vec::new();
            proof {
                assert(path_chars@ =~= toml_path(Seq::<Seq<char>>::empty()));
                assert(prefix@ =~= repeat(ind@, 0));
            }
            let mut out: Vec<char> = Vec::new();
            match table_into(v, fields, false, Ghost(Seq::empty()), &path_chars, &ind, &prefix, &mut out) {
                Ok(()) => {
                    proof {
                        let t = toml_table(view_fields(fields@), false, Seq::<Seq<char>>::empty(), indent@);
                        assert(out@ =~= t);
                    }
                    Ok(string_from_chars(out.as_slice()))
                },
                Err(e) => Err(e),
            }
        },
        _ => Err(
            arg_type_error("manifestTomlEx", 0, EvalErrorValueType::Object, EvalErrorValueType::from_value(v)),
        ),
    }
}

/// A TOML document from an object (`std.manifestTomlEx`); each nesting
/// level of a table is indented by `indent`.
pub fn manifest_toml_ex(v: &Value, indent: &str) -> (res: Result<String, EvalErrorKind>)
    ensures
        match normalize_model(v@) {
            ValueModel::Object(fields) => if fields_have_null(fields) {
                res matches Err(e) && is_other_error(e, toml_null_message())
            } else {
                res matches Ok(s) && s@ == toml_table(fields, false, seq![], indent@)
            },
            _ => res matches Err(e) && is_arg_type_error(
                e,
                "manifestTomlEx"@,
                0,
                seq![EvalErrorValueType::Object],
                type_of(normalize_model(v@)),
            ),
        },
{
    let n = normalize(v);
    manifest_toml_ex_in_order(&n, indent)
}

} // verus!
