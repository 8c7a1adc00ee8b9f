//! Rendering of values as YAML documents and streams.

use vstd::prelude::*;
use crate::normalize::{normalize, normalize_model, normalize_items};
use crate::value::{Value, ValueModel, view_items, view_fields, lemma_view_array, lemma_view_object};
use crate::text::{chars_of, string_from_chars, push_str, push_chars};
use crate::manifest::{json_quote, push_json_string, repeat};
use crate::yaml_key::{is_safe_yaml_plain, is_safe_yaml_plain_model};
use crate::formatting::spaces;

verus! {

/// One level of YAML indentation.
pub open spec fn yaml_indent() -> Seq<char> {
    seq![' ', ' ']
}

/// `s` with `ind` written after each line break.
pub open spec fn indent_lines(s: Seq<char>, ind: Seq<char>) -> Seq<char>
    decreases s.len(),
{
    if s.len() == 0 {
        seq![]
    } else {
        indent_lines(s.drop_last(), ind) + if s.last() == '\n' {
            seq!['\n'] + ind
        } else {
            seq![s.last()]
        }
    }
}

/// A field name as a YAML key: bare where YAML reads it back unchanged and
/// quotes are not asked for, else a JSON string literal.
#[verifier::opaque]
pub open spec fn yaml_key(name: Seq<char>, quote_keys: bool) -> Seq<char> {
    if !quote_keys && is_safe_yaml_plain_model(name) {
        name
    } else {
        json_quote(name)
    }
}

/// The YAML text of a value at nesting `depth`; `in_array` and `in_object`
/// say whether it is an item of an array or the value of a field.
pub open spec fn yaml_model(
    v: ValueModel,
    indent_array_in_object: bool,
    quote_keys: bool,
    depth: nat,
    in_array: bool,
    in_object: bool,
) -> Seq<char>
    decreases v,
{
    let lead = if in_array || in_object {
        seq![' ']
    } else {
        seq![]
    };
    match v {
        ValueModel::Null => lead + seq!['n', 'u', 'l', 'l'],
        ValueModel::Bool(b) => lead + if b {
            seq!['t', 'r', 'u', 'e']
        } else {
            seq!['f', 'a', 'l', 's', 'e']
        },
        ValueModel::Number(n) => lead + n,
        ValueModel::String(s) => lead + if s.len() > 0 && s.last() == '\n' {
            let ind = repeat(
                yaml_indent(),
                if in_array || in_object {
                    depth
                } else {
                    depth + 1
                },
            );
            seq!['|', '\n'] + ind + indent_lines(s.drop_last(), ind)
        } else {
            json_quote(s)
        },
        ValueModel::Array(items) => if items.len() == 0 {
            lead + seq!['[', ']']
        } else {
            let d = if in_object && !indent_array_in_object {
                (depth - 1) as nat
            } else {
                depth
            };
            (if in_array || in_object {
                seq!['\n']
            } else {
                seq![]
            }) + yaml_items(items, indent_array_in_object, quote_keys, d)
        },
        ValueModel::Object(fields) => if fields.len() == 0 {
            lead + seq!['{', '}']
        } else {
            (if in_array {
                seq![' ']
            } else if in_object {
                seq!['\n']
            } else {
                seq![]
            }) + yaml_fields(fields, indent_array_in_object, quote_keys, depth, in_array)
        },
    }
}

/// The items of an array, one `-` line each, at indentation `depth`.
pub open spec fn yaml_items(items: Seq<ValueModel>, indent_array_in_object: bool, quote_keys: bool, depth: nat) -> Seq<
    char,
>
    decreases items,
{
    if items.len() == 0 {
        seq![]
    } else {
        let before = if items.len() == 1 {
            seq![]
        } else {
            yaml_items(items.subrange(0, items.len() - 1), indent_array_in_object, quote_keys, depth) + seq!['\n']
        };
        before + repeat(yaml_indent(), depth) + seq!['-'] + yaml_model(
            items[items.len() - 1],
            indent_array_in_object,
            quote_keys,
            depth + 1,
            true,
            false,
        )
    }
}

/// The fields of an object, one `key:` line each, at indentation `depth`;
/// in an array item the first field stays on the line of the `-`.
pub open spec fn yaml_fields(
    fields: Seq<(Seq<char>, ValueModel)>,
    indent_array_in_object: bool,
    quote_keys: bool,
    depth: nat,
    in_array: bool,
) -> Seq<char>
    decreases fields,
{
    if fields.len() == 0 {
        seq![]
    } else {
        let before = if fields.len() == 1 {
            seq![]
        } else {
            yaml_fields(fields.subrange(0, fields.len() - 1), indent_array_in_object, quote_keys, depth, in_array)
                + seq!['\n']
        };
        let last = fields[fields.len() - 1];
        let ind = if in_array && fields.len() == 1 {
            seq![]
        } else {
            repeat(yaml_indent(), depth)
        };
        before + ind + yaml_key(last.0, quote_keys) + seq![':'] + yaml_model(
            last.1,
            indent_array_in_object,
            quote_keys,
            depth + 1,
            false,
            true,
        )
    }
}

/// One field of an object as YAML text: the line break before it, its
/// indentation, its key and its value.
pub open spec fn yaml_field_piece(
    name: Seq<char>,
    value: ValueModel,
    indent_array_in_object: bool,
    quote_keys: bool,
    depth: nat,
    line_break: bool,
    indented: bool,
) -> Seq<char> {
    (if line_break {
        seq!['\n']
    } else {
        seq![]
    }) + (if indented {
        repeat(yaml_indent(), depth)
    } else {
        seq![]
    }) + yaml_key(name, quote_keys) + seq![':'] + yaml_model(value, indent_array_in_object, quote_keys, depth + 1, false, true)
}

/// A YAML stream: each value a document after a `---` line, and the end
/// marked by `...` where asked.
pub open spec fn yaml_stream_docs(
    docs: Seq<ValueModel>,
    indent_array_in_object: bool,
    quote_keys: bool,
) -> Seq<char>
    decreases docs.len(),
{
    if docs.len() == 0 {
        seq![]
    } else {
        let before = if docs.len() == 1 {
            seq![]
        } else {
            yaml_stream_docs(docs.drop_last(), indent_array_in_object, quote_keys) + seq!['\n', '-', '-', '-', '\n']
        };
        before + yaml_model(docs.last(), indent_array_in_object, quote_keys, 0, false, false)
    }
}

/// The whole text of a YAML stream.
pub open spec fn yaml_stream_model(
    docs: Seq<ValueModel>,
    indent_array_in_object: bool,
    c_document_end: bool,
    quote_keys: bool,
) -> Seq<char> {
    seq!['-', '-', '-', '\n'] + yaml_stream_docs(docs, indent_array_in_object, quote_keys) + if c_document_end {
        seq!['\n', '.', '.', '.', '\n']
    } else {
        seq!['\n']
    }
}

proof fn lemma_repeat_pair(n: nat)
    ensures
        repeat(yaml_indent(), n).len() == 2 * n,
        n >= 1 ==> repeat(yaml_indent(), n).subrange(0, 2 * n - 2) == repeat(yaml_indent(), (n - 1) as nat),
    decreases n,
{
    if n >= 1 {
        lemma_repeat_pair((n - 1) as nat);
        let r = repeat(yaml_indent(), n);
        assert(r == repeat(yaml_indent(), (n - 1) as nat) + yaml_indent());
        assert(r.subrange(0, 2 * n - 2) =~= repeat(yaml_indent(), (n - 1) as nat));
    }
}

/// The indentation one level in: `prefix` and two spaces.
fn indent_in(prefix: &Vec<char>) -> (res: Vec<char>)
    ensures
        res@ == prefix@ + yaml_indent(),
{
    let mut child: Vec<char> = Vec::new();
    push_chars(&mut child, prefix.as_slice());
    child.push(' ');
    child.push(' ');
    proof {
        assert(child@ =~= prefix@ + yaml_indent());
    }
    child
}

/// The indentation one level out.
fn indent_out(prefix: &Vec<char>, Ghost(depth): Ghost<nat>) -> (res: Vec<char>)
    requires
        depth >= 1,
        prefix@ == repeat(yaml_indent(), depth),
    ensures
        res@ == repeat(yaml_indent(), (depth - 1) as nat),
{
    proof {
        lemma_repeat_pair(depth);
    }
    let n = prefix.len() - 2;
    let mut out: Vec<char> = Vec::new();
    let mut i: usize = 0;
    while i < n
        invariant
            0 <= i <= n,
            n == prefix@.len() - 2,
            out@ == prefix@.subrange(0, i as int),
        decreases n - i,
    {
        out.push(prefix[i]);
        i += 1;
        proof {
            assert(out@ =~= prefix@.subrange(0, i as int));
        }
    }
    out
}

/// Appends a block scalar body: `|`, then each line of `s` on its own line
/// after `ind`.
fn push_block(out: &mut Vec<char>, s: &[char], ind: &Vec<char>)
    requires
        s@.len() > 0,
    ensures
        final(out)@ == old(out)@ + seq!['|', '\n'] + ind@ + indent_lines(s@.drop_last(), ind@),
{
    out.push('|');
    out.push('\n');
    push_chars(out, ind.as_slice());
    let ghost base = out@;
    let n = s.len() - 1;
    let mut i: usize = 0;
    while i < n
        invariant
            0 <= i <= n,
            n == s@.len() - 1,
            out@ == base + indent_lines(s@.subrange(0, i as int), ind@),
        decreases n - i,
    {
        let c = s[i];
        if c == '\n' {
            out.push('\n');
            push_chars(out, ind.as_slice());
        } else {
            out.push(c);
        }
        proof {
            let sub = s@.subrange(0, i + 1);
            assert(sub.drop_last() =~= s@.subrange(0, i as int));
            assert(sub.last() == c);
        }
        i += 1;
    }
    proof {
        assert(s@.subrange(0, n as int) =~= s@.drop_last());
    }
}

/// Appends the YAML text of a value that holds no other value.
fn yaml_scalar_into(v: &Value, prefix: &Vec<char>, Ghost(depth): Ghost<nat>, in_array: bool, in_object: bool, out: &mut Vec<char>)
    requires
        prefix@ == repeat(yaml_indent(), depth),
        !(v is Array),
        !(v is Object),
    ensures
        forall|ia: bool, qk: bool|
            final(out)@ == old(out)@ + #[trigger] yaml_model(v@, ia, qk, depth, in_array, in_object),
{
    proof {
    }
    let nested = in_array || in_object;
    if nested {
        out.push(' ');
    }
    match v {
        Value::Null => {
            proof {
                reveal_strlit("null");
            }
            push_str(out, "null");
        },
        Value::Bool(b) => {
            proof {
                reveal_strlit("true");
                reveal_strlit("false");
            }
            if *b {
                push_str(out, "true");
            } else {
                push_str(out, "false");
            }
        },
        Value::Number(n) => {
            push_str(out, n.as_str());
        },
        Value::String(st) => {
            let cs = chars_of(st.as_str());
            if cs.len() > 0 && cs[cs.len() - 1] == '\n' {
                if nested {
                    push_block(out, cs.as_slice(), prefix);
                } else {
                    let ind = indent_in(prefix);
                    push_block(out, cs.as_slice(), &ind);
                }
            } else {
                push_json_string(out, cs.as_slice());
            }
        },
        _ => {},
    }
}

/// Appends the YAML text of `v` at nesting `depth`, whose indentation is `prefix`.
fn yaml_into(
    v: &Value,
    indent_array_in_object: bool,
    quote_keys: bool,
    prefix: &Vec<char>,
    Ghost(depth): Ghost<nat>,
    in_array: bool,
    in_object: bool,
    out: &mut Vec<char>,
)
    requires
        prefix@ == repeat(yaml_indent(), depth),
        in_object ==> depth >= 1,
    ensures
        final(out)@ == old(out)@ + yaml_model(v@, indent_array_in_object, quote_keys, depth, in_array, in_object),
    decreases v, 1nat,
{
    match v {
        Value::Array(items) => {
            yaml_array_into(v, items, indent_array_in_object, quote_keys, prefix, Ghost(depth), in_array, in_object, out);
        },
        Value::Object(fields) => {
            yaml_object_into(v, fields, indent_array_in_object, quote_keys, prefix, Ghost(depth), in_array, in_object, out);
        },
        _ => {
            yaml_scalar_into(v, prefix, Ghost(depth), in_array, in_object, out);
        },
    }
}

/// Appends the YAML text of the array `v`, whose items are `items`.
#[verifier::rlimit(30)]
fn yaml_array_into(
    v: &Value,
    items: &Vec<Value>,
    indent_array_in_object: bool,
    quote_keys: bool,
    prefix: &Vec<char>,
    Ghost(depth): Ghost<nat>,
    in_array: bool,
    in_object: bool,
    out: &mut Vec<char>,
)
    requires
        *v == Value::Array(*items),
        prefix@ == repeat(yaml_indent(), depth),
        in_object ==> depth >= 1,
    ensures
        final(out)@ == old(out)@ + yaml_model(v@, indent_array_in_object, quote_keys, depth, in_array, in_object),
    decreases v, 0nat,
{
    proof {
        lemma_view_array(*items);
    }
    let ghost vi = view_items(items@);
    let nested = in_array || in_object;
    if items.len() == 0 {
        if nested {
            out.push(' ');
        }
        out.push('[');
        out.push(']');
        return;
    }
    if nested {
        out.push('\n');
    }
    let ghost d: nat = if in_object && !indent_array_in_object {
        (depth - 1) as nat
    } else {
        depth
    };
    let here = if in_object && !indent_array_in_object {
        indent_out(prefix, Ghost(depth))
    } else {
        indent_in_place(prefix)
    };
    let child = indent_in(&here);
    let ghost start = out@;
    proof {
        lemma_items_empty(vi.subrange(0, 0), indent_array_in_object, quote_keys, d);
    }
    let mut i: usize = 0;
    while i < items.len()
        invariant
            0 <= i <= items@.len(),
            vi == view_items(items@),
            *v == Value::Array(*items),
            here@ == repeat(yaml_indent(), d),
            child@ == repeat(yaml_indent(), d + 1),
            out@ == start + yaml_items(vi.subrange(0, i as int), indent_array_in_object, quote_keys, d),
        decreases items@.len() - i,
    {
        if i > 0 {
            out.push('\n');
        }
        push_chars(out, here.as_slice());
        out.push('-');
        proof {
            assert(decreases_to!(*v => (*v)->Array_0));
            assert(decreases_to!(*items => items@));
            assert(decreases_to!(items@ => items@[i as int]));
        }
        yaml_into(&items[i], indent_array_in_object, quote_keys, &child, Ghost(d + 1), true, false, out);
        proof {
            assert(vi[i as int] == items@[i as int]@);
            lemma_items_step(vi, i as int, indent_array_in_object, quote_keys, d);
        }
        i += 1;
    }
    proof {
        assert(vi.subrange(0, i as int) =~= vi);
    }
}

/// Appends the YAML text of the object `v`, whose fields are `fields`.
#[verifier::rlimit(80)]
#[verifier::spinoff_prover]
fn yaml_object_into(
    v: &Value,
    fields: &Vec<(String, Value)>,
    indent_array_in_object: bool,
    quote_keys: bool,
    prefix: &Vec<char>,
    Ghost(depth): Ghost<nat>,
    in_array: bool,
    in_object: bool,
    out: &mut Vec<char>,
)
    requires
        *v == Value::Object(*fields),
        prefix@ == repeat(yaml_indent(), depth),
    ensures
        final(out)@ == old(out)@ + yaml_model(v@, indent_array_in_object, quote_keys, depth, in_array, in_object),
    decreases v, 0nat,
{
    proof {
        lemma_view_object(*fields);
    }
    let ghost vf = view_fields(fields@);
    if fields.len() == 0 {
        if in_array || in_object {
            out.push(' ');
        }
        out.push('{');
        out.push('}');
        return;
    }
    if in_array {
        out.push(' ');
    } else if in_object {
        out.push('\n');
    }
    let child = indent_in(prefix);
    let ghost start = out@;
    proof {
        lemma_fields_empty(vf.subrange(0, 0), indent_array_in_object, quote_keys, depth, in_array);
    }
    let mut i: usize = 0;
    while i < fields.len()
        invariant
            0 <= i <= fields@.len(),
            vf == view_fields(fields@),
            *v == Value::Object(*fields),
            prefix@ == repeat(yaml_indent(), depth),
            child@ == repeat(yaml_indent(), depth + 1),
            out@ == start + yaml_fields(vf.subrange(0, i as int), indent_array_in_object, quote_keys, depth, in_array),
        decreases fields@.len() - i,
    {
        proof {
            assert(decreases_to!(*v => (*v)->Object_0));
            assert(decreases_to!(*fields => fields@));
            assert(decreases_to!(fields@ => fields@[i as int]));
        }
        yaml_field_into(&fields[i], indent_array_in_object, quote_keys, prefix, &child, Ghost(depth), i > 0, !in_array || i != 0, out);
        proof {
            assert(vf[i as int] == (fields@[i as int].0@, fields@[i as int].1@));
            lemma_fields_step(vf, i as int, indent_array_in_object, quote_keys, depth, in_array);
            let piece = yaml_field_piece(
                fields@[i as int].0@,
                fields@[i as int].1@,
                indent_array_in_object,
                quote_keys,
                depth,
                i > 0,
                !in_array || i != 0,
            );
            let prev = yaml_fields(vf.subrange(0, i as int), indent_array_in_object, quote_keys, depth, in_array);
            assert(out@ == start + prev + piece);
            assert(start + prev + piece =~= start + (prev + piece));
        }
        i += 1;
    }
    proof {
        assert(vf.subrange(0, i as int) =~= vf);
    }
}

/// Appends one field of an object: the line break before it where it is
/// not the first, its indentation where asked, its key and its value.
fn yaml_field_into(
    field: &(String, Value),
    indent_array_in_object: bool,
    quote_keys: bool,
    prefix: &Vec<char>,
    child: &Vec<char>,
    Ghost(depth): Ghost<nat>,
    line_break: bool,
    indented: bool,
    out: &mut Vec<char>,
)
    requires
        prefix@ == repeat(yaml_indent(), depth),
        child@ == repeat(yaml_indent(), depth + 1),
    ensures
        final(out)@ == old(out)@ + yaml_field_piece(
            field.0@,
            field.1@,
            indent_array_in_object,
            quote_keys,
            depth,
            line_break,
            indented,
        ),
    decreases *field, 0nat,
{
    let ghost start = out@;
    if line_break {
        out.push('\n');
    }
    if indented {
        push_chars(out, prefix.as_slice());
    }
    push_yaml_key(out, &field.0, quote_keys);
    out.push(':');
    proof {
        assert(decreases_to!(*field => field.1));
    }
    yaml_into(&field.1, indent_array_in_object, quote_keys, child, Ghost(depth + 1), false, true, out);
    proof {
        let a = if line_break { seq!['\n'] } else { seq![] };
        let b = if indented { repeat(yaml_indent(), depth) } else { seq![] };
        assert(out@ =~= start + a + b + yaml_key(field.0@, quote_keys) + seq![':'] + yaml_model(
            field.1@,
            indent_array_in_object,
            quote_keys,
            depth + 1,
            false,
            true,
        ));
    }
}

/// Appends a field name as a YAML key.
fn push_yaml_key(out: &mut Vec<char>, name: &String, quote_keys: bool)
    ensures
        final(out)@ == old(out)@ + yaml_key(name@, quote_keys),
{
    proof {
        reveal(yaml_key);
    }
    let cs = chars_of(name.as_str());
    if !quote_keys && is_safe_yaml_plain(cs.as_slice()) {
        push_chars(out, cs.as_slice());
    } else {
        push_json_string(out, cs.as_slice());
    }
}

proof fn lemma_items_empty(items: Seq<ValueModel>, indent_array_in_object: bool, quote_keys: bool, depth: nat)
    requires
        items.len() == 0,
    ensures
        yaml_items(items, indent_array_in_object, quote_keys, depth) == Seq::<char>::empty(),
{
}

proof fn lemma_fields_empty(
    fields: Seq<(Seq<char>, ValueModel)>,
    indent_array_in_object: bool,
    quote_keys: bool,
    depth: nat,
    in_array: bool,
)
    requires
        fields.len() == 0,
    ensures
        yaml_fields(fields, indent_array_in_object, quote_keys, depth, in_array) == Seq::<char>::empty(),
{
}

proof fn lemma_items_step(items: Seq<ValueModel>, i: int, indent_array_in_object: bool, quote_keys: bool, depth: nat)
    requires
        0 <= i < items.len(),
    ensures
        yaml_items(items.subrange(0, i + 1), indent_array_in_object, quote_keys, depth) == yaml_items(
            items.subrange(0, i),
            indent_array_in_object,
            quote_keys,
            depth,
        ) + (if i > 0 {
            seq!['\n']
        } else {
            seq![]
        }) + repeat(yaml_indent(), depth) + seq!['-'] + yaml_model(
            items[i],
            indent_array_in_object,
            quote_keys,
            depth + 1,
            true,
            false,
        ),
{
    let sub = items.subrange(0, i + 1);
    assert(sub.subrange(0, sub.len() - 1) =~= items.subrange(0, i));
    assert(sub[sub.len() - 1] == items[i]);
    let tail = repeat(yaml_indent(), depth) + seq!['-'] + yaml_model(items[i], indent_array_in_object, quote_keys, depth + 1, true, false);
    if i == 0 {
        lemma_items_empty(items.subrange(0, 0), indent_array_in_object, quote_keys, depth);
        assert(yaml_items(sub, indent_array_in_object, quote_keys, depth) == Seq::<char>::empty() + tail);
        assert(Seq::<char>::empty() + tail =~= Seq::<char>::empty() + Seq::<char>::empty() + tail);
    } else {
        assert(yaml_items(sub, indent_array_in_object, quote_keys, depth) == yaml_items(items.subrange(0, i), indent_array_in_object, quote_keys, depth) + seq!['\n'] + tail);
    }
}

proof fn lemma_fields_step(
    fs: Seq<(Seq<char>, ValueModel)>,
    i: int,
    indent_array_in_object: bool,
    quote_keys: bool,
    depth: nat,
    in_array: bool,
)
    requires
        0 <= i < fs.len(),
    ensures
        yaml_fields(fs.subrange(0, i + 1), indent_array_in_object, quote_keys, depth, in_array) == yaml_fields(
            fs.subrange(0, i),
            indent_array_in_object,
            quote_keys,
            depth,
            in_array,
        ) + yaml_field_piece(fs[i].0, fs[i].1, indent_array_in_object, quote_keys, depth, i > 0, !in_array || i != 0),
{
    let sub = fs.subrange(0, i + 1);
    assert(sub.subrange(0, sub.len() - 1) =~= fs.subrange(0, i));
    assert(sub[sub.len() - 1] == fs[i]);
    lemma_fields_empty(fs.subrange(0, 0), indent_array_in_object, quote_keys, depth, in_array);
}

/// A copy of the indentation.
fn indent_in_place(prefix: &Vec<char>) -> (res: Vec<char>)
    ensures
        res@ == prefix@,
{
    let mut out: Vec<char> = Vec::new();
    push_chars(&mut out, prefix.as_slice());
    proof {
        assert(Seq::<char>::empty() + prefix@ =~= prefix@);
    }
    out
}

/// The YAML document of a value (`std.manifestYamlDoc`).
/// This writes the fields of each object in the order given.
fn manifest_yaml_doc_in_order(v: &Value, indent_array_in_object: bool, quote_keys: bool) -> (res: String)
    ensures
        res@ == yaml_model(v@, indent_array_in_object, quote_keys, 0, false, false),
{
    let mut out: Vec<char> = Vec::new();
    let prefix: Vec<char> = Vec::new();
    proof {
        assert(prefix@ =~= repeat(yaml_indent(), 0));
    }
    yaml_into(v, indent_array_in_object, quote_keys, &prefix, Ghost(0), false, false, &mut out);
    proof {
        assert(Seq::<char>::empty() + yaml_model(v@, indent_array_in_object, quote_keys, 0, false, false)
            =~= yaml_model(v@, indent_array_in_object, quote_keys, 0, false, false));
    }
    string_from_chars(out.as_slice())
}

/// The YAML stream of the values of an array (`std.manifestYamlStream`).
/// This writes the fields of each object in the order given.
#[verifier::spinoff_prover]
fn manifest_yaml_stream_in_order(
    docs: &Vec<Value>,
    indent_array_in_object: bool,
    c_document_end: bool,
    quote_keys: bool,
) -> (res: String)
    ensures
        res@ == yaml_stream_model(view_items(docs@), indent_array_in_object, c_document_end, quote_keys),
{
    let ghost vd = view_items(docs@);
    let mut out: Vec<char> = Vec::new();
    out.push('-');
    out.push('-');
    out.push('-');
    out.push('\n');
    let prefix: Vec<char> = Vec::new();
    proof {
        assert(prefix@ =~= repeat(yaml_indent(), 0));
    }
    let mut i: usize = 0;
    while i < docs.len()
        invariant
            0 <= i <= docs@.len(),
            vd == view_items(docs@),
            prefix@ == repeat(yaml_indent(), 0),
            out@ == seq!['-', '-', '-', '\n'] + yaml_stream_docs(vd.subrange(0, i as int), indent_array_in_object, quote_keys),
        decreases docs@.len() - i,
    {
        if i > 0 {
            out.push('\n');
            out.push('-');
            out.push('-');
            out.push('-');
            out.push('\n');
        }
        yaml_into(&docs[i], indent_array_in_object, quote_keys, &prefix, Ghost(0), false, false, &mut out);
        proof {
            let sub = vd.subrange(0, i + 1);
            assert(sub.drop_last() =~= vd.subrange(0, i as int));
            assert(sub.last() == docs@[i as int]@);
        }
        i += 1;
    }
    if c_document_end {
        out.push('\n');
        out.push('.');
        out.push('.');
        out.push('.');
        out.push('\n');
    } else {
        out.push('\n');
    }
    proof {
        assert(vd.subrange(0, i as int) =~= vd);
    }
    string_from_chars(out.as_slice())
}

/// The YAML document of a value (`std.manifestYamlDoc`).
pub fn manifest_yaml_doc(v: &Value, indent_array_in_object: bool, quote_keys: bool) -> (res: String)
    ensures
        res@ == yaml_model(normalize_model(v@), indent_array_in_object, quote_keys, 0, false, false),
{
    let n = normalize(v);
    manifest_yaml_doc_in_order(&n, indent_array_in_object, quote_keys)
}

/// The YAML stream of the values of an array (`std.manifestYamlStream`).
#[verifier::spinoff_prover]
pub fn manifest_yaml_stream(
    docs: &Vec<Value>,
    indent_array_in_object: bool,
    c_document_end: bool,
    quote_keys: bool,
) -> (res: String)
    ensures
        res@ == yaml_stream_model(normalize_items(view_items(docs@)), indent_array_in_object, c_document_end, quote_keys),
{
    let ghost dv = view_items(docs@);
    let mut nd: Vec<Value> = Vec::new();
    let mut i: usize = 0;
    proof {
        assert(view_items(nd@) =~= normalize_items(dv.subrange(0, 0)));
    }
    while i < docs.len()
        invariant
            i <= docs.len(),
            dv == view_items(docs@),
            view_items(nd@) == normalize_items(dv.subrange(0, i as int)),
        decreases docs.len() - i,
    {
        let d = normalize(&docs[i]);
        let ghost before = view_items(nd@);
        nd.push(d);
        proof {
            let sub = dv.subrange(0, i + 1);
            assert(sub.subrange(0, sub.len() - 1) =~= dv.subrange(0, i as int));
            assert(sub[sub.len() - 1] == docs@[i as int]@);
            assert(view_items(nd@) =~= before + seq![normalize_model(docs@[i as int]@)]);
        }
        i += 1;
    }
    proof {
        assert(dv.subrange(0, i as int) =~= dv);
    }
    manifest_yaml_stream_in_order(&nd, indent_array_in_object, c_document_end, quote_keys)
}

proof fn lemma_repeat_is_spaces(n: nat)
    ensures
        repeat(yaml_indent(), n) == spaces(2 * n),
    decreases n,
{
    if n > 0 {
        lemma_repeat_is_spaces((n - 1) as nat);
        assert(repeat(yaml_indent(), n) =~= spaces(2 * n));
    }
}

/// A string that ends in a line break, as the value of a field, is a block
/// scalar: the line `key: |` at the field's indentation (`2 * depth`
/// spaces), then each line of the string, without its last line break, at
/// two spaces more than the key.
pub proof fn law_yaml_block_scalar_field(
    name: Seq<char>,
    s: Seq<char>,
    indent_array_in_object: bool,
    quote_keys: bool,
    depth: nat,
)
    requires
        s.len() > 0,
        s.last() == '\n',
    ensures
        yaml_fields(seq![(name, ValueModel::String(s))], indent_array_in_object, quote_keys, depth, false)
            == spaces(2 * depth) + yaml_key(name, quote_keys) + seq![':', ' ', '|', '\n'] + spaces(2 * depth + 2)
            + indent_lines(s.drop_last(), spaces(2 * depth + 2)),
{
    lemma_repeat_is_spaces(depth);
    lemma_repeat_is_spaces(depth + 1);
    let fs = seq![(name, ValueModel::String(s))];
    assert(fs.len() == 1);
    assert(fs[0] == (name, ValueModel::String(s)));
    let ind = spaces(2 * depth + 2);
    assert(yaml_model(ValueModel::String(s), indent_array_in_object, quote_keys, depth + 1, false, true)
        == seq![' '] + (seq!['|', '\n'] + ind + indent_lines(s.drop_last(), ind)));
    assert(yaml_fields(fs, indent_array_in_object, quote_keys, depth, false) == seq![] + spaces(2 * depth)
        + yaml_key(name, quote_keys) + seq![':'] + (seq![' '] + (seq!['|', '\n'] + ind + indent_lines(s.drop_last(), ind))));
    assert(yaml_fields(fs, indent_array_in_object, quote_keys, depth, false) =~= spaces(2 * depth)
        + yaml_key(name, quote_keys) + seq![':', ' ', '|', '\n'] + ind + indent_lines(s.drop_last(), ind));
}

/// A string that ends in a line break, as an item of an array, is a block
/// scalar: the line `- |` at the array's indentation (`2 * depth` spaces),
/// then each line of the string at two spaces more than the `-`; as a whole
/// document, its lines are indented by two spaces.
pub proof fn law_yaml_block_scalar_item(s: Seq<char>, indent_array_in_object: bool, quote_keys: bool, depth: nat)
    requires
        s.len() > 0,
        s.last() == '\n',
    ensures
        yaml_items(seq![ValueModel::String(s)], indent_array_in_object, quote_keys, depth)
            == spaces(2 * depth) + seq!['-', ' ', '|', '\n'] + spaces(2 * depth + 2)
            + indent_lines(s.drop_last(), spaces(2 * depth + 2)),
        yaml_model(ValueModel::String(s), indent_array_in_object, quote_keys, 0, false, false)
            == seq!['|', '\n'] + spaces(2) + indent_lines(s.drop_last(), spaces(2)),
{
    lemma_repeat_is_spaces(depth);
    lemma_repeat_is_spaces(depth + 1);
    lemma_repeat_is_spaces(1);
    let its = seq![ValueModel::String(s)];
    assert(its.len() == 1);
    assert(its[0] == ValueModel::String(s));
    let ind = spaces(2 * depth + 2);
    assert(yaml_model(ValueModel::String(s), indent_array_in_object, quote_keys, depth + 1, true, false)
        == seq![' '] + (seq!['|', '\n'] + ind + indent_lines(s.drop_last(), ind)));
    assert(yaml_items(its, indent_array_in_object, quote_keys, depth) == seq![] + spaces(2 * depth) + seq!['-']
        + (seq![' '] + (seq!['|', '\n'] + ind + indent_lines(s.drop_last(), ind))));
    assert(yaml_items(its, indent_array_in_object, quote_keys, depth) =~= spaces(2 * depth)
        + seq!['-', ' ', '|', '\n'] + ind + indent_lines(s.drop_last(), ind));
    assert(yaml_model(ValueModel::String(s), indent_array_in_object, quote_keys, 0, false, false)
        =~= seq!['|', '\n'] + spaces(2) + indent_lines(s.drop_last(), spaces(2)));
}

/// A string that does not end in a line break (the empty string among them)
/// is written as a JSON string literal, after a space where it follows a
/// key or a `-`.
pub proof fn law_yaml_quoted_string(
    s: Seq<char>,
    indent_array_in_object: bool,
    quote_keys: bool,
    depth: nat,
    in_array: bool,
    in_object: bool,
)
    requires
        s.len() == 0 || s.last() != '\n',
    ensures
        yaml_model(ValueModel::String(s), indent_array_in_object, quote_keys, depth, in_array, in_object) == (if in_array
            || in_object {
            seq![' ']
        } else {
            seq![]
        }) + json_quote(s),
{
}

} // verus!
