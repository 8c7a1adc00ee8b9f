//! Rendering of values as JSON, YAML, Python, TOML, INI and XML text.

use vstd::prelude::*;
use crate::normalize::{normalize, normalize_model};
use crate::value::{Value, ValueModel, view_items, view_fields, lemma_view_array, lemma_view_object};
use crate::text::{chars_of, string_from_chars, push_str, push_chars};

verus! {

/// A hexadecimal digit, in lower case.
pub open spec fn hex_digit_lower(d: u32) -> char {
    if d < 10 {
        (48 + d) as char
    } else {
        (87 + d) as char
    }
}

/// How JSON text writes one character inside a string literal.
pub open spec fn json_escape_char(c: char) -> Seq<char> {
    if c == '\u{8}' {
        seq!['\\', 'b']
    } else if c == '\t' {
        seq!['\\', 't']
    } else if c == '\n' {
        seq!['\\', 'n']
    } else if c == '\u{c}' {
        seq!['\\', 'f']
    } else if c == '\r' {
        seq!['\\', 'r']
    } else if c == '"' {
        seq!['\\', '"']
    } else if c == '\\' {
        seq!['\\', '\\']
    } else if (c as u32) <= 0x19 || (0x7f <= (c as u32) && (c as u32) <= 0x9f) {
        let u = c as u32;
        seq!['\\', 'u', '0', '0', hex_digit_lower(u / 16), hex_digit_lower(u % 16)]
    } else {
        seq![c]
    }
}

/// The escaped characters of a string, without the quotes.
pub open spec fn json_escape_body(s: Seq<char>) -> Seq<char>
    decreases s.len(),
{
    if s.len() == 0 {
        seq![]
    } else {
        json_escape_body(s.drop_last()) + json_escape_char(s.last())
    }
}

/// A string as a JSON string literal.
pub open spec fn json_quote(s: Seq<char>) -> Seq<char> {
    seq!['"'] + json_escape_body(s) + seq!['"']
}

/// Appends the JSON string literal of `s` to `out`.
pub fn push_json_string(out: &mut Vec<char>, s: &[char])
    ensures
        final(out)@ == old(out)@ + json_quote(s@),
{
    out.push('"');
    let mut i: usize = 0;
    while i < s.len()
        invariant
            0 <= i <= s@.len(),
            out@ == old(out)@ + seq!['"'] + json_escape_body(s@.subrange(0, i as int)),
        decreases s@.len() - i,
    {
        let c = s[i];
        let ghost before = out@;
        if c == '\u{8}' {
            out.push('\\');
            out.push('b');
        } else if c == '\t' {
            out.push('\\');
            out.push('t');
        } else if c == '\n' {
            out.push('\\');
            out.push('n');
        } else if c == '\u{c}' {
            out.push('\\');
            out.push('f');
        } else if c == '\r' {
            out.push('\\');
            out.push('r');
        } else if c == '"' {
            out.push('\\');
            out.push('"');
        } else if c == '\\' {
            out.push('\\');
            out.push('\\');
        } else if (c as u32) <= 0x19 || (0x7f <= (c as u32) && (c as u32) <= 0x9f) {
            let u = c as u32;
            out.push('\\');
            out.push('u');
            out.push('0');
            out.push('0');
            out.push(hex_lower(u / 16));
            out.push(hex_lower(u % 16));
        } else {
            out.push(c);
        }
        proof {
            assert(out@ == before + json_escape_char(c));
            assert(s@.subrange(0, i + 1).drop_last() =~= s@.subrange(0, i as int));
        }
        i += 1;
    }
    out.push('"');
    proof {
        assert(s@.subrange(0, i as int) =~= s@);
    }
}

fn hex_lower(d: u32) -> (res: char)
    requires
        d < 16,
    ensures
        res == hex_digit_lower(d),
{
    if d < 10 {
        ((48 + d) as u8) as char
    } else {
        ((87 + d) as u8) as char
    }
}

/// A string as a JSON string literal (`std.escapeStringJson`).
pub fn escape_string_json(s: &str) -> (res: String)
    ensures
        res@ == json_quote(s@),
{
    let cs = chars_of(s);
    let mut out: Vec<char> = Vec::new();
    push_json_string(&mut out, cs.as_slice());
    string_from_chars(out.as_slice())
}

/// A string as a Python string literal (`std.escapeStringPython`), which
/// is written as JSON writes it.
pub fn escape_string_python(s: &str) -> (res: String)
    ensures
        res@ == json_quote(s@),
{
    escape_string_json(s)
}

/// A string as a TOML string literal, which is written as JSON writes it.
pub fn escape_string_toml(s: &str) -> (res: String)
    ensures
        res@ == json_quote(s@),
{
    escape_string_json(s)
}

/// `s` written `n` times.
pub open spec fn repeat(s: Seq<char>, n: nat) -> Seq<char>
    decreases n,
{
    if n == 0 {
        seq![]
    } else {
        repeat(s, (n - 1) as nat) + s
    }
}

/// The layout of JSON text: what indents one level, what ends a line, what
/// separates a key from its value and an item from the next, and what stands
/// for an empty array and an empty object (where `None`, the brackets with
/// two line ends between them).
pub struct ManifestJsonFormat {
    indent: String,
    newline: String,
    key_val_sep: String,
    item_sep: String,
    empty_array: Option<String>,
    empty_object: Option<String>,
}

/// The model of a [`ManifestJsonFormat`].
pub struct JsonFormatModel {
    pub indent: Seq<char>,
    pub newline: Seq<char>,
    pub key_val_sep: Seq<char>,
    pub item_sep: Seq<char>,
    pub empty_array: Option<Seq<char>>,
    pub empty_object: Option<Seq<char>>,
}

impl View for ManifestJsonFormat {
    type V = JsonFormatModel;

    closed spec fn view(&self) -> JsonFormatModel {
        JsonFormatModel {
            indent: self.indent@,
            newline: self.newline@,
            key_val_sep: self.key_val_sep@,
            item_sep: self.item_sep@,
            empty_array: match self.empty_array {
                Some(e) => Some(e@),
                None => None,
            },
            empty_object: match self.empty_object {
                Some(e) => Some(e@),
                None => None,
            },
        }
    }
}

fn string_of(s: &str) -> (res: String)
    ensures
        res@ == s@,
{
    let cs = chars_of(s);
    string_from_chars(cs.as_slice())
}

impl ManifestJsonFormat {
    /// The layout of `std.toString`: one line, `, ` between items.
    pub fn default_to_string() -> (res: Self)
        ensures
            res@ == (JsonFormatModel {
                indent: seq![],
                newline: seq![],
                key_val_sep: seq![':', ' '],
                item_sep: seq![',', ' '],
                empty_array: Some(seq!['[', ' ', ']']),
                empty_object: Some(seq!['{', ' ', '}']),
            }),
    {
        proof {
            reveal_strlit("");
            reveal_strlit(": ");
            reveal_strlit(", ");
            reveal_strlit("[ ]");
            reveal_strlit("{ }");
        }
        let res = Self {
            indent: string_of(""),
            newline: string_of(""),
            key_val_sep: string_of(": "),
            item_sep: string_of(", "),
            empty_array: Some(string_of("[ ]")),
            empty_object: Some(string_of("{ }")),
        };
        proof {
            assert(res@.indent =~= seq![]);
            assert(res@.newline =~= seq![]);
            assert(res@.key_val_sep =~= seq![':', ' ']);
            assert(res@.item_sep =~= seq![',', ' ']);
            assert(res@.empty_array->0 =~= seq!['[', ' ', ']']);
            assert(res@.empty_object->0 =~= seq!['{', ' ', '}']);
        }
        res
    }

    /// The layout of a manifested program: three spaces of indent, a line
    /// per item.
    pub fn default_manifest() -> (res: Self)
        ensures
            res@ == (JsonFormatModel {
                indent: seq![' ', ' ', ' '],
                newline: seq!['\n'],
                key_val_sep: seq![':', ' '],
                item_sep: seq![','],
                empty_array: Some(seq!['[', ' ', ']']),
                empty_object: Some(seq!['{', ' ', '}']),
            }),
    {
        proof {
            reveal_strlit("   ");
            reveal_strlit("\n");
            reveal_strlit(": ");
            reveal_strlit(",");
            reveal_strlit("[ ]");
            reveal_strlit("{ }");
        }
        let res = Self {
            indent: string_of("   "),
            newline: string_of("\n"),
            key_val_sep: string_of(": "),
            item_sep: string_of(","),
            empty_array: Some(string_of("[ ]")),
            empty_object: Some(string_of("{ }")),
        };
        proof {
            assert(res@.indent =~= seq![' ', ' ', ' ']);
            assert(res@.newline =~= seq!['\n']);
            assert(res@.key_val_sep =~= seq![':', ' ']);
            assert(res@.item_sep =~= seq![',']);
            assert(res@.empty_array->0 =~= seq!['[', ' ', ']']);
            assert(res@.empty_object->0 =~= seq!['{', ' ', '}']);
        }
        res
    }

    /// The layout of `std.manifestJsonEx`.
    pub fn for_std_manifest_ex(indent: &str, newline: &str, key_val_sep: &str) -> (res: Self)
        ensures
            res@ == (JsonFormatModel {
                indent: indent@,
                newline: newline@,
                key_val_sep: key_val_sep@,
                item_sep: seq![','],
                empty_array: None,
                empty_object: None,
            }),
    {
        proof {
            reveal_strlit(",");
        }
        let res = Self {
            indent: string_of(indent),
            newline: string_of(newline),
            key_val_sep: string_of(key_val_sep),
            item_sep: string_of(","),
            empty_array: None,
            empty_object: None,
        };
        proof {
            assert(res@.item_sep =~= seq![',']);
        }
        res
    }
}

/// JSON text of a value at nesting `depth`.
pub open spec fn manifest_json_model(v: ValueModel, f: JsonFormatModel, depth: nat) -> Seq<char>
    decreases v,
{
    match v {
        ValueModel::Null => seq!['n', 'u', 'l', 'l'],
        ValueModel::Bool(b) => if b {
            seq!['t', 'r', 'u', 'e']
        } else {
            seq!['f', 'a', 'l', 's', 'e']
        },
        ValueModel::Number(n) => n,
        ValueModel::String(s) => json_quote(s),
        ValueModel::Array(items) => if items.len() == 0 {
            match f.empty_array {
                Some(e) => e,
                None => seq!['['] + f.newline + f.newline + repeat(f.indent, depth) + seq![']'],
            }
        } else {
            seq!['['] + f.newline + manifest_json_items(items, f, depth) + f.newline + repeat(f.indent, depth) + seq![']']
        },
        ValueModel::Object(fields) => if fields.len() == 0 {
            match f.empty_object {
                Some(e) => e,
                None => seq!['{'] + f.newline + f.newline + repeat(f.indent, depth) + seq!['}'],
            }
        } else {
            seq!['{'] + f.newline + manifest_json_fields(fields, f, depth) + f.newline + repeat(f.indent, depth) + seq!['}']
        },
    }
}

/// The items of an array at nesting `depth`, each on its own line.
pub open spec fn manifest_json_items(items: Seq<ValueModel>, f: JsonFormatModel, depth: nat) -> Seq<char>
    decreases items,
{
    if items.len() == 0 {
        seq![]
    } else {
        let before = if items.len() == 1 {
            seq![]
        } else {
            manifest_json_items(items.subrange(0, items.len() - 1), f, depth) + f.item_sep + f.newline
        };
        before + repeat(f.indent, depth + 1) + manifest_json_model(items[items.len() - 1], f, depth + 1)
    }
}

/// The fields of an object at nesting `depth`, each on its own line.
pub open spec fn manifest_json_fields(fields: Seq<(Seq<char>, ValueModel)>, f: JsonFormatModel, depth: nat) -> Seq<char>
    decreases fields,
{
    if fields.len() == 0 {
        seq![]
    } else {
        let before = if fields.len() == 1 {
            seq![]
        } else {
            manifest_json_fields(fields.subrange(0, fields.len() - 1), f, depth) + f.item_sep + f.newline
        };
        let last = fields[fields.len() - 1];
        before + repeat(f.indent, depth + 1) + json_quote(last.0) + f.key_val_sep + manifest_json_model(last.1, f, depth + 1)
    }
}

/// Appends `s` to `out`.
fn push_string(out: &mut Vec<char>, s: &String)
    ensures
        final(out)@ == old(out)@ + s@,
{
    push_str(out, s.as_str());
}

/// The indentation of the level below: `prefix` and one more `indent`.
fn deeper(prefix: &Vec<char>, indent: &String) -> (res: Vec<char>)
    ensures
        res@ == prefix@ + indent@,
{
    let mut child: Vec<char> = Vec::new();
    push_chars(&mut child, prefix.as_slice());
    push_string(&mut child, indent);
    proof {
        assert(Seq::<char>::empty() + prefix@ =~= prefix@);
    }
    child
}

/// Appends the JSON text of `v` at nesting `depth`, whose indentation is `prefix`.
fn manifest_json_into(v: &Value, f: &ManifestJsonFormat, prefix: &Vec<char>, Ghost(depth): Ghost<nat>, out: &mut Vec<char>)
    requires
        prefix@ == repeat(f@.indent, depth),
    ensures
        final(out)@ == old(out)@ + manifest_json_model(v@, f@, depth),
    decreases v, 1nat,
{
    match v {
        Value::Null => {
            proof {
                reveal_strlit("null");
            }
            push_str(out, "null");
        },
        Value::Bool(b) => {
            proof {
                reveal_strlit("true");
                reveal_strlit("false");
            }
            if *b {
                push_str(out, "true");
            } else {
                push_str(out, "false");
            }
        },
        Value::Number(n) => {
            push_string(out, n);
        },
        Value::String(st) => {
            let cs = chars_of(st.as_str());
            push_json_string(out, cs.as_slice());
        },
        Value::Array(items) => {
            json_array_into(v, items, f, prefix, Ghost(depth), out);
        },
        Value::Object(fields) => {
            json_object_into(v, fields, f, prefix, Ghost(depth), out);
        },
    }
}

pub(crate) proof fn lemma_json_items_step(items: Seq<ValueModel>, i: int, f: JsonFormatModel, depth: nat)
    requires
        0 <= i < items.len(),
    ensures
        manifest_json_items(items.subrange(0, i + 1), f, depth) == manifest_json_items(items.subrange(0, i), f, depth)
            + (if i > 0 {
            f.item_sep + f.newline
        } else {
            seq![]
        }) + repeat(f.indent, depth + 1) + manifest_json_model(items[i], f, depth + 1),
{
    let sub = items.subrange(0, i + 1);
    assert(sub.subrange(0, sub.len() - 1) =~= items.subrange(0, i));
    assert(sub[sub.len() - 1] == items[i]);
    assert(manifest_json_items(items.subrange(0, 0), f, depth) == Seq::<char>::empty());
}

pub(crate) proof fn lemma_json_fields_step(fields: Seq<(Seq<char>, ValueModel)>, i: int, f: JsonFormatModel, depth: nat)
    requires
        0 <= i < fields.len(),
    ensures
        manifest_json_fields(fields.subrange(0, i + 1), f, depth) == manifest_json_fields(fields.subrange(0, i), f, depth)
            + (if i > 0 {
            f.item_sep + f.newline
        } else {
            seq![]
        }) + repeat(f.indent, depth + 1) + json_quote(fields[i].0) + f.key_val_sep + manifest_json_model(
            fields[i].1,
            f,
            depth + 1,
        ),
{
    let sub = fields.subrange(0, i + 1);
    assert(sub.subrange(0, sub.len() - 1) =~= fields.subrange(0, i));
    assert(sub[sub.len() - 1] == fields[i]);
    assert(manifest_json_fields(fields.subrange(0, 0), f, depth) == Seq::<char>::empty());
}

/// Appends the JSON text of the array `v`, whose items are `items`.
fn json_array_into(
    v: &Value,
    items: &Vec<Value>,
    f: &ManifestJsonFormat,
    prefix: &Vec<char>,
    Ghost(depth): Ghost<nat>,
    out: &mut Vec<char>,
)
    requires
        *v == Value::Array(*items),
        prefix@ == repeat(f@.indent, depth),
    ensures
        final(out)@ == old(out)@ + manifest_json_model(v@, f@, depth),
    decreases v, 0nat,
{
    proof {
        lemma_view_array(*items);
    }
    let ghost vi = view_items(items@);
    let ghost start = out@;
    if items.len() == 0 {
        match &f.empty_array {
            Some(e) => push_string(out, e),
            None => {
                out.push('[');
                push_string(out, &f.newline);
                push_string(out, &f.newline);
                push_chars(out, prefix.as_slice());
                out.push(']');
                proof {
                    assert(out@ =~= start + (seq!['['] + f@.newline + f@.newline + repeat(f@.indent, depth) + seq![']']));
                }
            },
        }
        return;
    }
    let child = deeper(prefix, &f.indent);
    out.push('[');
    push_string(out, &f.newline);
    let ghost open = out@;
    proof {
        assert(manifest_json_items(vi.subrange(0, 0), f@, depth) == Seq::<char>::empty());
    }
    let mut i: usize = 0;
    while i < items.len()
        invariant
            0 <= i <= items@.len(),
            vi == view_items(items@),
            *v == Value::Array(*items),
            child@ == repeat(f@.indent, depth + 1),
            out@ == open + manifest_json_items(vi.subrange(0, i as int), f@, depth),
        decreases items@.len() - i,
    {
        let ghost before = out@;
        if i > 0 {
            push_string(out, &f.item_sep);
            push_string(out, &f.newline);
        }
        push_chars(out, child.as_slice());
        let ghost mid = out@;
        proof {
            assert(decreases_to!(*v => (*v)->Array_0));
            assert(decreases_to!(*items => items@));
            assert(decreases_to!(items@ => items@[i as int]));
        }
        manifest_json_into(&items[i], f, &child, Ghost(depth + 1), out);
        proof {
            assert(vi[i as int] == items@[i as int]@);
            lemma_json_items_step(vi, i as int, f@, depth);
            let sep = if i > 0 { f@.item_sep + f@.newline } else { Seq::<char>::empty() };
            let prev = manifest_json_items(vi.subrange(0, i as int), f@, depth);
            assert(mid =~= before + sep + repeat(f@.indent, depth + 1));
            assert(out@ =~= open + (prev + sep + repeat(f@.indent, depth + 1) + manifest_json_model(vi[i as int], f@, depth + 1)));
        }
        i += 1;
    }
    push_string(out, &f.newline);
    push_chars(out, prefix.as_slice());
    out.push(']');
    proof {
        assert(vi.subrange(0, i as int) =~= vi);
        let t = manifest_json_items(vi, f@, depth);
        assert(out@ =~= start + (seq!['['] + f@.newline + t + f@.newline + repeat(f@.indent, depth) + seq![']']));
    }
}

/// Appends the JSON text of the object `v`, whose fields are `fields`.
fn json_object_into(
    v: &Value,
    fields: &Vec<(String, Value)>,
    f: &ManifestJsonFormat,
    prefix: &Vec<char>,
    Ghost(depth): Ghost<nat>,
    out: &mut Vec<char>,
)
    requires
        *v == Value::Object(*fields),
        prefix@ == repeat(f@.indent, depth),
    ensures
        final(out)@ == old(out)@ + manifest_json_model(v@, f@, depth),
    decreases v, 0nat,
{
    proof {
        lemma_view_object(*fields);
    }
    let ghost vf = view_fields(fields@);
    let ghost start = out@;
    if fields.len() == 0 {
        match &f.empty_object {
            Some(e) => push_string(out, e),
            None => {
                out.push('{');
                push_string(out, &f.newline);
                push_string(out, &f.newline);
                push_chars(out, prefix.as_slice());
                out.push('}');
                proof {
                    assert(out@ =~= start + (seq!['{'] + f@.newline + f@.newline + repeat(f@.indent, depth) + seq!['}']));
                }
            },
        }
        return;
    }
    let child = deeper(prefix, &f.indent);
    out.push('{');
    push_string(out, &f.newline);
    let ghost open = out@;
    proof {
        assert(manifest_json_fields(vf.subrange(0, 0), f@, depth) == Seq::<char>::empty());
    }
    let mut i: usize = 0;
    while i < fields.len()
        invariant
            0 <= i <= fields@.len(),
            vf == view_fields(fields@),
            *v == Value::Object(*fields),
            child@ == repeat(f@.indent, depth + 1),
            out@ == open + manifest_json_fields(vf.subrange(0, i as int), f@, depth),
        decreases fields@.len() - i,
    {
        let ghost before = out@;
        if i > 0 {
            push_string(out, &f.item_sep);
            push_string(out, &f.newline);
        }
        push_chars(out, child.as_slice());
        let name = chars_of(fields[i].0.as_str());
        push_json_string(out, name.as_slice());
        push_string(out, &f.key_val_sep);
        let ghost mid = out@;
        proof {
            assert(decreases_to!(*v => (*v)->Object_0));
            assert(decreases_to!(*fields => fields@));
            assert(decreases_to!(fields@ => fields@[i as int]));
            assert(decreases_to!(fields@[i as int] => fields@[i as int].1));
        }
        manifest_json_into(&fields[i].1, f, &child, Ghost(depth + 1), out);
        proof {
            assert(vf[i as int] == (fields@[i as int].0@, fields@[i as int].1@));
            lemma_json_fields_step(vf, i as int, f@, depth);
            let sep = if i > 0 { f@.item_sep + f@.newline } else { Seq::<char>::empty() };
            let prev = manifest_json_fields(vf.subrange(0, i as int), f@, depth);
            let head = sep + repeat(f@.indent, depth + 1) + json_quote(vf[i as int].0) + f@.key_val_sep;
            assert(mid =~= before + head);
            assert(out@ =~= open + (prev + head + manifest_json_model(vf[i as int].1, f@, depth + 1)));
        }
        i += 1;
    }
    push_string(out, &f.newline);
    push_chars(out, prefix.as_slice());
    out.push('}');
    proof {
        assert(vf.subrange(0, i as int) =~= vf);
        let t = manifest_json_fields(vf, f@, depth);
        assert(out@ =~= start + (seq!['{'] + f@.newline + t + f@.newline + repeat(f@.indent, depth) + seq!['}']));
    }
}

/// The JSON text of a value in the given layout.
/// This writes the fields of each object in the order given.
fn manifest_json_in_order(v: &Value, f: &ManifestJsonFormat) -> (res: String)
    ensures
        res@ == manifest_json_model(v@, f@, 0),
{
    let mut out: Vec<char> = Vec::new();
    let prefix: Vec<char> = Vec::new();
    proof {
        assert(prefix@ =~= repeat(f@.indent, 0));
    }
    manifest_json_into(v, f, &prefix, Ghost(0), &mut out);
    proof {
        assert(Seq::<char>::empty() + manifest_json_model(v@, f@, 0) =~= manifest_json_model(v@, f@, 0));
    }
    string_from_chars(out.as_slice())
}

/// The layout that `std.toString` writes JSON in.
pub open spec fn to_string_format() -> JsonFormatModel {
    JsonFormatModel {
        indent: seq![],
        newline: seq![],
        key_val_sep: seq![':', ' '],
        item_sep: seq![',', ' '],
        empty_array: Some(seq!['[', ' ', ']']),
        empty_object: Some(seq!['{', ' ', '}']),
    }
}

/// A value as a string: a string is itself, anything else its JSON text on
/// one line.
pub open spec fn to_string_model(v: ValueModel) -> Seq<char> {
    match v {
        ValueModel::String(s) => s,
        _ => manifest_json_model(normalize_model(v), to_string_format(), 0),
    }
}

/// A value as a string (`std.toString`).
pub fn value_to_string(v: &Value) -> (res: String)
    ensures
        res@ == to_string_model(v@),
{
    match v {
        Value::String(s) => s.clone(),
        _ => {
            let f = ManifestJsonFormat::default_to_string();
            manifest_json(v, &f)
        },
    }
}

/// Appends a value as a string.
pub fn push_value_string(out: &mut Vec<char>, v: &Value)
    ensures
        final(out)@ == old(out)@ + to_string_model(v@),
{
    let s = value_to_string(v);
    push_str(out, s.as_str());
}

/// The JSON text of a value in the given layout.
pub fn manifest_json(v: &Value, f: &ManifestJsonFormat) -> (res: String)
    ensures
        res@ == manifest_json_model(normalize_model(v@), f@, 0),
{
    let n = normalize(v);
    manifest_json_in_order(&n, f)
}

} // verus!
