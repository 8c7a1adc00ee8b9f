//! Reading back what the JSON writer writes: `std.parseJson` of the text
//! that `std.manifestJsonEx` makes of a value gives the value again.

use vstd::prelude::*;
use crate::value::ValueModel;
use crate::json::{
    ErrAt, is_json_ws, skip_ws, char_at, is_digit, digit_at, digits_end, int_part_end, frac_part_end, exp_part_end,
    lex_number, is_unescaped_control, has_key, has_prefix_at, lex_string, parse_value, parse_items,
    parse_first_member, parse_json_model, quoted_pos, lemma_str_body_quoted,
};
use crate::manifest::{
    JsonFormatModel, to_string_format, repeat, json_quote, json_escape_body, manifest_json_model, manifest_json_items, manifest_json_fields,
    lemma_json_items_step, lemma_json_fields_step,
};

verus! {

/// Whether every character is JSON whitespace.
pub open spec fn all_ws(s: Seq<char>) -> bool {
    forall|i: int| 0 <= i < s.len() ==> #[trigger] is_json_ws(s[i])
}

/// A character that would carry a number on.
pub open spec fn number_continues(c: char) -> bool {
    is_digit(c) || c == '.' || c == 'e' || c == 'E'
}

/// Whether `t` is one whole JSON number.
pub open spec fn is_json_number(t: Seq<char>) -> bool {
    lex_number(t, 0) == Ok::<Option<int>, ErrAt>(Some(t.len() as int))
}

/// Where `y` then `z` stand at `a` in `s`, each stands there.
pub proof fn lemma_sub_split(s: Seq<char>, a: int, y: Seq<char>, z: Seq<char>)
    requires
        0 <= a,
        a + y.len() + z.len() <= s.len(),
        s.subrange(a, a + y.len() + z.len()) == y + z,
    ensures
        s.subrange(a, a + y.len()) == y,
        s.subrange(a + y.len(), a + y.len() + z.len()) == z,
{
    assert forall|i: int| 0 <= i < y.len() implies s.subrange(a, a + y.len())[i] == y[i] by {
        assert(s.subrange(a, a + y.len() + z.len())[i] == (y + z)[i]);
    }
    assert forall|i: int| 0 <= i < z.len() implies s.subrange(a + y.len(), a + y.len() + z.len())[i] == z[i] by {
        assert(s.subrange(a, a + y.len() + z.len())[y.len() + i] == (y + z)[y.len() + i]);
        assert(s.subrange(a, a + y.len() + z.len())[y.len() + i] == s[a + y.len() + i]);
        assert(s.subrange(a + y.len(), a + y.len() + z.len())[i] == s[a + y.len() + i]);
        assert((y + z)[y.len() + i] == z[i]);
    }
    assert(s.subrange(a, a + y.len()) =~= y);
    assert(s.subrange(a + y.len(), a + y.len() + z.len()) =~= z);
}

/// Skipping whitespace passes over a run of whitespace.
pub proof fn lemma_skip_ws_run(s: Seq<char>, a: int, w: Seq<char>)
    requires
        0 <= a,
        a + w.len() <= s.len(),
        s.subrange(a, a + w.len()) == w,
        all_ws(w),
    ensures
        skip_ws(s, a) == skip_ws(s, a + w.len()),
    decreases w.len(),
{
    if w.len() > 0 {
        assert(s[a] == s.subrange(a, a + w.len())[0]);
        assert(is_json_ws(w[0]));
        let rest = w.drop_first();
        assert(s.subrange(a + 1, a + 1 + rest.len()) =~= rest) by {
            assert forall|i: int| 0 <= i < rest.len() implies s.subrange(a + 1, a + 1 + rest.len())[i] == rest[i] by {
                assert(s.subrange(a, a + w.len())[i + 1] == w[i + 1]);
            }
        }
        assert forall|i: int| 0 <= i < rest.len() implies #[trigger] is_json_ws(rest[i]) by {
            assert(rest[i] == w[i + 1]);
        }
        lemma_skip_ws_run(s, a + 1, rest);
    }
}

/// Where a character that is not whitespace stands, skipping stops.
pub proof fn lemma_skip_ws_stop(s: Seq<char>, a: int)
    requires
        0 <= a,
        a < s.len() ==> !is_json_ws(s[a]),
    ensures
        skip_ws(s, a) == a,
{
}

/// The digits of a number written at `p` in `s` end where they end in the
/// number, when no digit follows it.
proof fn lemma_digits_end_at(s: Seq<char>, p: int, t: Seq<char>, k: int)
    requires
        0 <= p,
        p + t.len() <= s.len(),
        s.subrange(p, p + t.len()) == t,
        p + t.len() < s.len() ==> !number_continues(s[p + t.len()]),
        0 <= k <= t.len(),
    ensures
        digits_end(s, p + k) == p + digits_end(t, k),
        digits_end(t, k) <= t.len(),
    decreases t.len() - k,
{
    if k < t.len() {
        assert(s[p + k] == s.subrange(p, p + t.len())[k]);
        if digit_at(t, k) {
            lemma_digits_end_at(s, p, t, k + 1);
        }
    }
}

/// A whole number written at `p` in `s`, followed by nothing that carries a
/// number on, is read there as a number that ends where it ends.
pub proof fn lemma_lex_number_at(s: Seq<char>, p: int, t: Seq<char>)
    requires
        is_json_number(t),
        0 <= p,
        p + t.len() <= s.len(),
        s.subrange(p, p + t.len()) == t,
        p + t.len() < s.len() ==> !number_continues(s[p + t.len()]),
    ensures
        lex_number(s, p) == Ok::<Option<int>, ErrAt>(Some(p + t.len())),
{
    let n = t.len() as int;
    assert forall|k: int| 0 <= k < n implies s[p + k] == t[k] by {
        assert(s.subrange(p, p + n)[k] == t[k]);
    }
    let k1: int = if char_at(t, 0, '-') {
        1
    } else {
        0
    };
    assert(char_at(s, p, '-') == char_at(t, 0, '-'));
    let a = int_part_end(t, k1)->0;
    assert(digit_at(t, k1));
    assert(digit_at(s, p + k1));
    if t[k1] == '0' {
        if k1 + 1 < n {
            assert(digit_at(s, p + k1 + 1) == digit_at(t, k1 + 1));
        }
    } else {
        lemma_digits_end_at(s, p, t, k1);
    }
    assert(int_part_end(s, p + k1) == Some(p + a));
    assert(a <= n);
    let b = frac_part_end(t, a)->0;
    if a < n {
        assert(char_at(s, p + a, '.') == char_at(t, a, '.'));
    }
    if char_at(t, a, '.') {
        assert(a + 1 < n);
        assert(digit_at(s, p + a + 1) == digit_at(t, a + 1));
        lemma_digits_end_at(s, p, t, a + 1);
    }
    assert(frac_part_end(s, p + a) == Some(p + b));
    assert(b <= n);
    if b < n {
        assert(char_at(s, p + b, 'e') == char_at(t, b, 'e'));
        assert(char_at(s, p + b, 'E') == char_at(t, b, 'E'));
    }
    if char_at(t, b, 'e') || char_at(t, b, 'E') {
        let e1: int = if char_at(t, b + 1, '-') || char_at(t, b + 1, '+') {
            b + 2
        } else {
            b + 1
        };
        assert(digit_at(t, e1));
        assert(b + 1 < n);
        assert(char_at(s, p + b + 1, '-') == char_at(t, b + 1, '-'));
        assert(char_at(s, p + b + 1, '+') == char_at(t, b + 1, '+'));
        assert(digit_at(s, p + e1) == digit_at(t, e1));
        lemma_digits_end_at(s, p, t, e1);
    }
    assert(exp_part_end(s, p + b) == Some(p + exp_part_end(t, b)->0));
}


/// Whether `sep` is the character `c` with only whitespace around it.
pub open spec fn ws_around(sep: Seq<char>, c: char) -> bool {
    exists|i: int|
        0 <= i < sep.len() && sep[i] == c && #[trigger] all_ws(sep.subrange(0, i)) && all_ws(
            sep.subrange(i + 1, sep.len() as int),
        )
}

/// Whether `e` is the bracket `open`, whitespace, and the bracket `close`.
pub open spec fn brackets_around_ws(e: Seq<char>, open: char, close: char) -> bool {
    &&& e.len() >= 2
    &&& e[0] == open
    &&& e[e.len() - 1] == close
    &&& all_ws(e.subrange(1, e.len() - 1))
}

/// Whether a layout writes text that the JSON reader reads back: indent and
/// line end are whitespace, the separators are `:` and `,` with whitespace
/// around them, and an empty array or object is its brackets around
/// whitespace.
pub open spec fn layout_reads_back(f: JsonFormatModel) -> bool {
    &&& all_ws(f.indent)
    &&& all_ws(f.newline)
    &&& ws_around(f.key_val_sep, ':')
    &&& ws_around(f.item_sep, ',')
    &&& (f.empty_array matches Some(e) ==> brackets_around_ws(e, '[', ']'))
    &&& (f.empty_object matches Some(e) ==> brackets_around_ws(e, '{', '}'))
}

/// Whether a string holds none of the characters that the JSON writer
/// leaves unescaped although JSON refuses them.
pub open spec fn escapes_cleanly(s: Seq<char>) -> bool {
    forall|j: int| 0 <= j < s.len() ==> !is_unescaped_control(#[trigger] s[j])
}

/// Whether a value is one that the JSON reader gives back from its JSON
/// text: every number is one whole JSON number, every string and key escapes
/// cleanly, and no object has a key twice.
pub open spec fn reads_back(v: ValueModel) -> bool
    decreases v, 1nat,
{
    match v {
        ValueModel::Null => true,
        ValueModel::Bool(_) => true,
        ValueModel::Number(t) => is_json_number(t),
        ValueModel::String(s) => escapes_cleanly(s),
        ValueModel::Array(items) => items_read_back(items),
        ValueModel::Object(fields) => fields_read_back(fields),
    }
}

/// Whether every item reads back.
pub open spec fn items_read_back(items: Seq<ValueModel>) -> bool
    decreases items, 0nat,
{
    if items.len() == 0 {
        true
    } else {
        items_read_back(items.subrange(0, items.len() - 1)) && reads_back(items[items.len() - 1])
    }
}

/// Whether every field's key escapes cleanly and comes first there, and its
/// value reads back.
pub open spec fn fields_read_back(fields: Seq<(Seq<char>, ValueModel)>) -> bool
    decreases fields, 0nat,
{
    if fields.len() == 0 {
        true
    } else {
        let k = fields.len() - 1;
        &&& fields_read_back(fields.subrange(0, k))
        &&& escapes_cleanly(fields[k].0)
        &&& !has_key(fields.subrange(0, k), fields[k].0)
        &&& reads_back(fields[k].1)
    }
}

/// Each item of items that read back reads back.
proof fn lemma_items_read_back(items: Seq<ValueModel>)
    requires
        items_read_back(items),
    ensures
        forall|i: int| 0 <= i < items.len() ==> #[trigger] reads_back(items[i]),
    decreases items.len(),
{
    if items.len() > 0 {
        let init = items.subrange(0, items.len() - 1);
        lemma_items_read_back(init);
        assert forall|i: int| 0 <= i < items.len() implies #[trigger] reads_back(items[i]) by {
            if i < items.len() - 1 {
                assert(init[i] == items[i]);
            }
        }
    }
}

/// The `i`-th field of fields that read back has a key that escapes cleanly
/// and comes first there, and a value that reads back.
proof fn lemma_field_reads_back(fields: Seq<(Seq<char>, ValueModel)>, i: int)
    requires
        fields_read_back(fields),
        0 <= i < fields.len(),
    ensures
        escapes_cleanly(fields[i].0),
        reads_back(fields[i].1),
        !has_key(fields.subrange(0, i), fields[i].0),
    decreases fields.len(),
{
    let k = fields.len() - 1;
    if i < k {
        let init = fields.subrange(0, k);
        lemma_field_reads_back(init, i);
        assert(init[i] == fields[i]);
        assert(init.subrange(0, i) =~= fields.subrange(0, i));
    }
}

/// Whitespace followed by whitespace is whitespace.
proof fn lemma_all_ws_concat(a: Seq<char>, b: Seq<char>)
    requires
        all_ws(a),
        all_ws(b),
    ensures
        all_ws(a + b),
{
    assert forall|i: int| 0 <= i < (a + b).len() implies #[trigger] is_json_ws((a + b)[i]) by {
        if i < a.len() {
            assert((a + b)[i] == a[i]);
        } else {
            assert((a + b)[i] == b[i - a.len()]);
        }
    }
}

/// Whitespace repeated is whitespace.
proof fn lemma_all_ws_repeat(w: Seq<char>, n: nat)
    requires
        all_ws(w),
    ensures
        all_ws(repeat(w, n)),
    decreases n,
{
    if n > 0 {
        lemma_all_ws_repeat(w, (n - 1) as nat);
        lemma_all_ws_concat(repeat(w, (n - 1) as nat), w);
    }
}

/// Where whitespace `w` stands at `a` and no whitespace follows it,
/// skipping whitespace from `a` ends just after `w`.
proof fn lemma_skip_to(s: Seq<char>, a: int, w: Seq<char>)
    requires
        0 <= a,
        a + w.len() <= s.len(),
        s.subrange(a, a + w.len()) == w,
        all_ws(w),
        a + w.len() < s.len() ==> !is_json_ws(s[a + w.len()]),
    ensures
        skip_ws(s, a) == a + w.len(),
{
    lemma_skip_ws_run(s, a, w);
    lemma_skip_ws_stop(s, a + w.len());
}

/// A part of what stands at `a` stands there too.
proof fn lemma_placed_prefix(s: Seq<char>, a: int, x: Seq<char>, y: Seq<char>)
    requires
        0 <= a,
        a + x.len() <= s.len(),
        s.subrange(a, a + x.len()) == x,
        y.len() <= x.len(),
        x.subrange(0, y.len() as int) == y,
    ensures
        s.subrange(a, a + y.len()) == y,
{
    assert forall|i: int| 0 <= i < y.len() implies s.subrange(a, a + y.len())[i] == y[i] by {
        assert(s.subrange(a, a + x.len())[i] == x[i]);
        assert(x.subrange(0, y.len() as int)[i] == x[i]);
    }
    assert(s.subrange(a, a + y.len()) =~= y);
}

/// A whole JSON number starts with a minus sign or a digit.
proof fn lemma_number_start(t: Seq<char>)
    requires
        is_json_number(t),
    ensures
        t.len() > 0,
        t[0] == '-' || is_digit(t[0]),
{
}


/// The JSON text of a value that reads back starts with a character that is
/// neither whitespace nor a closing bracket.
proof fn lemma_first_char(v: ValueModel, f: JsonFormatModel, d: nat)
    requires
        layout_reads_back(f),
        reads_back(v),
    ensures
        manifest_json_model(v, f, d).len() > 0,
        !is_json_ws(manifest_json_model(v, f, d)[0]),
        !number_continues(manifest_json_model(v, f, d)[0]) || is_digit(manifest_json_model(v, f, d)[0]),
        manifest_json_model(v, f, d)[0] != ']',
        manifest_json_model(v, f, d)[0] != '}',
        manifest_json_model(v, f, d)[0] != ',',
{
    match v {
        ValueModel::Number(t) => {
            lemma_number_start(t);
        },
        _ => {},
    }
}

/// The text of the first `k` items of an array comes first in the text of
/// its items.
proof fn lemma_items_prefix(items: Seq<ValueModel>, k: int, f: JsonFormatModel, d: nat)
    requires
        0 <= k <= items.len(),
    ensures
        manifest_json_items(items.subrange(0, k), f, d).len() <= manifest_json_items(items, f, d).len(),
        manifest_json_items(items, f, d).subrange(0, manifest_json_items(items.subrange(0, k), f, d).len() as int)
            == manifest_json_items(items.subrange(0, k), f, d),
    decreases items.len() - k,
{
    let whole = manifest_json_items(items, f, d);
    let tk = manifest_json_items(items.subrange(0, k), f, d);
    if k == items.len() {
        assert(items.subrange(0, k) =~= items);
        assert(whole.subrange(0, whole.len() as int) =~= whole);
    } else {
        lemma_items_prefix(items, k + 1, f, d);
        lemma_json_items_step(items, k, f, d);
        let tk1 = manifest_json_items(items.subrange(0, k + 1), f, d);
        assert(tk1.subrange(0, tk.len() as int) =~= tk);
        assert(whole.subrange(0, tk.len() as int) =~= tk) by {
            assert forall|i: int| 0 <= i < tk.len() implies whole.subrange(0, tk.len() as int)[i] == tk[i] by {
                assert(whole.subrange(0, tk1.len() as int)[i] == tk1[i]);
                assert(tk1.subrange(0, tk.len() as int)[i] == tk1[i]);
            }
        }
    }
}

/// The text of the first `k` fields of an object comes first in the text of
/// its fields.
proof fn lemma_fields_prefix(fields: Seq<(Seq<char>, ValueModel)>, k: int, f: JsonFormatModel, d: nat)
    requires
        0 <= k <= fields.len(),
    ensures
        manifest_json_fields(fields.subrange(0, k), f, d).len() <= manifest_json_fields(fields, f, d).len(),
        manifest_json_fields(fields, f, d).subrange(0, manifest_json_fields(fields.subrange(0, k), f, d).len() as int)
            == manifest_json_fields(fields.subrange(0, k), f, d),
    decreases fields.len() - k,
{
    let whole = manifest_json_fields(fields, f, d);
    let tk = manifest_json_fields(fields.subrange(0, k), f, d);
    if k == fields.len() {
        assert(fields.subrange(0, k) =~= fields);
        assert(whole.subrange(0, whole.len() as int) =~= whole);
    } else {
        lemma_fields_prefix(fields, k + 1, f, d);
        lemma_json_fields_step(fields, k, f, d);
        let tk1 = manifest_json_fields(fields.subrange(0, k + 1), f, d);
        assert(tk1.subrange(0, tk.len() as int) =~= tk);
        assert(whole.subrange(0, tk.len() as int) =~= tk) by {
            assert forall|i: int| 0 <= i < tk.len() implies whole.subrange(0, tk.len() as int)[i] == tk[i] by {
                assert(whole.subrange(0, tk1.len() as int)[i] == tk1[i]);
                assert(tk1.subrange(0, tk.len() as int)[i] == tk1[i]);
            }
        }
    }
}


/// Whether `x` stands at index `a` of `s`.
pub open spec fn placed(s: Seq<char>, a: int, x: Seq<char>) -> bool {
    0 <= a && a + x.len() <= s.len() && s.subrange(a, a + x.len()) == x
}

/// What closes an array or object at nesting `d`: a line end, the indent,
/// and the bracket `c`.
pub open spec fn closing(f: JsonFormatModel, d: nat, c: char) -> Seq<char> {
    f.newline + repeat(f.indent, d) + seq![c]
}

/// Where the `k`-th item starts in the text of the items of an array.
pub open spec fn item_start(items: Seq<ValueModel>, k: int, f: JsonFormatModel, d: nat) -> int {
    manifest_json_items(items.subrange(0, k), f, d).len() + (if k > 0 {
        (f.item_sep.len() + f.newline.len()) as int
    } else {
        0int
    }) + repeat(f.indent, d + 1).len()
}

/// Where the key of the `k`-th field starts in the text of the fields of an
/// object.
pub open spec fn field_start(fields: Seq<(Seq<char>, ValueModel)>, k: int, f: JsonFormatModel, d: nat) -> int {
    manifest_json_fields(fields.subrange(0, k), f, d).len() + (if k > 0 {
        (f.item_sep.len() + f.newline.len()) as int
    } else {
        0int
    }) + repeat(f.indent, d + 1).len()
}

/// Where a character other than `lit`'s first stands at `p`, `lit` does not.
proof fn lemma_not_prefix(s: Seq<char>, p: int, lit: Seq<char>)
    requires
        0 <= p < s.len(),
        lit.len() > 0,
        s[p] != lit[0],
    ensures
        !has_prefix_at(s, p, lit),
{
    if has_prefix_at(s, p, lit) {
        assert(s.subrange(p, p + lit.len())[0] == s[p]);
    }
}

/// A string literal written at `p` is read there.
proof fn lemma_lex_string_at(s: Seq<char>, p: int, str: Seq<char>)
    requires
        escapes_cleanly(str),
        placed(s, p, json_quote(str)),
    ensures
        lex_string(s, p) == Ok::<Option<(Seq<char>, int)>, ErrAt>(Some((str, p + json_quote(str).len()))),
{
    assert(s.subrange(p, p + json_quote(str).len())[0] == s[p]);
    assert(str.subrange(0, 0) =~= Seq::<char>::empty());
    assert(json_escape_body(Seq::<char>::empty()) =~= Seq::<char>::empty());
    assert(quoted_pos(str, 0) == 1);
    lemma_str_body_quoted(s, p, str, 0);
}

/// A value other than an array or an object, whose JSON text stands at `p`
/// followed by nothing that carries a number on, is read there.
proof fn lemma_scalar_value(s: Seq<char>, p: int, v: ValueModel, f: JsonFormatModel, d: nat)
    requires
        reads_back(v),
        !(v is Array),
        !(v is Object),
        placed(s, p, manifest_json_model(v, f, d)),
        p + manifest_json_model(v, f, d).len() < s.len() ==> !number_continues(
            s[p + manifest_json_model(v, f, d).len()],
        ),
    ensures
        parse_value(s, p) == Ok::<(ValueModel, int), ErrAt>(
            (v, skip_ws(s, p + manifest_json_model(v, f, d).len())),
        ),
{
    let m = manifest_json_model(v, f, d);
    assert forall|i: int| 0 <= i < m.len() implies s[p + i] == m[i] by {
        assert(s.subrange(p, p + m.len())[i] == s[p + i]);
    }
    let null = seq!['n', 'u', 'l', 'l'];
    let fals = seq!['f', 'a', 'l', 's', 'e'];
    let tru = seq!['t', 'r', 'u', 'e'];
    match v {
        ValueModel::Null => {
            assert(has_prefix_at(s, p, null));
        },
        ValueModel::Bool(b) => {
            lemma_not_prefix(s, p, null);
            if b {
                lemma_not_prefix(s, p, fals);
                assert(has_prefix_at(s, p, tru));
            } else {
                assert(has_prefix_at(s, p, fals));
            }
        },
        ValueModel::Number(t) => {
            lemma_number_start(t);
            lemma_not_prefix(s, p, null);
            lemma_not_prefix(s, p, fals);
            lemma_not_prefix(s, p, tru);
            lemma_lex_number_at(s, p, t);
        },
        ValueModel::String(str) => {
            lemma_not_prefix(s, p, null);
            lemma_not_prefix(s, p, fals);
            lemma_not_prefix(s, p, tru);
            assert(lex_number(s, p) == Ok::<Option<int>, ErrAt>(None));
            lemma_lex_string_at(s, p, str);
        },
        _ => {},
    }
}


/// The JSON text of a value that reads back, written at `p` and followed by
/// nothing that carries a number on, is read there as that value.
proof fn lemma_value(s: Seq<char>, p: int, v: ValueModel, f: JsonFormatModel, d: nat)
    requires
        layout_reads_back(f),
        reads_back(v),
        placed(s, p, manifest_json_model(v, f, d)),
        p + manifest_json_model(v, f, d).len() < s.len() ==> !number_continues(
            s[p + manifest_json_model(v, f, d).len()],
        ),
    ensures
        parse_value(s, p) == Ok::<(ValueModel, int), ErrAt>(
            (v, skip_ws(s, p + manifest_json_model(v, f, d).len())),
        ),
    decreases v, 2int,
{
    match v {
        ValueModel::Array(_) => lemma_array_value(s, p, v, f, d),
        ValueModel::Object(_) => lemma_object_value(s, p, v, f, d),
        _ => lemma_scalar_value(s, p, v, f, d),
    }
}

/// Where `[` or `{` stands at `p`, neither a literal, a number nor a string
/// starts there.
proof fn lemma_opens(s: Seq<char>, p: int)
    requires
        0 <= p < s.len(),
        s[p] == '[' || s[p] == '{',
    ensures
        !has_prefix_at(s, p, seq!['n', 'u', 'l', 'l']),
        !has_prefix_at(s, p, seq!['f', 'a', 'l', 's', 'e']),
        !has_prefix_at(s, p, seq!['t', 'r', 'u', 'e']),
        lex_number(s, p) == Ok::<Option<int>, ErrAt>(None),
        lex_string(s, p) == Ok::<Option<(Seq<char>, int)>, ErrAt>(None),
{
    lemma_not_prefix(s, p, seq!['n', 'u', 'l', 'l']);
    lemma_not_prefix(s, p, seq!['f', 'a', 'l', 's', 'e']);
    lemma_not_prefix(s, p, seq!['t', 'r', 'u', 'e']);
}

/// Brackets around whitespace, written at `p`: skipping whitespace after
/// the opening bracket reaches the closing one.
proof fn lemma_empty_brackets(s: Seq<char>, p: int, m: Seq<char>)
    requires
        placed(s, p, m),
        m.len() >= 2,
        all_ws(m.subrange(1, m.len() - 1)),
        !is_json_ws(m[m.len() - 1]),
    ensures
        s[p] == m[0],
        skip_ws(s, p + 1) == p + m.len() - 1,
        s[p + m.len() - 1] == m[m.len() - 1],
{
    let w = m.subrange(1, m.len() - 1);
    assert(s.subrange(p + 1, p + 1 + w.len()) =~= w) by {
        assert forall|i: int| 0 <= i < w.len() implies s.subrange(p + 1, p + 1 + w.len())[i] == w[i] by {
            assert(s.subrange(p, p + m.len())[i + 1] == m[i + 1]);
        }
    }
    assert(s.subrange(p, p + m.len())[m.len() - 1] == m[m.len() - 1]);
    assert(s.subrange(p, p + m.len())[0] == m[0]);
    lemma_skip_ws_run(s, p + 1, w);
    lemma_skip_ws_stop(s, p + m.len() - 1);
}

/// An item separator, a line end and an indent, written at `e` before
/// something that starts with no whitespace: whitespace skipping reaches
/// the `,`, and from after it the next thing.
proof fn lemma_separator(s: Seq<char>, e: int, f: JsonFormatModel, d: nat, x: Seq<char>)
    requires
        layout_reads_back(f),
        placed(s, e, f.item_sep + f.newline + repeat(f.indent, d + 1) + x),
        x.len() > 0,
        !is_json_ws(x[0]),
    ensures
        e <= skip_ws(s, e) < e + f.item_sep.len(),
        s[skip_ws(s, e)] == ',',
        skip_ws(s, skip_ws(s, e) + 1) == e + f.item_sep.len() + f.newline.len() + repeat(f.indent, d + 1).len(),
        !number_continues(s[e]),
{
    let isep = f.item_sep;
    let nl = f.newline;
    let ind1 = repeat(f.indent, d + 1);
    lemma_all_ws_repeat(f.indent, d + 1);
    lemma_sub_split(s, e, isep + nl + ind1, x);
    lemma_sub_split(s, e, isep + nl, ind1);
    lemma_sub_split(s, e, isep, nl);
    let i = choose|i: int|
        0 <= i < isep.len() && isep[i] == ',' && #[trigger] all_ws(isep.subrange(0, i)) && all_ws(
            isep.subrange(i + 1, isep.len() as int),
        );
    let w1 = isep.subrange(0, i);
    let w2 = isep.subrange(i + 1, isep.len() as int);
    assert(isep =~= w1 + seq![','] + w2);
    lemma_sub_split(s, e, w1 + seq![','], w2);
    lemma_sub_split(s, e, w1, seq![',']);
    assert(s.subrange(e + i, e + i + 1)[0] == s[e + i]);
    assert(s.subrange(e, e + isep.len())[0] == s[e]);
    if i > 0 {
        assert(w1[0] == isep[0]);
        assert(is_json_ws(w1[0]));
    }
    lemma_skip_to(s, e, w1);
    lemma_skip_ws_run(s, e + i + 1, w2);
    lemma_skip_ws_run(s, e + isep.len(), nl);
    lemma_skip_ws_run(s, e + isep.len() + nl.len(), ind1);
    let y = e + isep.len() + nl.len() + ind1.len();
    assert(s.subrange(y, y + x.len())[0] == s[y]);
    lemma_skip_ws_stop(s, y);
}

/// The closing of an array or object, written at `e`: whitespace skipping
/// reaches its bracket.
proof fn lemma_closing(s: Seq<char>, e: int, f: JsonFormatModel, d: nat, c: char)
    requires
        layout_reads_back(f),
        placed(s, e, closing(f, d, c)),
        c == ']' || c == '}',
    ensures
        skip_ws(s, e) == e + closing(f, d, c).len() - 1,
        s[e + closing(f, d, c).len() - 1] == c,
        !number_continues(s[e]),
{
    let indd = repeat(f.indent, d);
    lemma_all_ws_repeat(f.indent, d);
    let wc = f.newline + indd;
    lemma_all_ws_concat(f.newline, indd);
    lemma_sub_split(s, e, wc, seq![c]);
    assert(s.subrange(e + wc.len(), e + wc.len() + 1)[0] == s[e + wc.len()]);
    if wc.len() > 0 {
        assert(s.subrange(e, e + wc.len())[0] == s[e]);
        assert(is_json_ws(wc[0]));
    }
    lemma_skip_to(s, e, wc);
}

/// Where the `k`-th item of an array stands, and what follows it, in the
/// text of its items followed by its closing.
proof fn lemma_item_at(s: Seq<char>, start: int, items: Seq<ValueModel>, f: JsonFormatModel, d: nat, k: int)
    requires
        0 <= k < items.len(),
        placed(s, start, manifest_json_items(items, f, d) + closing(f, d, ']')),
    ensures
        placed(s, start + item_start(items, k, f, d), manifest_json_model(items[k], f, d + 1)),
        k + 1 < items.len() ==> placed(
            s,
            start + item_start(items, k, f, d) + manifest_json_model(items[k], f, d + 1).len(),
            f.item_sep + f.newline + repeat(f.indent, d + 1) + manifest_json_model(items[k + 1], f, d + 1),
        ),
        k + 1 < items.len() ==> start + item_start(items, k, f, d) + manifest_json_model(items[k], f, d + 1).len()
            + f.item_sep.len() + f.newline.len() + repeat(f.indent, d + 1).len() == start + item_start(
            items,
            k + 1,
            f,
            d,
        ),
        k + 1 == items.len() ==> placed(
            s,
            start + item_start(items, k, f, d) + manifest_json_model(items[k], f, d + 1).len(),
            closing(f, d, ']'),
        ),
        k + 1 == items.len() ==> start + item_start(items, k, f, d) + manifest_json_model(items[k], f, d + 1).len()
            == start + manifest_json_items(items, f, d).len(),
{
    let n = items.len() as int;
    let body = manifest_json_items(items, f, d);
    let cl = closing(f, d, ']');
    let ind1 = repeat(f.indent, d + 1);
    lemma_sub_split(s, start, body, cl);
    let tk = manifest_json_items(items.subrange(0, k), f, d);
    let tk1 = manifest_json_items(items.subrange(0, k + 1), f, d);
    let sep: Seq<char> = if k > 0 {
        f.item_sep + f.newline
    } else {
        seq![]
    };
    let mk = manifest_json_model(items[k], f, d + 1);
    lemma_json_items_step(items, k, f, d);
    lemma_items_prefix(items, k + 1, f, d);
    lemma_placed_prefix(s, start, body, tk1);
    lemma_sub_split(s, start, tk + sep + ind1, mk);
    if k + 1 < n {
        let tk2 = manifest_json_items(items.subrange(0, k + 2), f, d);
        let mk2 = manifest_json_model(items[k + 1], f, d + 1);
        lemma_json_items_step(items, k + 1, f, d);
        lemma_items_prefix(items, k + 2, f, d);
        lemma_placed_prefix(s, start, body, tk2);
        assert(tk2 =~= tk1 + (f.item_sep + f.newline + ind1 + mk2));
        lemma_sub_split(s, start, tk1, f.item_sep + f.newline + ind1 + mk2);
    } else {
        assert(items.subrange(0, k + 1) =~= items);
    }
}

/// A non-empty array written at `p`: where its items start, and that
/// whitespace skipping after `[` reaches its first item.
proof fn lemma_array_open(s: Seq<char>, p: int, items: Seq<ValueModel>, f: JsonFormatModel, d: nat)
    requires
        layout_reads_back(f),
        items.len() > 0,
        reads_back(items[0]),
        placed(s, p, manifest_json_model(ValueModel::Array(items), f, d)),
    ensures
        s[p] == '[',
        p < s.len(),
        placed(s, p + 1 + f.newline.len(), manifest_json_items(items, f, d) + closing(f, d, ']')),
        skip_ws(s, p + 1) == p + 1 + f.newline.len() + item_start(items, 0, f, d),
        !char_at(s, skip_ws(s, p + 1), ']'),
        p + manifest_json_model(ValueModel::Array(items), f, d).len() == p + 1 + f.newline.len()
            + manifest_json_items(items, f, d).len() + closing(f, d, ']').len(),
{
    let m = manifest_json_model(ValueModel::Array(items), f, d);
    let body = manifest_json_items(items, f, d);
    let cl = closing(f, d, ']');
    let ind1 = repeat(f.indent, d + 1);
    let start = p + 1 + f.newline.len();
    lemma_all_ws_repeat(f.indent, d + 1);
    assert(m =~= seq!['['] + f.newline + (body + cl));
    lemma_sub_split(s, p, seq!['['] + f.newline, body + cl);
    lemma_sub_split(s, p, seq!['['], f.newline);
    assert(s.subrange(p, p + 1)[0] == s[p]);
    lemma_sub_split(s, start, body, cl);
    let m0 = manifest_json_model(items[0], f, d + 1);
    lemma_json_items_step(items, 0, f, d);
    assert(items.subrange(0, 0).len() == 0);
    let t1 = manifest_json_items(items.subrange(0, 1), f, d);
    assert(t1 =~= ind1 + m0);
    lemma_items_prefix(items, 1, f, d);
    lemma_placed_prefix(s, start, body, t1);
    lemma_sub_split(s, start, ind1, m0);
    lemma_first_char(items[0], f, d + 1);
    assert(s.subrange(start + ind1.len(), start + ind1.len() + m0.len())[0] == s[start + ind1.len()]);
    lemma_skip_ws_run(s, p + 1, f.newline);
    lemma_skip_ws_run(s, start, ind1);
    lemma_skip_ws_stop(s, start + ind1.len());
    assert(item_start(items, 0, f, d) == ind1.len());
}

/// An empty array or object that reads back, written at `p`, is read there.
proof fn lemma_empty_value(s: Seq<char>, p: int, v: ValueModel, f: JsonFormatModel, d: nat)
    requires
        layout_reads_back(f),
        v == ValueModel::Array(Seq::empty()) || v == ValueModel::Object(Seq::empty()),
        placed(s, p, manifest_json_model(v, f, d)),
    ensures
        parse_value(s, p) == Ok::<(ValueModel, int), ErrAt>(
            (v, skip_ws(s, p + manifest_json_model(v, f, d).len())),
        ),
{
    let m = manifest_json_model(v, f, d);
    let indd = repeat(f.indent, d);
    lemma_all_ws_repeat(f.indent, d);
    lemma_all_ws_concat(f.newline, f.newline);
    lemma_all_ws_concat(f.newline + f.newline, indd);
    if v is Array {
        if f.empty_array is None {
            assert(m.subrange(1, m.len() - 1) =~= f.newline + f.newline + indd);
        }
    } else {
        if f.empty_object is None {
            assert(m.subrange(1, m.len() - 1) =~= f.newline + f.newline + indd);
        }
    }
    lemma_empty_brackets(s, p, m);
    lemma_opens(s, p);
}

/// An array that reads back, written at `p`, is read there.
proof fn lemma_array_value(s: Seq<char>, p: int, v: ValueModel, f: JsonFormatModel, d: nat)
    requires
        layout_reads_back(f),
        reads_back(v),
        v is Array,
        placed(s, p, manifest_json_model(v, f, d)),
    ensures
        parse_value(s, p) == Ok::<(ValueModel, int), ErrAt>(
            (v, skip_ws(s, p + manifest_json_model(v, f, d).len())),
        ),
    decreases v, 1int,
{
    match v {
        ValueModel::Array(items) => {
            if items.len() == 0 {
                assert(items =~= Seq::<ValueModel>::empty());
                lemma_empty_value(s, p, v, f, d);
            } else {
                lemma_items_read_back(items);
                assert(reads_back(items[0]));
                lemma_array_open(s, p, items, f, d);
                lemma_opens(s, p);
                assert(items.subrange(0, 0) =~= Seq::<ValueModel>::empty());
                lemma_items(s, p + 1 + f.newline.len(), items, f, d, 0);
            }
        },
        _ => {},
    }
}

/// The items of an array that read back, written at `start` and followed by
/// the array's closing, are read from the `k`-th on, after the first `k`.
proof fn lemma_items(s: Seq<char>, start: int, items: Seq<ValueModel>, f: JsonFormatModel, d: nat, k: int)
    requires
        layout_reads_back(f),
        forall|i: int| 0 <= i < items.len() ==> #[trigger] reads_back(items[i]),
        0 <= k < items.len(),
        placed(s, start, manifest_json_items(items, f, d) + closing(f, d, ']')),
    ensures
        parse_items(s, start + item_start(items, k, f, d), items.subrange(0, k)) == Ok::<(ValueModel, int), ErrAt>(
            (
                ValueModel::Array(items),
                skip_ws(s, start + manifest_json_items(items, f, d).len() + closing(f, d, ']').len()),
            ),
        ),
    decreases items, items.len() - k,
{
    let vpos = start + item_start(items, k, f, d);
    let mk = manifest_json_model(items[k], f, d + 1);
    let e = vpos + mk.len();
    let acc = items.subrange(0, k);
    lemma_item_at(s, start, items, f, d, k);
    assert(reads_back(items[k]));
    lemma_first_char(items[k], f, d + 1);
    if k + 1 < items.len() {
        let mk2 = manifest_json_model(items[k + 1], f, d + 1);
        assert(reads_back(items[k + 1]));
        lemma_first_char(items[k + 1], f, d + 1);
        lemma_separator(s, e, f, d, mk2);
        lemma_value(s, vpos, items[k], f, d + 1);
        lemma_items(s, start, items, f, d, k + 1);
        assert(acc.push(items[k]) =~= items.subrange(0, k + 1));
    } else {
        lemma_closing(s, e, f, d, ']');
        lemma_value(s, vpos, items[k], f, d + 1);
        assert(acc.push(items[k]) =~= items);
    }
}



/// The key-value separator, written at `r` before something that starts
/// with no whitespace: whitespace skipping reaches the `:`, and from after
/// it the next thing.
proof fn lemma_key_sep(s: Seq<char>, r: int, f: JsonFormatModel, x: Seq<char>)
    requires
        layout_reads_back(f),
        placed(s, r, f.key_val_sep + x),
        x.len() > 0,
        !is_json_ws(x[0]),
    ensures
        r <= skip_ws(s, r) < r + f.key_val_sep.len(),
        s[skip_ws(s, r)] == ':',
        skip_ws(s, skip_ws(s, r) + 1) == r + f.key_val_sep.len(),
{
    let kvs = f.key_val_sep;
    lemma_sub_split(s, r, kvs, x);
    let j = choose|j: int|
        0 <= j < kvs.len() && kvs[j] == ':' && #[trigger] all_ws(kvs.subrange(0, j)) && all_ws(
            kvs.subrange(j + 1, kvs.len() as int),
        );
    let u1 = kvs.subrange(0, j);
    let u2 = kvs.subrange(j + 1, kvs.len() as int);
    assert(kvs =~= u1 + seq![':'] + u2);
    lemma_sub_split(s, r, u1 + seq![':'], u2);
    lemma_sub_split(s, r, u1, seq![':']);
    assert(s.subrange(r + j, r + j + 1)[0] == s[r + j]);
    lemma_skip_to(s, r, u1);
    lemma_skip_ws_run(s, r + j + 1, u2);
    let y = r + kvs.len();
    assert(s.subrange(y, y + x.len())[0] == s[y]);
    lemma_skip_ws_stop(s, y);
}

/// The text of a field after its indent: its key, the separator and its
/// value.
pub open spec fn field_text(field: (Seq<char>, ValueModel), f: JsonFormatModel, d: nat) -> Seq<char> {
    json_quote(field.0) + f.key_val_sep + manifest_json_model(field.1, f, d + 1)
}

/// The text of the first `k + 1` fields: that of the first `k`, a
/// separator where `k > 0`, the indent and the `k`-th field.
proof fn lemma_field_text_step(fields: Seq<(Seq<char>, ValueModel)>, k: int, f: JsonFormatModel, d: nat)
    requires
        0 <= k < fields.len(),
    ensures
        manifest_json_fields(fields.subrange(0, k + 1), f, d) == manifest_json_fields(fields.subrange(0, k), f, d)
            + (if k > 0 {
            f.item_sep + f.newline
        } else {
            seq![]
        }) + repeat(f.indent, d + 1) + field_text(fields[k], f, d),
{
    lemma_json_fields_step(fields, k, f, d);
    let tk = manifest_json_fields(fields.subrange(0, k), f, d);
    let sep: Seq<char> = if k > 0 {
        f.item_sep + f.newline
    } else {
        seq![]
    };
    let ind1 = repeat(f.indent, d + 1);
    let qk = json_quote(fields[k].0);
    let mk = manifest_json_model(fields[k].1, f, d + 1);
    assert(tk + sep + ind1 + qk + f.key_val_sep + mk =~= tk + sep + ind1 + field_text(fields[k], f, d));
}

/// Where the `k`-th field of an object stands, and what follows it, in the
/// text of its fields followed by its closing.
#[verifier::rlimit(40)]
proof fn lemma_field_at(
    s: Seq<char>,
    start: int,
    fields: Seq<(Seq<char>, ValueModel)>,
    f: JsonFormatModel,
    d: nat,
    k: int,
)
    requires
        0 <= k < fields.len(),
        placed(s, start, manifest_json_fields(fields, f, d) + closing(f, d, '}')),
    ensures
        placed(s, start + field_start(fields, k, f, d), field_text(fields[k], f, d)),
        k + 1 < fields.len() ==> placed(
            s,
            start + field_start(fields, k, f, d) + field_text(fields[k], f, d).len(),
            f.item_sep + f.newline + repeat(f.indent, d + 1) + field_text(fields[k + 1], f, d),
        ),
        k + 1 < fields.len() ==> start + field_start(fields, k, f, d) + field_text(fields[k], f, d).len()
            + f.item_sep.len() + f.newline.len() + repeat(f.indent, d + 1).len() == start + field_start(
            fields,
            k + 1,
            f,
            d,
        ),
        k + 1 == fields.len() ==> placed(
            s,
            start + field_start(fields, k, f, d) + field_text(fields[k], f, d).len(),
            closing(f, d, '}'),
        ),
        k + 1 == fields.len() ==> start + field_start(fields, k, f, d) + field_text(fields[k], f, d).len()
            == start + manifest_json_fields(fields, f, d).len(),
{
    let n = fields.len() as int;
    let body = manifest_json_fields(fields, f, d);
    let cl = closing(f, d, '}');
    let ind1 = repeat(f.indent, d + 1);
    lemma_sub_split(s, start, body, cl);
    let tk = manifest_json_fields(fields.subrange(0, k), f, d);
    let tk1 = manifest_json_fields(fields.subrange(0, k + 1), f, d);
    let sep: Seq<char> = if k > 0 {
        f.item_sep + f.newline
    } else {
        seq![]
    };
    let tx = field_text(fields[k], f, d);
    lemma_field_text_step(fields, k, f, d);
    lemma_fields_prefix(fields, k + 1, f, d);
    lemma_placed_prefix(s, start, body, tk1);
    lemma_sub_split(s, start, tk + sep + ind1, tx);
    if k + 1 < n {
        let tk2 = manifest_json_fields(fields.subrange(0, k + 2), f, d);
        let tx2 = field_text(fields[k + 1], f, d);
        lemma_field_text_step(fields, k + 1, f, d);
        lemma_fields_prefix(fields, k + 2, f, d);
        lemma_placed_prefix(s, start, body, tk2);
        assert(tk2 =~= tk1 + (f.item_sep + f.newline + ind1 + tx2));
        lemma_sub_split(s, start, tk1, f.item_sep + f.newline + ind1 + tx2);
    } else {
        assert(fields.subrange(0, k + 1) =~= fields);
    }
}

/// A non-empty object written at `p`: where its fields start, and that
/// whitespace skipping after `{` reaches its first key.
proof fn lemma_object_open(s: Seq<char>, p: int, fields: Seq<(Seq<char>, ValueModel)>, f: JsonFormatModel, d: nat)
    requires
        layout_reads_back(f),
        fields.len() > 0,
        placed(s, p, manifest_json_model(ValueModel::Object(fields), f, d)),
    ensures
        s[p] == '{',
        p < s.len(),
        placed(s, p + 1 + f.newline.len(), manifest_json_fields(fields, f, d) + closing(f, d, '}')),
        skip_ws(s, p + 1) == p + 1 + f.newline.len() + field_start(fields, 0, f, d),
        !char_at(s, skip_ws(s, p + 1), '}'),
        p + manifest_json_model(ValueModel::Object(fields), f, d).len() == p + 1 + f.newline.len()
            + manifest_json_fields(fields, f, d).len() + closing(f, d, '}').len(),
{
    let m = manifest_json_model(ValueModel::Object(fields), f, d);
    let body = manifest_json_fields(fields, f, d);
    let cl = closing(f, d, '}');
    let ind1 = repeat(f.indent, d + 1);
    let start = p + 1 + f.newline.len();
    lemma_all_ws_repeat(f.indent, d + 1);
    assert(m =~= seq!['{'] + f.newline + (body + cl));
    lemma_sub_split(s, p, seq!['{'] + f.newline, body + cl);
    lemma_sub_split(s, p, seq!['{'], f.newline);
    assert(s.subrange(p, p + 1)[0] == s[p]);
    lemma_sub_split(s, start, body, cl);
    let t0 = field_text(fields[0], f, d);
    lemma_field_text_step(fields, 0, f, d);
    assert(fields.subrange(0, 0).len() == 0);
    let t1 = manifest_json_fields(fields.subrange(0, 1), f, d);
    assert(t1 =~= ind1 + t0);
    lemma_fields_prefix(fields, 1, f, d);
    lemma_placed_prefix(s, start, body, t1);
    lemma_sub_split(s, start, ind1, t0);
    assert(s.subrange(start + ind1.len(), start + ind1.len() + t0.len())[0] == s[start + ind1.len()]);
    lemma_skip_ws_run(s, p + 1, f.newline);
    lemma_skip_ws_run(s, start, ind1);
    lemma_skip_ws_stop(s, start + ind1.len());
    assert(field_start(fields, 0, f, d) == ind1.len());
}

/// An object that reads back, written at `p`, is read there.
proof fn lemma_object_value(s: Seq<char>, p: int, v: ValueModel, f: JsonFormatModel, d: nat)
    requires
        layout_reads_back(f),
        reads_back(v),
        v is Object,
        placed(s, p, manifest_json_model(v, f, d)),
    ensures
        parse_value(s, p) == Ok::<(ValueModel, int), ErrAt>(
            (v, skip_ws(s, p + manifest_json_model(v, f, d).len())),
        ),
    decreases v, 1int,
{
    match v {
        ValueModel::Object(fields) => {
            if fields.len() == 0 {
                assert(fields =~= Seq::<(Seq<char>, ValueModel)>::empty());
                lemma_empty_value(s, p, v, f, d);
            } else {
                lemma_object_open(s, p, fields, f, d);
                lemma_opens(s, p);
                assert(fields.subrange(0, 0) =~= Seq::<(Seq<char>, ValueModel)>::empty());
                lemma_fields(s, p + 1 + f.newline.len(), fields, f, d, 0);
            }
        },
        _ => {},
    }
}

/// The fields of an object that read back, written at `start` and followed
/// by the object's closing, are read from the `k`-th on, after the first `k`.
#[verifier::rlimit(40)]
proof fn lemma_fields(
    s: Seq<char>,
    start: int,
    fields: Seq<(Seq<char>, ValueModel)>,
    f: JsonFormatModel,
    d: nat,
    k: int,
)
    requires
        layout_reads_back(f),
        fields_read_back(fields),
        0 <= k < fields.len(),
        placed(s, start, manifest_json_fields(fields, f, d) + closing(f, d, '}')),
    ensures
        parse_first_member(s, start + field_start(fields, k, f, d), fields.subrange(0, k)) == Ok::<
            (ValueModel, int),
            ErrAt,
        >(
            (
                ValueModel::Object(fields),
                skip_ws(s, start + manifest_json_fields(fields, f, d).len() + closing(f, d, '}').len()),
            ),
        ),
    decreases fields, fields.len() - k,
{
    let kpos = start + field_start(fields, k, f, d);
    let key = fields[k].0;
    let val = fields[k].1;
    let qk = json_quote(key);
    let kvs = f.key_val_sep;
    let mk = manifest_json_model(val, f, d + 1);
    let r = kpos + qk.len();
    let vpos = r + kvs.len();
    let e = vpos + mk.len();
    let acc = fields.subrange(0, k);
    lemma_field_at(s, start, fields, f, d, k);
    lemma_field_reads_back(fields, k);
    lemma_first_char(val, f, d + 1);
    assert(field_text(fields[k], f, d) =~= qk + (kvs + mk));
    lemma_sub_split(s, kpos, qk, kvs + mk);
    lemma_sub_split(s, r, kvs, mk);
    lemma_lex_string_at(s, kpos, key);
    lemma_key_sep(s, r, f, mk);
    if k + 1 < fields.len() {
        let tx2 = field_text(fields[k + 1], f, d);
        assert(tx2[0] == '"');
        lemma_separator(s, e, f, d, tx2);
        lemma_value(s, vpos, val, f, d + 1);
        lemma_fields(s, start, fields, f, d, k + 1);
        assert(acc.push((key, val)) =~= fields.subrange(0, k + 1));
    } else {
        lemma_closing(s, e, f, d, '}');
        lemma_value(s, vpos, val, f, d + 1);
        assert(acc.push((key, val)) =~= fields);
    }
}


/// Reading back what the JSON writer writes: in a layout whose indent and
/// line end are whitespace and whose separators are `:` and `,` with
/// whitespace around them, the JSON text of a value parses as that value,
/// for every value whose numbers are whole JSON numbers, whose strings and
/// keys hold none of U+001A to U+001F (which the writer leaves unescaped)
/// and whose objects name no key twice.
pub proof fn law_json_roundtrip(v: ValueModel, f: JsonFormatModel)
    requires
        layout_reads_back(f),
        reads_back(v),
    ensures
        parse_json_model(manifest_json_model(v, f, 0)) == Ok::<ValueModel, ErrAt>(v),
{
    let s = manifest_json_model(v, f, 0);
    lemma_first_char(v, f, 0);
    assert(s.subrange(0, s.len() as int) =~= s);
    lemma_skip_ws_stop(s, 0);
    lemma_value(s, 0, v, f, 0);
    lemma_skip_ws_stop(s, s.len() as int);
}

/// The layouts of `std.toString` and of a manifested program are read back.
pub proof fn law_default_layouts_read_back()
    ensures
        layout_reads_back(to_string_format()),
        layout_reads_back(
            JsonFormatModel {
                indent: seq![' ', ' ', ' '],
                newline: seq!['\n'],
                key_val_sep: seq![':', ' '],
                item_sep: seq![','],
                empty_array: Some(seq!['[', ' ', ']']),
                empty_object: Some(seq!['{', ' ', '}']),
            },
        ),
{
    let colon = seq![':', ' '];
    assert(colon.subrange(0, 0) =~= Seq::<char>::empty());
    assert(colon.subrange(1, 2) =~= seq![' ']);
    assert(all_ws(colon.subrange(0, 0)));
    assert(all_ws(colon.subrange(1, 2)));
    assert(ws_around(colon, ':'));
    let comma_sp = seq![',', ' '];
    assert(comma_sp.subrange(0, 0) =~= Seq::<char>::empty());
    assert(comma_sp.subrange(1, 2) =~= seq![' ']);
    assert(all_ws(comma_sp.subrange(0, 0)));
    assert(all_ws(comma_sp.subrange(1, 2)));
    assert(ws_around(comma_sp, ','));
    let comma = seq![','];
    assert(comma.subrange(0, 0) =~= Seq::<char>::empty());
    assert(comma.subrange(1, 1) =~= Seq::<char>::empty());
    assert(all_ws(comma.subrange(0, 0)));
    assert(all_ws(comma.subrange(1, 1)));
    assert(ws_around(comma, ','));
    let ea = seq!['[', ' ', ']'];
    assert(ea.subrange(1, 2) =~= seq![' ']);
    let eo = seq!['{', ' ', '}'];
    assert(eo.subrange(1, 2) =~= seq![' ']);
    assert(all_ws(seq![' ', ' ', ' ']));
    assert(all_ws(seq!['\n']));
}

} // verus!
