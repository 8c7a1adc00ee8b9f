//! Jsonnet objects list their fields in the order of their names; this
//! module puts the fields of parsed values in that order.

use vstd::prelude::*;
use crate::value::{Value, ValueModel, view_items, view_fields, lemma_view_array, lemma_view_object};
use crate::text::chars_of;

verus! {

/// Whether `a` comes before `b`: code point by code point, a proper prefix
/// first.
pub open spec fn key_lt(a: Seq<char>, b: Seq<char>) -> bool
    decreases a.len(),
{
    if b.len() == 0 {
        false
    } else if a.len() == 0 {
        true
    } else if a[0] < b[0] {
        true
    } else if a[0] > b[0] {
        false
    } else {
        key_lt(a.drop_first(), b.drop_first())
    }
}

/// `f` put into `fs` before the first field whose name does not come before
/// its own.
pub open spec fn insert_sorted(fs: Seq<(Seq<char>, ValueModel)>, f: (Seq<char>, ValueModel)) -> Seq<
    (Seq<char>, ValueModel),
>
    decreases fs.len(),
{
    if fs.len() == 0 {
        seq![f]
    } else if !key_lt(fs[0].0, f.0) {
        seq![f] + fs
    } else {
        seq![fs[0]] + insert_sorted(fs.drop_first(), f)
    }
}

/// The fields in the order of their names (insertion sort: each field goes
/// before the first one already placed whose name does not come before its
/// own).
pub open spec fn sort_fields(fs: Seq<(Seq<char>, ValueModel)>) -> Seq<(Seq<char>, ValueModel)>
    decreases fs.len(),
{
    if fs.len() == 0 {
        seq![]
    } else {
        insert_sorted(sort_fields(fs.drop_last()), fs.last())
    }
}

/// A value with the fields of each of its objects in the order of their names.
pub open spec fn normalize_model(v: ValueModel) -> ValueModel
    decreases v, 1nat,
{
    match v {
        ValueModel::Array(items) => ValueModel::Array(normalize_items(items)),
        ValueModel::Object(fields) => ValueModel::Object(sort_fields(normalize_fields(fields))),
        _ => v,
    }
}

/// Each item normalized.
pub open spec fn normalize_items(items: Seq<ValueModel>) -> Seq<ValueModel>
    decreases items, 0nat,
{
    if items.len() == 0 {
        seq![]
    } else {
        normalize_items(items.subrange(0, items.len() - 1)) + seq![normalize_model(items[items.len() - 1])]
    }
}

/// Each field's value normalized.
pub open spec fn normalize_fields(fields: Seq<(Seq<char>, ValueModel)>) -> Seq<(Seq<char>, ValueModel)>
    decreases fields, 0nat,
{
    if fields.len() == 0 {
        seq![]
    } else {
        normalize_fields(fields.subrange(0, fields.len() - 1)) + seq![
            (fields[fields.len() - 1].0, normalize_model(fields[fields.len() - 1].1)),
        ]
    }
}

/// Whether `a` comes before `b`.
fn key_less(a: &[char], b: &[char]) -> (res: bool)
    ensures
        res == key_lt(a@, b@),
{
    let mut i: usize = 0;
    proof {
        assert(a@.subrange(0, a@.len() as int) =~= a@);
        assert(b@.subrange(0, b@.len() as int) =~= b@);
    }
    while i < a.len() && i < b.len()
        invariant
            0 <= i <= a@.len(),
            i <= b@.len(),
            key_lt(a@, b@) == key_lt(a@.subrange(i as int, a@.len() as int), b@.subrange(i as int, b@.len() as int)),
        decreases a@.len() - i,
    {
        let x = a[i];
        let y = b[i];
        proof {
            let sa = a@.subrange(i as int, a@.len() as int);
            let sb = b@.subrange(i as int, b@.len() as int);
            assert(sa[0] == a@[i as int]);
            assert(sb[0] == b@[i as int]);
            assert(sa.drop_first() =~= a@.subrange(i + 1, a@.len() as int));
            assert(sb.drop_first() =~= b@.subrange(i + 1, b@.len() as int));
        }
        if x < y {
            return true;
        }
        if x > y {
            return false;
        }
        i += 1;
    }
    proof {
        let sa = a@.subrange(i as int, a@.len() as int);
        let sb = b@.subrange(i as int, b@.len() as int);
        assert(sa.len() == 0 || sb.len() == 0);
    }
    i >= a.len() && i < b.len()
}

proof fn lemma_insert_at(fs: Seq<(Seq<char>, ValueModel)>, f: (Seq<char>, ValueModel), p: int)
    requires
        0 <= p <= fs.len(),
        forall|j: int| 0 <= j < p ==> key_lt(#[trigger] fs[j].0, f.0),
        p < fs.len() ==> !key_lt(fs[p].0, f.0),
    ensures
        insert_sorted(fs, f) == fs.insert(p, f),
    decreases fs.len(),
{
    if fs.len() == 0 {
        assert(fs.insert(p, f) =~= seq![f]);
    } else if p == 0 {
        assert(fs.insert(p, f) =~= seq![f] + fs);
    } else {
        let rest = fs.drop_first();
        assert forall|j: int| 0 <= j < p - 1 implies key_lt(#[trigger] rest[j].0, f.0) by {
            assert(rest[j] == fs[j + 1]);
        }
        if p - 1 < rest.len() {
            assert(rest[p - 1] == fs[p]);
        }
        lemma_insert_at(rest, f, p - 1);
        assert(fs.insert(p, f) =~= seq![fs[0]] + rest.insert(p - 1, f));
    }
}

/// Puts `f` into the sorted fields `fs`.
fn insert_field(fs: &mut Vec<(String, Value)>, f: (String, Value), Ghost(model): Ghost<Seq<(Seq<char>, ValueModel)>>, Ghost(fm): Ghost<(Seq<char>, ValueModel)>)
    requires
        old(fs)@.len() == model.len(),
        forall|j: int| 0 <= j < model.len() ==> (#[trigger] model[j]).0 == old(fs)@[j].0@,
        fm.0 == f.0@,
    ensures
        final(fs)@.len() == model.len() + 1,
        exists|p: int|
            0 <= p <= model.len() && #[trigger] insert_sorted(model, fm) == model.insert(p, fm) && final(fs)@
                == old(fs)@.insert(p, f),
{
    let key: Vec<char> = chars_of(f.0.as_str());
    let mut p: usize = 0;
    let mut done = false;
    while !done && p < fs.len()
        invariant
            0 <= p <= fs@.len(),
            fs@ == old(fs)@,
            fs@.len() == model.len(),
            key@ == f.0@,
            fm.0 == f.0@,
            forall|j: int| 0 <= j < model.len() ==> (#[trigger] model[j]).0 == fs@[j].0@,
            forall|j: int| 0 <= j < p ==> key_lt(#[trigger] model[j].0, fm.0),
            done ==> p < model.len() && !key_lt(model[p as int].0, fm.0),
        decreases fs@.len() - p, if done { 0int } else { 1int },
    {
        let k: Vec<char> = chars_of(fs[p].0.as_str());
        if !key_less(k.as_slice(), key.as_slice()) {
            done = true;
        } else {
            p += 1;
        }
    }
    proof {
        lemma_insert_at(model, fm, p as int);
    }
    fs.insert(p, f);
}

proof fn lemma_view_fields_insert(fs: Seq<(String, Value)>, p: int, f: (String, Value))
    requires
        0 <= p <= fs.len(),
    ensures
        view_fields(fs.insert(p, f)) == view_fields(fs).insert(p, (f.0@, f.1@)),
{
    assert(view_fields(fs.insert(p, f)) =~= view_fields(fs).insert(p, (f.0@, f.1@)));
}

/// A copy of a value with the fields of each of its objects in the order of
/// their names.
pub fn normalize(v: &Value) -> (res: Value)
    ensures
        res@ == normalize_model(v@),
    decreases v, 1nat,
{
    match v {
        Value::Null => Value::Null,
        Value::Bool(b) => Value::Bool(*b),
        Value::Number(n) => Value::Number(n.clone()),
        Value::String(s) => Value::String(s.clone()),
        Value::Array(items) => normalize_array(v, items),
        Value::Object(fields) => normalize_object(v, fields),
    }
}

fn normalize_array(v: &Value, items: &Vec<Value>) -> (res: Value)
    requires
        *v == Value::Array(*items),
    ensures
        res@ == normalize_model(v@),
    decreases v, 0nat,
{
    proof {
        lemma_view_array(*items);
    }
    let ghost vi = view_items(items@);
    let mut out: Vec<Value> = Vec::new();
    let mut i: usize = 0;
    while i < items.len()
        invariant
            0 <= i <= items@.len(),
            vi == view_items(items@),
            *v == Value::Array(*items),
            view_items(out@) == normalize_items(vi.subrange(0, i as int)),
        decreases items@.len() - i,
    {
        proof {
            assert(decreases_to!(*v => (*v)->Array_0));
            assert(decreases_to!(*items => items@));
            assert(decreases_to!(items@ => items@[i as int]));
        }
        let n = normalize(&items[i]);
        let ghost before = out@;
        out.push(n);
        proof {
            let sub = vi.subrange(0, i + 1);
            assert(sub.subrange(0, sub.len() - 1) =~= vi.subrange(0, i as int));
            assert(sub[sub.len() - 1] == items@[i as int]@);
            assert(view_items(out@) =~= view_items(before) + seq![n@]);
        }
        i += 1;
    }
    proof {
        assert(vi.subrange(0, i as int) =~= vi);
        lemma_view_array(out);
    }
    Value::Array(out)
}

fn normalize_object(v: &Value, fields: &Vec<(String, Value)>) -> (res: Value)
    requires
        *v == Value::Object(*fields),
    ensures
        res@ == normalize_model(v@),
    decreases v, 0nat,
{
    proof {
        lemma_view_object(*fields);
    }
    let ghost vf = view_fields(fields@);
    let mut sorted: Vec<(String, Value)> = Vec::new();
    proof {
        assert(view_fields(sorted@) =~= Seq::<(Seq<char>, ValueModel)>::empty());
        assert(normalize_fields(vf.subrange(0, 0)) =~= Seq::<(Seq<char>, ValueModel)>::empty());
    }
    let mut i: usize = 0;
    while i < fields.len()
        invariant
            0 <= i <= fields@.len(),
            vf == view_fields(fields@),
            *v == Value::Object(*fields),
            view_fields(sorted@) == sort_fields(normalize_fields(vf.subrange(0, i as int))),
        decreases fields@.len() - i,
    {
        proof {
            assert(decreases_to!(*v => (*v)->Object_0));
            assert(decreases_to!(*fields => fields@));
            assert(decreases_to!(fields@ => fields@[i as int]));
            assert(decreases_to!(fields@[i as int] => fields@[i as int].1));
        }
        let value = normalize(&fields[i].1);
        let name = fields[i].0.clone();
        let ghost model = view_fields(sorted@);
        let ghost fm = (name@, value@);
        let ghost before = sorted@;
        insert_field(&mut sorted, (name, value), Ghost(model), Ghost(fm));
        proof {
            let p = choose|p: int|
                0 <= p <= model.len() && #[trigger] insert_sorted(model, fm) == model.insert(p, fm) && sorted@
                    == before.insert(p, (name, value));
            lemma_view_fields_insert(before, p, (name, value));
            let sub = vf.subrange(0, i + 1);
            assert(sub.subrange(0, sub.len() - 1) =~= vf.subrange(0, i as int));
            assert(sub[sub.len() - 1] == (fields@[i as int].0@, fields@[i as int].1@));
            let nf = normalize_fields(sub);
            assert(nf.drop_last() =~= normalize_fields(vf.subrange(0, i as int)));
            assert(nf.last() == fm);
        }
        i += 1;
    }
    proof {
        assert(vf.subrange(0, i as int) =~= vf);
        lemma_view_object(sorted);
    }
    Value::Object(sorted)
}

/// The fields in the order of their names (insertion sort: each field goes
/// before the first one already placed whose name does not come before its
/// own).
pub fn sort_field_vec(fields: Vec<(String, Value)>) -> (res: Vec<(String, Value)>)
    ensures
        view_fields(res@) == sort_fields(view_fields(fields@)),
{
    let ghost all = view_fields(fields@);
    let n = fields.len();
    let mut rest = fields;
    let mut sorted: Vec<(String, Value)> = Vec::new();
    let mut i: usize = 0;
    proof {
        assert(view_fields(sorted@) =~= Seq::<(Seq<char>, ValueModel)>::empty());
        assert(all.subrange(0, 0) =~= Seq::<(Seq<char>, ValueModel)>::empty());
        assert(view_fields(rest@) =~= all.subrange(0, all.len() as int));
    }
    while rest.len() > 0
        invariant
            0 <= i <= all.len(),
            all.len() == n,
            view_fields(rest@) == all.subrange(i as int, all.len() as int),
            view_fields(sorted@) == sort_fields(all.subrange(0, i as int)),
        decreases rest@.len(),
    {
        let ghost before_rest = rest@;
        let f = rest.remove(0);
        proof {
            assert(view_fields(before_rest)[0] == (f.0@, f.1@));
            assert(view_fields(rest@) =~= view_fields(before_rest).drop_first());
            assert(all.subrange(i as int, all.len() as int)[0] == all[i as int]);
            assert(all.subrange(i + 1, all.len() as int) =~= all.subrange(i as int, all.len() as int).drop_first());
        }
        let ghost model = view_fields(sorted@);
        let ghost fm = (f.0@, f.1@);
        let ghost before = sorted@;
        insert_field(&mut sorted, f, Ghost(model), Ghost(fm));
        proof {
            let p = choose|p: int|
                0 <= p <= model.len() && #[trigger] insert_sorted(model, fm) == model.insert(p, fm) && sorted@
                    == before.insert(p, f);
            lemma_view_fields_insert(before, p, f);
            let sub = all.subrange(0, i + 1);
            assert(sub.drop_last() =~= all.subrange(0, i as int));
            assert(sub.last() == fm);
        }
        i += 1;
    }
    proof {
        assert(i == all.len());
        assert(all.subrange(0, i as int) =~= all);
    }
    sorted
}


/// Whether the fields are in the order of their names.
pub open spec fn fields_sorted(fs: Seq<(Seq<char>, ValueModel)>) -> bool {
    forall|i: int, j: int| 0 <= i < j < fs.len() ==> !key_lt(#[trigger] fs[j].0, #[trigger] fs[i].0)
}

/// No name comes before itself.
pub proof fn lemma_key_lt_irreflexive(a: Seq<char>)
    ensures
        !key_lt(a, a),
    decreases a.len(),
{
    if a.len() > 0 {
        lemma_key_lt_irreflexive(a.drop_first());
    }
}

/// Of two names, at most one comes before the other.
pub proof fn lemma_key_lt_asymmetric(a: Seq<char>, b: Seq<char>)
    ensures
        key_lt(a, b) ==> !key_lt(b, a),
    decreases a.len(),
{
    if a.len() > 0 && b.len() > 0 {
        lemma_key_lt_asymmetric(a.drop_first(), b.drop_first());
    }
}

/// Of two different names, one comes before the other.
pub proof fn lemma_key_lt_total(a: Seq<char>, b: Seq<char>)
    ensures
        a == b || key_lt(a, b) || key_lt(b, a),
    decreases a.len(),
{
    if a.len() == 0 && b.len() == 0 {
        assert(a =~= b);
    } else if a.len() > 0 && b.len() > 0 && a[0] == b[0] {
        lemma_key_lt_total(a.drop_first(), b.drop_first());
        if a.drop_first() == b.drop_first() {
            assert(a =~= seq![a[0]] + a.drop_first());
            assert(b =~= seq![b[0]] + b.drop_first());
        }
    } else if a.len() > 0 && b.len() > 0 {
        assert(a[0] < b[0] || a[0] > b[0]);
    }
}

proof fn lemma_key_lt_transitive(a: Seq<char>, b: Seq<char>, c: Seq<char>)
    ensures
        key_lt(a, b) && key_lt(b, c) ==> key_lt(a, c),
    decreases a.len(),
{
    if a.len() > 0 && b.len() > 0 && c.len() > 0 {
        lemma_key_lt_transitive(a.drop_first(), b.drop_first(), c.drop_first());
    }
}

/// Names in order: `a` before or equal to `b`, `b` before or equal to `c`.
proof fn lemma_key_le_transitive(a: Seq<char>, b: Seq<char>, c: Seq<char>)
    requires
        !key_lt(b, a),
        !key_lt(c, b),
    ensures
        !key_lt(c, a),
{
    lemma_key_lt_total(a, b);
    lemma_key_lt_total(b, c);
    lemma_key_lt_transitive(a, b, c);
    lemma_key_lt_asymmetric(a, c);
    lemma_key_lt_irreflexive(a);
}

/// Where `insert_sorted` puts `f`.
spec fn insert_pos(fs: Seq<(Seq<char>, ValueModel)>, f: (Seq<char>, ValueModel)) -> int
    decreases fs.len(),
{
    if fs.len() == 0 || !key_lt(fs[0].0, f.0) {
        0
    } else {
        1 + insert_pos(fs.drop_first(), f)
    }
}

proof fn lemma_insert_pos(fs: Seq<(Seq<char>, ValueModel)>, f: (Seq<char>, ValueModel))
    ensures
        0 <= insert_pos(fs, f) <= fs.len(),
        forall|j: int| 0 <= j < insert_pos(fs, f) ==> key_lt(#[trigger] fs[j].0, f.0),
        insert_pos(fs, f) < fs.len() ==> !key_lt(fs[insert_pos(fs, f)].0, f.0),
        insert_sorted(fs, f) == fs.insert(insert_pos(fs, f), f),
    decreases fs.len(),
{
    if fs.len() > 0 && key_lt(fs[0].0, f.0) {
        let rest = fs.drop_first();
        lemma_insert_pos(rest, f);
        assert forall|j: int| 0 <= j < insert_pos(fs, f) implies key_lt(#[trigger] fs[j].0, f.0) by {
            if j > 0 {
                assert(fs[j] == rest[j - 1]);
            }
        }
        if insert_pos(fs, f) < fs.len() {
            assert(fs[insert_pos(fs, f)] == rest[insert_pos(rest, f)]);
        }
    }
    lemma_insert_at(fs, f, insert_pos(fs, f));
}

proof fn lemma_insert_sorted_sorted(fs: Seq<(Seq<char>, ValueModel)>, f: (Seq<char>, ValueModel))
    requires
        fields_sorted(fs),
    ensures
        fields_sorted(insert_sorted(fs, f)),
{
    lemma_insert_pos(fs, f);
    let p = insert_pos(fs, f);
    let r = insert_sorted(fs, f);
    assert forall|i: int, j: int| 0 <= i < j < r.len() implies !key_lt(#[trigger] r[j].0, #[trigger] r[i].0) by {
        if j < p {
            assert(r[i] == fs[i] && r[j] == fs[j]);
        } else if j == p {
            assert(r[i] == fs[i] && r[j] == f);
            lemma_key_lt_asymmetric(fs[i].0, f.0);
        } else if i < p {
            assert(r[i] == fs[i] && r[j] == fs[j - 1]);
            if i < j - 1 {
                assert(!key_lt(fs[j - 1].0, fs[i].0));
            } else {
                lemma_key_lt_irreflexive(fs[i].0);
            }
        } else if i == p {
            assert(r[i] == f && r[j] == fs[j - 1]);
            if p < j - 1 {
                assert(!key_lt(fs[j - 1].0, fs[p].0));
            } else {
                lemma_key_lt_irreflexive(fs[p].0);
            }
            lemma_key_le_transitive(f.0, fs[p].0, fs[j - 1].0);
        } else {
            assert(r[i] == fs[i - 1] && r[j] == fs[j - 1]);
        }
    }
}

/// The fields that `sort_fields` gives are in the order of their names.
pub proof fn law_sort_fields_sorted(fs: Seq<(Seq<char>, ValueModel)>)
    ensures
        fields_sorted(sort_fields(fs)),
    decreases fs.len(),
{
    if fs.len() > 0 {
        law_sort_fields_sorted(fs.drop_last());
        lemma_insert_sorted_sorted(sort_fields(fs.drop_last()), fs.last());
    }
}

/// `sort_fields` only reorders: it keeps every field, as often as it occurs.
pub proof fn law_sort_fields_permutes(fs: Seq<(Seq<char>, ValueModel)>)
    ensures
        sort_fields(fs).to_multiset() == fs.to_multiset(),
    decreases fs.len(),
{
    broadcast use vstd::seq_lib::to_multiset_insert, vstd::seq_lib::to_multiset_build;

    if fs.len() == 0 {
        assert(sort_fields(fs) =~= fs);
    } else {
        let p = fs.drop_last();
        law_sort_fields_permutes(p);
        lemma_insert_pos(sort_fields(p), fs.last());
        assert(p.push(fs.last()) =~= fs);
    }
}

/// A sequence of fields whose names strictly increase is left as it is.
pub proof fn law_sort_fields_keeps_sorted(fs: Seq<(Seq<char>, ValueModel)>)
    requires
        forall|i: int, j: int| 0 <= i < j < fs.len() ==> key_lt(#[trigger] fs[i].0, #[trigger] fs[j].0),
    ensures
        sort_fields(fs) == fs,
    decreases fs.len(),
{
    if fs.len() > 0 {
        let p = fs.drop_last();
        let f = fs.last();
        assert forall|i: int, j: int| 0 <= i < j < p.len() implies key_lt(#[trigger] p[i].0, #[trigger] p[j].0) by {
            assert(p[i] == fs[i] && p[j] == fs[j]);
        }
        law_sort_fields_keeps_sorted(p);
        lemma_insert_pos(p, f);
        let k = insert_pos(p, f);
        if k < p.len() {
            assert(p[k] == fs[k]);
            assert(key_lt(fs[k].0, fs[fs.len() - 1].0));
        }
        assert(p.insert(p.len() as int, f) =~= fs);
    }
}

} // verus!
