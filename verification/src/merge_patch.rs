//! `std.mergePatch` (RFC 7386), and what holds of it.

use vstd::prelude::*;
use crate::value::{Value, ValueModel, view_fields, lemma_view_object, copy_value};
use crate::text::str_eq;
use crate::normalize::{
    sort_fields, sort_field_vec, key_lt, fields_sorted, lemma_key_lt_total, lemma_key_lt_irreflexive,
    law_sort_fields_permutes, law_sort_fields_sorted,
};

verus! {

/// Whether a field of that name is among `fields`.
pub open spec fn has_name(fields: Seq<(Seq<char>, ValueModel)>, name: Seq<char>) -> bool {
    exists|i: int| 0 <= i < fields.len() && (#[trigger] fields[i]).0 == name
}

/// The value of the first field named `name`, or null where there is none.
pub open spec fn field_or_null(fields: Seq<(Seq<char>, ValueModel)>, name: Seq<char>) -> ValueModel
    decreases fields.len(),
{
    if fields.len() == 0 {
        ValueModel::Null
    } else if fields[0].0 == name {
        fields[0].1
    } else {
        field_or_null(fields.drop_first(), name)
    }
}

/// The fields of the target that the patch does not name.
pub open spec fn kept_fields(target: Seq<(Seq<char>, ValueModel)>, patch: Seq<(Seq<char>, ValueModel)>) -> Seq<
    (Seq<char>, ValueModel),
>
    decreases target.len(),
{
    if target.len() == 0 {
        seq![]
    } else if has_name(patch, target.last().0) {
        kept_fields(target.drop_last(), patch)
    } else {
        kept_fields(target.drop_last(), patch).push(target.last())
    }
}

/// The fields of the patch, each merged into the target's field of that
/// name; those that merge to null left out.
pub open spec fn patched_fields(target: Seq<(Seq<char>, ValueModel)>, patch: Seq<(Seq<char>, ValueModel)>) -> Seq<
    (Seq<char>, ValueModel),
>
    decreases patch, 0nat,
{
    if patch.len() == 0 {
        seq![]
    } else {
        let f = patch[patch.len() - 1];
        let m = merge_patch_model(field_or_null(target, f.0), f.1);
        let init = patched_fields(target, patch.subrange(0, patch.len() - 1));
        if m is Null {
            init
        } else {
            init.push((f.0, m))
        }
    }
}

/// `std.mergePatch(target, patch)` (RFC 7386): a patch that is not an
/// object replaces the target; an object patch keeps the target's other
/// fields, merges its fields into the target's, and removes those it sets
/// to null. The fields come out in the order of their names.
pub open spec fn merge_patch_model(target: ValueModel, patch: ValueModel) -> ValueModel
    decreases patch, 1nat,
{
    match patch {
        ValueModel::Object(pfs) => {
            let tfs = match target {
                ValueModel::Object(f) => f,
                _ => seq![],
            };
            ValueModel::Object(sort_fields(kept_fields(tfs, pfs) + patched_fields(tfs, pfs)))
        },
        _ => patch,
    }
}

fn find_field(fields: &Vec<(String, Value)>, name: &String) -> (res: Option<usize>)
    ensures
        match res {
            Some(i) => i < fields@.len() && view_fields(fields@)[i as int].0 == name@ && forall|j: int|
                0 <= j < i ==> #[trigger] view_fields(fields@)[j].0 != name@,
            None => forall|j: int| 0 <= j < fields@.len() ==> #[trigger] view_fields(fields@)[j].0 != name@,
        },
{
    let mut i: usize = 0;
    while i < fields.len()
        invariant
            0 <= i <= fields@.len(),
            forall|j: int| 0 <= j < i ==> #[trigger] view_fields(fields@)[j].0 != name@,
        decreases fields@.len() - i,
    {
        if str_eq(fields[i].0.as_str(), name.as_str()) {
            return Some(i);
        }
        i += 1;
    }
    None
}

proof fn lemma_field_or_null(fields: Seq<(Seq<char>, ValueModel)>, name: Seq<char>, k: int)
    requires
        0 <= k <= fields.len(),
        forall|j: int| 0 <= j < k ==> #[trigger] fields[j].0 != name,
        k < fields.len() ==> fields[k].0 == name,
    ensures
        field_or_null(fields, name) == if k < fields.len() {
            fields[k].1
        } else {
            ValueModel::Null
        },
    decreases fields.len(),
{
    if fields.len() > 0 && k > 0 {
        let rest = fields.drop_first();
        assert forall|j: int| 0 <= j < k - 1 implies #[trigger] rest[j].0 != name by {
            assert(rest[j] == fields[j + 1]);
        }
        if k < fields.len() {
            assert(rest[k - 1] == fields[k]);
        }
        assert(fields[0].0 != name);
        lemma_field_or_null(rest, name, k - 1);
    }
}

/// `std.mergePatch(target, patch)`.
pub fn std_merge_patch(target: &Value, patch: &Value) -> (res: Value)
    ensures
        res@ == merge_patch_model(target@, patch@),
    decreases patch, 1nat,
{
    match patch {
        Value::Object(pfs) => merge_patch_object(target, patch, pfs),
        _ => copy_value(patch),
    }
}

fn merge_patch_object(target: &Value, patch: &Value, pfs: &Vec<(String, Value)>) -> (res: Value)
    requires
        *patch == Value::Object(*pfs),
    ensures
        res@ == merge_patch_model(target@, patch@),
    decreases patch, 0nat,
{
    proof {
        lemma_view_object(*pfs);
    }
    let empty: Vec<(String, Value)> = Vec::new();
    let tfs: &Vec<(String, Value)> = match target {
        Value::Object(f) => {
            proof {
                lemma_view_object(*f);
            }
            f
        },
        _ => &empty,
    };
    let ghost vt = view_fields(tfs@);
    let ghost vp = view_fields(pfs@);
    proof {
        assert(vt == match target@ {
            ValueModel::Object(f) => f,
            _ => Seq::<(Seq<char>, ValueModel)>::empty(),
        }) by {
            if !(target@ is Object) {
                assert(vt =~= Seq::<(Seq<char>, ValueModel)>::empty());
            }
        }
    }
    let mut out: Vec<(String, Value)> = Vec::new();
    let mut i: usize = 0;
    proof {
        assert(vt.subrange(0, 0) =~= Seq::<(Seq<char>, ValueModel)>::empty());
        assert(view_fields(out@) =~= Seq::<(Seq<char>, ValueModel)>::empty());
    }
    while i < tfs.len()
        invariant
            0 <= i <= tfs@.len(),
            vt == view_fields(tfs@),
            vp == view_fields(pfs@),
            view_fields(out@) == kept_fields(vt.subrange(0, i as int), vp),
        decreases tfs@.len() - i,
    {
        proof {
            assert(vt.subrange(0, i + 1).drop_last() =~= vt.subrange(0, i as int));
            assert(vt.subrange(0, i + 1).last() == vt[i as int]);
        }
        match find_field(pfs, &tfs[i].0) {
            Some(k) => {
                proof {
                    assert(vp[k as int].0 == vt[i as int].0);
                }
            },
            None => {
                let name = tfs[i].0.clone();
                let c = copy_value(&tfs[i].1);
                let ghost before = view_fields(out@);
                out.push((name, c));
                proof {
                    assert(view_fields(out@) =~= before.push((name@, c@)));
                    assert(!has_name(vp, vt[i as int].0));
                }
            },
        }
        i += 1;
    }
    proof {
        assert(vt.subrange(0, i as int) =~= vt);
    }
    let ghost kept = view_fields(out@);
    let null = Value::Null;
    let mut j: usize = 0;
    proof {
        assert(vp.subrange(0, 0) =~= Seq::<(Seq<char>, ValueModel)>::empty());
        assert(kept + Seq::<(Seq<char>, ValueModel)>::empty() =~= kept);
    }
    while j < pfs.len()
        invariant
            0 <= j <= pfs@.len(),
            *patch == Value::Object(*pfs),
            vt == view_fields(tfs@),
            vp == view_fields(pfs@),
            kept == kept_fields(vt, vp),
            null@ == ValueModel::Null,
            view_fields(out@) == kept + patched_fields(vt, vp.subrange(0, j as int)),
        decreases pfs@.len() - j,
    {
        proof {
            assert(decreases_to!(*patch => (*patch)->Object_0));
            assert(decreases_to!(*pfs => pfs@));
            assert(decreases_to!(pfs@ => pfs@[j as int]));
            assert(decreases_to!(pfs@[j as int] => pfs@[j as int].1));
            let sub = vp.subrange(0, j + 1);
            assert(sub.subrange(0, sub.len() - 1) =~= vp.subrange(0, j as int));
            assert(sub[sub.len() - 1] == vp[j as int]);
            assert(vp[j as int] == (pfs@[j as int].0@, pfs@[j as int].1@));
        }
        let found = find_field(tfs, &pfs[j].0);
        let tv: &Value = match found {
            Some(k) => &tfs[k].1,
            None => &null,
        };
        proof {
            match found {
                Some(k) => lemma_field_or_null(vt, vp[j as int].0, k as int),
                None => lemma_field_or_null(vt, vp[j as int].0, vt.len() as int),
            }
        }
        let m = std_merge_patch(tv, &pfs[j].1);
        let is_null = match m {
            Value::Null => true,
            _ => false,
        };
        if !is_null {
            let name = pfs[j].0.clone();
            let ghost before = view_fields(out@);
            out.push((name, m));
            proof {
                assert(view_fields(out@) =~= before.push((name@, m@)));
                assert(kept + patched_fields(vt, vp.subrange(0, j + 1)) =~= (kept + patched_fields(
                    vt,
                    vp.subrange(0, j as int),
                )).push((name@, m@)));
            }
        }
        j += 1;
    }
    proof {
        assert(vp.subrange(0, j as int) =~= vp);
    }
    let sorted = sort_field_vec(out);
    proof {
        lemma_view_object(sorted);
    }
    Value::Object(sorted)
}



/// Whether no two of the fields have the same name.
pub open spec fn distinct_names(fs: Seq<(Seq<char>, ValueModel)>) -> bool {
    forall|i: int, j: int| 0 <= i < j < fs.len() ==> (#[trigger] fs[i]).0 != (#[trigger] fs[j]).0
}

/// Whether every object in `v` that a merge patch can reach (not those in
/// arrays) has fields of distinct names, as every Jsonnet object has.
pub open spec fn objects_distinct(v: ValueModel) -> bool
    decreases v, 1nat,
{
    match v {
        ValueModel::Object(fs) => distinct_names(fs) && values_distinct(fs),
        _ => true,
    }
}

/// Whether the objects in the values of the fields have fields of distinct
/// names.
pub open spec fn values_distinct(fs: Seq<(Seq<char>, ValueModel)>) -> bool
    decreases fs, 0nat,
{
    if fs.len() == 0 {
        true
    } else {
        values_distinct(fs.subrange(0, fs.len() - 1)) && objects_distinct(fs[fs.len() - 1].1)
    }
}

proof fn lemma_values_distinct(fs: Seq<(Seq<char>, ValueModel)>)
    requires
        values_distinct(fs),
    ensures
        forall|i: int| 0 <= i < fs.len() ==> #[trigger] objects_distinct(fs[i].1),
    decreases fs.len(),
{
    if fs.len() > 0 {
        let init = fs.subrange(0, fs.len() - 1);
        lemma_values_distinct(init);
        assert forall|i: int| 0 <= i < fs.len() implies #[trigger] objects_distinct(fs[i].1) by {
            if i < fs.len() - 1 {
                assert(fs[i] == init[i]);
            }
        }
    }
}

/// Whether a field keeps its place in `kept_fields`: the patch does not name it.
pub open spec fn not_patched(patch: Seq<(Seq<char>, ValueModel)>) -> spec_fn((Seq<char>, ValueModel)) -> bool {
    |f: (Seq<char>, ValueModel)| !has_name(patch, f.0)
}

proof fn lemma_field_or_null_distinct(fs: Seq<(Seq<char>, ValueModel)>, n: Seq<char>)
    requires
        forall|i: int| 0 <= i < fs.len() ==> #[trigger] objects_distinct(fs[i].1),
    ensures
        objects_distinct(field_or_null(fs, n)),
    decreases fs.len(),
{
    if fs.len() > 0 {
        assert(objects_distinct(fs[0].1));
        let rest = fs.drop_first();
        assert forall|i: int| 0 <= i < rest.len() implies #[trigger] objects_distinct(rest[i].1) by {
            assert(rest[i] == fs[i + 1]);
            assert(objects_distinct(fs[i + 1].1));
        }
        lemma_field_or_null_distinct(rest, n);
    }
}

/// The value of the field of a name, where every field of that name has
/// that value and there is one; null where there is none.
proof fn lemma_field_or_null_by_name(fs: Seq<(Seq<char>, ValueModel)>, n: Seq<char>, v: ValueModel)
    requires
        forall|i: int| 0 <= i < fs.len() && (#[trigger] fs[i]).0 == n ==> fs[i].1 == v,
    ensures
        has_name(fs, n) ==> field_or_null(fs, n) == v,
        !has_name(fs, n) ==> field_or_null(fs, n) == ValueModel::Null,
    decreases fs.len(),
{
    if fs.len() > 0 {
        let rest = fs.drop_first();
        assert forall|i: int| 0 <= i < rest.len() && (#[trigger] rest[i]).0 == n implies rest[i].1 == v by {
            assert(rest[i] == fs[i + 1]);
        }
        lemma_field_or_null_by_name(rest, n, v);
        if fs[0].0 != n {
            if has_name(fs, n) {
                let i = choose|i: int| 0 <= i < fs.len() && (#[trigger] fs[i]).0 == n;
                assert(rest[i - 1] == fs[i]);
            }
            if has_name(rest, n) {
                let i = choose|i: int| 0 <= i < rest.len() && (#[trigger] rest[i]).0 == n;
                assert(rest[i] == fs[i + 1]);
            }
        } else {
            assert(fs[0].1 == v);
        }
    }
}

/// In fields of distinct names, the field named as the `k`-th has its value.
proof fn lemma_field_or_null_at(fs: Seq<(Seq<char>, ValueModel)>, k: int)
    requires
        distinct_names(fs),
        0 <= k < fs.len(),
    ensures
        field_or_null(fs, fs[k].0) == fs[k].1,
{
    assert forall|j: int| 0 <= j < k implies #[trigger] fs[j].0 != fs[k].0 by {
        assert(fs[j].0 != fs[k].0);
    }
    lemma_field_or_null(fs, fs[k].0, k);
}


/// The result of merging the patch's field into the target's field of the
/// same name.
pub open spec fn merged_value(target: Seq<(Seq<char>, ValueModel)>, f: (Seq<char>, ValueModel)) -> ValueModel {
    merge_patch_model(field_or_null(target, f.0), f.1)
}

proof fn lemma_patched(target: Seq<(Seq<char>, ValueModel)>, patch: Seq<(Seq<char>, ValueModel)>)
    requires
        distinct_names(patch),
    ensures
        forall|i: int|
            0 <= i < patched_fields(target, patch).len() ==> {
                let g = #[trigger] patched_fields(target, patch)[i];
                &&& has_name(patch, g.0)
                &&& g.1 == merge_patch_model(field_or_null(target, g.0), field_or_null(patch, g.0))
                &&& !(g.1 is Null)
            },
        distinct_names(patched_fields(target, patch)),
        forall|j: int|
            0 <= j < patch.len() && !(merged_value(target, #[trigger] patch[j]) is Null) ==> patched_fields(
                target,
                patch,
            ).contains((patch[j].0, merged_value(target, patch[j]))),
    decreases patch.len(),
{
    let pt = patched_fields(target, patch);
    if patch.len() > 0 {
        let n = patch.len() - 1;
        let init = patch.subrange(0, n);
        let f = patch[n];
        assert forall|i: int, j: int| 0 <= i < j < init.len() implies (#[trigger] init[i]).0 != (#[trigger] init[j]).0 by {
            assert(init[i] == patch[i] && init[j] == patch[j]);
        }
        lemma_patched(target, init);
        let pi = patched_fields(target, init);
        let m = merged_value(target, f);
        lemma_field_or_null_at(patch, n);
        // names found in `init` are looked up there first
        assert forall|i: int| 0 <= i < pi.len() implies field_or_null(patch, (#[trigger] pi[i]).0) == field_or_null(
            init,
            pi[i].0,
        ) by {
            let g = pi[i];
            let k = choose|k: int| 0 <= k < init.len() && (#[trigger] init[k]).0 == g.0;
            lemma_field_or_null_at(init, k);
            assert(patch[k] == init[k]);
            lemma_field_or_null_at(patch, k);
        }
        assert forall|i: int| 0 <= i < pi.len() implies has_name(patch, (#[trigger] pi[i]).0) by {
            let k = choose|k: int| 0 <= k < init.len() && (#[trigger] init[k]).0 == pi[i].0;
            assert(patch[k] == init[k]);
        }
        // `f`'s name is not among those of `init`
        assert forall|i: int| 0 <= i < pi.len() implies (#[trigger] pi[i]).0 != f.0 by {
            let k = choose|k: int| 0 <= k < init.len() && (#[trigger] init[k]).0 == pi[i].0;
            assert(patch[k] == init[k]);
        }
        if m is Null {
            assert(pt == pi);
        } else {
            assert(pt == pi.push((f.0, m)));
            assert(pt[pi.len() as int] == (f.0, m));
        }
        assert forall|j: int| 0 <= j < patch.len() && !(merged_value(target, #[trigger] patch[j]) is Null) implies pt.contains(
            (patch[j].0, merged_value(target, patch[j])),
        ) by {
            if j < n {
                assert(init[j] == patch[j]);
                assert(pi.contains((init[j].0, merged_value(target, init[j]))));
                let k = choose|k: int| 0 <= k < pi.len() && pi[k] == (init[j].0, merged_value(target, init[j]));
                assert(pt[k] == pi[k]);
            } else {
                assert(pt[pi.len() as int] == (f.0, m));
            }
        }
    }
}

proof fn lemma_kept(target: Seq<(Seq<char>, ValueModel)>, patch: Seq<(Seq<char>, ValueModel)>)
    ensures
        forall|i: int|
            0 <= i < kept_fields(target, patch).len() ==> !has_name(patch, (#[trigger] kept_fields(target, patch)[i]).0)
                && target.contains(kept_fields(target, patch)[i]),
        distinct_names(target) ==> distinct_names(kept_fields(target, patch)),
        kept_fields(target, patch).to_multiset() =~= target.to_multiset().filter(not_patched(patch)),
    decreases target.len(),
{
    broadcast use vstd::seq_lib::to_multiset_build, vstd::multiset::group_multiset_axioms;

    let k = kept_fields(target, patch);
    if target.len() == 0 {
        vstd::seq_lib::to_multiset_len(k);
        vstd::seq_lib::to_multiset_len(target);
        assert forall|v: (Seq<char>, ValueModel)| #[trigger] k.to_multiset().count(v) == target.to_multiset().filter(
            not_patched(patch),
        ).count(v) by {
            assert(k.to_multiset().count(v) <= k.to_multiset().len());
            assert(target.to_multiset().count(v) <= target.to_multiset().len());
        }
        assert(k.to_multiset() =~= target.to_multiset().filter(not_patched(patch)));
    } else {
        let init = target.drop_last();
        let f = target.last();
        lemma_kept(init, patch);
        let ki = kept_fields(init, patch);
        assert(init.push(f) =~= target);
        assert forall|i: int| 0 <= i < ki.len() implies target.contains(#[trigger] ki[i]) by {
            let j = choose|j: int| 0 <= j < init.len() && init[j] == ki[i];
            assert(target[j] == init[j]);
        }
        if distinct_names(target) {
            assert forall|i: int, j: int| 0 <= i < j < init.len() implies (#[trigger] init[i]).0 != (#[trigger] init[j]).0 by {
                assert(init[i] == target[i] && init[j] == target[j]);
            }
            assert forall|i: int| 0 <= i < ki.len() implies (#[trigger] ki[i]).0 != f.0 by {
                let j = choose|j: int| 0 <= j < init.len() && init[j] == ki[i];
                assert(target[j] == init[j]);
                assert(target[j].0 != target[target.len() - 1].0);
            }
        }
        if has_name(patch, f.0) {
            assert(k == ki);
        } else {
            assert(k == ki.push(f));
            assert(k[ki.len() as int] == f);
        }
    }
}


/// In fields of distinct names, two fields with the same name are the same
/// field.
proof fn lemma_distinct_multiset(x: Seq<(Seq<char>, ValueModel)>)
    requires
        distinct_names(x),
    ensures
        forall|g: (Seq<char>, ValueModel), h: (Seq<char>, ValueModel)|
            #![trigger x.to_multiset().count(g), x.to_multiset().count(h)]
            x.to_multiset().count(g) > 0 && x.to_multiset().count(h) > 0 && g.0 == h.0 ==> g == h,
{
    broadcast use vstd::seq_lib::to_multiset_contains;

    assert forall|g: (Seq<char>, ValueModel), h: (Seq<char>, ValueModel)|
        #![trigger x.to_multiset().count(g), x.to_multiset().count(h)]
        x.to_multiset().count(g) > 0 && x.to_multiset().count(h) > 0 && g.0 == h.0 implies g == h by {
        assert(x.contains(g));
        assert(x.contains(h));
        let i = choose|i: int| 0 <= i < x.len() && x[i] == g;
        let j = choose|j: int| 0 <= j < x.len() && x[j] == h;
        if i < j {
            assert(x[i].0 != x[j].0);
        } else if j < i {
            assert(x[j].0 != x[i].0);
        }
    }
}

/// Two sequences of fields in the order of their names, with the same
/// fields, are the same where no two different fields share a name.
proof fn lemma_sorted_unique(a: Seq<(Seq<char>, ValueModel)>, b: Seq<(Seq<char>, ValueModel)>)
    requires
        fields_sorted(a),
        fields_sorted(b),
        a.to_multiset() == b.to_multiset(),
        forall|g: (Seq<char>, ValueModel), h: (Seq<char>, ValueModel)|
            #![trigger a.to_multiset().count(g), a.to_multiset().count(h)]
            a.to_multiset().count(g) > 0 && a.to_multiset().count(h) > 0 && g.0 == h.0 ==> g == h,
    ensures
        a == b,
    decreases a.len(),
{
    broadcast use vstd::seq_lib::to_multiset_contains, vstd::seq_lib::to_multiset_len, vstd::seq_lib::to_multiset_remove,
        vstd::multiset::group_multiset_axioms;

    assert(a.len() == a.to_multiset().len());
    assert(b.len() == b.to_multiset().len());
    if a.len() == 0 {
        assert(a =~= b);
    } else {
        let a0 = a[0];
        let b0 = b[0];
        assert(b.to_multiset().count(b0) > 0);
        assert(a.contains(b0));
        let i = choose|i: int| 0 <= i < a.len() && a[i] == b0;
        if i > 0 {
            assert(!key_lt(a[i].0, a[0].0));
        }
        assert(a.to_multiset().count(a0) > 0);
        assert(b.contains(a0));
        let j = choose|j: int| 0 <= j < b.len() && b[j] == a0;
        if j > 0 {
            assert(!key_lt(b[j].0, b[0].0));
        }
        lemma_key_lt_total(a0.0, b0.0);
        lemma_key_lt_irreflexive(a0.0);
        assert(a0.0 == b0.0);
        assert(a.to_multiset().count(b0) > 0);
        assert(a0 == b0);
        let ra = a.drop_first();
        let rb = b.drop_first();
        assert(a.remove(0) =~= ra);
        assert(b.remove(0) =~= rb);
        assert(ra.to_multiset() =~= rb.to_multiset());
        assert forall|g: (Seq<char>, ValueModel), h: (Seq<char>, ValueModel)|
            #![trigger ra.to_multiset().count(g), ra.to_multiset().count(h)]
            ra.to_multiset().count(g) > 0 && ra.to_multiset().count(h) > 0 && g.0 == h.0 implies g == h by {
            assert(a.to_multiset().count(g) > 0);
            assert(a.to_multiset().count(h) > 0);
        }
        assert forall|x: int, y: int| 0 <= x < y < ra.len() implies !key_lt(#[trigger] ra[y].0, #[trigger] ra[x].0) by {
            assert(ra[x] == a[x + 1] && ra[y] == a[y + 1]);
        }
        assert forall|x: int, y: int| 0 <= x < y < rb.len() implies !key_lt(#[trigger] rb[y].0, #[trigger] rb[x].0) by {
            assert(rb[x] == b[x + 1] && rb[y] == b[y + 1]);
        }
        lemma_sorted_unique(ra, rb);
        assert forall|x: int| 0 <= x < a.len() implies a[x] == b[x] by {
            if x > 0 {
                assert(a[x] == ra[x - 1] && b[x] == rb[x - 1]);
            }
        }
        assert(a =~= b);
    }
}

/// After a merge, the field of a name the patch sets holds what merging
/// gave, or is gone where that is null.
proof fn lemma_lookup_merged(
    target: Seq<(Seq<char>, ValueModel)>,
    patch: Seq<(Seq<char>, ValueModel)>,
    r: Seq<(Seq<char>, ValueModel)>,
    j: int,
)
    requires
        distinct_names(patch),
        0 <= j < patch.len(),
        r.to_multiset() == (kept_fields(target, patch) + patched_fields(target, patch)).to_multiset(),
    ensures
        field_or_null(r, patch[j].0) == if merged_value(target, patch[j]) is Null {
            ValueModel::Null
        } else {
            merged_value(target, patch[j])
        },
{
    broadcast use vstd::seq_lib::to_multiset_contains;

    let n = patch[j].0;
    let m = merged_value(target, patch[j]);
    let k = kept_fields(target, patch);
    let pt = patched_fields(target, patch);
    let x = k + pt;
    lemma_kept(target, patch);
    lemma_patched(target, patch);
    lemma_field_or_null_at(patch, j);
    assert(has_name(patch, n));
    assert forall|i: int| 0 <= i < r.len() && (#[trigger] r[i]).0 == n implies r[i].1 == m && !(m is Null) by {
        assert(r.to_multiset().count(r[i]) > 0);
        assert(x.contains(r[i]));
        let q = choose|q: int| 0 <= q < x.len() && x[q] == r[i];
        if q < k.len() {
            assert(x[q] == k[q]);
        } else {
            assert(x[q] == pt[q - k.len()]);
        }
    }
    lemma_field_or_null_by_name(r, n, m);
    if !(m is Null) {
        assert(pt.contains((n, m)));
        let q = choose|q: int| 0 <= q < pt.len() && pt[q] == (n, m);
        assert(x[k.len() + q] == (n, m));
        assert(x.to_multiset().count((n, m)) > 0);
        assert(r.contains((n, m)));
        let w = choose|w: int| 0 <= w < r.len() && r[w] == (n, m);
        assert(r[w].0 == n);
    } else {
        if has_name(r, n) {
            let w = choose|w: int| 0 <= w < r.len() && (#[trigger] r[w]).0 == n;
            assert(!(m is Null));
        }
    }
}


proof fn lemma_patched_again(
    target: Seq<(Seq<char>, ValueModel)>,
    all: Seq<(Seq<char>, ValueModel)>,
    patch: Seq<(Seq<char>, ValueModel)>,
    r: Seq<(Seq<char>, ValueModel)>,
)
    requires
        distinct_names(all),
        forall|i: int| 0 <= i < target.len() ==> #[trigger] objects_distinct(target[i].1),
        forall|i: int| 0 <= i < all.len() ==> #[trigger] objects_distinct(all[i].1),
        patch.len() <= all.len(),
        patch == all.subrange(0, patch.len() as int),
        r.to_multiset() == (kept_fields(target, all) + patched_fields(target, all)).to_multiset(),
    ensures
        patched_fields(r, patch) == patched_fields(target, patch),
    decreases patch, 0nat,
{
    if patch.len() > 0 {
        let n = patch.len() - 1;
        let init = patch.subrange(0, n);
        assert(init =~= all.subrange(0, n));
        lemma_patched_again(target, all, init, r);
        let f = patch[n];
        assert(f == all[n]);
        lemma_lookup_merged(target, all, r, n);
        let x = field_or_null(target, f.0);
        lemma_field_or_null_distinct(target, f.0);
        assert(objects_distinct(all[n].1));
        assert(decreases_to!(patch => patch[n]));
        assert(decreases_to!(patch[n] => patch[n].1));
        law_merge_patch_idempotent(x, f.1);
        let m = merged_value(target, f);
        if m is Null {
            assert(f.1 is Null);
        }
        assert(merged_value(r, f) == m);
    }
}

/// Applying a merge patch twice gives what applying it once gives:
/// `std.mergePatch(std.mergePatch(t, p), p)` is `std.mergePatch(t, p)`, for
/// every target and patch whose objects have fields of distinct names.
pub proof fn law_merge_patch_idempotent(t: ValueModel, p: ValueModel)
    requires
        objects_distinct(t),
        objects_distinct(p),
    ensures
        merge_patch_model(merge_patch_model(t, p), p) == merge_patch_model(t, p),
    decreases p, 1nat,
{
    broadcast use vstd::seq_lib::to_multiset_contains, vstd::multiset::group_multiset_axioms;

    if let ValueModel::Object(all) = p {
        let tfs = match t {
            ValueModel::Object(f) => f,
            _ => Seq::<(Seq<char>, ValueModel)>::empty(),
        };
        assert(distinct_names(tfs));
        if let ValueModel::Object(f) = t {
            lemma_values_distinct(f);
        }
        lemma_values_distinct(all);
        assert(forall|i: int| 0 <= i < tfs.len() ==> #[trigger] objects_distinct(tfs[i].1));
        let k = kept_fields(tfs, all);
        let pt = patched_fields(tfs, all);
        let x = k + pt;
        let r = sort_fields(x);
        law_sort_fields_permutes(x);
        law_sort_fields_sorted(x);
        assert(all =~= all.subrange(0, all.len() as int));
        lemma_patched_again(tfs, all, all, r);
        lemma_kept(tfs, all);
        lemma_kept(r, all);
        lemma_patched(tfs, all);
        let k2 = kept_fields(r, all);
        vstd::seq_lib::lemma_multiset_commutative(k, pt);
        assert forall|v: (Seq<char>, ValueModel)| #[trigger] k2.to_multiset().count(v) == k.to_multiset().count(v) by {
            if pt.to_multiset().count(v) > 0 {
                assert(pt.contains(v));
                let q = choose|q: int| 0 <= q < pt.len() && pt[q] == v;
                assert(has_name(all, pt[q].0));
            }
            if k.to_multiset().count(v) > 0 {
                assert(k.contains(v));
                let q = choose|q: int| 0 <= q < k.len() && k[q] == v;
                assert(!has_name(all, k[q].0));
            }
        }
        assert(k2.to_multiset() =~= k.to_multiset());
        let y = k2 + pt;
        vstd::seq_lib::lemma_multiset_commutative(k2, pt);
        assert(y.to_multiset() =~= x.to_multiset());
        let fy = sort_fields(y);
        law_sort_fields_permutes(y);
        law_sort_fields_sorted(y);
        assert forall|i: int, j: int| 0 <= i < j < x.len() implies (#[trigger] x[i]).0 != (#[trigger] x[j]).0 by {
            if j < k.len() {
                assert(x[i] == k[i] && x[j] == k[j]);
            } else if i >= k.len() {
                assert(x[i] == pt[i - k.len()] && x[j] == pt[j - k.len()]);
            } else {
                assert(x[i] == k[i] && x[j] == pt[j - k.len()]);
                assert(has_name(all, pt[j - k.len()].0));
                assert(!has_name(all, k[i].0));
            }
        }
        lemma_distinct_multiset(x);
        lemma_sorted_unique(r, fy);
    }
}

} // verus!
