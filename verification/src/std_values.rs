//! Standard-library functions that take and give values: `std.length`,
//! `std.reverse`, `std.flattenArrays`, `std.repeat`, `std.join`,
//! `std.deepJoin`, `std.slice`, `std.objectRemoveKey`, `std.prune`,
//! `std.range`, `std.encodeUTF8`, `std.decodeUTF8`, `std.type`, `std.all`,
//! `std.any`, `std.flattenDeepArray` and `std.removeAt`.

use vstd::prelude::*;
use crate::value::{Value, ValueModel, view_items, view_fields, lemma_view_array, lemma_view_object, copy_value};
use crate::error::{
    EvalErrorKind, EvalErrorValueType, is_arg_type_error, is_other_error, other_error, type_of, value_type_text,
};
use crate::text::{chars_of, string_from_chars, concat_str, push_chars, push_str, str_eq};
use crate::strings::join_with;
use crate::format::{decimal_text, int_digits};
use vstd::utf8::{encode_utf8, valid_utf8, decode_utf8};
use vstd::string::*;

verus! {

/// The message of an item of the wrong type.
pub open spec fn item_type_message(prefix: Seq<char>, v: ValueModel) -> Seq<char> {
    prefix + value_type_text(type_of(v))
}

fn item_type_error(prefix: &str, v: &Value) -> (res: EvalErrorKind)
    ensures
        is_other_error(res, item_type_message(prefix@, v@)),
{
    let t = EvalErrorValueType::from_value(v).to_str();
    other_error(concat_str(prefix, t))
}

fn arg_error2(func: &str, index: usize, a: EvalErrorValueType, b: EvalErrorValueType, got: &Value) -> (res:
    EvalErrorKind)
    ensures
        is_arg_type_error(res, func@, index as int, seq![a, b], type_of(got@)),
{
    let mut expected: Vec<EvalErrorValueType> = Vec::new();
    expected.push(a);
    expected.push(b);
    proof {
        assert(expected@ =~= seq![a, b]);
    }
    EvalErrorKind::InvalidStdFuncArgType {
        func_name: String::from_str(func),
        arg_index: index,
        expected_types: expected,
        got_type: EvalErrorValueType::from_value(got),
    }
}

fn arg_error1(func: &str, index: usize, a: EvalErrorValueType, got: &Value) -> (res: EvalErrorKind)
    ensures
        is_arg_type_error(res, func@, index as int, seq![a], type_of(got@)),
{
    crate::error::arg_type_error(func, index, a, EvalErrorValueType::from_value(got))
}

/// The length that `std.length` gives: characters of a string, items of an
/// array, fields of an object.
pub open spec fn length_model(v: ValueModel) -> Option<nat> {
    match v {
        ValueModel::String(s) => Some(s.len()),
        ValueModel::Array(items) => Some(items.len()),
        ValueModel::Object(fields) => Some(fields.len()),
        _ => None,
    }
}

/// `std.length` of a value.
pub fn std_length(v: &Value) -> (res: Result<usize, EvalErrorKind>)
    ensures
        match length_model(v@) {
            Some(n) => res == Ok::<usize, EvalErrorKind>(n as usize),
            None => res matches Err(e) && is_arg_type_error(
                e,
                "length"@,
                0,
                seq![
                    EvalErrorValueType::String,
                    EvalErrorValueType::Array,
                    EvalErrorValueType::Object,
                    EvalErrorValueType::Function,
                ],
                type_of(v@),
            ),
        },
{
    match v {
        Value::String(s) => Ok(chars_of(s.as_str()).len()),
        Value::Array(items) => {
            proof {
                lemma_view_array(*items);
            }
            Ok(items.len())
        },
        Value::Object(fields) => {
            proof {
                lemma_view_object(*fields);
            }
            Ok(fields.len())
        },
        _ => {
            let expected = vec![
                EvalErrorValueType::String,
                EvalErrorValueType::Array,
                EvalErrorValueType::Object,
                EvalErrorValueType::Function,
            ];
            proof {
                assert(expected@ =~= seq![
                    EvalErrorValueType::String,
                    EvalErrorValueType::Array,
                    EvalErrorValueType::Object,
                    EvalErrorValueType::Function,
                ]);
            }
            Err(
                EvalErrorKind::InvalidStdFuncArgType {
                    func_name: String::from_str("length"),
                    arg_index: 0,
                    expected_types: expected,
                    got_type: EvalErrorValueType::from_value(v),
                },
            )
        },
    }
}

/// The one-character strings of `s`, last first.
pub open spec fn reversed_chars(s: Seq<char>) -> Seq<ValueModel> {
    Seq::new(s.len(), |i: int| ValueModel::String(seq![s[s.len() - 1 - i]]))
}

/// `std.reverse`: the characters of a string (as one-character strings) or
/// the items of an array, last first.
pub fn std_reverse(v: &Value) -> (res: Result<Value, EvalErrorKind>)
    ensures
        match v@ {
            ValueModel::String(s) => res matches Ok(r) && r@ == ValueModel::Array(reversed_chars(s)),
            ValueModel::Array(items) => res matches Ok(r) && r@ == ValueModel::Array(items.reverse()),
            _ => res matches Err(e) && is_arg_type_error(
                e,
                "reverse"@,
                0,
                seq![EvalErrorValueType::String, EvalErrorValueType::Array],
                type_of(v@),
            ),
        },
{
    match v {
        Value::String(s) => {
            let cs = chars_of(s.as_str());
            let n = cs.len();
            let mut out: Vec<Value> = Vec::new();
            let mut i: usize = 0;
            while i < n
                invariant
                    0 <= i <= n,
                    n == cs@.len(),
                    cs@ == s@,
                    view_items(out@) =~= reversed_chars(s@).subrange(0, i as int),
                decreases n - i,
            {
                let k = n - 1 - i;
                let one = vec![cs[k]];
                let t = string_from_chars(one.as_slice());
                proof {
                    assert(one@ =~= seq![s@[k as int]]);
                }
                let ghost before = out@;
                let item = Value::String(t);
                proof {
                    assert(item@ == ValueModel::String(seq![s@[k as int]]));
                }
                out.push(item);
                proof {
                    assert(view_items(out@) =~= view_items(before).push(item@));
                    assert(reversed_chars(s@).subrange(0, i + 1) =~= reversed_chars(s@).subrange(0, i as int).push(
                        ValueModel::String(seq![s@[k as int]]),
                    ));
                }
                i += 1;
            }
            proof {
                assert(reversed_chars(s@).subrange(0, n as int) =~= reversed_chars(s@));
                lemma_view_array(out);
            }
            Ok(Value::Array(out))
        },
        Value::Array(items) => {
            proof {
                lemma_view_array(*items);
            }
            let n = items.len();
            let mut out: Vec<Value> = Vec::new();
            let mut i: usize = 0;
            while i < n
                invariant
                    0 <= i <= n,
                    n == items@.len(),
                    view_items(out@) =~= view_items(items@).reverse().subrange(0, i as int),
                decreases n - i,
            {
                let k = n - 1 - i;
                let c = copy_value(&items[k]);
                let ghost before = out@;
                out.push(c);
                proof {
                    assert(view_items(out@) =~= view_items(before).push(c@));
                    assert(view_items(items@).reverse().subrange(0, i + 1) =~= view_items(items@).reverse().subrange(
                        0,
                        i as int,
                    ).push(items@[k as int]@));
                }
                i += 1;
            }
            proof {
                assert(view_items(items@).reverse().subrange(0, n as int) =~= view_items(items@).reverse());
                lemma_view_array(out);
            }
            Ok(Value::Array(out))
        },
        _ => Err(arg_error2("reverse", 0, EvalErrorValueType::String, EvalErrorValueType::Array, v)),
    }
}

/// The items of the arrays, one array after the other, or the message for
/// the first item that is not an array.
pub open spec fn flatten_model(items: Seq<ValueModel>) -> Result<Seq<ValueModel>, Seq<char>>
    decreases items.len(),
{
    if items.len() == 0 {
        Ok(seq![])
    } else {
        match flatten_model(items.drop_last()) {
            Err(m) => Err(m),
            Ok(acc) => match items.last() {
                ValueModel::Array(xs) => Ok(acc + xs),
                other => Err(item_type_message("array item must be an array, got "@, other)),
            },
        }
    }
}

/// Appends copies of the values to `out`.
fn push_copies(out: &mut Vec<Value>, items: &Vec<Value>)
    ensures
        view_items(final(out)@) == view_items(old(out)@) + view_items(items@),
{
    let mut i: usize = 0;
    while i < items.len()
        invariant
            0 <= i <= items@.len(),
            view_items(out@) == view_items(old(out)@) + view_items(items@).subrange(0, i as int),
        decreases items@.len() - i,
    {
        let c = copy_value(&items[i]);
        let ghost before = out@;
        out.push(c);
        proof {
            assert(view_items(out@) =~= view_items(before).push(c@));
            assert(view_items(items@).subrange(0, i + 1) =~= view_items(items@).subrange(0, i as int).push(
                items@[i as int]@,
            ));
        }
        i += 1;
    }
    proof {
        assert(view_items(items@).subrange(0, i as int) =~= view_items(items@));
    }
}

/// `std.flattenArrays`: the items of an array of arrays, in order.
pub fn std_flatten_arrays(v: &Value) -> (res: Result<Value, EvalErrorKind>)
    ensures
        match v@ {
            ValueModel::Array(items) => match flatten_model(items) {
                Ok(xs) => res matches Ok(r) && r@ == ValueModel::Array(xs),
                Err(m) => res matches Err(e) && is_other_error(e, m),
            },
            _ => res matches Err(e) && is_arg_type_error(
                e,
                "flattenArrays"@,
                0,
                seq![EvalErrorValueType::Array],
                type_of(v@),
            ),
        },
{
    let items = match v {
        Value::Array(items) => items,
        _ => {
            return Err(arg_error1("flattenArrays", 0, EvalErrorValueType::Array, v));
        },
    };
    proof {
        lemma_view_array(*items);
    }
    let ghost vi = view_items(items@);
    let mut out: Vec<Value> = Vec::new();
    let mut i: usize = 0;
    proof {
        assert(vi.subrange(0, 0) =~= Seq::<ValueModel>::empty());
        assert(view_items(out@) =~= Seq::<ValueModel>::empty());
    }
    while i < items.len()
        invariant
            0 <= i <= items@.len(),
            vi == view_items(items@),
            v@ == ValueModel::Array(vi),
            flatten_model(vi.subrange(0, i as int)) == Ok::<Seq<ValueModel>, Seq<char>>(view_items(out@)),
        decreases items@.len() - i,
    {
        proof {
            assert(vi.subrange(0, i + 1).drop_last() =~= vi.subrange(0, i as int));
            assert(vi.subrange(0, i + 1).last() == items@[i as int]@);
        }
        match &items[i] {
            Value::Array(xs) => {
                proof {
                    lemma_view_array(*xs);
                }
                push_copies(&mut out, xs);
            },
            other => {
                let e = item_type_error("array item must be an array, got ", other);
                proof {
                    let sub = vi.subrange(0, i + 1);
                    assert(sub.last() == other@);
                    assert(!(other@ is Array));
                    assert(flatten_model(sub) == Err::<Seq<ValueModel>, Seq<char>>(
                        item_type_message("array item must be an array, got "@, other@),
                    ));
                    lemma_flatten_err(vi, i as int);
                }
                return Err(e);
            },
        }
        i += 1;
    }
    proof {
        assert(vi.subrange(0, i as int) =~= vi);
        lemma_view_array(out);
    }
    Ok(Value::Array(out))
}

proof fn lemma_flatten_err(items: Seq<ValueModel>, k: int)
    requires
        0 <= k < items.len(),
        flatten_model(items.subrange(0, k + 1)) is Err,
    ensures
        flatten_model(items) == flatten_model(items.subrange(0, k + 1)),
    decreases items.len(),
{
    if k + 1 == items.len() {
        assert(items.subrange(0, k + 1) =~= items);
    } else {
        assert(items.drop_last().subrange(0, k + 1) =~= items.subrange(0, k + 1));
        lemma_flatten_err(items.drop_last(), k);
    }
}

/// `s` repeated `n` times.
pub open spec fn repeat_seq<A>(s: Seq<A>, n: nat) -> Seq<A>
    decreases n,
{
    if n == 0 {
        seq![]
    } else {
        repeat_seq(s, (n - 1) as nat) + s
    }
}

/// `std.repeat` once its count is a whole number: a string or an array
/// repeated `count` times.
pub fn std_repeat(v: &Value, count: usize) -> (res: Result<Value, EvalErrorKind>)
    ensures
        match v@ {
            ValueModel::String(s) => res matches Ok(r) && r@ == ValueModel::String(repeat_seq(s, count as nat)),
            ValueModel::Array(items) => res matches Ok(r) && r@ == ValueModel::Array(
                repeat_seq(items, count as nat),
            ),
            _ => res matches Err(e) && is_arg_type_error(
                e,
                "repeat"@,
                0,
                seq![EvalErrorValueType::String, EvalErrorValueType::Array],
                type_of(v@),
            ),
        },
{
    match v {
        Value::String(s) => {
            let cs = chars_of(s.as_str());
            let mut out: Vec<char> = Vec::new();
            let mut i: usize = 0;
            while i < count
                invariant
                    0 <= i <= count,
                    cs@ == s@,
                    out@ == repeat_seq(s@, i as nat),
                decreases count - i,
            {
                push_chars(&mut out, cs.as_slice());
                i += 1;
            }
            Ok(Value::String(string_from_chars(out.as_slice())))
        },
        Value::Array(items) => {
            proof {
                lemma_view_array(*items);
            }
            let mut out: Vec<Value> = Vec::new();
            let mut i: usize = 0;
            while i < count
                invariant
                    0 <= i <= count,
                    view_items(out@) == repeat_seq(view_items(items@), i as nat),
                decreases count - i,
            {
                push_copies(&mut out, items);
                i += 1;
            }
            proof {
                lemma_view_array(out);
            }
            Ok(Value::Array(out))
        },
        _ => Err(arg_error2("repeat", 0, EvalErrorValueType::String, EvalErrorValueType::Array, v)),
    }
}

/// The strings of the items, nulls left out, or the message for the first
/// item that is neither.
pub open spec fn string_parts(items: Seq<ValueModel>) -> Result<Seq<Seq<char>>, Seq<char>>
    decreases items.len(),
{
    if items.len() == 0 {
        Ok(seq![])
    } else {
        match string_parts(items.drop_last()) {
            Err(m) => Err(m),
            Ok(ps) => match items.last() {
                ValueModel::Null => Ok(ps),
                ValueModel::String(s) => Ok(ps.push(s)),
                other => Err(item_type_message("array item must null or string, got "@, other)),
            },
        }
    }
}

/// The arrays of the items, nulls left out, or the message for the first
/// item that is neither.
pub open spec fn array_parts(items: Seq<ValueModel>) -> Result<Seq<Seq<ValueModel>>, Seq<char>>
    decreases items.len(),
{
    if items.len() == 0 {
        Ok(seq![])
    } else {
        match array_parts(items.drop_last()) {
            Err(m) => Err(m),
            Ok(ps) => match items.last() {
                ValueModel::Null => Ok(ps),
                ValueModel::Array(xs) => Ok(ps.push(xs)),
                other => Err(item_type_message("array item must null or array, got "@, other)),
            },
        }
    }
}

proof fn lemma_join_push<A>(ps: Seq<Seq<A>>, x: Seq<A>, sep: Seq<A>)
    ensures
        join_with(ps.push(x), sep) == if ps.len() == 0 {
            x
        } else {
            join_with(ps, sep) + sep + x
        },
    decreases ps.len(),
{
    if ps.len() >= 1 {
        let q = ps.push(x);
        assert(q.drop_first() =~= ps.drop_first().push(x));
        lemma_join_push(ps.drop_first(), x, sep);
        if ps.len() >= 2 {
            assert(join_with(ps, sep) == ps[0] + sep + join_with(ps.drop_first(), sep));
        } else {
            assert(ps.drop_first().len() == 0);
            assert(join_with(ps, sep) == ps[0]);
        }
        assert(join_with(q, sep) == q[0] + sep + join_with(q.drop_first(), sep));
    } else {
        assert(ps.push(x) =~= seq![x]);
    }
}

proof fn lemma_parts_err(items: Seq<ValueModel>, k: int, strings: bool)
    requires
        0 <= k < items.len(),
        strings ==> string_parts(items.subrange(0, k + 1)) is Err,
        !strings ==> array_parts(items.subrange(0, k + 1)) is Err,
    ensures
        strings ==> string_parts(items) == string_parts(items.subrange(0, k + 1)),
        !strings ==> array_parts(items) == array_parts(items.subrange(0, k + 1)),
    decreases items.len(),
{
    if k + 1 == items.len() {
        assert(items.subrange(0, k + 1) =~= items);
    } else {
        assert(items.drop_last().subrange(0, k + 1) =~= items.subrange(0, k + 1));
        lemma_parts_err(items.drop_last(), k, strings);
    }
}

/// What `std.join` gives for a separator and the items of the array.
pub open spec fn join_model(sep: ValueModel, items: Seq<ValueModel>) -> Result<ValueModel, Seq<char>> {
    match sep {
        ValueModel::String(s) => match string_parts(items) {
            Ok(ps) => Ok(ValueModel::String(join_with(ps, s))),
            Err(m) => Err(m),
        },
        ValueModel::Array(xs) => match array_parts(items) {
            Ok(ps) => Ok(ValueModel::Array(join_with(ps, xs))),
            Err(m) => Err(m),
        },
        _ => Err(seq![]),
    }
}

fn join_strings(sep: &String, items: &Vec<Value>) -> (res: Result<String, EvalErrorKind>)
    ensures
        match string_parts(view_items(items@)) {
            Ok(ps) => res matches Ok(r) && r@ == join_with(ps, sep@),
            Err(m) => res matches Err(e) && is_other_error(e, m),
        },
{
    let ghost vi = view_items(items@);
    let sc = chars_of(sep.as_str());
    let mut out: Vec<char> = Vec::new();
    let mut first = true;
    let mut i: usize = 0;
    while i < items.len()
        invariant
            0 <= i <= items@.len(),
            vi == view_items(items@),
            sc@ == sep@,
            string_parts(vi.subrange(0, i as int)) matches Ok(ps) && out@ == join_with(ps, sep@) && first == (
            ps.len() == 0),
        decreases items@.len() - i,
    {
        let ghost ps = string_parts(vi.subrange(0, i as int))->Ok_0;
        proof {
            assert(vi.subrange(0, i + 1).drop_last() =~= vi.subrange(0, i as int));
            assert(vi.subrange(0, i + 1).last() == items@[i as int]@);
        }
        match &items[i] {
            Value::Null => {},
            Value::String(t) => {
                proof {
                    lemma_join_push(ps, t@, sep@);
                }
                if !first {
                    push_chars(&mut out, sc.as_slice());
                }
                let tc = chars_of(t.as_str());
                push_chars(&mut out, tc.as_slice());
                first = false;
            },
            other => {
                let e = item_type_error("array item must null or string, got ", other);
                proof {
                    lemma_parts_err(vi, i as int, true);
                }
                return Err(e);
            },
        }
        i += 1;
    }
    proof {
        assert(vi.subrange(0, i as int) =~= vi);
    }
    Ok(string_from_chars(out.as_slice()))
}

fn join_arrays(sep: &Vec<Value>, items: &Vec<Value>) -> (res: Result<Value, EvalErrorKind>)
    ensures
        match array_parts(view_items(items@)) {
            Ok(ps) => res matches Ok(r) && r@ == ValueModel::Array(join_with(ps, view_items(sep@))),
            Err(m) => res matches Err(e) && is_other_error(e, m),
        },
{
    let ghost vi = view_items(items@);
    let ghost vs = view_items(sep@);
    let mut out: Vec<Value> = Vec::new();
    let mut first = true;
    let mut i: usize = 0;
    while i < items.len()
        invariant
            0 <= i <= items@.len(),
            vi == view_items(items@),
            vs == view_items(sep@),
            array_parts(vi.subrange(0, i as int)) matches Ok(ps) && view_items(out@) == join_with(ps, vs) && first
                == (ps.len() == 0),
        decreases items@.len() - i,
    {
        let ghost ps = array_parts(vi.subrange(0, i as int))->Ok_0;
        proof {
            assert(vi.subrange(0, i + 1).drop_last() =~= vi.subrange(0, i as int));
            assert(vi.subrange(0, i + 1).last() == items@[i as int]@);
        }
        match &items[i] {
            Value::Null => {},
            Value::Array(xs) => {
                proof {
                    lemma_view_array(*xs);
                    lemma_join_push(ps, view_items(xs@), vs);
                }
                if !first {
                    push_copies(&mut out, sep);
                }
                push_copies(&mut out, xs);
                first = false;
            },
            other => {
                let e = item_type_error("array item must null or array, got ", other);
                proof {
                    lemma_parts_err(vi, i as int, false);
                }
                return Err(e);
            },
        }
        i += 1;
    }
    proof {
        assert(vi.subrange(0, i as int) =~= vi);
        lemma_view_array(out);
    }
    Ok(Value::Array(out))
}

/// `std.join(sep, arr)`: the strings (or arrays) of `arr` with `sep` between
/// each two, nulls left out.
pub fn std_join(sep: &Value, arr: &Value) -> (res: Result<Value, EvalErrorKind>)
    ensures
        match arr@ {
            ValueModel::Array(items) => match sep@ {
                ValueModel::String(_) | ValueModel::Array(_) => match join_model(sep@, items) {
                    Ok(r) => res matches Ok(v) && v@ == r,
                    Err(m) => res matches Err(e) && is_other_error(e, m),
                },
                _ => res matches Err(e) && is_arg_type_error(
                    e,
                    "join"@,
                    0,
                    seq![EvalErrorValueType::String, EvalErrorValueType::Array],
                    type_of(sep@),
                ),
            },
            _ => res matches Err(e) && is_arg_type_error(
                e,
                "join"@,
                1,
                seq![EvalErrorValueType::Array],
                type_of(arr@),
            ),
        },
{
    let items = match arr {
        Value::Array(items) => items,
        _ => {
            return Err(arg_error1("join", 1, EvalErrorValueType::Array, arr));
        },
    };
    proof {
        lemma_view_array(*items);
    }
    match sep {
        Value::String(s) => match join_strings(s, items) {
            Ok(t) => Ok(Value::String(t)),
            Err(e) => Err(e),
        },
        Value::Array(xs) => {
            proof {
                lemma_view_array(*xs);
            }
            join_arrays(xs, items)
        },
        _ => Err(arg_error2("join", 0, EvalErrorValueType::String, EvalErrorValueType::Array, sep)),
    }
}


/// The strings of a value and of the arrays nested in it, in order, or the
/// message for the first item that is neither.
pub open spec fn deep_join_item(v: ValueModel) -> Result<Seq<char>, Seq<char>>
    decreases v, 1nat,
{
    match v {
        ValueModel::String(s) => Ok(s),
        ValueModel::Array(items) => deep_join_items(items),
        other => Err(item_type_message("array item must be a string or array, got "@, other)),
    }
}

/// The strings of the items and of the arrays nested in them, in order.
pub open spec fn deep_join_items(items: Seq<ValueModel>) -> Result<Seq<char>, Seq<char>>
    decreases items, 0nat,
{
    if items.len() == 0 {
        Ok(seq![])
    } else {
        match deep_join_items(items.subrange(0, items.len() - 1)) {
            Err(m) => Err(m),
            Ok(acc) => match deep_join_item(items[items.len() - 1]) {
                Err(m) => Err(m),
                Ok(t) => Ok(acc + t),
            },
        }
    }
}

fn deep_join_value(v: &Value, out: &mut Vec<char>) -> (res: Result<(), EvalErrorKind>)
    ensures
        match deep_join_item(v@) {
            Ok(t) => res is Ok && final(out)@ == old(out)@ + t,
            Err(m) => res matches Err(e) && is_other_error(e, m),
        },
    decreases v, 1nat,
{
    match v {
        Value::String(s) => {
            push_str(out, s.as_str());
            Ok(())
        },
        Value::Array(items) => {
            proof {
                lemma_view_array(*items);
            }
            deep_join_array(v, items, out)
        },
        other => Err(item_type_error("array item must be a string or array, got ", other)),
    }
}

fn deep_join_array(v: &Value, items: &Vec<Value>, out: &mut Vec<char>) -> (res: Result<(), EvalErrorKind>)
    requires
        *v == Value::Array(*items),
    ensures
        match deep_join_items(view_items(items@)) {
            Ok(t) => res is Ok && final(out)@ == old(out)@ + t,
            Err(m) => res matches Err(e) && is_other_error(e, m),
        },
    decreases v, 0nat,
{
    let ghost vi = view_items(items@);
    let ghost start = out@;
    let mut i: usize = 0;
    proof {
        assert(vi.subrange(0, 0) =~= Seq::<ValueModel>::empty());
        assert(start =~= start + Seq::<char>::empty());
    }
    while i < items.len()
        invariant
            0 <= i <= items@.len(),
            *v == Value::Array(*items),
            vi == view_items(items@),
            start == old(out)@,
            deep_join_items(vi.subrange(0, i as int)) matches Ok(acc) && out@ == start + acc,
        decreases items@.len() - i,
    {
        proof {
            assert(decreases_to!(*v => (*v)->Array_0));
            assert(decreases_to!(*items => items@));
            assert(decreases_to!(items@ => items@[i as int]));
        }
        let ghost acc = deep_join_items(vi.subrange(0, i as int))->Ok_0;
        let ghost sub = vi.subrange(0, i + 1);
        proof {
            assert(sub.subrange(0, sub.len() - 1) =~= vi.subrange(0, i as int));
            assert(sub[sub.len() - 1] == items@[i as int]@);
        }
        let r = deep_join_value(&items[i], out);
        match r {
            Ok(()) => {
                proof {
                    let t = deep_join_item(items@[i as int]@)->Ok_0;
                    assert(start + acc + t =~= start + (acc + t));
                }
            },
            Err(e) => {
                proof {
                    lemma_deep_join_err(vi, i as int);
                }
                return Err(e);
            },
        }
        i += 1;
    }
    proof {
        assert(vi.subrange(0, i as int) =~= vi);
    }
    Ok(())
}

proof fn lemma_deep_join_err(items: Seq<ValueModel>, k: int)
    requires
        0 <= k < items.len(),
        deep_join_items(items.subrange(0, k + 1)) is Err,
    ensures
        deep_join_items(items) == deep_join_items(items.subrange(0, k + 1)),
    decreases items.len(),
{
    if k + 1 == items.len() {
        assert(items.subrange(0, k + 1) =~= items);
    } else {
        let init = items.subrange(0, items.len() - 1);
        assert(init.subrange(0, k + 1) =~= items.subrange(0, k + 1));
        lemma_deep_join_err(init, k);
    }
}

/// `std.deepJoin`: a string, or the strings of an array and of the arrays
/// nested in it, joined.
pub fn std_deep_join(v: &Value) -> (res: Result<String, EvalErrorKind>)
    ensures
        match v@ {
            ValueModel::String(s) => res matches Ok(r) && r@ == s,
            ValueModel::Array(items) => match deep_join_items(items) {
                Ok(t) => res matches Ok(r) && r@ == t,
                Err(m) => res matches Err(e) && is_other_error(e, m),
            },
            _ => res matches Err(e) && is_arg_type_error(
                e,
                "deepJoin"@,
                0,
                seq![EvalErrorValueType::String, EvalErrorValueType::Array],
                type_of(v@),
            ),
        },
{
    match v {
        Value::String(s) => Ok(s.clone()),
        Value::Array(items) => {
            proof {
                lemma_view_array(*items);
            }
            let mut out: Vec<char> = Vec::new();
            match deep_join_array(v, items, &mut out) {
                Ok(()) => {
                    proof {
                        assert(out@ =~= Seq::<char>::empty() + deep_join_items(view_items(items@))->Ok_0);
                    }
                    Ok(string_from_chars(out.as_slice()))
                },
                Err(e) => Err(e),
            }
        },
        _ => Err(arg_error2("deepJoin", 0, EvalErrorValueType::String, EvalErrorValueType::Array, v)),
    }
}

/// The elements of `s` at `i`, `i + step`, `i + 2 * step`, ... below `hi`.
pub open spec fn slice_from<A>(s: Seq<A>, i: int, hi: int, step: int) -> Seq<A>
    decreases if hi > i {
        hi - i
    } else {
        0
    },
{
    if step <= 0 || i >= hi || i < 0 {
        seq![]
    } else {
        seq![s[i]] + slice_from(s, i + step, hi, step)
    }
}

/// What `std.slice` takes from `s`: from `start`, below `end` (or to the
/// end), every `step`-th element.
pub open spec fn slice_model<A>(s: Seq<A>, start: nat, end: Option<nat>, step: nat) -> Seq<A> {
    let hi = match end {
        Some(e) if e < s.len() => e as int,
        _ => s.len() as int,
    };
    slice_from(s, start as int, hi, step as int)
}

fn slice_hi(len: usize, end: Option<usize>) -> (hi: usize)
    ensures
        hi as int == match end {
            Some(e) if e < len => e as int,
            _ => len as int,
        },
{
    match end {
        Some(e) if e < len => e,
        _ => len,
    }
}

fn slice_chars(cs: &Vec<char>, start: usize, end: Option<usize>, step: usize) -> (res: Vec<char>)
    requires
        step >= 1,
    ensures
        res@ == slice_model(cs@, start as nat, match end {
            Some(e) => Some(e as nat),
            None => None,
        }, step as nat),
{
    let hi = slice_hi(cs.len(), end);
    let mut out: Vec<char> = Vec::new();
    let mut i = start;
    proof {
        assert(out@ + slice_from(cs@, i as int, hi as int, step as int) =~= slice_from(cs@, i as int, hi as int, step as int));
    }
    while i < hi
        invariant
            hi <= cs@.len(),
            step >= 1,
            out@ + slice_from(cs@, i as int, hi as int, step as int) == slice_from(cs@, start as int, hi as int, step as int),
        decreases hi - i,
    {
        let ghost before = out@;
        out.push(cs[i]);
        proof {
            assert(before + slice_from(cs@, i as int, hi as int, step as int) =~= out@ + slice_from(cs@, i + step, hi as int, step as int));
        }
        if hi - i <= step {
            proof {
                assert(slice_from(cs@, i + step, hi as int, step as int) =~= Seq::<char>::empty());
                assert(out@ + Seq::<char>::empty() =~= out@);
            }
            i = hi;
            proof {
                assert(slice_from(cs@, i as int, hi as int, step as int) =~= Seq::<char>::empty());
            }
        } else {
            i = i + step;
        }
    }
    proof {
        assert(out@ + Seq::<char>::empty() =~= out@);
    }
    out
}

fn slice_values(items: &Vec<Value>, start: usize, end: Option<usize>, step: usize) -> (res: Vec<Value>)
    requires
        step >= 1,
    ensures
        view_items(res@) == slice_model(view_items(items@), start as nat, match end {
            Some(e) => Some(e as nat),
            None => None,
        }, step as nat),
{
    let ghost vi = view_items(items@);
    let hi = slice_hi(items.len(), end);
    let mut out: Vec<Value> = Vec::new();
    let mut i = start;
    proof {
        assert(view_items(out@) + slice_from(vi, i as int, hi as int, step as int) =~= slice_from(vi, i as int, hi as int, step as int));
    }
    while i < hi
        invariant
            hi <= items@.len(),
            vi == view_items(items@),
            step >= 1,
            view_items(out@) + slice_from(vi, i as int, hi as int, step as int) == slice_from(vi, start as int, hi as int, step as int),
        decreases hi - i,
    {
        let ghost before = view_items(out@);
        let c = copy_value(&items[i]);
        out.push(c);
        proof {
            assert(view_items(out@) =~= before.push(c@));
            assert(before + slice_from(vi, i as int, hi as int, step as int) =~= view_items(out@) + slice_from(vi, i + step, hi as int, step as int));
        }
        if hi - i <= step {
            proof {
                assert(slice_from(vi, i + step, hi as int, step as int) =~= Seq::<ValueModel>::empty());
                assert(view_items(out@) + Seq::<ValueModel>::empty() =~= view_items(out@));
            }
            i = hi;
            proof {
                assert(slice_from(vi, i as int, hi as int, step as int) =~= Seq::<ValueModel>::empty());
            }
        } else {
            i = i + step;
        }
    }
    proof {
        assert(view_items(out@) + Seq::<ValueModel>::empty() =~= view_items(out@));
    }
    out
}

/// `std.slice(v, start, end, step)` once its numbers are whole: `end` is
/// `None` where it was `null`; a step of 0 is refused.
pub fn std_slice(v: &Value, start: usize, end: Option<usize>, step: usize) -> (res: Result<Value, EvalErrorKind>)
    ensures
        step == 0 ==> (res matches Err(e) && is_other_error(e, "slice step 0 is not a positive integer"@)),
        step > 0 ==> match v@ {
            ValueModel::String(s) => res matches Ok(r) && r@ == ValueModel::String(
                slice_model(s, start as nat, match end {
                    Some(e) => Some(e as nat),
                    None => None,
                }, step as nat),
            ),
            ValueModel::Array(items) => res matches Ok(r) && r@ == ValueModel::Array(
                slice_model(items, start as nat, match end {
                    Some(e) => Some(e as nat),
                    None => None,
                }, step as nat),
            ),
            _ => res matches Err(e) && is_arg_type_error(
                e,
                "slice"@,
                0,
                seq![EvalErrorValueType::String, EvalErrorValueType::Array],
                type_of(v@),
            ),
        },
{
    if step == 0 {
        return Err(other_error(String::from_str("slice step 0 is not a positive integer")));
    }
    match v {
        Value::String(s) => {
            let cs = chars_of(s.as_str());
            let r = slice_chars(&cs, start, end, step);
            Ok(Value::String(string_from_chars(r.as_slice())))
        },
        Value::Array(items) => {
            proof {
                lemma_view_array(*items);
            }
            let r = slice_values(items, start, end, step);
            proof {
                lemma_view_array(r);
            }
            Ok(Value::Array(r))
        },
        _ => Err(arg_error2("slice", 0, EvalErrorValueType::String, EvalErrorValueType::Array, v)),
    }
}

/// The fields without those named `key`.
pub open spec fn remove_field(fields: Seq<(Seq<char>, ValueModel)>, key: Seq<char>) -> Seq<(Seq<char>, ValueModel)>
    decreases fields.len(),
{
    if fields.len() == 0 {
        seq![]
    } else if fields.last().0 == key {
        remove_field(fields.drop_last(), key)
    } else {
        remove_field(fields.drop_last(), key).push(fields.last())
    }
}

/// `std.objectRemoveKey(obj, key)`: the object without the field `key`.
pub fn std_object_remove_key(obj: &Value, key: &Value) -> (res: Result<Value, EvalErrorKind>)
    ensures
        match obj@ {
            ValueModel::Object(fields) => match key@ {
                ValueModel::String(k) => res matches Ok(r) && r@ == ValueModel::Object(remove_field(fields, k)),
                _ => res matches Err(e) && is_arg_type_error(
                    e,
                    "objectRemoveKey"@,
                    1,
                    seq![EvalErrorValueType::String],
                    type_of(key@),
                ),
            },
            _ => res matches Err(e) && is_arg_type_error(
                e,
                "objectRemoveKey"@,
                0,
                seq![EvalErrorValueType::Object],
                type_of(obj@),
            ),
        },
{
    let fields = match obj {
        Value::Object(fields) => fields,
        _ => {
            return Err(arg_error1("objectRemoveKey", 0, EvalErrorValueType::Object, obj));
        },
    };
    let k = match key {
        Value::String(k) => k,
        _ => {
            return Err(arg_error1("objectRemoveKey", 1, EvalErrorValueType::String, key));
        },
    };
    proof {
        lemma_view_object(*fields);
    }
    let ghost vf = view_fields(fields@);
    let mut out: Vec<(String, Value)> = Vec::new();
    let mut i: usize = 0;
    proof {
        assert(vf.subrange(0, 0) =~= Seq::<(Seq<char>, ValueModel)>::empty());
        assert(view_fields(out@) =~= Seq::<(Seq<char>, ValueModel)>::empty());
    }
    while i < fields.len()
        invariant
            0 <= i <= fields@.len(),
            vf == view_fields(fields@),
            view_fields(out@) == remove_field(vf.subrange(0, i as int), k@),
        decreases fields@.len() - i,
    {
        proof {
            assert(vf.subrange(0, i + 1).drop_last() =~= vf.subrange(0, i as int));
            assert(vf.subrange(0, i + 1).last() == (fields@[i as int].0@, fields@[i as int].1@));
        }
        if !str_eq(fields[i].0.as_str(), k.as_str()) {
            let name = fields[i].0.clone();
            let c = copy_value(&fields[i].1);
            let ghost before = view_fields(out@);
            out.push((name, c));
            proof {
                assert(view_fields(out@) =~= before.push((name@, c@)));
            }
        }
        i += 1;
    }
    proof {
        assert(vf.subrange(0, i as int) =~= vf);
        lemma_view_object(out);
    }
    Ok(Value::Object(out))
}


/// Whether `std.prune` drops a value: `null`, an empty array, an empty
/// object.
pub open spec fn is_empty_value(v: ValueModel) -> bool {
    match v {
        ValueModel::Null => true,
        ValueModel::Array(items) => items.len() == 0,
        ValueModel::Object(fields) => fields.len() == 0,
        _ => false,
    }
}

/// A value with, in it and in everything nested in it, the items and fields
/// that are empty once pruned left out (`std.prune`).
pub open spec fn prune_model(v: ValueModel) -> ValueModel
    decreases v, 1nat,
{
    match v {
        ValueModel::Array(items) => ValueModel::Array(prune_items(items)),
        ValueModel::Object(fields) => ValueModel::Object(prune_fields(fields)),
        _ => v,
    }
}

/// The pruned items that are not empty.
pub open spec fn prune_items(items: Seq<ValueModel>) -> Seq<ValueModel>
    decreases items, 0nat,
{
    if items.len() == 0 {
        seq![]
    } else {
        let p = prune_model(items[items.len() - 1]);
        let init = prune_items(items.subrange(0, items.len() - 1));
        if is_empty_value(p) {
            init
        } else {
            init.push(p)
        }
    }
}

/// The fields with pruned values that are not empty.
pub open spec fn prune_fields(fields: Seq<(Seq<char>, ValueModel)>) -> Seq<(Seq<char>, ValueModel)>
    decreases fields, 0nat,
{
    if fields.len() == 0 {
        seq![]
    } else {
        let p = prune_model(fields[fields.len() - 1].1);
        let init = prune_fields(fields.subrange(0, fields.len() - 1));
        if is_empty_value(p) {
            init
        } else {
            init.push((fields[fields.len() - 1].0, p))
        }
    }
}

fn is_empty_exec(v: &Value) -> (res: bool)
    ensures
        res == is_empty_value(v@),
{
    match v {
        Value::Null => true,
        Value::Array(items) => {
            proof {
                lemma_view_array(*items);
            }
            items.len() == 0
        },
        Value::Object(fields) => {
            proof {
                lemma_view_object(*fields);
            }
            fields.len() == 0
        },
        _ => false,
    }
}

/// `std.prune`: the value without the nulls, empty arrays and empty objects
/// in it, at every depth.
pub fn std_prune(v: &Value) -> (res: Value)
    ensures
        res@ == prune_model(v@),
    decreases v, 1nat,
{
    match v {
        Value::Array(items) => prune_array(v, items),
        Value::Object(fields) => prune_object(v, fields),
        _ => copy_value(v),
    }
}

fn prune_array(v: &Value, items: &Vec<Value>) -> (res: Value)
    requires
        *v == Value::Array(*items),
    ensures
        res@ == prune_model(v@),
    decreases v, 0nat,
{
    proof {
        lemma_view_array(*items);
    }
    let ghost vi = view_items(items@);
    let mut out: Vec<Value> = Vec::new();
    let mut i: usize = 0;
    proof {
        assert(vi.subrange(0, 0) =~= Seq::<ValueModel>::empty());
        assert(view_items(out@) =~= Seq::<ValueModel>::empty());
    }
    while i < items.len()
        invariant
            0 <= i <= items@.len(),
            *v == Value::Array(*items),
            vi == view_items(items@),
            view_items(out@) == prune_items(vi.subrange(0, i as int)),
        decreases items@.len() - i,
    {
        proof {
            assert(decreases_to!(*v => (*v)->Array_0));
            assert(decreases_to!(*items => items@));
            assert(decreases_to!(items@ => items@[i as int]));
            let sub = vi.subrange(0, i + 1);
            assert(sub.subrange(0, sub.len() - 1) =~= vi.subrange(0, i as int));
            assert(sub[sub.len() - 1] == items@[i as int]@);
        }
        let p = std_prune(&items[i]);
        if !is_empty_exec(&p) {
            let ghost before = view_items(out@);
            out.push(p);
            proof {
                assert(view_items(out@) =~= before.push(p@));
            }
        }
        i += 1;
    }
    proof {
        assert(vi.subrange(0, i as int) =~= vi);
        lemma_view_array(out);
    }
    Value::Array(out)
}

fn prune_object(v: &Value, fields: &Vec<(String, Value)>) -> (res: Value)
    requires
        *v == Value::Object(*fields),
    ensures
        res@ == prune_model(v@),
    decreases v, 0nat,
{
    proof {
        lemma_view_object(*fields);
    }
    let ghost vf = view_fields(fields@);
    let mut out: Vec<(String, Value)> = Vec::new();
    let mut i: usize = 0;
    proof {
        assert(vf.subrange(0, 0) =~= Seq::<(Seq<char>, ValueModel)>::empty());
        assert(view_fields(out@) =~= Seq::<(Seq<char>, ValueModel)>::empty());
    }
    while i < fields.len()
        invariant
            0 <= i <= fields@.len(),
            *v == Value::Object(*fields),
            vf == view_fields(fields@),
            view_fields(out@) == prune_fields(vf.subrange(0, i as int)),
        decreases fields@.len() - i,
    {
        proof {
            assert(decreases_to!(*v => (*v)->Object_0));
            assert(decreases_to!(*fields => fields@));
            assert(decreases_to!(fields@ => fields@[i as int]));
            assert(decreases_to!(fields@[i as int] => fields@[i as int].1));
            let sub = vf.subrange(0, i + 1);
            assert(sub.subrange(0, sub.len() - 1) =~= vf.subrange(0, i as int));
            assert(sub[sub.len() - 1] == (fields@[i as int].0@, fields@[i as int].1@));
        }
        let p = std_prune(&fields[i].1);
        if !is_empty_exec(&p) {
            let name = fields[i].0.clone();
            let ghost before = view_fields(out@);
            out.push((name, p));
            proof {
                assert(view_fields(out@) =~= before.push((name@, p@)));
            }
        }
        i += 1;
    }
    proof {
        assert(vf.subrange(0, i as int) =~= vf);
        lemma_view_object(out);
    }
    Value::Object(out)
}


/// Reversing an array twice gives it back: `std.reverse(std.reverse(a))`
/// is `a` for every array `a`.
pub proof fn law_reverse_twice(items: Seq<ValueModel>)
    ensures
        items.reverse().reverse() == items,
{
    assert(items.reverse().reverse() =~= items);
}

/// Pruning a pruned value changes nothing: `std.prune(std.prune(v))` is
/// `std.prune(v)`.
pub proof fn law_prune_idempotent(v: ValueModel)
    ensures
        prune_model(prune_model(v)) == prune_model(v),
    decreases v, 1nat,
{
    match v {
        ValueModel::Array(items) => {
            lemma_prune_items_idempotent(items);
        },
        ValueModel::Object(fields) => {
            lemma_prune_fields_idempotent(fields);
        },
        _ => {},
    }
}

proof fn lemma_prune_items_idempotent(items: Seq<ValueModel>)
    ensures
        prune_items(prune_items(items)) == prune_items(items),
    decreases items, 0nat,
{
    if items.len() > 0 {
        let init = items.subrange(0, items.len() - 1);
        let x = items[items.len() - 1];
        let p = prune_model(x);
        lemma_prune_items_idempotent(init);
        law_prune_idempotent(x);
        if !is_empty_value(p) {
            let q = prune_items(init).push(p);
            assert(q.subrange(0, q.len() - 1) =~= prune_items(init));
            assert(q[q.len() - 1] == p);
        }
    }
}

proof fn lemma_prune_fields_idempotent(fields: Seq<(Seq<char>, ValueModel)>)
    ensures
        prune_fields(prune_fields(fields)) == prune_fields(fields),
    decreases fields, 0nat,
{
    if fields.len() > 0 {
        let init = fields.subrange(0, fields.len() - 1);
        let f = fields[fields.len() - 1];
        let p = prune_model(f.1);
        lemma_prune_fields_idempotent(init);
        assert(decreases_to!(fields => f));
        law_prune_idempotent(f.1);
        if !is_empty_value(p) {
            let q = prune_fields(init).push((f.0, p));
            assert(q.subrange(0, q.len() - 1) =~= prune_fields(init));
            assert(q[q.len() - 1] == (f.0, p));
        }
    }
}


/// The decimal text of an integer, with `-` before a negative one (as a
/// whole number is written).
pub open spec fn int_text(i: int) -> Seq<char> {
    if i < 0 {
        seq!['-'] + int_digits((-i) as nat, 10, seq![])
    } else {
        int_digits(i as nat, 10, seq![])
    }
}

fn int_text_exec(i: i64) -> (res: String)
    ensures
        res@ == int_text(i as int),
{
    if i < 0 {
        let m: u128 = (-(i as i128)) as u128;
        let d = decimal_text(m);
        proof {
            reveal_strlit("-");
            assert("-"@ =~= seq!['-']);
        }
        concat_str("-", d.as_str())
    } else {
        decimal_text(i as u128)
    }
}

/// `std.range(from, to)` once its bounds are whole numbers that fit in 32
/// bits: the numbers from `from` to `to`, both included.
pub fn std_range(from: i32, to: i32) -> (res: Value)
    ensures
        res@ == ValueModel::Array(
            Seq::new(
                if to >= from {
                    (to - from + 1) as nat
                } else {
                    0
                },
                |k: int| ValueModel::Number(int_text(from + k)),
            ),
        ),
{
    let ghost want = Seq::new(
        if to >= from {
            (to - from + 1) as nat
        } else {
            0
        },
        |k: int| ValueModel::Number(int_text(from + k)),
    );
    let mut out: Vec<Value> = Vec::new();
    let mut i: i64 = from as i64;
    while i <= to as i64
        invariant
            from <= i <= to as i64 + 1 || (i == from && to < from),
            want == Seq::new(
                if to >= from {
                    (to - from + 1) as nat
                } else {
                    0
                },
                |k: int| ValueModel::Number(int_text(from + k)),
            ),
            view_items(out@) =~= want.subrange(0, i - from),
        decreases to as i64 + 1 - i,
    {
        let t = int_text_exec(i);
        let ghost before = view_items(out@);
        out.push(Value::Number(t));
        proof {
            assert(view_items(out@) =~= before.push(ValueModel::Number(int_text(i as int))));
            assert(want[i - from] == ValueModel::Number(int_text(i as int)));
            assert(want.subrange(0, i + 1 - from) =~= want.subrange(0, i - from).push(want[i - from]));
        }
        i += 1;
    }
    proof {
        assert(want.subrange(0, i - from) =~= want);
        lemma_view_array(out);
    }
    Value::Array(out)
}

/// `std.encodeUTF8`: the UTF-8 bytes of a string, as numbers.
pub fn std_encode_utf8(s: &str) -> (res: Value)
    ensures
        res@ == ValueModel::Array(
            encode_utf8(s@).map_values(|b: u8| ValueModel::Number(int_digits(b as nat, 10, seq![]))),
        ),
{
    let bytes = s.as_bytes();
    let ghost want = encode_utf8(s@).map_values(|b: u8| ValueModel::Number(int_digits(b as nat, 10, seq![])));
    let mut out: Vec<Value> = Vec::new();
    let mut i: usize = 0;
    while i < bytes.len()
        invariant
            0 <= i <= bytes@.len(),
            bytes@ == encode_utf8(s@),
            want == encode_utf8(s@).map_values(|b: u8| ValueModel::Number(int_digits(b as nat, 10, seq![]))),
            view_items(out@) =~= want.subrange(0, i as int),
        decreases bytes@.len() - i,
    {
        let t = decimal_text(bytes[i] as u128);
        let ghost before = view_items(out@);
        out.push(Value::Number(t));
        proof {
            assert(view_items(out@) =~= before.push(want[i as int]));
        }
        i += 1;
    }
    proof {
        assert(want.subrange(0, i as int) =~= want);
        lemma_view_array(out);
    }
    Value::Array(out)
}

/// The text that `String::from_utf8_lossy` makes of some bytes: their
/// characters, each invalid sequence replaced by U+FFFD.
pub uninterp spec fn utf8_lossy_text(bytes: Seq<u8>) -> Seq<char>;

/// The text of some bytes (std's `String::from_utf8_lossy`): named; for
/// valid UTF-8 it is the decoded text, as std's documentation says; what it
/// is for other bytes is left to that name.
#[verifier::external_body]
fn from_utf8_lossy(bytes: &[u8]) -> (res: String)
    ensures
        res@ == utf8_lossy_text(bytes@),
        valid_utf8(bytes@) ==> res@ == decode_utf8(bytes@),
{
    String::from_utf8_lossy(bytes).into_owned()
}

/// `std.decodeUTF8` once its items are bytes: the text of the bytes, each
/// invalid sequence replaced by U+FFFD.
pub fn std_decode_utf8(bytes: &[u8]) -> (res: String)
    ensures
        res@ == utf8_lossy_text(bytes@),
        valid_utf8(bytes@) ==> res@ == decode_utf8(bytes@),
{
    from_utf8_lossy(bytes)
}


/// `std.type`: the name of a value's type.
pub fn std_type(v: &Value) -> (res: &'static str)
    ensures
        res@ == value_type_text(type_of(v@)),
{
    EvalErrorValueType::from_value(v).to_str()
}

/// The message for an item of `std.all` or `std.any` that is no boolean.
pub open spec fn not_boolean_message(i: nat, v: ValueModel) -> Seq<char> {
    "array item "@ + int_digits(i, 10, seq![]) + " must be a boolean, got "@ + value_type_text(type_of(v))
}

/// `std.all` of the items from `i` on: the items are read in order up to
/// the first `false`; one that is no boolean is an error.
pub open spec fn all_from(items: Seq<ValueModel>, i: nat) -> Result<bool, Seq<char>>
    decreases items.len() - i,
{
    if i >= items.len() {
        Ok(true)
    } else {
        match items[i as int] {
            ValueModel::Bool(true) => all_from(items, i + 1),
            ValueModel::Bool(false) => Ok(false),
            v => Err(not_boolean_message(i, v)),
        }
    }
}

/// `std.any` of the items from `i` on: the items are read in order up to
/// the first `true`; one that is no boolean is an error.
pub open spec fn any_from(items: Seq<ValueModel>, i: nat) -> Result<bool, Seq<char>>
    decreases items.len() - i,
{
    if i >= items.len() {
        Ok(false)
    } else {
        match items[i as int] {
            ValueModel::Bool(true) => Ok(true),
            ValueModel::Bool(false) => any_from(items, i + 1),
            v => Err(not_boolean_message(i, v)),
        }
    }
}

fn not_boolean_error(i: usize, v: &Value) -> (res: EvalErrorKind)
    ensures
        is_other_error(res, not_boolean_message(i as nat, v@)),
{
    let d = decimal_text(i as u128);
    let head = concat_str("array item ", d.as_str());
    let head = concat_str(head.as_str(), " must be a boolean, got ");
    other_error(concat_str(head.as_str(), EvalErrorValueType::from_value(v).to_str()))
}

/// `std.all` (`want` true) or `std.any` (`want` false) over items.
fn scan_booleans(items: &Vec<Value>, want_all: bool) -> (res: Result<bool, EvalErrorKind>)
    ensures
        match (if want_all {
            all_from(view_items(items@), 0)
        } else {
            any_from(view_items(items@), 0)
        }) {
            Ok(b) => res == Ok::<bool, EvalErrorKind>(b),
            Err(m) => res matches Err(e) && is_other_error(e, m),
        },
{
    let ghost vi = view_items(items@);
    let mut i: usize = 0;
    while i < items.len()
        invariant
            i <= items@.len(),
            vi == view_items(items@),
            (if want_all {
                all_from(vi, 0)
            } else {
                any_from(vi, 0)
            }) == (if want_all {
                all_from(vi, i as nat)
            } else {
                any_from(vi, i as nat)
            }),
        decreases items@.len() - i,
    {
        proof {
            assert(vi[i as int] == items@[i as int]@);
        }
        match &items[i] {
            Value::Bool(b) => {
                if *b != want_all {
                    return Ok(*b);
                }
            },
            other => {
                return Err(not_boolean_error(i, other));
            },
        }
        i += 1;
    }
    Ok(want_all)
}

/// `std.all`: whether every item of an array is `true`.
pub fn std_all(v: &Value) -> (res: Result<bool, EvalErrorKind>)
    ensures
        match v@ {
            ValueModel::Array(items) => match all_from(items, 0) {
                Ok(b) => res == Ok::<bool, EvalErrorKind>(b),
                Err(m) => res matches Err(e) && is_other_error(e, m),
            },
            _ => res matches Err(e) && is_arg_type_error(e, "all"@, 0, seq![EvalErrorValueType::Array], type_of(v@)),
        },
{
    match v {
        Value::Array(items) => {
            proof {
                lemma_view_array(*items);
            }
            scan_booleans(items, true)
        },
        _ => Err(arg_error1("all", 0, EvalErrorValueType::Array, v)),
    }
}

/// `std.any`: whether some item of an array is `true`.
pub fn std_any(v: &Value) -> (res: Result<bool, EvalErrorKind>)
    ensures
        match v@ {
            ValueModel::Array(items) => match any_from(items, 0) {
                Ok(b) => res == Ok::<bool, EvalErrorKind>(b),
                Err(m) => res matches Err(e) && is_other_error(e, m),
            },
            _ => res matches Err(e) && is_arg_type_error(e, "any"@, 0, seq![EvalErrorValueType::Array], type_of(v@)),
        },
{
    match v {
        Value::Array(items) => {
            proof {
                lemma_view_array(*items);
            }
            scan_booleans(items, false)
        },
        _ => Err(arg_error1("any", 0, EvalErrorValueType::Array, v)),
    }
}

/// The items of an array with every array among them, at any depth,
/// replaced by its items, in order.
pub open spec fn flatten_deep(items: Seq<ValueModel>) -> Seq<ValueModel>
    decreases items,
{
    if items.len() == 0 {
        seq![]
    } else {
        let last = items[items.len() - 1];
        flatten_deep(items.subrange(0, items.len() - 1)) + match last {
            ValueModel::Array(sub) => flatten_deep(sub),
            other => seq![other],
        }
    }
}

/// `std.flattenDeepArray`: an array flattened at every depth; any other
/// value is the array of itself.
pub open spec fn flatten_deep_model(v: ValueModel) -> ValueModel {
    match v {
        ValueModel::Array(items) => ValueModel::Array(flatten_deep(items)),
        other => ValueModel::Array(seq![other]),
    }
}

/// Appends the flattened items of an array to `out`.
fn flatten_deep_into(v: &Value, items: &Vec<Value>, out: &mut Vec<Value>)
    requires
        *v == Value::Array(*items),
    ensures
        view_items(final(out)@) == view_items(old(out)@) + flatten_deep(view_items(items@)),
    decreases v,
{
    proof {
        lemma_view_array(*items);
    }
    let ghost vi = view_items(items@);
    let ghost start = view_items(out@);
    let mut i: usize = 0;
    proof {
        assert(vi.subrange(0, 0) =~= Seq::<ValueModel>::empty());
        assert(start + Seq::<ValueModel>::empty() =~= start);
    }
    while i < items.len()
        invariant
            0 <= i <= items@.len(),
            vi == view_items(items@),
            *v == Value::Array(*items),
            view_items(out@) == start + flatten_deep(vi.subrange(0, i as int)),
        decreases items@.len() - i,
    {
        let ghost before = view_items(out@);
        let ghost sub = vi.subrange(0, i + 1);
        proof {
            assert(sub.subrange(0, sub.len() - 1) =~= vi.subrange(0, i as int));
            assert(sub[sub.len() - 1] == items@[i as int]@);
        }
        match &items[i] {
            Value::Array(xs) => {
                proof {
                    assert(decreases_to!(*v => (*v)->Array_0));
                    assert(decreases_to!(*items => items@));
                    assert(decreases_to!(items@ => items@[i as int]));
                }
                flatten_deep_into(&items[i], xs, out);
                proof {
                    lemma_view_array(*xs);
                    assert(view_items(out@) =~= start + flatten_deep(sub));
                }
            },
            other => {
                let c = copy_value(other);
                out.push(c);
                proof {
                    assert(view_items(out@) =~= before.push(c@));
                    assert(view_items(out@) =~= start + flatten_deep(sub));
                }
            },
        }
        i += 1;
    }
    proof {
        assert(vi.subrange(0, i as int) =~= vi);
    }
}

/// `std.flattenDeepArray` (see [`flatten_deep_model`]).
pub fn std_flatten_deep_array(v: &Value) -> (res: Value)
    ensures
        res@ == flatten_deep_model(v@),
{
    let mut out: Vec<Value> = Vec::new();
    match v {
        Value::Array(items) => {
            let ghost empty = view_items(out@);
            proof {
                assert(empty =~= Seq::<ValueModel>::empty());
            }
            flatten_deep_into(v, items, &mut out);
            proof {
                lemma_view_array(*items);
                lemma_view_array(out);
                assert(view_items(out@) =~= flatten_deep(view_items(items@)));
            }
            Value::Array(out)
        },
        other => {
            out.push(copy_value(other));
            proof {
                lemma_view_array(out);
                assert(view_items(out@) =~= seq![other@]);
            }
            Value::Array(out)
        },
    }
}

/// `std.removeAt`: the array without the item at `index`, where the index
/// is a whole number below the length; else the array as it is.
/// `whole_index` is the index as a `usize` where it is a whole number that
/// is not negative (saturated at `usize::MAX`), else `None`.
pub open spec fn remove_at_model(items: Seq<ValueModel>, whole_index: Option<usize>) -> Seq<ValueModel> {
    match whole_index {
        Some(k) if k < items.len() => items.subrange(0, k as int) + items.subrange(k + 1, items.len() as int),
        _ => items,
    }
}

/// `std.removeAt` (see [`remove_at_model`]); the error names the function
/// `containsAt`, as the evaluator does.
pub fn std_remove_at(array: &Value, index: &Value, whole_index: Option<usize>) -> (res: Result<Value, EvalErrorKind>)
    ensures
        match (array@, index@) {
            (ValueModel::Array(items), ValueModel::Number(_)) => res matches Ok(r) && r@ == ValueModel::Array(
                remove_at_model(items, whole_index),
            ),
            (ValueModel::Array(_), _) => res matches Err(e) && is_arg_type_error(
                e,
                "containsAt"@,
                1,
                seq![EvalErrorValueType::Number],
                type_of(index@),
            ),
            _ => res matches Err(e) && is_arg_type_error(
                e,
                "containsAt"@,
                0,
                seq![EvalErrorValueType::Array],
                type_of(array@),
            ),
        },
{
    let items = match array {
        Value::Array(items) => items,
        _ => {
            return Err(arg_error1("containsAt", 0, EvalErrorValueType::Array, array));
        },
    };
    match index {
        Value::Number(_) => {},
        _ => {
            return Err(arg_error1("containsAt", 1, EvalErrorValueType::Number, index));
        },
    }
    proof {
        lemma_view_array(*items);
    }
    let ghost vi = view_items(items@);
    let mut out: Vec<Value> = Vec::new();
    let mut i: usize = 0;
    let skip: usize = match whole_index {
        Some(k) if k < items.len() => k,
        _ => items.len(),
    };
    proof {
        assert(view_items(out@) =~= Seq::<ValueModel>::empty());
    }
    while i < items.len()
        invariant
            0 <= i <= items@.len(),
            skip <= items@.len(),
            vi == view_items(items@),
            view_items(out@) == (if i <= skip {
                vi.subrange(0, i as int)
            } else {
                vi.subrange(0, skip as int) + vi.subrange(skip + 1, i as int)
            }),
        decreases items@.len() - i,
    {
        let ghost before = view_items(out@);
        if i != skip {
            let c = copy_value(&items[i]);
            out.push(c);
            proof {
                assert(view_items(out@) =~= before.push(c@));
            }
        }
        proof {
            assert(vi[i as int] == items@[i as int]@);
            if i < skip {
                assert(vi.subrange(0, i + 1) =~= vi.subrange(0, i as int).push(vi[i as int]));
            } else if i == skip {
                assert(vi.subrange(skip + 1, i + 1) =~= Seq::<ValueModel>::empty());
                assert(vi.subrange(0, skip as int) + vi.subrange(skip + 1, i + 1) =~= vi.subrange(0, skip as int));
            } else {
                assert(vi.subrange(skip + 1, i + 1) =~= vi.subrange(skip + 1, i as int).push(vi[i as int]));
                assert(vi.subrange(0, skip as int) + vi.subrange(skip + 1, i + 1) =~= (vi.subrange(0, skip as int)
                    + vi.subrange(skip + 1, i as int)).push(vi[i as int]));
            }
        }
        i += 1;
    }
    proof {
        lemma_view_array(out);
        assert(vi.subrange(0, i as int) =~= vi);
        if skip < vi.len() {
            assert(view_items(out@) =~= vi.subrange(0, skip as int) + vi.subrange(skip + 1, vi.len() as int));
        }
    }
    Ok(Value::Array(out))
}


/// `std.flattenDeepArray` leaves no array among the items it gives.
pub proof fn law_flatten_deep_has_no_arrays(v: ValueModel)
    ensures
        flatten_deep_model(v) matches ValueModel::Array(xs) && forall|i: int| 0 <= i < xs.len() ==> !(#[trigger] xs[i] is Array),
{
    match v {
        ValueModel::Array(items) => lemma_flatten_deep_no_arrays(items),
        _ => {},
    }
}

proof fn lemma_flatten_deep_no_arrays(items: Seq<ValueModel>)
    ensures
        forall|i: int| 0 <= i < flatten_deep(items).len() ==> !(#[trigger] flatten_deep(items)[i] is Array),
    decreases items,
{
    if items.len() > 0 {
        let init = items.subrange(0, items.len() - 1);
        let last = items[items.len() - 1];
        lemma_flatten_deep_no_arrays(init);
        let tail = match last {
            ValueModel::Array(sub) => {
                lemma_flatten_deep_no_arrays(sub);
                flatten_deep(sub)
            },
            other => seq![other],
        };
        let a = flatten_deep(init);
        assert(flatten_deep(items) == a + tail);
        assert forall|i: int| 0 <= i < flatten_deep(items).len() implies !(#[trigger] flatten_deep(items)[i] is Array) by {
            if i < a.len() {
                assert(flatten_deep(items)[i] == a[i]);
            } else {
                assert(flatten_deep(items)[i] == tail[i - a.len()]);
            }
        }
    }
}

} // verus!
