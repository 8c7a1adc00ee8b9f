//! Binding the arguments of a call to the parameters of a function:
//! positional arguments first, then named ones, then defaults.

use vstd::prelude::*;
use crate::span::SpanId;
use crate::error::EvalErrorKind;
use crate::text::str_eq;

verus! {

/// The parameters of a function, in order: each one's name and whether it
/// has a default. No two have one name.
pub struct FuncParams {
    order: Vec<(String, bool)>,
}

/// The names of parameters, and whether each has a default.
pub open spec fn params_view(order: Seq<(String, bool)>) -> Seq<(Seq<char>, bool)> {
    order.map_values(|p: (String, bool)| (p.0@, p.1))
}

/// Whether no two parameters have one name.
pub open spec fn distinct_names(params: Seq<(Seq<char>, bool)>) -> bool {
    forall|i: int, j: int| 0 <= i < j < params.len() ==> params[i].0 != params[j].0
}

impl View for FuncParams {
    type V = Seq<(Seq<char>, bool)>;

    closed spec fn view(&self) -> Seq<(Seq<char>, bool)> {
        params_view(self.order@)
    }
}

impl FuncParams {
    #[verifier::type_invariant]
    spec fn names_distinct(self) -> bool {
        distinct_names(params_view(self.order@))
    }

    /// The parameters, in order; no two may have one name.
    pub fn new(order: Vec<(String, bool)>) -> (res: Self)
        requires
            distinct_names(params_view(order@)),
        ensures
            res@ == params_view(order@),
    {
        FuncParams { order }
    }

    /// How many parameters there are.
    pub fn len(&self) -> (res: usize)
        ensures
            res == self@.len(),
    {
        self.order.len()
    }

}

/// A named argument of a call: the name, and where it is written.
pub struct NamedArg {
    pub name: String,
    pub name_span: Option<SpanId>,
}

/// Where the value of a parameter comes from: the `i`-th positional
/// argument, the `k`-th named argument, or the parameter's default.
#[derive(Copy, Clone, Debug, PartialEq, Eq, Structural)]
pub enum ArgSource {
    Positional(usize),
    Named(usize),
    Default,
}

/// Why a call's arguments do not bind: more positional arguments than
/// parameters, the `k`-th named argument names no parameter or one that is
/// already bound, or the `i`-th parameter is left without a value.
pub enum CallArgsError {
    TooMany,
    Unknown(nat),
    Repeated(nat),
    NotBound(nat),
}

/// The index of the parameter named `name`, if any.
pub open spec fn param_index(params: Seq<(Seq<char>, bool)>, name: Seq<char>) -> Option<nat> {
    if exists|i: int| 0 <= i < params.len() && #[trigger] params[i].0 == name {
        Some((choose|i: int| 0 <= i < params.len() && #[trigger] params[i].0 == name) as nat)
    } else {
        None
    }
}

/// Binds the named arguments from the `k`-th on, in order, to the slots of
/// the parameters after the `npos` positional ones.
pub open spec fn bind_named(
    params: Seq<(Seq<char>, bool)>,
    npos: nat,
    named: Seq<Seq<char>>,
    k: nat,
    slots: Seq<Option<nat>>,
) -> Result<Seq<Option<nat>>, CallArgsError>
    decreases named.len() - k,
{
    if k >= named.len() {
        Ok(slots)
    } else {
        match param_index(params, named[k as int]) {
            None => Err(CallArgsError::Unknown(k)),
            Some(i) => if i < npos || slots[i - npos] is Some {
                Err(CallArgsError::Repeated(k))
            } else {
                bind_named(params, npos, named, k + 1, slots.update(i - npos, Some(k)))
            },
        }
    }
}

/// The first parameter from the `i`-th on that has neither a slot filled
/// nor a default.
pub open spec fn first_unbound(params: Seq<(Seq<char>, bool)>, npos: nat, slots: Seq<Option<nat>>, i: nat) -> Option<
    nat,
>
    decreases params.len() - i,
{
    if i >= params.len() {
        None
    } else if slots[i - npos] is None && !params[i as int].1 {
        Some(i)
    } else {
        first_unbound(params, npos, slots, i + 1)
    }
}

/// Where each parameter's value comes from, given filled slots.
pub open spec fn sources_of(params_len: nat, npos: nat, slots: Seq<Option<nat>>) -> Seq<ArgSource> {
    Seq::new(
        params_len,
        |i: int|
            if i < npos {
                ArgSource::Positional(i as usize)
            } else {
                match slots[i - npos] {
                    Some(k) => ArgSource::Named(k as usize),
                    None => ArgSource::Default,
                }
            },
    )
}

/// `n` slots, none filled.
pub open spec fn no_slots(n: nat) -> Seq<Option<nat>> {
    Seq::new(n, |i: int| None::<nat>)
}

/// Binding `npos` positional arguments and the named arguments `named` to
/// the parameters: where each parameter's value comes from, or why they do
/// not bind.
pub open spec fn call_args_model(params: Seq<(Seq<char>, bool)>, npos: nat, named: Seq<Seq<char>>) -> Result<
    Seq<ArgSource>,
    CallArgsError,
> {
    if npos > params.len() {
        Err(CallArgsError::TooMany)
    } else {
        match bind_named(params, npos, named, 0, no_slots((params.len() - npos) as nat)) {
            Err(e) => Err(e),
            Ok(slots) => match first_unbound(params, npos, slots, npos) {
                Some(i) => Err(CallArgsError::NotBound(i)),
                None => Ok(sources_of(params.len(), npos, slots)),
            },
        }
    }
}

/// The names of named arguments.
pub open spec fn named_names(named: Seq<NamedArg>) -> Seq<Seq<char>> {
    named.map_values(|a: NamedArg| a.name@)
}

/// Whether `e` is the evaluation error for `m`, for a call at `call_span`.
pub open spec fn is_call_args_error(
    e: EvalErrorKind,
    m: CallArgsError,
    params: Seq<(Seq<char>, bool)>,
    named: Seq<NamedArg>,
    call_span: Option<SpanId>,
) -> bool {
    match m {
        CallArgsError::TooMany => e == EvalErrorKind::TooManyCallArgs { span: call_span, num_params: params.len() as usize },
        CallArgsError::Unknown(k) => e matches EvalErrorKind::UnknownCallParam { span, param_name } && span
            == named[k as int].name_span && param_name@ == named[k as int].name@,
        CallArgsError::Repeated(k) => e matches EvalErrorKind::RepeatedCallParam { span, param_name } && span
            == named[k as int].name_span && param_name@ == named[k as int].name@,
        CallArgsError::NotBound(i) => e matches EvalErrorKind::CallParamNotBound { span, param_name } && span
            == call_span && param_name@ == params[i as int].0,
    }
}


/// The models of filled slots.
pub open spec fn slots_view(slots: Seq<Option<usize>>) -> Seq<Option<nat>> {
    slots.map_values(
        |o: Option<usize>|
            match o {
                Some(k) => Some(k as nat),
                None => None,
            },
    )
}

fn copy_text(s: &String) -> (res: String)
    ensures
        res@ == s@,
{
    crate::text::string_from_chars(crate::text::chars_of(s.as_str()).as_slice())
}

impl FuncParams {
    /// The index of the parameter named `name`, if any.
    fn find(&self, name: &str) -> (res: Option<usize>)
        ensures
            match param_index(self@, name@) {
                Some(i) => res == Some(i as usize),
                None => res is None,
            },
    {
        proof {
            use_type_invariant(self);
        }
        let ghost pm = self@;
        let mut i: usize = 0;
        while i < self.order.len()
            invariant
                pm == self@,
                pm == params_view(self.order@),
                distinct_names(pm),
                i <= self.order.len(),
                forall|j: int| 0 <= j < i ==> pm[j].0 != name@,
            decreases self.order.len() - i,
        {
            assert(pm[i as int].0 == self.order@[i as int].0@);
            if str_eq(self.order[i].0.as_str(), name) {
                proof {
                    assert(pm[i as int].0 == name@);
                    let c = choose|c: int| 0 <= c < pm.len() && #[trigger] pm[c].0 == name@;
                    if c != i {
                        if c < i {
                            assert(pm[c].0 != pm[i as int].0);
                        } else {
                            assert(pm[i as int].0 != pm[c].0);
                        }
                    }
                }
                return Some(i);
            }
            i += 1;
        }
        None
    }

    /// The name of the `i`-th parameter.
    fn name_at(&self, i: usize) -> (res: String)
        requires
            i < self@.len(),
        ensures
            res@ == self@[i as int].0,
    {
        copy_text(&self.order[i].0)
    }

    /// Whether the `i`-th parameter has a default.
    fn has_default(&self, i: usize) -> (res: bool)
        requires
            i < self@.len(),
        ensures
            res == self@[i as int].1,
    {
        self.order[i].1
    }
}

/// Binds the arguments of a call (see [`call_args_model`]): `num_positional`
/// positional arguments and the named arguments `named`, for a call written
/// at `call_span`.
pub fn check_call_args(params: &FuncParams, num_positional: usize, named: &[NamedArg], call_span: Option<SpanId>) -> (res:
    Result<Vec<ArgSource>, EvalErrorKind>)
    ensures
        match call_args_model(params@, num_positional as nat, named_names(named@)) {
            Ok(srcs) => res matches Ok(v) && v@ == srcs,
            Err(m) => res matches Err(e) && is_call_args_error(e, m, params@, named@, call_span),
        },
{
    let ghost pm = params@;
    let ghost nm = named_names(named@);
    let n = params.len();
    if num_positional > n {
        return Err(EvalErrorKind::TooManyCallArgs { span: call_span, num_params: n });
    }
    let free = n - num_positional;
    let mut slots: Vec<Option<usize>> = Vec::new();
    while slots.len() < free
        invariant
            slots.len() <= free,
            forall|j: int| 0 <= j < slots.len() ==> slots@[j] is None,
        decreases free - slots.len(),
    {
        slots.push(None);
    }
    let ghost init = no_slots(free as nat);
    proof {
        assert(slots_view(slots@) =~= init);
    }
    let mut k: usize = 0;
    while k < named.len()
        invariant
            pm == params@,
            nm == named_names(named@),
            n == pm.len(),
            num_positional <= n,
            free == n - num_positional,
            init == no_slots(free as nat),
            slots.len() == free,
            k <= named.len(),
            bind_named(pm, num_positional as nat, nm, 0, init) == bind_named(
                pm,
                num_positional as nat,
                nm,
                k as nat,
                slots_view(slots@),
            ),
        decreases named.len() - k,
    {
        assert(nm[k as int] == named@[k as int].name@);
        match params.find(named[k].name.as_str()) {
            None => {
                let e = EvalErrorKind::UnknownCallParam {
                    span: named[k].name_span,
                    param_name: copy_text(&named[k].name),
                };
                return Err(e);
            },
            Some(i) => {
                if i < num_positional || slots[i - num_positional].is_some() {
                    return Err(
                        EvalErrorKind::RepeatedCallParam {
                            span: named[k].name_span,
                            param_name: copy_text(&named[k].name),
                        },
                    );
                }
                let ghost before = slots_view(slots@);
                slots.set(i - num_positional, Some(k));
                proof {
                    assert(slots_view(slots@) =~= before.update(i - num_positional, Some(k as nat)));
                }
                k += 1;
            },
        }
    }
    let ghost sv = slots_view(slots@);
    proof {
        assert(bind_named(pm, num_positional as nat, nm, k as nat, sv) == Ok::<Seq<Option<nat>>, CallArgsError>(sv));
    }
    let mut out: Vec<ArgSource> = Vec::new();
    let mut i: usize = 0;
    while i < n
        invariant
            pm == params@,
            n == pm.len(),
            num_positional <= n,
            slots.len() == n - num_positional,
            sv == slots_view(slots@),
            nm == named_names(named@),
            call_args_model(pm, num_positional as nat, nm) == (match first_unbound(
                pm,
                num_positional as nat,
                sv,
                num_positional as nat,
            ) {
                Some(j) => Err(CallArgsError::NotBound(j)),
                None => Ok(sources_of(n as nat, num_positional as nat, sv)),
            }),
            i <= n,
            out@ == sources_of(n as nat, num_positional as nat, sv).subrange(0, i as int),
            first_unbound(pm, num_positional as nat, sv, num_positional as nat) == (if i <= num_positional {
                first_unbound(pm, num_positional as nat, sv, num_positional as nat)
            } else {
                first_unbound(pm, num_positional as nat, sv, i as nat)
            }),
        decreases n - i,
    {
        let src = if i < num_positional {
            ArgSource::Positional(i)
        } else {
            match slots[i - num_positional] {
                Some(k) => ArgSource::Named(k),
                None => {
                    if !params.has_default(i) {
                        return Err(EvalErrorKind::CallParamNotBound { span: call_span, param_name: params.name_at(i) });
                    }
                    ArgSource::Default
                },
            }
        };
        out.push(src);
        proof {
            assert(out@ =~= sources_of(n as nat, num_positional as nat, sv).subrange(0, i + 1));
        }
        i += 1;
    }
    proof {
        assert(sources_of(n as nat, num_positional as nat, sv).subrange(0, n as int) =~= sources_of(
            n as nat,
            num_positional as nat,
            sv,
        ));
    }
    Ok(out)
}


/// Whether some slot holds the `j`-th named argument.
pub open spec fn in_some_slot(slots: Seq<Option<nat>>, j: nat) -> bool {
    exists|i: int| 0 <= i < slots.len() && #[trigger] slots[i] == Some(j)
}

/// Whether some parameter takes the value of the `k`-th named argument.
pub open spec fn named_is_bound(srcs: Seq<ArgSource>, k: nat) -> bool {
    exists|i: int| 0 <= i < srcs.len() && #[trigger] srcs[i] == ArgSource::Named(k as usize)
}

/// Whether the filled slots hold each of the first `m` named arguments in
/// exactly one slot, and no other.
pub open spec fn once_each(slots: Seq<Option<nat>>, m: nat) -> bool {
    &&& forall|i: int| 0 <= i < slots.len() && (#[trigger] slots[i]) is Some ==> slots[i]->0 < m
    &&& forall|j: nat| j < m ==> #[trigger] in_some_slot(slots, j)
    &&& forall|i1: int, i2: int|
        0 <= i1 < slots.len() && 0 <= i2 < slots.len() && (#[trigger] slots[i1]) is Some && slots[i1] == #[trigger] slots[i2]
            ==> i1 == i2
}

proof fn lemma_bind_once(
    params: Seq<(Seq<char>, bool)>,
    npos: nat,
    named: Seq<Seq<char>>,
    k: nat,
    slots: Seq<Option<nat>>,
)
    requires
        k <= named.len(),
        once_each(slots, k),
        npos + slots.len() == params.len(),
    ensures
        bind_named(params, npos, named, k, slots) matches Ok(r) ==> once_each(r, named.len()) && r.len() == slots.len(),
    decreases named.len() - k,
{
    if k < named.len() {
        if let Some(i) = param_index(params, named[k as int]) {
            if !(i < npos || slots[i - npos] is Some) {
                let p = i - npos;
                assert(0 <= p < slots.len()) by {
                    let c = choose|c: int| 0 <= c < params.len() && #[trigger] params[c].0 == named[k as int];
                }
                let s2 = slots.update(p, Some(k));
                assert forall|j: nat| j < k + 1 implies #[trigger] in_some_slot(s2, j) by {
                    if j == k {
                        assert(s2[p] == Some(k));
                    } else {
                        assert(in_some_slot(slots, j));
                        let x = choose|x: int| 0 <= x < slots.len() && #[trigger] slots[x] == Some(j);
                        assert(x != p);
                        assert(s2[x] == Some(j));
                    }
                }
                assert forall|i1: int, i2: int|
                    0 <= i1 < s2.len() && 0 <= i2 < s2.len() && (#[trigger] s2[i1]) is Some && s2[i1] == #[trigger] s2[i2]
                    implies i1 == i2 by {
                    if i1 != p && i2 != p {
                        assert(slots[i1] == s2[i1]);
                        assert(slots[i2] == s2[i2]);
                    } else if i1 == p && i2 != p {
                        assert(slots[i2] == s2[i2]);
                    } else if i1 != p && i2 == p {
                        assert(slots[i1] == s2[i1]);
                    }
                }
                assert forall|x: int| 0 <= x < s2.len() && (#[trigger] s2[x]) is Some implies s2[x]->0 < k + 1 by {
                    if x != p {
                        assert(slots[x] == s2[x]);
                    }
                }
                lemma_bind_once(params, npos, named, k + 1, s2);
            }
        }
    }
}

proof fn lemma_first_unbound_none(params: Seq<(Seq<char>, bool)>, npos: nat, slots: Seq<Option<nat>>, j: nat)
    requires
        first_unbound(params, npos, slots, j) is None,
    ensures
        forall|i: int| j <= i < params.len() && slots[i - npos] is None ==> #[trigger] params[i].1,
    decreases params.len() - j,
{
    if j < params.len() {
        lemma_first_unbound_none(params, npos, slots, j + 1);
    }
}

/// Binding a call's arguments, where it succeeds, gives every parameter a
/// value: the `i`-th positional argument binds the `i`-th parameter, each
/// named argument binds exactly one parameter, and a parameter falls back
/// to its default only where it has one.
pub proof fn law_call_args_bind_once(params: Seq<(Seq<char>, bool)>, npos: nat, named: Seq<Seq<char>>)
    requires
        named.len() <= usize::MAX,
    ensures
        call_args_model(params, npos, named) matches Ok(srcs) ==> {
            &&& srcs.len() == params.len()
            &&& forall|i: int| 0 <= i < npos ==> #[trigger] srcs[i] == ArgSource::Positional(i as usize)
            &&& forall|k: nat| k < named.len() ==> #[trigger] named_is_bound(srcs, k)
            &&& forall|i1: int, i2: int|
                0 <= i1 < srcs.len() && 0 <= i2 < srcs.len() && (#[trigger] srcs[i1]) is Named && srcs[i1] == #[trigger] srcs[i2]
                    ==> i1 == i2
            &&& forall|i: int| 0 <= i < srcs.len() && #[trigger] srcs[i] == ArgSource::Default ==> params[i].1
        },
{
    if npos <= params.len() {
        let init = no_slots((params.len() - npos) as nat);
        lemma_bind_once(params, npos, named, 0, init);
        if let Ok(slots) = bind_named(params, npos, named, 0, init) {
            if first_unbound(params, npos, slots, npos) is None {
                lemma_first_unbound_none(params, npos, slots, npos);
                let srcs = sources_of(params.len(), npos, slots);
                assert forall|k: nat| k < named.len() implies #[trigger] named_is_bound(srcs, k) by {
                    assert(in_some_slot(slots, k));
                    let x = choose|x: int| 0 <= x < slots.len() && #[trigger] slots[x] == Some(k);
                    assert(srcs[npos + x] == ArgSource::Named(k as usize));
                }
                assert forall|i1: int, i2: int|
                    0 <= i1 < srcs.len() && 0 <= i2 < srcs.len() && (#[trigger] srcs[i1]) is Named && srcs[i1]
                        == #[trigger] srcs[i2] implies i1 == i2 by {
                    assert(i1 >= npos && i2 >= npos);
                    let a = slots[i1 - npos];
                    let b = slots[i2 - npos];
                    assert(a is Some && b is Some);
                    assert(a->0 < named.len() && b->0 < named.len());
                    assert((a->0 as usize) == (b->0 as usize));
                    assert(slots[i1 - npos] == slots[i2 - npos]);
                }
            }
        }
    }
}

} // verus!
