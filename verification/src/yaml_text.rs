//! Reading YAML text: the events that `saphyr_parser` gives on it, cut at
//! the end of the stream or at the first error, and the value they build.

use vstd::prelude::*;
use saphyr_parser::Parser;
use saphyr_parser::ScalarStyle::Plain;
use saphyr_parser::Event::{
    Alias, DocumentEnd, DocumentStart, MappingEnd, MappingStart, Nothing, Scalar, SequenceEnd, SequenceStart, StreamEnd,
    StreamStart,
};
use crate::value::{Value, ValueModel};
use crate::yaml::{
    YamlEvent, YamlEventModel, YamlErrorModel, EventItem, EventItemModel, items_view, item_view, parse_yaml_model,
    yaml_error_text, std_parse_yaml,
};
use crate::yaml_scalar::{ScalarClassModel, scalar_class_model, scalar_cut_ok, scalar_fits, classify_scalar, scalar_value};
use crate::error::{EvalErrorKind, is_other_error};
use crate::text::{string_from_chars, chars_of};

verus! {

/// One event as the parser gives it, before its scalar is classified.
pub enum RawEvent {
    Nothing,
    StreamStart,
    StreamEnd,
    DocumentStart(bool),
    DocumentEnd,
    Alias(usize),
    /// A scalar: its text, whether it is plain, its anchor, whether it is tagged.
    Scalar(String, bool, usize, bool),
    /// The start of a sequence: its anchor, whether it is tagged.
    SequenceStart(usize, bool),
    SequenceEnd,
    /// The start of a mapping: its anchor, whether it is tagged.
    MappingStart(usize, bool),
    MappingEnd,
}

/// The model of a [`RawEvent`].
pub enum RawEventModel {
    Nothing,
    StreamStart,
    StreamEnd,
    DocumentStart(bool),
    DocumentEnd,
    Alias(nat),
    Scalar { text: Seq<char>, plain: bool, anchor: nat, tagged: bool },
    SequenceStart { anchor: nat, tagged: bool },
    SequenceEnd,
    MappingStart { anchor: nat, tagged: bool },
    MappingEnd,
}

impl View for RawEvent {
    type V = RawEventModel;

    open spec fn view(&self) -> RawEventModel {
        match self {
            RawEvent::Nothing => RawEventModel::Nothing,
            RawEvent::StreamStart => RawEventModel::StreamStart,
            RawEvent::StreamEnd => RawEventModel::StreamEnd,
            RawEvent::DocumentStart(b) => RawEventModel::DocumentStart(*b),
            RawEvent::DocumentEnd => RawEventModel::DocumentEnd,
            RawEvent::Alias(a) => RawEventModel::Alias(*a as nat),
            RawEvent::Scalar(text, plain, anchor, tagged) => RawEventModel::Scalar {
                text: text@,
                plain: *plain,
                anchor: *anchor as nat,
                tagged: *tagged,
            },
            RawEvent::SequenceStart(anchor, tagged) => RawEventModel::SequenceStart {
                anchor: *anchor as nat,
                tagged: *tagged,
            },
            RawEvent::SequenceEnd => RawEventModel::SequenceEnd,
            RawEvent::MappingStart(anchor, tagged) => RawEventModel::MappingStart {
                anchor: *anchor as nat,
                tagged: *tagged,
            },
            RawEvent::MappingEnd => RawEventModel::MappingEnd,
        }
    }
}

/// An event where the parser found it (line from 1, column from 0), or
/// the text of the parser's error.
pub type RawEventItem = Result<(RawEvent, usize, usize), String>;

/// The model of a [`RawEventItem`].
pub type RawItemModel = Result<(RawEventModel, nat, nat), Seq<char>>;

/// The model of a raw item.
pub open spec fn raw_item_view(e: RawEventItem) -> RawItemModel {
    match e {
        Ok((ev, l, c)) => Ok((ev@, l as nat, c as nat)),
        Err(m) => Err(m@),
    }
}

/// The models of raw items.
pub open spec fn raw_items_view(es: Seq<RawEventItem>) -> Seq<RawItemModel> {
    es.map_values(|e: RawEventItem| raw_item_view(e))
}

/// The first `n` items (fewer where the parser stops first) that
/// `saphyr_parser`'s parser yields on `text`.
pub uninterp spec fn saphyr_items_of(text: Seq<char>, n: nat) -> Seq<RawItemModel>;

/// Calls `saphyr_parser::Parser::new_from_str` and takes the first `n`
/// items that the parser yields, each as plain values: the event with the
/// line and column where it starts, or the error's text. Claimed: the items
/// are `saphyr_items_of(text, n)`, at most `n` of them.
#[verifier::external_body]
fn saphyr_items(text: &str, n: usize) -> (res: Vec<RawEventItem>)
    ensures
        raw_items_view(res@) == saphyr_items_of(text@, n as nat),
        res@.len() <= n,
{
    Parser::new_from_str(text).take(n).map(|r| r.map(|(e, sp)| (match e {
        Nothing => RawEvent::Nothing, StreamStart => RawEvent::StreamStart, StreamEnd => RawEvent::StreamEnd,
        DocumentStart(x) => RawEvent::DocumentStart(x), DocumentEnd => RawEvent::DocumentEnd, Alias(a) => RawEvent::Alias(a),
        Scalar(v, st, a, t) => RawEvent::Scalar(v.into(), st == Plain, a, t != None),
        SequenceStart(a, t) => RawEvent::SequenceStart(a, t != None), SequenceEnd => RawEvent::SequenceEnd,
        MappingStart(a, t) => RawEvent::MappingStart(a, t != None), MappingEnd => RawEvent::MappingEnd,
    }, sp.start.line(), sp.start.col())).map_err(|e| e.to_string())).collect()
}

/// Whether an item ends the reading: an error, or the end of the stream.
pub open spec fn is_last_item(e: RawItemModel) -> bool {
    e is Err || e matches Ok((RawEventModel::StreamEnd, _, _))
}

/// Whether the first `n` items settle what is read: the parser stopped
/// before `n` items, or one of them ends the reading.
pub open spec fn settles(items: Seq<RawItemModel>, n: nat) -> bool {
    items.len() < n || exists|i: int| 0 <= i < items.len() && #[trigger] is_last_item(items[i])
}

/// The window of items that is read: the first `n` items where they
/// settle, else the window twice as long (as long as its length fits).
pub open spec fn read_window(text: Seq<char>, n: nat) -> Seq<RawItemModel>
    decreases usize::MAX - n,
{
    if n == 0 || n > usize::MAX / 2 || settles(saphyr_items_of(text, n), n) {
        saphyr_items_of(text, n)
    } else {
        read_window(text, 2 * n)
    }
}

/// The items from `i` on, up to the first that ends the reading (which is
/// kept), with `Nothing` events left out.
pub open spec fn cut_items(items: Seq<RawItemModel>, i: nat) -> Seq<RawItemModel>
    decreases items.len() - i,
{
    if i >= items.len() {
        seq![]
    } else if is_last_item(items[i as int]) {
        seq![items[i as int]]
    } else if items[i as int] matches Ok((RawEventModel::Nothing, _, _)) {
        cut_items(items, i + 1)
    } else {
        seq![items[i as int]] + cut_items(items, i + 1)
    }
}

/// The events of a YAML text that the reader uses.
pub open spec fn yaml_raw_model(text: Seq<char>) -> Seq<RawItemModel> {
    cut_items(read_window(text, 16), 0)
}

fn is_last(e: &RawEventItem) -> (res: bool)
    ensures
        res == is_last_item(raw_item_view(*e)),
{
    match e {
        Err(_) => true,
        Ok((RawEvent::StreamEnd, _, _)) => true,
        _ => false,
    }
}

fn is_nothing(e: &RawEventItem) -> (res: bool)
    ensures
        res == (raw_item_view(*e) matches Ok((RawEventModel::Nothing, _, _))),
{
    match e {
        Ok((RawEvent::Nothing, _, _)) => true,
        _ => false,
    }
}

fn has_last(items: &Vec<RawEventItem>) -> (res: bool)
    ensures
        res == exists|i: int| 0 <= i < items@.len() && #[trigger] is_last_item(raw_items_view(items@)[i]),
{
    let ghost v = raw_items_view(items@);
    let mut k: usize = 0;
    while k < items.len()
        invariant
            k <= items@.len(),
            v == raw_items_view(items@),
            forall|i: int| 0 <= i < k ==> !#[trigger] is_last_item(v[i]),
        decreases items@.len() - k,
    {
        if is_last(&items[k]) {
            assert(is_last_item(v[k as int]));
            return true;
        }
        k += 1;
    }
    false
}

/// The events that `saphyr_parser` gives on a YAML text, up to the end of
/// the stream or its first error, without `Nothing` events.
pub fn yaml_raw_events(text: &str) -> (res: Vec<RawEventItem>)
    ensures
        raw_items_view(res@) == yaml_raw_model(text@),
{
    let mut n: usize = 16;
    let mut window = saphyr_items(text, n);
    while !(n > usize::MAX / 2 || window.len() < n || has_last(&window))
        invariant
            n >= 16,
            raw_items_view(window@) == saphyr_items_of(text@, n as nat),
            read_window(text@, 16) == read_window(text@, n as nat),
        decreases usize::MAX - n,
    {
        proof {
            assert(!settles(saphyr_items_of(text@, n as nat), n as nat));
        }
        n = 2 * n;
        window = saphyr_items(text, n);
    }
    let ghost w = raw_items_view(window@);
    proof {
        assert(read_window(text@, n as nat) == w);
    }
    let mut out: Vec<RawEventItem> = Vec::new();
    let ghost mut i: nat = 0;
    proof {
        assert(raw_items_view(out@) + cut_items(w, 0) =~= cut_items(w, 0));
        assert(raw_items_view(window@) =~= w.subrange(0, w.len() as int));
    }
    while window.len() > 0
        invariant
            w == read_window(text@, 16),
            i + window@.len() == w.len(),
            raw_items_view(window@) == w.subrange(i as int, w.len() as int),
            raw_items_view(out@) + cut_items(w, i) == cut_items(w, 0),
        decreases window@.len(),
    {
        let ghost wv = window@;
        let item = window.remove(0);
        let ghost before = raw_items_view(out@);
        proof {
            assert(raw_item_view(item) == raw_items_view(wv)[0]);
            assert forall|k: int| 0 <= k < window@.len() implies raw_items_view(window@)[k] == w.subrange(
                i as int + 1,
                w.len() as int,
            )[k] by {
                assert(window@[k] == wv[k + 1]);
                assert(raw_items_view(wv)[k + 1] == w.subrange(i as int, w.len() as int)[k + 1]);
            }
            assert(raw_item_view(item) == w.subrange(i as int, w.len() as int)[0]);
            assert(raw_item_view(item) == w[i as int]);
            assert(raw_items_view(window@) =~= w.subrange(i as int + 1, w.len() as int));
        }
        if is_last(&item) {
            out.push(item);
            proof {
                assert(raw_items_view(out@) =~= before.push(w[i as int]));
                assert(cut_items(w, i) == seq![w[i as int]]);
                assert(before + seq![w[i as int]] =~= raw_items_view(out@));
            }
            return out;
        }
        if !is_nothing(&item) {
            out.push(item);
            proof {
                assert(raw_items_view(out@) =~= before.push(w[i as int]));
                assert(cut_items(w, i) == seq![w[i as int]] + cut_items(w, i + 1));
                assert(before + (seq![w[i as int]] + cut_items(w, i + 1)) =~= raw_items_view(out@) + cut_items(w, i + 1));
            }
        }
        proof {
            i = i + 1;
        }
    }
    proof {
        assert(cut_items(w, i) =~= Seq::<RawItemModel>::empty());
        assert(raw_items_view(out@) + Seq::<RawItemModel>::empty() =~= raw_items_view(out@));
    }
    out
}


/// The value of a classified scalar, where `number` is the decimal text of
/// a numeric scalar's number (`None` where it is not finite).
pub open spec fn scalar_value_model(class: ScalarClassModel, s: Seq<char>, number: Option<Seq<char>>) -> Result<
    ValueModel,
    YamlErrorModel,
> {
    match class {
        ScalarClassModel::Null => Ok(ValueModel::Null),
        ScalarClassModel::Bool(b) => Ok(ValueModel::Bool(b)),
        ScalarClassModel::Text => Ok(ValueModel::String(s)),
        _ => match number {
            Some(t) => Ok(ValueModel::Number(t)),
            None => Err(YamlErrorModel::NumberOverflow),
        },
    }
}

/// The event that the reader makes of a raw item, with the number text of
/// its scalar.
pub open spec fn event_of(raw: RawItemModel, number: Option<Seq<char>>) -> EventItemModel {
    match raw {
        Err(m) => Err(m),
        Ok((ev, l, c)) => Ok(
            (
                match ev {
                    RawEventModel::Scalar { text, plain, anchor, tagged } => YamlEventModel::Scalar {
                        text,
                        value: scalar_value_model(scalar_class_model(plain, text), text, number),
                        anchor,
                        tagged,
                    },
                    RawEventModel::StreamStart => YamlEventModel::StreamStart,
                    RawEventModel::StreamEnd => YamlEventModel::StreamEnd,
                    RawEventModel::DocumentStart(b) => YamlEventModel::DocumentStart(b),
                    RawEventModel::DocumentEnd => YamlEventModel::DocumentEnd,
                    RawEventModel::Alias(a) => YamlEventModel::Alias(a),
                    RawEventModel::SequenceStart { anchor, tagged } => YamlEventModel::SequenceStart { anchor, tagged },
                    RawEventModel::SequenceEnd => YamlEventModel::SequenceEnd,
                    RawEventModel::MappingStart { anchor, tagged } => YamlEventModel::MappingStart { anchor, tagged },
                    _ => YamlEventModel::MappingEnd,
                },
                l,
                c,
            ),
        ),
    }
}

/// The models of number texts.
pub open spec fn numbers_view(numbers: Seq<Option<String>>) -> Seq<Option<Seq<char>>> {
    numbers.map_values(
        |o: Option<String>|
            match o {
                Some(t) => Some(t@),
                None => None,
            },
    )
}

/// The events that the reader makes of raw items and their number texts.
pub open spec fn events_model(raw: Seq<RawItemModel>, numbers: Seq<Option<Seq<char>>>) -> Seq<EventItemModel> {
    Seq::new(raw.len(), |i: int| event_of(raw[i], numbers[i]))
}

/// Whether every plain scalar's radix digits end their first 128 bits
/// between two characters (where the original reader panics otherwise).
pub open spec fn scalars_fit(raw: Seq<RawItemModel>) -> bool {
    forall|i: int|
        0 <= i < raw.len() ==> (#[trigger] raw[i] matches Ok((RawEventModel::Scalar { text, plain, .. }, _, _))
            ==> scalar_cut_ok(plain, text))
}

proof fn lemma_cut_has_no_nothing(items: Seq<RawItemModel>, i: nat)
    ensures
        forall|k: int|
            0 <= k < cut_items(items, i).len() ==> !(#[trigger] cut_items(items, i)[k] matches Ok(
                (RawEventModel::Nothing, _, _),
            )),
    decreases items.len() - i,
{
    if i < items.len() && !is_last_item(items[i as int]) {
        lemma_cut_has_no_nothing(items, i + 1);
        let rest = cut_items(items, i + 1);
        if !(items[i as int] matches Ok((RawEventModel::Nothing, _, _))) {
            assert forall|k: int| 0 <= k < cut_items(items, i).len() implies !(#[trigger] cut_items(items, i)[k] matches Ok(
                (RawEventModel::Nothing, _, _),
            )) by {
                if k > 0 {
                    assert(cut_items(items, i)[k] == rest[k - 1]);
                }
            }
        }
    }
}

fn copy_text(s: &String) -> (res: String)
    ensures
        res@ == s@,
{
    string_from_chars(chars_of(s.as_str()).as_slice())
}

fn copy_number(o: &Option<String>) -> (res: Option<String>)
    ensures
        match *o {
            Some(t) => res matches Some(r) && r@ == t@,
            None => res is None,
        },
{
    match o {
        Some(t) => Some(copy_text(t)),
        None => None,
    }
}

/// `std.parseYaml` of a text: the value that the events of `saphyr_parser`
/// build, given the decimal text of each numeric scalar's number (at the
/// scalar's index among the events; `None` where it is not finite). `None`
/// where the numbers are not one per event, or where a plain scalar's
/// radix digits cut a character (where the original reader panics).
pub fn std_parse_yaml_text(text: &str, numbers: &Vec<Option<String>>) -> (res: Option<Result<Value, EvalErrorKind>>)
    ensures
        (numbers@.len() == yaml_raw_model(text@).len() && scalars_fit(yaml_raw_model(text@))) ==> (res matches Some(
            r,
        ) && match parse_yaml_model(events_model(yaml_raw_model(text@), numbers_view(numbers@))) {
            Ok(v) => r matches Ok(rv) && rv@ == v,
            Err(e) => r matches Err(k) && is_other_error(k, "failed to parse YAML: "@ + yaml_error_text(e)),
        }),
        !(numbers@.len() == yaml_raw_model(text@).len() && scalars_fit(yaml_raw_model(text@))) ==> res is None,
{
    let raw = yaml_raw_events(text);
    let ghost rm = raw_items_view(raw@);
    let ghost nm = numbers_view(numbers@);
    proof {
        lemma_cut_has_no_nothing(read_window(text@, 16), 0);
    }
    if numbers.len() != raw.len() {
        return None;
    }
    let mut events: Vec<EventItem> = Vec::new();
    let mut i: usize = 0;
    while i < raw.len()
        invariant
            rm == raw_items_view(raw@),
            rm == yaml_raw_model(text@),
            nm == numbers_view(numbers@),
            numbers@.len() == raw@.len(),
            i <= raw@.len(),
            forall|k: int| 0 <= k < rm.len() ==> !(#[trigger] rm[k] matches Ok((RawEventModel::Nothing, _, _))),
            forall|k: int| 0 <= k < i ==> (#[trigger] rm[k] matches Ok((RawEventModel::Scalar { text, plain, .. }, _, _))
                ==> scalar_cut_ok(plain, text)),
            items_view(events@) == events_model(rm, nm).subrange(0, i as int),
        decreases raw@.len() - i,
    {
        proof {
            assert(rm[i as int] == raw_item_view(raw@[i as int]));
            assert(nm[i as int] == match numbers@[i as int] {
                Some(t) => Some(t@),
                None => None::<Seq<char>>,
            });
        }
        let ev: EventItem = match &raw[i] {
            Err(m) => Err(copy_text(m)),
            Ok((e, l, c)) => {
                let y = match e {
                    RawEvent::Scalar(t, plain, anchor, tagged) => {
                        if !scalar_fits(*plain, t.as_str()) {
                            return None;
                        }
                        let class = classify_scalar(*plain, t.as_str());
                        let value = scalar_value(t.as_str(), class, copy_number(&numbers[i]));
                        YamlEvent::Scalar { text: copy_text(t), value, anchor: *anchor, tagged: *tagged }
                    },
                    RawEvent::StreamStart => YamlEvent::StreamStart,
                    RawEvent::StreamEnd => YamlEvent::StreamEnd,
                    RawEvent::DocumentStart(b) => YamlEvent::DocumentStart(*b),
                    RawEvent::DocumentEnd => YamlEvent::DocumentEnd,
                    RawEvent::Alias(a) => YamlEvent::Alias(*a),
                    RawEvent::SequenceStart(anchor, tagged) => YamlEvent::SequenceStart {
                        anchor: *anchor,
                        tagged: *tagged,
                    },
                    RawEvent::SequenceEnd => YamlEvent::SequenceEnd,
                    RawEvent::MappingStart(anchor, tagged) => YamlEvent::MappingStart {
                        anchor: *anchor,
                        tagged: *tagged,
                    },
                    RawEvent::MappingEnd => YamlEvent::MappingEnd,
                    RawEvent::Nothing => {
                        proof {
                            assert(rm[i as int] matches Ok((RawEventModel::Nothing, _, _)));
                        }
                        YamlEvent::MappingEnd
                    },
                };
                Ok((y, *l, *c))
            },
        };
        let ghost before = items_view(events@);
        events.push(ev);
        proof {
            assert(item_view(ev) == events_model(rm, nm)[i as int]);
            assert(items_view(events@) =~= before.push(item_view(ev)));
            assert(items_view(events@) =~= events_model(rm, nm).subrange(0, i as int + 1));
        }
        i += 1;
    }
    proof {
        assert(events_model(rm, nm).subrange(0, i as int) =~= events_model(rm, nm));
    }
    Some(std_parse_yaml(events.as_slice()))
}

} // verus!
