//! The YAML reader of `std.parseYaml`: builds values from the events of a
//! YAML parser, with anchors and aliases, and classifies plain scalars.

use vstd::prelude::*;
use crate::value::{Value, ValueModel, view_items, view_fields, lemma_view_array, lemma_view_object, copy_value};
use crate::normalize::{sort_fields, sort_field_vec};
use crate::text::{str_eq, concat_str, debug_str, debug_str_text};
use crate::format::{decimal_text, int_digits};
use crate::error::{EvalErrorKind, is_other_error, other_error};

verus! {

/// One event of a YAML parser, as the reader uses it. A scalar carries the
/// value it stands for where it is not a key.
#[derive(Debug)]
pub enum YamlEvent {
    StreamStart,
    StreamEnd,
    DocumentStart(bool),
    DocumentEnd,
    Alias(usize),
    Scalar { text: String, value: Result<Value, YamlError>, anchor: usize, tagged: bool },
    SequenceStart { anchor: usize, tagged: bool },
    SequenceEnd,
    MappingStart { anchor: usize, tagged: bool },
    MappingEnd,
}

/// Why a YAML text gives no value.
#[derive(Clone, Debug)]
pub enum YamlError {
    /// The parser's own error, as it writes it.
    Parser(String),
    EmptyStream,
    Tag,
    AnchorContainsItself,
    AnchorFromOtherDoc,
    /// A key that is a mapping, at a line and a column.
    KeyIsObject(usize, usize),
    /// A key that is a sequence, at a line and a column.
    KeyIsArray(usize, usize),
    NumberOverflow,
    RepeatedFieldName(String),
    /// Events in an order that no YAML parser gives.
    Malformed,
}

/// The model of a [`YamlError`].
pub enum YamlErrorModel {
    Parser(Seq<char>),
    EmptyStream,
    Tag,
    AnchorContainsItself,
    AnchorFromOtherDoc,
    KeyIsObject(nat, nat),
    KeyIsArray(nat, nat),
    NumberOverflow,
    RepeatedFieldName(Seq<char>),
    Malformed,
}

impl View for YamlError {
    type V = YamlErrorModel;

    open spec fn view(&self) -> YamlErrorModel {
        match self {
            YamlError::Parser(m) => YamlErrorModel::Parser(m@),
            YamlError::EmptyStream => YamlErrorModel::EmptyStream,
            YamlError::Tag => YamlErrorModel::Tag,
            YamlError::AnchorContainsItself => YamlErrorModel::AnchorContainsItself,
            YamlError::AnchorFromOtherDoc => YamlErrorModel::AnchorFromOtherDoc,
            YamlError::KeyIsObject(l, c) => YamlErrorModel::KeyIsObject(*l as nat, *c as nat),
            YamlError::KeyIsArray(l, c) => YamlErrorModel::KeyIsArray(*l as nat, *c as nat),
            YamlError::NumberOverflow => YamlErrorModel::NumberOverflow,
            YamlError::RepeatedFieldName(n) => YamlErrorModel::RepeatedFieldName(n@),
            YamlError::Malformed => YamlErrorModel::Malformed,
        }
    }
}

/// The model of a [`YamlEvent`].
pub enum YamlEventModel {
    StreamStart,
    StreamEnd,
    DocumentStart(bool),
    DocumentEnd,
    Alias(nat),
    Scalar { text: Seq<char>, value: Result<ValueModel, YamlErrorModel>, anchor: nat, tagged: bool },
    SequenceStart { anchor: nat, tagged: bool },
    SequenceEnd,
    MappingStart { anchor: nat, tagged: bool },
    MappingEnd,
}

impl View for YamlEvent {
    type V = YamlEventModel;

    open spec fn view(&self) -> YamlEventModel {
        match self {
            YamlEvent::StreamStart => YamlEventModel::StreamStart,
            YamlEvent::StreamEnd => YamlEventModel::StreamEnd,
            YamlEvent::DocumentStart(b) => YamlEventModel::DocumentStart(*b),
            YamlEvent::DocumentEnd => YamlEventModel::DocumentEnd,
            YamlEvent::Alias(a) => YamlEventModel::Alias(*a as nat),
            YamlEvent::Scalar { text, value, anchor, tagged } => YamlEventModel::Scalar {
                text: text@,
                value: match value {
                    Ok(v) => Ok(v@),
                    Err(e) => Err(e@),
                },
                anchor: *anchor as nat,
                tagged: *tagged,
            },
            YamlEvent::SequenceStart { anchor, tagged } => YamlEventModel::SequenceStart {
                anchor: *anchor as nat,
                tagged: *tagged,
            },
            YamlEvent::SequenceEnd => YamlEventModel::SequenceEnd,
            YamlEvent::MappingStart { anchor, tagged } => YamlEventModel::MappingStart {
                anchor: *anchor as nat,
                tagged: *tagged,
            },
            YamlEvent::MappingEnd => YamlEventModel::MappingEnd,
        }
    }
}

/// An event where the parser found it (line from 1, column from 0), or
/// the parser's error.
pub type EventItem = Result<(YamlEvent, usize, usize), String>;

/// The model of an [`EventItem`].
pub type EventItemModel = Result<(YamlEventModel, nat, nat), Seq<char>>;

/// The model of an event item.
pub open spec fn item_view(e: EventItem) -> EventItemModel {
    match e {
        Ok((ev, l, c)) => Ok((ev@, l as nat, c as nat)),
        Err(m) => Err(m@),
    }
}

/// The models of a sequence of event items.
pub open spec fn items_view(es: Seq<EventItem>) -> Seq<EventItemModel> {
    es.map_values(|e: EventItem| item_view(e))
}

/// What an anchor names.
pub enum AnchorModel {
    /// A sequence or mapping that is still being read.
    Pending,
    /// A scalar: its text, and the value it stands for.
    Scalar(Seq<char>, Result<ValueModel, YamlErrorModel>),
    /// A sequence or mapping that has been read.
    Done(ValueModel),
}

/// The anchors defined so far, the latest of an id winning.
pub type Anchors = Seq<(nat, AnchorModel)>;

/// What the anchor `id` names, if anything.
pub open spec fn anchor_lookup(anchors: Anchors, id: nat) -> Option<AnchorModel>
    decreases anchors.len(),
{
    if anchors.len() == 0 {
        None
    } else if anchors.last().0 == id {
        Some(anchors.last().1)
    } else {
        anchor_lookup(anchors.drop_last(), id)
    }
}

/// The value an alias stands for.
pub open spec fn alias_value(anchors: Anchors, id: nat) -> Result<ValueModel, YamlErrorModel> {
    match anchor_lookup(anchors, id) {
        None => Err(YamlErrorModel::AnchorFromOtherDoc),
        Some(AnchorModel::Pending) => Err(YamlErrorModel::AnchorContainsItself),
        Some(AnchorModel::Scalar(_, v)) => v,
        Some(AnchorModel::Done(v)) => Ok(v),
    }
}

/// The key an alias stands for, or the error for a key that is not a scalar
/// (the event at line `l`, column `c`).
pub open spec fn alias_key(anchors: Anchors, id: nat, l: nat, c: nat) -> Result<Seq<char>, YamlErrorModel> {
    match anchor_lookup(anchors, id) {
        None => Err(YamlErrorModel::AnchorFromOtherDoc),
        Some(AnchorModel::Pending) => Err(YamlErrorModel::AnchorContainsItself),
        Some(AnchorModel::Scalar(t, _)) => Ok(t),
        Some(AnchorModel::Done(ValueModel::Array(_))) => Err(YamlErrorModel::KeyIsArray(l, c)),
        Some(AnchorModel::Done(_)) => Err(YamlErrorModel::KeyIsObject(l, c)),
    }
}

/// The result of reading a node: its value, the position after it, and
/// the anchors then.
pub type NodeResult = Result<(ValueModel, int, Anchors), YamlErrorModel>;

/// What a key event gives: the key, the position after it and the anchors;
/// or the end of the mapping (`None`); or an error.
pub type KeyResult = Result<Option<(Seq<char>, int, Anchors)>, YamlErrorModel>;

/// Reads the key event at `p` of a mapping.
pub open spec fn read_key(es: Seq<EventItemModel>, p: int, anchors: Anchors) -> KeyResult {
    if p < 0 || p >= es.len() {
        Err(YamlErrorModel::Malformed)
    } else {
        match es[p] {
            Err(m) => Err(YamlErrorModel::Parser(m)),
            Ok((ev, l, c)) => match ev {
                YamlEventModel::Alias(id) => match alias_key(anchors, id, l, c) {
                    Ok(k) => Ok(Some((k, p + 1, anchors))),
                    Err(e) => Err(e),
                },
                YamlEventModel::SequenceStart { .. } => Err(YamlErrorModel::KeyIsArray(l, c)),
                YamlEventModel::MappingStart { .. } => Err(YamlErrorModel::KeyIsObject(l, c)),
                YamlEventModel::MappingEnd => Ok(None),
                YamlEventModel::Scalar { text, value, anchor, tagged } => if tagged {
                    Err(YamlErrorModel::Tag)
                } else {
                    Ok(Some((text, p + 1, anchors.push((anchor, AnchorModel::Scalar(text, value))))))
                },
                _ => Err(YamlErrorModel::Malformed),
            },
        }
    }
}

/// Whether a field of that name is among `fields`.
pub open spec fn has_field(fields: Seq<(Seq<char>, ValueModel)>, name: Seq<char>) -> bool {
    exists|i: int| 0 <= i < fields.len() && (#[trigger] fields[i]).0 == name
}

/// Reads the node whose first event is at `p`.
pub open spec fn read_node(es: Seq<EventItemModel>, p: int, anchors: Anchors) -> NodeResult
    decreases es.len() - p, 0nat,
{
    if p < 0 || p >= es.len() {
        Err(YamlErrorModel::Malformed)
    } else {
        match es[p] {
            Err(m) => Err(YamlErrorModel::Parser(m)),
            Ok((ev, _, _)) => match ev {
                YamlEventModel::Alias(id) => match alias_value(anchors, id) {
                    Ok(v) => Ok((v, p + 1, anchors)),
                    Err(e) => Err(e),
                },
                YamlEventModel::Scalar { text, value, anchor, tagged } => if tagged {
                    Err(YamlErrorModel::Tag)
                } else {
                    match value {
                        Ok(v) => Ok((v, p + 1, anchors.push((anchor, AnchorModel::Scalar(text, value))))),
                        Err(e) => Err(e),
                    }
                },
                YamlEventModel::SequenceStart { anchor, tagged } => if tagged {
                    Err(YamlErrorModel::Tag)
                } else if p + 1 < es.len() && es[p + 1] matches Ok((YamlEventModel::SequenceEnd, _, _)) {
                    let v = ValueModel::Array(seq![]);
                    Ok((v, p + 2, anchors.push((anchor, AnchorModel::Done(v)))))
                } else {
                    match read_items(es, p + 1, anchors.push((anchor, AnchorModel::Pending)), seq![]) {
                        Err(e) => Err(e),
                        Ok((items, q, a)) => {
                            let v = ValueModel::Array(items);
                            Ok((v, q, a.push((anchor, AnchorModel::Done(v)))))
                        },
                    }
                },
                YamlEventModel::MappingStart { anchor, tagged } => if tagged {
                    Err(YamlErrorModel::Tag)
                } else {
                    let pending = anchors.push((anchor, AnchorModel::Pending));
                    match read_key(es, p + 1, pending) {
                        Err(e) => Err(e),
                        Ok(None) => {
                            let v = ValueModel::Object(seq![]);
                            Ok((v, p + 2, pending.push((anchor, AnchorModel::Done(v)))))
                        },
                        Ok(Some((key, q, a))) => match read_fields(es, q, a, key, seq![]) {
                            Err(e) => Err(e),
                            Ok((fields, r, a2)) => {
                                let v = ValueModel::Object(sort_fields(fields));
                                Ok((v, r, a2.push((anchor, AnchorModel::Done(v)))))
                            },
                        },
                    }
                },
                _ => Err(YamlErrorModel::Malformed),
            },
        }
    }
}

/// Reads the items of a sequence from `p` on, after those in `acc`, up to
/// and past its end event.
pub open spec fn read_items(es: Seq<EventItemModel>, p: int, anchors: Anchors, acc: Seq<ValueModel>) -> Result<
    (Seq<ValueModel>, int, Anchors),
    YamlErrorModel,
>
    decreases es.len() - p, 1nat,
{
    if p < 0 || p >= es.len() {
        Err(YamlErrorModel::Malformed)
    } else {
        match read_node(es, p, anchors) {
            Err(e) => Err(e),
            Ok((v, q, a)) => {
                let items = acc.push(v);
                if q <= p || q > es.len() {
                    Err(YamlErrorModel::Malformed)
                } else if q < es.len() && es[q] matches Ok((YamlEventModel::SequenceEnd, _, _)) {
                    Ok((items, q + 1, a))
                } else {
                    read_items(es, q, a, items)
                }
            },
        }
    }
}

/// Reads the value of the field `key` at `p` and the fields after it, up to
/// and past the end event of the mapping.
pub open spec fn read_fields(
    es: Seq<EventItemModel>,
    p: int,
    anchors: Anchors,
    key: Seq<char>,
    acc: Seq<(Seq<char>, ValueModel)>,
) -> Result<(Seq<(Seq<char>, ValueModel)>, int, Anchors), YamlErrorModel>
    decreases es.len() - p, 1nat,
{
    if p < 0 || p >= es.len() {
        Err(YamlErrorModel::Malformed)
    } else {
        match read_node(es, p, anchors) {
            Err(e) => Err(e),
            Ok((v, q, a)) => if has_field(acc, key) {
                Err(YamlErrorModel::RepeatedFieldName(key))
            } else if q <= p || q > es.len() {
                Err(YamlErrorModel::Malformed)
            } else {
                let fields = acc.push((key, v));
                match read_key(es, q, a) {
                    Err(e) => Err(e),
                    Ok(None) => Ok((fields, q + 1, a)),
                    Ok(Some((k, r, a2))) => read_fields(es, r, a2, k, fields),
                }
            },
        }
    }
}

/// How many documents a stream has shown so far.
pub enum StreamModel {
    Empty,
    /// One document, without a `---` before it.
    Single(ValueModel),
    Stream(Seq<ValueModel>),
}

/// The stream after one more document.
pub open spec fn next_stream(st: StreamModel, explicit: bool, v: ValueModel) -> StreamModel {
    match st {
        StreamModel::Empty => if explicit {
            StreamModel::Stream(seq![v])
        } else {
            StreamModel::Single(v)
        },
        StreamModel::Single(v0) => StreamModel::Stream(seq![v0, v]),
        StreamModel::Stream(vs) => StreamModel::Stream(vs.push(v)),
    }
}

/// The value of a whole stream: one document without `---` is its value,
/// else the array of the documents.
pub open spec fn finish_stream(st: StreamModel) -> Result<ValueModel, YamlErrorModel> {
    match st {
        StreamModel::Empty => Err(YamlErrorModel::EmptyStream),
        StreamModel::Single(v) => Ok(v),
        StreamModel::Stream(vs) => Ok(ValueModel::Array(vs)),
    }
}

/// Reads a document whose first event is at `p`, up to and past its end event.
pub open spec fn read_document(es: Seq<EventItemModel>, p: int) -> Result<(ValueModel, int), YamlErrorModel> {
    match read_node(es, p, seq![]) {
        Err(e) => Err(e),
        Ok((v, q, _)) => if q < 0 || q >= es.len() {
            Err(YamlErrorModel::Malformed)
        } else {
            match es[q] {
                Err(m) => Err(YamlErrorModel::Parser(m)),
                Ok((YamlEventModel::DocumentEnd, _, _)) => Ok((v, q + 1)),
                _ => Err(YamlErrorModel::Malformed),
            }
        },
    }
}

/// Reads the documents of a stream from `p` on.
pub open spec fn read_stream(es: Seq<EventItemModel>, p: int, st: StreamModel) -> Result<ValueModel, YamlErrorModel>
    decreases es.len() - p,
{
    if p < 0 || p >= es.len() {
        Err(YamlErrorModel::Malformed)
    } else {
        match es[p] {
            Err(m) => Err(YamlErrorModel::Parser(m)),
            Ok((YamlEventModel::StreamEnd, _, _)) => finish_stream(st),
            Ok((YamlEventModel::DocumentStart(explicit), _, _)) => match read_document(es, p + 1) {
                Err(e) => Err(e),
                Ok((v, q)) => if q <= p {
                    Err(YamlErrorModel::Malformed)
                } else {
                    read_stream(es, q, next_stream(st, explicit, v))
                },
            },
            _ => Err(YamlErrorModel::Malformed),
        }
    }
}

/// The value of the events of a whole YAML text.
pub open spec fn parse_yaml_model(es: Seq<EventItemModel>) -> Result<ValueModel, YamlErrorModel> {
    if es.len() == 0 {
        Err(YamlErrorModel::Malformed)
    } else {
        match es[0] {
            Err(m) => Err(YamlErrorModel::Parser(m)),
            Ok((YamlEventModel::StreamStart, _, _)) => read_stream(es, 1, StreamModel::Empty),
            _ => Err(YamlErrorModel::Malformed),
        }
    }
}

/// What an anchor names, as the reader keeps it.
pub enum Anchor {
    Pending,
    Scalar(String, Result<Value, YamlError>),
    Done(Value),
}

/// The model of a converted scalar.
pub open spec fn result_view(r: Result<Value, YamlError>) -> Result<ValueModel, YamlErrorModel> {
    match r {
        Ok(v) => Ok(v@),
        Err(e) => Err(e@),
    }
}

/// The model of an [`Anchor`].
pub open spec fn anchor_view(a: Anchor) -> AnchorModel {
    match a {
        Anchor::Pending => AnchorModel::Pending,
        Anchor::Scalar(t, r) => AnchorModel::Scalar(t@, result_view(r)),
        Anchor::Done(v) => AnchorModel::Done(v@),
    }
}

/// The model of the anchors kept so far.
pub open spec fn anchors_view(v: Seq<(usize, Anchor)>) -> Anchors {
    v.map_values(|e: (usize, Anchor)| (e.0 as nat, anchor_view(e.1)))
}

/// A copy of an error.
pub fn copy_error(e: &YamlError) -> (res: YamlError)
    ensures
        res@ == e@,
{
    match e {
        YamlError::Parser(m) => YamlError::Parser(m.clone()),
        YamlError::EmptyStream => YamlError::EmptyStream,
        YamlError::Tag => YamlError::Tag,
        YamlError::AnchorContainsItself => YamlError::AnchorContainsItself,
        YamlError::AnchorFromOtherDoc => YamlError::AnchorFromOtherDoc,
        YamlError::KeyIsObject(l, c) => YamlError::KeyIsObject(*l, *c),
        YamlError::KeyIsArray(l, c) => YamlError::KeyIsArray(*l, *c),
        YamlError::NumberOverflow => YamlError::NumberOverflow,
        YamlError::RepeatedFieldName(n) => YamlError::RepeatedFieldName(n.clone()),
        YamlError::Malformed => YamlError::Malformed,
    }
}

fn copy_result(r: &Result<Value, YamlError>) -> (res: Result<Value, YamlError>)
    ensures
        result_view(res) == result_view(*r),
{
    match r {
        Ok(v) => Ok(copy_value(v)),
        Err(e) => Err(copy_error(e)),
    }
}

/// The position of the latest anchor `id`, if any.
fn find_anchor(anchors: &Vec<(usize, Anchor)>, id: usize) -> (res: Option<usize>)
    ensures
        match res {
            Some(i) => i < anchors@.len() && anchors@[i as int].0 == id && anchor_lookup(anchors_view(anchors@), id as nat)
                == Some(anchor_view(anchors@[i as int].1)),
            None => anchor_lookup(anchors_view(anchors@), id as nat) is None,
        },
{
    let ghost all = anchors_view(anchors@);
    let mut k = anchors.len();
    proof {
        assert(all.subrange(0, k as int) =~= all);
    }
    while k > 0
        invariant
            0 <= k <= anchors@.len(),
            all == anchors_view(anchors@),
            anchor_lookup(all, id as nat) == anchor_lookup(all.subrange(0, k as int), id as nat),
        decreases k,
    {
        let ghost sub = all.subrange(0, k as int);
        proof {
            assert(sub.last() == (anchors@[k - 1].0 as nat, anchor_view(anchors@[k - 1].1)));
            assert(sub.drop_last() =~= all.subrange(0, k - 1));
        }
        if anchors[k - 1].0 == id {
            return Some(k - 1);
        }
        k -= 1;
    }
    None
}

/// The value an alias stands for.
fn alias_value_exec(anchors: &Vec<(usize, Anchor)>, id: usize) -> (res: Result<Value, YamlError>)
    ensures
        result_view(res) == alias_value(anchors_view(anchors@), id as nat),
{
    match find_anchor(anchors, id) {
        None => Err(YamlError::AnchorFromOtherDoc),
        Some(i) => match &anchors[i].1 {
            Anchor::Pending => Err(YamlError::AnchorContainsItself),
            Anchor::Scalar(_, r) => copy_result(r),
            Anchor::Done(v) => Ok(copy_value(v)),
        },
    }
}

/// The key an alias stands for.
fn alias_key_exec(anchors: &Vec<(usize, Anchor)>, id: usize, l: usize, c: usize) -> (res: Result<String, YamlError>)
    ensures
        match alias_key(anchors_view(anchors@), id as nat, l as nat, c as nat) {
            Ok(k) => res matches Ok(t) && t@ == k,
            Err(e) => res matches Err(re) && re@ == e,
        },
{
    match find_anchor(anchors, id) {
        None => Err(YamlError::AnchorFromOtherDoc),
        Some(i) => match &anchors[i].1 {
            Anchor::Pending => Err(YamlError::AnchorContainsItself),
            Anchor::Scalar(t, _) => Ok(t.clone()),
            Anchor::Done(Value::Array(_)) => Err(YamlError::KeyIsArray(l, c)),
            Anchor::Done(_) => Err(YamlError::KeyIsObject(l, c)),
        },
    }
}

/// What the reading of a key promises.
pub open spec fn key_read(
    model: KeyResult,
    res: Result<Option<(String, usize)>, YamlError>,
    before: Seq<(usize, Anchor)>,
    after: Seq<(usize, Anchor)>,
) -> bool {
    match model {
        Err(e) => res matches Err(re) && re@ == e,
        Ok(None) => res matches Ok(None) && after == before,
        Ok(Some((k, q, a))) => res matches Ok(Some((t, rq))) && t@ == k && rq as int == q && anchors_view(after) == a,
    }
}

/// Reads the key event at `p` of a mapping.
fn read_key_exec(es: &[EventItem], p: usize, anchors: &mut Vec<(usize, Anchor)>) -> (res: Result<Option<(String, usize)>, YamlError>)
    ensures
        key_read(read_key(items_view(es@), p as int, anchors_view(old(anchors)@)), res, old(anchors)@, final(anchors)@),
{
    if p >= es.len() {
        return Err(YamlError::Malformed);
    }
    proof {
        assert(items_view(es@)[p as int] == item_view(es@[p as int]));
    }
    match &es[p] {
        Err(m) => Err(YamlError::Parser(m.clone())),
        Ok((ev, l, c)) => match ev {
            YamlEvent::Alias(id) => match alias_key_exec(anchors, *id, *l, *c) {
                Ok(k) => Ok(Some((k, p + 1))),
                Err(e) => Err(e),
            },
            YamlEvent::SequenceStart { .. } => Err(YamlError::KeyIsArray(*l, *c)),
            YamlEvent::MappingStart { .. } => Err(YamlError::KeyIsObject(*l, *c)),
            YamlEvent::MappingEnd => Ok(None),
            YamlEvent::Scalar { text, value, anchor, tagged } => {
                if *tagged {
                    return Err(YamlError::Tag);
                }
                let r = copy_result(value);
                let ghost before = anchors@;
                anchors.push((*anchor, Anchor::Scalar(text.clone(), r)));
                proof {
                    assert(anchors_view(anchors@) =~= anchors_view(before).push(
                        (*anchor as nat, AnchorModel::Scalar(text@, result_view(*value))),
                    ));
                }
                Ok(Some((text.clone(), p + 1)))
            },
            _ => Err(YamlError::Malformed),
        },
    }
}

/// What the reading of a node promises.
pub open spec fn node_read(model: NodeResult, res: Result<(Value, usize), YamlError>, after: Seq<(usize, Anchor)>) -> bool {
    match model {
        Err(e) => res matches Err(re) && re@ == e,
        Ok((v, q, a)) => res matches Ok((rv, rq)) && rv@ == v && rq as int == q && anchors_view(after) == a,
    }
}

/// Reads the node whose first event is at `p`.
fn read_node_exec(es: &[EventItem], p: usize, anchors: &mut Vec<(usize, Anchor)>) -> (res: Result<(Value, usize), YamlError>)
    ensures
        node_read(read_node(items_view(es@), p as int, anchors_view(old(anchors)@)), res, final(anchors)@),
    decreases es@.len() - p, 2nat,
{
    if p >= es.len() {
        return Err(YamlError::Malformed);
    }
    proof {
        assert(items_view(es@)[p as int] == item_view(es@[p as int]));
    }
    match &es[p] {
        Err(m) => Err(YamlError::Parser(m.clone())),
        Ok((ev, _, _)) => match ev {
            YamlEvent::Alias(id) => match alias_value_exec(anchors, *id) {
                Ok(v) => Ok((v, p + 1)),
                Err(e) => Err(e),
            },
            YamlEvent::Scalar { text, value, anchor, tagged } => {
                if *tagged {
                    return Err(YamlError::Tag);
                }
                match value {
                    Err(e) => Err(copy_error(e)),
                    Ok(v) => {
                        let ghost before = anchors@;
                        let r = copy_result(value);
                        anchors.push((*anchor, Anchor::Scalar(text.clone(), r)));
                        proof {
                            assert(anchors_view(anchors@) =~= anchors_view(before).push(
                                (*anchor as nat, AnchorModel::Scalar(text@, result_view(*value))),
                            ));
                        }
                        Ok((copy_value(v), p + 1))
                    },
                }
            },
            YamlEvent::SequenceStart { anchor, tagged } => {
                if *tagged {
                    return Err(YamlError::Tag);
                }
                read_sequence(es, p, *anchor, anchors)
            },
            YamlEvent::MappingStart { anchor, tagged } => {
                if *tagged {
                    return Err(YamlError::Tag);
                }
                read_mapping(es, p, *anchor, anchors)
            },
            _ => Err(YamlError::Malformed),
        },
    }
}

fn is_sequence_end(es: &[EventItem], q: usize) -> (res: bool)
    ensures
        res == (q < es@.len() && items_view(es@)[q as int] matches Ok((YamlEventModel::SequenceEnd, _, _))),
{
    if q >= es.len() {
        return false;
    }
    proof {
        assert(items_view(es@)[q as int] == item_view(es@[q as int]));
    }
    match &es[q] {
        Ok((YamlEvent::SequenceEnd, _, _)) => true,
        _ => false,
    }
}

/// Reads a sequence whose start event, with anchor `anchor` and no tag, is at `p`.
fn read_sequence(es: &[EventItem], p: usize, anchor: usize, anchors: &mut Vec<(usize, Anchor)>) -> (res: Result<(Value, usize), YamlError>)
    requires
        p < es@.len(),
        items_view(es@)[p as int] matches Ok((YamlEventModel::SequenceStart { anchor: a, tagged: false }, _, _)) && a
            == anchor as nat,
    ensures
        node_read(read_node(items_view(es@), p as int, anchors_view(old(anchors)@)), res, final(anchors)@),
    decreases es@.len() - p, 1nat,
{
    let n = es.len();
    let ghost esv = items_view(es@);
    let ghost a0 = anchors_view(anchors@);
    if is_sequence_end(es, p + 1) {
        let empty: Vec<Value> = Vec::new();
        proof {
            lemma_view_array(empty);
            assert(view_items(empty@) =~= Seq::<ValueModel>::empty());
        }
        let v = Value::Array(empty);
        let ghost before = anchors@;
        let stored = copy_value(&v);
        anchors.push((anchor, Anchor::Done(stored)));
        proof {
            assert(anchors_view(anchors@) =~= anchors_view(before).push((anchor as nat, AnchorModel::Done(v@))));
        }
        return Ok((v, p + 2));
    }
    let ghost before = anchors@;
    anchors.push((anchor, Anchor::Pending));
    proof {
        assert(anchors_view(anchors@) =~= anchors_view(before).push((anchor as nat, AnchorModel::Pending)));
    }
    let ghost target = read_items(esv, p + 1, a0.push((anchor as nat, AnchorModel::Pending)), seq![]);
    let mut items: Vec<Value> = Vec::new();
    let mut cur = p + 1;
    proof {
        assert(view_items(items@) =~= Seq::<ValueModel>::empty());
    }
    loop
        invariant
            p < cur <= es@.len(),
            esv == items_view(es@),
            a0 == anchors_view(old(anchors)@),
            read_items(esv, cur as int, anchors_view(anchors@), view_items(items@)) == target,
            read_node(esv, p as int, a0) == (match target {
                Err(e) => Err(e),
                Ok((its, q, a)) => Ok((ValueModel::Array(its), q, a.push((anchor as nat, AnchorModel::Done(ValueModel::Array(its)))))),
            }),
        decreases es@.len() - cur,
    {
        if cur >= es.len() {
            return Err(YamlError::Malformed);
        }
        let ghost a_before = anchors_view(anchors@);
        let r = read_node_exec(es, cur, anchors);
        match r {
            Err(e) => {
                return Err(e);
            },
            Ok((v, q)) => {
                if q <= cur || q > es.len() {
                    return Err(YamlError::Malformed);
                }
                let ghost old_items = view_items(items@);
                items.push(v);
                proof {
                    assert(view_items(items@) =~= old_items.push(v@));
                }
                if is_sequence_end(es, q) {
                    let arr = Value::Array(items);
                    proof {
                        lemma_view_array(items);
                    }
                    let stored = copy_value(&arr);
                    let ghost a_now = anchors@;
                    anchors.push((anchor, Anchor::Done(stored)));
                    proof {
                        assert(anchors_view(anchors@) =~= anchors_view(a_now).push((anchor as nat, AnchorModel::Done(arr@))));
                    }
                    return Ok((arr, q + 1));
                }
                cur = q;
            },
        }
    }
}

/// Whether a field named `key` is among `fields`.
fn has_field_exec(fields: &Vec<(String, Value)>, key: &String) -> (res: bool)
    ensures
        res == has_field(view_fields(fields@), key@),
{
    let ghost vf = view_fields(fields@);
    let mut i: usize = 0;
    while i < fields.len()
        invariant
            0 <= i <= fields@.len(),
            vf == view_fields(fields@),
            forall|j: int| 0 <= j < i ==> (#[trigger] vf[j]).0 != key@,
        decreases fields@.len() - i,
    {
        proof {
            assert(vf[i as int] == (fields@[i as int].0@, fields@[i as int].1@));
        }
        if str_eq(fields[i].0.as_str(), key.as_str()) {
            return true;
        }
        i += 1;
    }
    false
}

/// Reads a mapping whose start event, with anchor `anchor` and no tag, is at `p`.
fn read_mapping(es: &[EventItem], p: usize, anchor: usize, anchors: &mut Vec<(usize, Anchor)>) -> (res: Result<(Value, usize), YamlError>)
    requires
        p < es@.len(),
        items_view(es@)[p as int] matches Ok((YamlEventModel::MappingStart { anchor: a, tagged: false }, _, _)) && a
            == anchor as nat,
    ensures
        node_read(read_node(items_view(es@), p as int, anchors_view(old(anchors)@)), res, final(anchors)@),
    decreases es@.len() - p, 1nat,
{
    let n = es.len();
    let ghost esv = items_view(es@);
    let ghost a0 = anchors_view(anchors@);
    let ghost before = anchors@;
    anchors.push((anchor, Anchor::Pending));
    proof {
        assert(anchors_view(anchors@) =~= anchors_view(before).push((anchor as nat, AnchorModel::Pending)));
    }
    let first = read_key_exec(es, p + 1, anchors);
    let (key0, q0) = match first {
        Err(e) => {
            return Err(e);
        },
        Ok(None) => {
            let empty: Vec<(String, Value)> = Vec::new();
            proof {
                lemma_view_object(empty);
                assert(view_fields(empty@) =~= Seq::<(Seq<char>, ValueModel)>::empty());
            }
            let v = Value::Object(empty);
            let ghost before = anchors@;
            let stored = copy_value(&v);
            anchors.push((anchor, Anchor::Done(stored)));
            proof {
                assert(anchors_view(anchors@) =~= anchors_view(before).push((anchor as nat, AnchorModel::Done(v@))));
            }
            return Ok((v, p + 2));
        },
        Ok(Some(x)) => x,
    };
    let ghost a1 = anchors_view(anchors@);
    let ghost target = read_fields(esv, q0 as int, a1, key0@, seq![]);
    let mut acc: Vec<(String, Value)> = Vec::new();
    let mut key = key0;
    let mut cur = q0;
    proof {
        assert(view_fields(acc@) =~= Seq::<(Seq<char>, ValueModel)>::empty());
    }
    loop
        invariant
            p < cur <= es@.len(),
            esv == items_view(es@),
            a0 == anchors_view(old(anchors)@),
            read_fields(esv, cur as int, anchors_view(anchors@), key@, view_fields(acc@)) == target,
            read_node(esv, p as int, a0) == (match target {
                Err(e) => Err(e),
                Ok((fs, r, a)) => {
                    let v = ValueModel::Object(sort_fields(fs));
                    Ok((v, r, a.push((anchor as nat, AnchorModel::Done(v)))))
                },
            }),
        decreases es@.len() - cur,
    {
        if cur >= es.len() {
            return Err(YamlError::Malformed);
        }
        let r = read_node_exec(es, cur, anchors);
        let (v, q) = match r {
            Err(e) => {
                return Err(e);
            },
            Ok(x) => x,
        };
        if has_field_exec(&acc, &key) {
            return Err(YamlError::RepeatedFieldName(key));
        }
        if q <= cur || q > es.len() {
            return Err(YamlError::Malformed);
        }
        let ghost old_acc = view_fields(acc@);
        let ghost key_model = key@;
        acc.push((key, v));
        proof {
            assert(view_fields(acc@) =~= old_acc.push((key_model, v@)));
        }
        let next = read_key_exec(es, q, anchors);
        match next {
            Err(e) => {
                return Err(e);
            },
            Ok(None) => {
                let sorted = sort_field_vec(acc);
                let obj = Value::Object(sorted);
                proof {
                    lemma_view_object(sorted);
                }
                let stored = copy_value(&obj);
                let ghost a_now = anchors@;
                anchors.push((anchor, Anchor::Done(stored)));
                proof {
                    assert(anchors_view(anchors@) =~= anchors_view(a_now).push((anchor as nat, AnchorModel::Done(obj@))));
                }
                return Ok((obj, q + 1));
            },
            Ok(Some((k, r2))) => {
                key = k;
                cur = r2;
            },
        }
    }
}

/// Reads a document whose first event is at `p`, up to and past its end event.
fn read_document_exec(es: &[EventItem], p: usize) -> (res: Result<(Value, usize), YamlError>)
    ensures
        match read_document(items_view(es@), p as int) {
            Err(e) => res matches Err(re) && re@ == e,
            Ok((v, q)) => res matches Ok((rv, rq)) && rv@ == v && rq as int == q,
        },
{
    let n = es.len();
    let mut anchors: Vec<(usize, Anchor)> = Vec::new();
    proof {
        assert(anchors_view(anchors@) =~= Seq::<(nat, AnchorModel)>::empty());
    }
    let (v, q) = match read_node_exec(es, p, &mut anchors) {
        Err(e) => {
            return Err(e);
        },
        Ok(x) => x,
    };
    if q >= es.len() {
        return Err(YamlError::Malformed);
    }
    proof {
        assert(items_view(es@)[q as int] == item_view(es@[q as int]));
    }
    match &es[q] {
        Err(m) => Err(YamlError::Parser(m.clone())),
        Ok((YamlEvent::DocumentEnd, _, _)) => Ok((v, q + 1)),
        _ => Err(YamlError::Malformed),
    }
}

/// The value of the events of a whole YAML text: one document without
/// `---` is its value, else the array of its documents; the fields of each
/// mapping are in the order of their names.
pub fn parse_yaml_events(es: &[EventItem]) -> (res: Result<Value, YamlError>)
    ensures
        result_view(res) == parse_yaml_model(items_view(es@)),
{
    let ghost esv = items_view(es@);
    if es.len() == 0 {
        return Err(YamlError::Malformed);
    }
    proof {
        assert(esv[0] == item_view(es@[0]));
    }
    match &es[0] {
        Err(m) => {
            return Err(YamlError::Parser(m.clone()));
        },
        Ok((YamlEvent::StreamStart, _, _)) => {},
        _ => {
            return Err(YamlError::Malformed);
        },
    }
    let mut single: Option<Value> = None;
    let mut docs: Vec<Value> = Vec::new();
    let mut streaming = false;
    let mut p: usize = 1;
    loop
        invariant
            1 <= p <= es@.len(),
            esv == items_view(es@),
            parse_yaml_model(esv) == read_stream(
                esv,
                p as int,
                if streaming {
                    StreamModel::Stream(view_items(docs@))
                } else {
                    match single@ {
                        None => StreamModel::Empty,
                        Some(vm) => StreamModel::Single(vm@),
                    }
                },
            ),
            !streaming ==> docs@.len() == 0,
        decreases es@.len() - p,
    {
        let ghost st = if streaming {
            StreamModel::Stream(view_items(docs@))
        } else {
            match single@ {
                None => StreamModel::Empty,
                Some(vm) => StreamModel::Single(vm@),
            }
        };
        if p >= es.len() {
            return Err(YamlError::Malformed);
        }
        proof {
            assert(esv[p as int] == item_view(es@[p as int]));
        }
        let explicit = match &es[p] {
            Err(m) => {
                return Err(YamlError::Parser(m.clone()));
            },
            Ok((YamlEvent::StreamEnd, _, _)) => {
                if streaming {
                    proof {
                        lemma_view_array(docs);
                    }
                    return Ok(Value::Array(docs));
                }
                match single {
                    None => {
                        return Err(YamlError::EmptyStream);
                    },
                    Some(v) => {
                        return Ok(v);
                    },
                }
            },
            Ok((YamlEvent::DocumentStart(explicit), _, _)) => *explicit,
            _ => {
                return Err(YamlError::Malformed);
            },
        };
        let (v, q) = match read_document_exec(es, p + 1) {
            Err(e) => {
                return Err(e);
            },
            Ok(x) => x,
        };
        if q <= p || q > es.len() {
            return Err(YamlError::Malformed);
        }
        let ghost vm = v@;
        if streaming {
            let ghost before = view_items(docs@);
            docs.push(v);
            proof {
                assert(view_items(docs@) =~= before.push(vm));
            }
        } else {
            match single.take() {
                None => {
                    if explicit {
                        docs.push(v);
                        streaming = true;
                        proof {
                            assert(view_items(docs@) =~= seq![vm]);
                        }
                    } else {
                        single = Some(v);
                    }
                },
                Some(v0) => {
                    let ghost v0m = v0@;
                    docs.push(v0);
                    docs.push(v);
                    streaming = true;
                    proof {
                        assert(view_items(docs@) =~= seq![v0m, vm]);
                    }
                },
            }
        }
        proof {
            assert(next_stream(st, explicit, vm) == if streaming {
                StreamModel::Stream(view_items(docs@))
            } else {
                match single@ {
                    None => StreamModel::Empty,
                    Some(m) => StreamModel::Single(m@),
                }
            });
        }
        p = q;
    }
}

/// The text of a YAML error.
pub open spec fn yaml_error_text(e: YamlErrorModel) -> Seq<char> {
    match e {
        YamlErrorModel::Parser(m) => m,
        YamlErrorModel::EmptyStream => "empty stream"@,
        YamlErrorModel::Tag => "tags are not allowed"@,
        YamlErrorModel::AnchorContainsItself => "anchor contains itself"@,
        YamlErrorModel::AnchorFromOtherDoc => "alias refers to an anchor from a previous document"@,
        YamlErrorModel::KeyIsObject(l, c) => "object key is an object at line "@ + int_digits(l, 10, seq![])
            + " column "@ + int_digits(c, 10, seq![]),
        YamlErrorModel::KeyIsArray(l, c) => "object key is an array at line "@ + int_digits(l, 10, seq![])
            + " column "@ + int_digits(c, 10, seq![]),
        YamlErrorModel::NumberOverflow => "number overflow"@,
        YamlErrorModel::RepeatedFieldName(n) => "repeated field name "@ + debug_str_text(n),
        YamlErrorModel::Malformed => "events out of order"@,
    }
}

impl YamlError {
    /// The text of the error.
    pub fn message(&self) -> (res: String)
        ensures
            res@ == yaml_error_text(self@),
    {
        match self {
            YamlError::Parser(m) => m.clone(),
            YamlError::EmptyStream => String::from_str("empty stream"),
            YamlError::Tag => String::from_str("tags are not allowed"),
            YamlError::AnchorContainsItself => String::from_str("anchor contains itself"),
            YamlError::AnchorFromOtherDoc => String::from_str("alias refers to an anchor from a previous document"),
            YamlError::KeyIsObject(l, c) => {
                let a = concat_str("object key is an object at line ", decimal_text(*l as u128).as_str());
                let b = concat_str(" column ", decimal_text(*c as u128).as_str());
                let mut out = a;
                out.append(b.as_str());
                out
            },
            YamlError::KeyIsArray(l, c) => {
                let a = concat_str("object key is an array at line ", decimal_text(*l as u128).as_str());
                let b = concat_str(" column ", decimal_text(*c as u128).as_str());
                let mut out = a;
                out.append(b.as_str());
                out
            },
            YamlError::NumberOverflow => String::from_str("number overflow"),
            YamlError::RepeatedFieldName(n) => {
                let shown = debug_str(n.as_str());
                concat_str("repeated field name ", shown.as_str())
            },
            YamlError::Malformed => String::from_str("events out of order"),
        }
    }
}

/// The value of the events of a YAML text, or the error of `std.parseYaml`.
pub fn std_parse_yaml(es: &[EventItem]) -> (res: Result<Value, EvalErrorKind>)
    ensures
        match parse_yaml_model(items_view(es@)) {
            Ok(v) => res matches Ok(rv) && rv@ == v,
            Err(e) => res matches Err(k) && is_other_error(k, "failed to parse YAML: "@ + yaml_error_text(e)),
        },
{
    match parse_yaml_events(es) {
        Ok(v) => Ok(v),
        Err(e) => {
            let m = e.message();
            Err(other_error(concat_str("failed to parse YAML: ", m.as_str())))
        },
    }
}

} // verus!
