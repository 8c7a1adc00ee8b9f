//! Source spans: a compact identifier for a range of a source text.
//!
//! Every source gets a context, and the contexts are laid out one after the
//! other on a single line of offsets, each one longer by one than its text.
//! A short span whose start lies early enough on that line is packed into
//! its identifier; any other span is interned in a table and the identifier
//! holds its index.

use vstd::prelude::*;
use crate::format::{decimal_text, int_digits};
use crate::text::concat_str;

verus! {

/// Number of low bits of an inline span identifier that hold its offset plus one.
pub const OFFSET_BITS: u64 = 38;

/// Mask of the offset bits of an inline span identifier.
pub const OFFSET_MASK: u64 = 0x3f_ffff_ffff;

/// Longest span (in bytes) that an inline identifier can hold.
pub const LEN_MAX: u64 = 0x1ff_ffff;

/// The bit that marks an identifier as an index into the interned spans.
pub const INTERNED_BIT: u64 = 0x8000_0000_0000_0000;

/// Mask of the index bits of an interned span identifier.
pub const INDEX_MASK: u64 = 0x7fff_ffff_ffff_ffff;

/// Identifier of a span, made by [`SpanManager::intern_span`].
#[derive(Copy, Clone, PartialEq, Eq, Structural, PartialOrd, Ord, Hash, Debug)]
pub struct SpanId(u64);

/// Identifier of a span context.
#[derive(Copy, Clone, PartialEq, Eq, Structural, PartialOrd, Ord, Hash, Debug)]
pub struct SpanContextId(usize);

/// Identifier of a source.
#[derive(Copy, Clone, PartialEq, Eq, Structural, PartialOrd, Ord, Hash, Debug)]
pub struct SourceId(usize);

/// What a span context stands for.
#[derive(Clone, Debug, PartialEq, Eq, Structural)]
pub enum SpanContext {
    Source(SourceId),
}

impl SpanId {
    /// The raw encoding of the identifier.
    pub closed spec fn bits(self) -> u64 {
        self.0
    }

    /// Two span identifiers are equal exactly where their encodings are.
    pub proof fn lemma_bits_eq(a: SpanId, b: SpanId)
        ensures
            (a.bits() == b.bits()) == (a == b),
    {
    }
}

impl SpanContextId {
    /// The index of the context.
    pub closed spec fn index(self) -> nat {
        self.0 as nat
    }

    /// The index of a context fits in a `usize`.
    pub proof fn lemma_index_bound(c: SpanContextId)
        ensures
            c.index() <= usize::MAX,
    {
    }

    /// Two context identifiers are equal exactly where their indices are.
    pub proof fn lemma_index_eq(a: SpanContextId, b: SpanContextId)
        ensures
            (a.index() == b.index()) == (a == b),
    {
    }
}

impl SourceId {
    /// The index of the source.
    pub closed spec fn index(self) -> nat {
        self.0 as nat
    }

    /// The index of a source fits in a `usize`.
    pub proof fn lemma_index_bound(s: SourceId)
        ensures
            s.index() <= usize::MAX,
    {
    }

    /// Two source identifiers are equal exactly where their indices are.
    pub proof fn lemma_index_eq(a: SourceId, b: SourceId)
        ensures
            (a.index() == b.index()) == (a == b),
    {
    }
}

/// The decoded form of a span identifier.
pub enum ExpandedSpanId {
    /// Offset on the line of all contexts, and length.
    Inline(u64, usize),
    /// Index into the interned spans.
    Interned(usize),
}

/// Whether the identifier bits denote an interned span.
pub open spec fn is_interned_bits(bits: u64) -> bool {
    bits & INTERNED_BIT != 0
}

/// Offset on the line of contexts held by inline identifier bits.
pub open spec fn inline_offset(bits: u64) -> int {
    (bits & OFFSET_MASK) - 1
}

/// Length held by inline identifier bits.
pub open spec fn inline_len(bits: u64) -> int {
    (bits >> OFFSET_BITS) as int
}

/// Index held by interned identifier bits.
pub open spec fn interned_index(bits: u64) -> int {
    (bits & INDEX_MASK) as int
}

/// The identifier bits of an inline span.
pub open spec fn inline_bits(offset: u64, len: u64) -> u64 {
    ((offset + 1) as u64) | (len << OFFSET_BITS)
}

/// The identifier bits of an interned span.
pub open spec fn interned_bits(index: u64) -> u64 {
    index | INTERNED_BIT
}

proof fn lemma_inline_bits(offset: u64, len: u64)
    requires
        offset < OFFSET_MASK,
        len <= LEN_MAX,
    ensures
        inline_bits(offset, len) & INTERNED_BIT == 0,
        inline_bits(offset, len) & OFFSET_MASK == offset + 1,
        inline_bits(offset, len) >> OFFSET_BITS == len,
        inline_bits(offset, len) != 0,
{
    let b = ((offset + 1) as u64) | (len << 38u64);
    assert(b & 0x8000_0000_0000_0000u64 == 0) by (bit_vector)
        requires
            offset < 0x3f_ffff_ffffu64,
            len <= 0x1ff_ffffu64,
            b == ((offset + 1) as u64) | (len << 38u64),
    ;
    assert(b & 0x3f_ffff_ffffu64 == offset + 1) by (bit_vector)
        requires
            offset < 0x3f_ffff_ffffu64,
            len <= 0x1ff_ffffu64,
            b == ((offset + 1) as u64) | (len << 38u64),
    ;
    assert(b >> 38u64 == len) by (bit_vector)
        requires
            offset < 0x3f_ffff_ffffu64,
            len <= 0x1ff_ffffu64,
            b == ((offset + 1) as u64) | (len << 38u64),
    ;
    assert(b != 0) by (bit_vector)
        requires
            offset < 0x3f_ffff_ffffu64,
            b == ((offset + 1) as u64) | (len << 38u64),
    ;
}

proof fn lemma_interned_bits(index: u64)
    requires
        index < INTERNED_BIT,
    ensures
        interned_bits(index) & INTERNED_BIT != 0,
        interned_bits(index) & INDEX_MASK == index,
{
    let b = index | 0x8000_0000_0000_0000u64;
    assert(b & 0x8000_0000_0000_0000u64 != 0) by (bit_vector)
        requires
            b == index | 0x8000_0000_0000_0000u64,
    ;
    assert(b & 0x7fff_ffff_ffff_ffffu64 == index) by (bit_vector)
        requires
            index < 0x8000_0000_0000_0000u64,
            b == index | 0x8000_0000_0000_0000u64,
    ;
}

impl SpanId {
    /// Decodes the identifier.
    pub fn expand(self) -> (res: ExpandedSpanId)
        requires
            !is_interned_bits(self.bits()) ==> self.bits() & OFFSET_MASK >= 1,
            is_interned_bits(self.bits()) ==> interned_index(self.bits()) <= usize::MAX,
        ensures
            match res {
                ExpandedSpanId::Inline(offset, len) => {
                    &&& !is_interned_bits(self.bits())
                    &&& offset == inline_offset(self.bits())
                    &&& len == inline_len(self.bits())
                },
                ExpandedSpanId::Interned(index) => {
                    &&& is_interned_bits(self.bits())
                    &&& index == interned_index(self.bits())
                },
            },
    {
        let inner = self.0;
        if (inner & INTERNED_BIT) == 0 {
            let offset = (inner & OFFSET_MASK) - 1;
            let len = inner >> OFFSET_BITS;
            assert(inner >> 38u64 <= 0x3ff_ffffu64) by (bit_vector);
            ExpandedSpanId::Inline(offset, len as usize)
        } else {
            ExpandedSpanId::Interned((inner & INDEX_MASK) as usize)
        }
    }
}

/// How an identifier shows itself when debugged: its offset and length, or
/// its index among the interned spans.
pub open spec fn span_debug_text(bits: u64) -> Seq<char> {
    if !is_interned_bits(bits) {
        "Inline { offset: "@ + int_digits(inline_offset(bits) as nat, 10, seq![]) + ", len: "@ + int_digits(
            inline_len(bits) as nat,
            10,
            seq![],
        ) + " }"@
    } else {
        "Interned("@ + int_digits(interned_index(bits) as nat, 10, seq![]) + ")"@
    }
}

impl SpanId {
    /// The text of the identifier when debugged (see [`span_debug_text`]).
    pub fn debug_text(self) -> (res: String)
        requires
            !is_interned_bits(self.bits()) ==> self.bits() & OFFSET_MASK >= 1,
            is_interned_bits(self.bits()) ==> interned_index(self.bits()) <= usize::MAX,
        ensures
            res@ == span_debug_text(self.bits()),
    {
        match self.expand() {
            ExpandedSpanId::Inline(offset, len) => {
                let o = decimal_text(offset as u128);
                let l = decimal_text(len as u128);
                let t = concat_str("Inline { offset: ", o.as_str());
                let t = concat_str(t.as_str(), ", len: ");
                let t = concat_str(t.as_str(), l.as_str());
                concat_str(t.as_str(), " }")
            },
            ExpandedSpanId::Interned(i) => {
                let d = decimal_text(i as u128);
                let t = concat_str("Interned(", d.as_str());
                concat_str(t.as_str(), ")")
            },
        }
    }
}

/// Abstract state of a [`SpanManager`].
pub struct SpanModel {
    /// End offset (exclusive) of each context on the line of contexts.
    pub ends: Seq<u64>,
    /// What each context stands for.
    pub contexts: Seq<SpanContext>,
    /// Context index of each source.
    pub sources: Seq<usize>,
    /// The interned spans: context index, start and end.
    pub interned: Seq<(usize, usize, usize)>,
}

impl SpanModel {
    /// Offset at which context `i` begins.
    pub open spec fn start_of(self, i: int) -> int {
        if i == 0 {
            0
        } else {
            self.ends[i - 1] as int
        }
    }

    /// Offset at which the next context would begin.
    pub open spec fn total(self) -> int {
        if self.ends.len() == 0 {
            0
        } else {
            self.ends.last() as int
        }
    }

    /// Whether `i` is the context that covers `offset`.
    pub open spec fn covers(self, i: int, offset: int) -> bool {
        &&& 0 <= i < self.ends.len()
        &&& self.start_of(i) <= offset < self.ends[i]
    }

    /// The index of the context that covers `offset`.
    pub open spec fn context_of(self, offset: int) -> int {
        choose|i: int| self.covers(i, offset)
    }

    /// Whether the span (context, start, end) lies inside its context.
    pub open spec fn span_in_bounds(self, t: (usize, usize, usize)) -> bool {
        &&& t.0 < self.ends.len()
        &&& t.1 <= t.2
        &&& self.start_of(t.0 as int) + t.2 < self.ends[t.0 as int]
    }

    /// The invariant of a span manager.
    pub closed spec fn wf(self) -> bool {
        &&& self.ends.len() == self.contexts.len()
        &&& self.ends.len() <= usize::MAX
        &&& self.sources.len() <= usize::MAX
        &&& self.interned.len() <= usize::MAX
        &&& self.ends.len() > 0 ==> self.ends[0] >= 1
        &&& forall|i: int, j: int| 0 <= i < j < self.ends.len() ==> self.ends[i] < self.ends[j]
        &&& forall|i: int| 0 <= i < self.ends.len() ==> #[trigger] self.ends[i] - self.start_of(i) <= usize::MAX + 1
        &&& forall|j: int|
            0 <= j < self.sources.len() ==> {
                &&& #[trigger] self.sources[j] < self.contexts.len()
                &&& self.contexts[self.sources[j] as int] matches SpanContext::Source(id) && id.index() == j
            }
        &&& forall|k: int| 0 <= k < self.interned.len() ==> self.span_in_bounds(#[trigger] self.interned[k])
        &&& forall|k1: int, k2: int|
            0 <= k1 < k2 < self.interned.len() ==> self.interned[k1] != self.interned[k2]
    }

    /// Whether the identifier bits denote a span of this manager.
    pub open spec fn valid_bits(self, bits: u64) -> bool {
        if is_interned_bits(bits) {
            0 <= interned_index(bits) < self.interned.len()
        } else {
            &&& bits & OFFSET_MASK >= 1
            &&& exists|i: int|
                self.covers(i, inline_offset(bits)) && inline_offset(bits) + inline_len(bits) < #[trigger] self.ends[i]
        }
    }

    /// The span (context index, start, end) that identifier bits denote.
    pub open spec fn lookup(self, bits: u64) -> (usize, usize, usize) {
        if is_interned_bits(bits) {
            self.interned[interned_index(bits)]
        } else {
            let offset = inline_offset(bits);
            let ctx = self.context_of(offset);
            let start = offset - self.start_of(ctx);
            (ctx as usize, start as usize, (start + inline_len(bits)) as usize)
        }
    }

    /// The state after a context of `len` bytes is added.
    pub open spec fn with_context(self, len: nat, context: SpanContext) -> SpanModel {
        SpanModel {
            ends: self.ends.push((self.total() + len + 1) as u64),
            contexts: self.contexts.push(context),
            sources: self.sources,
            interned: self.interned,
        }
    }

    /// The state after a source of `len` bytes is added.
    pub closed spec fn with_source(self, len: nat) -> SpanModel {
        let m = self.with_context(len, SpanContext::Source(SourceId(self.sources.len() as usize)));
        SpanModel { sources: self.sources.push(self.contexts.len() as usize), ..m }
    }

    /// Whether a span can be interned: it lies in an existing context, and
    /// the table of interned spans has room for one more index.
    pub open spec fn can_intern(self, context: usize, start: usize, end: usize) -> bool {
        &&& self.span_in_bounds((context, start, end))
        &&& self.interned.len() < usize::MAX
        &&& self.interned.len() + 1 < INTERNED_BIT
    }

    /// The state and the identifier bits after the span is interned.
    pub open spec fn intern(self, context: usize, start: usize, end: usize) -> (SpanModel, u64) {
        let offset = self.start_of(context as int) + start;
        let len = end - start;
        let t = (context, start, end);
        if len > LEN_MAX || offset >= OFFSET_MASK {
            if self.interned.contains(t) {
                (self, interned_bits((choose|k: int| 0 <= k < self.interned.len() && self.interned[k] == t) as u64))
            } else {
                (SpanModel { interned: self.interned.push(t), ..self }, interned_bits(self.interned.len() as u64))
            }
        } else {
            (self, inline_bits(offset as u64, len as u64))
        }
    }
}

/// Whether `i` is the only context that covers `offset`.
proof fn lemma_covers_unique(m: SpanModel, i: int, offset: int)
    requires
        m.wf(),
        m.covers(i, offset),
    ensures
        m.context_of(offset) == i,
{
    assert forall|j: int| m.covers(j, offset) implies j == i by {
        if j < i {
            assert(m.ends[j] <= m.start_of(i));
        } else if j > i {
            assert(m.ends[i] <= m.start_of(j));
        }
    }
}

/// Table of source contexts and interned spans.
pub struct SpanManager {
    contexts: Vec<(u64, SpanContext)>,
    sources: Vec<SpanContextId>,
    idx_to_span: Vec<(SpanContextId, usize, usize)>,
}

impl View for SpanManager {
    type V = SpanModel;

    closed spec fn view(&self) -> SpanModel {
        SpanModel {
            ends: self.contexts@.map_values(|e: (u64, SpanContext)| e.0),
            contexts: self.contexts@.map_values(|e: (u64, SpanContext)| e.1),
            sources: self.sources@.map_values(|c: SpanContextId| c.0),
            interned: self.idx_to_span@.map_values(|t: (SpanContextId, usize, usize)| (t.0.0, t.1, t.2)),
        }
    }
}

impl Default for SpanManager {
    fn default() -> (res: Self)
        ensures
            res@.wf(),
            res@.ends.len() == 0,
            res@.sources.len() == 0,
            res@.interned.len() == 0,
    {
        Self::new()
    }
}

impl SpanManager {
    /// An empty span manager.
    pub fn new() -> (res: Self)
        ensures
            res@.wf(),
            res@.ends.len() == 0,
            res@.contexts.len() == 0,
            res@.sources.len() == 0,
            res@.interned.len() == 0,
    {
        let res = Self { contexts: Vec::new(), sources: Vec::new(), idx_to_span: Vec::new() };
        assert(res@.ends =~= Seq::<u64>::empty());
        res
    }

    /// Adds a context for a new source of `len` bytes, and returns the
    /// identifiers of both.
    #[verifier::rlimit(40)]
    #[verifier::spinoff_prover]
    pub fn insert_source_context(&mut self, len: usize) -> (res: (SpanContextId, SourceId))
        requires
            old(self)@.wf(),
            old(self)@.total() + len + 1 <= u64::MAX,
        ensures
            final(self)@.wf(),
            final(self)@ == old(self)@.with_source(len as nat),
            final(self)@.ends == old(self)@.ends.push((old(self)@.total() + len + 1) as u64),
            final(self)@.contexts == old(self)@.contexts.push(SpanContext::Source(res.1)),
            final(self)@.sources == old(self)@.sources.push(old(self)@.contexts.len() as usize),
            final(self)@.interned == old(self)@.interned,
            final(self)@.contexts[res.0.index() as int] == SpanContext::Source(res.1),
            res.0.index() == old(self)@.contexts.len(),
            res.1.index() == old(self)@.sources.len(),
            extends(final(self)@, old(self)@),
            forall|b: u64|
                #![trigger final(self)@.lookup(b)]
                #![trigger old(self)@.valid_bits(b)]
                old(self)@.valid_bits(b) ==> final(self)@.valid_bits(b) && final(self)@.lookup(b) == old(self)@.lookup(b),
    {
        let source_id = SourceId(self.sources.len());
        let ghost m0 = self@;
        let context_id = self.insert_context(len, SpanContext::Source(source_id));
        self.sources.push(context_id);
        proof {
            lemma_ends_below_total(m0);
            assert(self.sources.len() == self@.sources.len());
            let m = self@;
            let w = old(self)@.with_source(len as nat);
            assert(m.sources =~= w.sources);
            assert(m.ends =~= w.ends);
            assert(m.contexts =~= w.contexts);
            assert(m.interned =~= w.interned);
            assert(self.contexts.len() == m.ends.len());
            let n = m0.ends.len();
            assert(m.ends[n as int] == m0.total() + len + 1);
            assert forall|i: int, j: int| 0 <= i < j < m.ends.len() implies m.ends[i] < m.ends[j] by {
                if j < n {
                    assert(m.ends[i] == m0.ends[i] && m.ends[j] == m0.ends[j]);
                } else {
                    assert(m.ends[i] == m0.ends[i]);
                }
            }
            assert forall|i: int| 0 <= i < m.ends.len() implies #[trigger] m.ends[i] - m.start_of(i) <= usize::MAX + 1 by {
                if i < n {
                    assert(m.ends[i] == m0.ends[i]);
                    assert(m.start_of(i) == m0.start_of(i));
                    assert(m0.ends[i] - m0.start_of(i) <= usize::MAX + 1);
                }
            }
            assert forall|j: int| 0 <= j < m.sources.len() implies {
                &&& #[trigger] m.sources[j] < m.contexts.len()
                &&& m.contexts[m.sources[j] as int] matches SpanContext::Source(id) && id.index() == j
            } by {
                if j < m0.sources.len() {
                    assert(m.sources[j] == m0.sources[j]);
                    assert(m0.sources[j] < m0.contexts.len());
                    assert(m.contexts[m.sources[j] as int] == m0.contexts[m0.sources[j] as int]);
                }
            }
            assert forall|k: int| 0 <= k < m.interned.len() implies m.span_in_bounds(#[trigger] m.interned[k]) by {
                let t = m.interned[k];
                assert(t == m0.interned[k]);
                assert(m0.span_in_bounds(t));
                assert(m.ends[t.0 as int] == m0.ends[t.0 as int]);
                assert(m.start_of(t.0 as int) == m0.start_of(t.0 as int));
            }
            assert forall|b: u64| m0.valid_bits(b) implies m.valid_bits(b) && #[trigger] m.lookup(b) == m0.lookup(b) by {
                law_new_source_context(m0, len as nat, b);
            }
            lemma_with_source_extends(m0, len as nat);
        }
        (context_id, source_id)
    }

    fn insert_context(&mut self, len: usize, context: SpanContext) -> (res: SpanContextId)
        requires
            old(self)@.wf(),
            old(self)@.total() + len + 1 <= u64::MAX,
            context == SpanContext::Source(SourceId(old(self)@.sources.len() as usize)),
        ensures
            final(self)@ == old(self)@.with_context(len as nat, context),
            final(self).sources@ == old(self).sources@,
            res.index() == old(self)@.contexts.len(),
    {
        let len = len as u64;
        let n = self.contexts.len();
        let base_offset = if n > 0 {
            self.contexts[n - 1].0
        } else {
            0
        };
        let context_id = SpanContextId(self.contexts.len());
        self.contexts.push((base_offset + len + 1, context));
        proof {
            assert(self.contexts.len() == self@.ends.len());
            let m = self@;
            let w = old(self)@.with_context(len as nat, context);
            assert(m.ends =~= w.ends);
            assert(m.contexts =~= w.contexts);
            assert(m.sources =~= w.sources);
            assert(m.interned =~= w.interned);
        }
        context_id
    }

    /// What a context stands for.
    pub fn get_context(&self, context: SpanContextId) -> (res: &SpanContext)
        requires
            context.index() < self@.contexts.len(),
        ensures
            *res == self@.contexts[context.index() as int],
    {
        &self.contexts[context.0].1
    }

    fn get_context_offsets(&self, context: SpanContextId) -> (res: (u64, u64))
        requires
            context.index() < self@.contexts.len(),
            self@.wf(),
        ensures
            res.0 == self@.start_of(context.index() as int),
            res.1 == self@.ends[context.index() as int],
    {
        let i = context.0;
        if i == 0 {
            (0, self.contexts[0].0)
        } else {
            (self.contexts[i - 1].0, self.contexts[i].0)
        }
    }

    fn get_context_from_offset(&self, offset: u64) -> (res: SpanContextId)
        requires
            self@.wf(),
            offset < self@.total(),
        ensures
            self@.covers(res.index() as int, offset as int),
            res.index() == self@.context_of(offset as int),
    {
        let ghost m = self@;
        let ghost ends = m.ends;
        let n = self.contexts.len();
        let mut lo: usize = 0;
        let mut hi: usize = n;
        while lo < hi
            invariant
                ends == self@.ends,
                n == ends.len(),
                n == self.contexts@.len(),
                0 <= lo <= hi <= n,
                forall|i: int, j: int| 0 <= i < j < n ==> ends[i] < ends[j],
                forall|i: int| 0 <= i < lo ==> ends[i] <= offset,
                forall|i: int| hi <= i < n ==> ends[i] > offset,
            decreases hi - lo,
        {
            let mid = lo + (hi - lo) / 2;
            assert(self.contexts@[mid as int].0 == ends[mid as int]);
            if self.contexts[mid].0 <= offset {
                lo = mid + 1;
            } else {
                hi = mid;
            }
        }
        proof {
            if lo == n {
                assert(m.ends[n - 1] <= offset);
            }
            assert(m.covers(lo as int, offset as int));
            lemma_covers_unique(m, lo as int, offset as int);
        }
        SpanContextId(lo)
    }

    /// Gives an identifier to the span from `start` to `end` (byte offsets)
    /// of `context`.
    pub fn intern_span(&mut self, context: SpanContextId, start: usize, end: usize) -> (res: SpanId)
        requires
            old(self)@.wf(),
            old(self)@.can_intern(context.index() as usize, start, end),
        ensures
            final(self)@.wf(),
            (final(self)@, res.bits()) == old(self)@.intern(context.index() as usize, start, end),
            final(self)@.valid_bits(res.bits()),
            final(self)@.lookup(res.bits()) == (context.index() as usize, start, end),
            final(self)@.lookup(res.bits()).0 == context.index(),
            final(self)@.ends == old(self)@.ends,
            final(self)@.contexts == old(self)@.contexts,
            final(self)@.sources == old(self)@.sources,
            extends(final(self)@, old(self)@),
            forall|b: u64|
                #![trigger final(self)@.lookup(b)]
                #![trigger old(self)@.valid_bits(b)]
                old(self)@.valid_bits(b) ==> final(self)@.valid_bits(b) && final(self)@.lookup(b) == old(self)@.lookup(b),
    {
        let ghost m = self@;
        let res = self.intern_span_in_table(context, start, end);
        proof {
            law_intern_then_lookup(m, context.index() as usize, start, end);
            lemma_intern_extends(m, context.index() as usize, start, end);
            assert forall|b: u64| m.valid_bits(b) implies self@.valid_bits(b) && #[trigger] self@.lookup(b) == m.lookup(b) by {
                law_intern_keeps_earlier_spans(m, context.index() as usize, start, end, b);
            }
        }
        res
    }

    fn intern_span_in_table(&mut self, context: SpanContextId, start: usize, end: usize) -> (res: SpanId)
        requires
            old(self)@.wf(),
            old(self)@.can_intern(context.index() as usize, start, end),
        ensures
            final(self)@.wf(),
            (final(self)@, res.bits()) == old(self)@.intern(context.index() as usize, start, end),
            final(self)@.valid_bits(res.bits()),
    {
        let ghost m = self@;
        let ghost c = context.0;
        let start_u64 = start as u64;
        let end_u64 = end as u64;
        let (min_offset, max_offset) = self.get_context_offsets(context);
        let start_offset = min_offset + start_u64;
        let end_offset = min_offset + end_u64;

        let len = end_u64 - start_u64;
        if len > LEN_MAX || start_offset >= OFFSET_MASK {
            let n = self.idx_to_span.len();
            let mut k: usize = 0;
            while k < n
                invariant
                    m == self@,
                    m.wf(),
                    m.can_intern(c, start, end),
                    c == context.0,
                    len > LEN_MAX || start_offset >= OFFSET_MASK,
                    start_offset == m.start_of(c as int) + start,
                    len == end - start,
                    n == m.interned.len(),
                    0 <= k <= n,
                    forall|j: int| 0 <= j < k ==> m.interned[j] != (c, start, end),
                decreases n - k,
            {
                let e = &self.idx_to_span[k];
                assert(m.interned[k as int] == (self.idx_to_span@[k as int].0.0, self.idx_to_span@[k as int].1, self.idx_to_span@[k as int].2));
                if e.0.0 == context.0 && e.1 == start && e.2 == end {
                    proof {
                        assert(m.interned[k as int] == (c, start, end));
                        assert(m.interned.contains((c, start, end)));
                        let kk = choose|j: int| 0 <= j < m.interned.len() && m.interned[j] == (c, start, end);
                        if kk != k {
                            if kk < k {
                            } else {
                                assert(m.interned[k as int] != m.interned[kk]);
                            }
                        }
                        lemma_interned_bits(k as u64);
                    }
                    return SpanId((k as u64) | INTERNED_BIT);
                }
                k += 1;
            }
            let span = (context, start, end);
            self.idx_to_span.push(span);
            proof {
                assert(self.idx_to_span.len() == self@.interned.len());
                assert(!m.interned.contains((c, start, end)));
                let w = m.intern(c, start, end).0;
                assert(self@.interned =~= w.interned);
                assert(self@.ends =~= w.ends);
                assert(self@.contexts =~= w.contexts);
                assert(self@.sources =~= w.sources);
                lemma_interned_bits(n as u64);
                assert(self@.interned[n as int] == (c, start, end));
            }
            SpanId((n as u64) | INTERNED_BIT)
        } else {
            proof {
                lemma_inline_bits(start_offset, len);
                assert(m.covers(c as int, start_offset as int));
                lemma_covers_unique(m, c as int, start_offset as int);
            }
            SpanId((start_offset + 1) | (len << OFFSET_BITS))
        }
    }

    /// The context, start and end of a span.
    pub fn get_span(&self, span: SpanId) -> (res: (SpanContextId, usize, usize))
        requires
            self@.wf(),
            self@.valid_bits(span.bits()),
        ensures
            (res.0.index() as usize, res.1, res.2) == self@.lookup(span.bits()),
            res.0.index() == self@.lookup(span.bits()).0,
            res.0.index() < self@.contexts.len(),
    {
        proof {
            assert(self.idx_to_span.len() == self@.interned.len());
        }
        match span.expand() {
            ExpandedSpanId::Inline(start_offset, len) => {
                proof {
                    let offset = start_offset as int;
                    let i = choose|i: int|
                        self@.covers(i, offset) && offset + inline_len(span.bits()) < #[trigger] self@.ends[i];
                    lemma_covers_unique(self@, i, offset);
                    lemma_covered_below_total(self@, i, offset);
                }
                let context = self.get_context_from_offset(start_offset);
                let (min_offset, _) = self.get_context_offsets(context);
                let start = (start_offset - min_offset) as usize;
                (context, start, start + len)
            },
            ExpandedSpanId::Interned(i) => {
                let e = &self.idx_to_span[i];
                proof {
                    assert(self@.interned[i as int] == (e.0.0, e.1, e.2));
                    assert(self@.span_in_bounds(self@.interned[i as int]));
                }
                (e.0, e.1, e.2)
            },
        }
    }

    /// Interns the span from the start of `start_span` to the end of
    /// `end_span`, which lie in one context.
    pub fn make_surrounding_span(&mut self, start_span: SpanId, end_span: SpanId) -> (res: SpanId)
        requires
            old(self)@.wf(),
            old(self)@.valid_bits(start_span.bits()),
            old(self)@.valid_bits(end_span.bits()),
            old(self)@.lookup(start_span.bits()).0 == old(self)@.lookup(end_span.bits()).0,
            old(self)@.lookup(start_span.bits()).1 <= old(self)@.lookup(end_span.bits()).2,
            old(self)@.interned.len() < usize::MAX,
            old(self)@.interned.len() + 1 < INTERNED_BIT,
        ensures
            final(self)@.wf(),
            (final(self)@, res.bits()) == old(self)@.intern(
                old(self)@.lookup(start_span.bits()).0,
                old(self)@.lookup(start_span.bits()).1,
                old(self)@.lookup(end_span.bits()).2,
            ),
    {
        let (start_ctx_id, start_start_pos, _) = self.get_span(start_span);
        let (end_ctx_id, _, end_end_pos) = self.get_span(end_span);
        proof {
            lemma_lookup_in_bounds(self@, end_span.bits());
        }
        self.intern_span(start_ctx_id, start_start_pos, end_end_pos)
    }
}

/// A valid span lies inside its context.
pub proof fn lemma_lookup_in_bounds(m: SpanModel, bits: u64)
    requires
        m.wf(),
        m.valid_bits(bits),
    ensures
        m.span_in_bounds(m.lookup(bits)),
{
    if !is_interned_bits(bits) {
        let offset = inline_offset(bits);
        let len = inline_len(bits);
        let i = choose|i: int| m.covers(i, offset) && offset + inline_len(bits) < #[trigger] m.ends[i];
        lemma_covers_unique(m, i, offset);
        assert(m.ends[i] - m.start_of(i) <= usize::MAX + 1);
        let start = offset - m.start_of(i);
        assert(0 <= start && start + len <= usize::MAX);
        let t = m.lookup(bits);
        assert(t.0 == i && t.1 == start && t.2 == start + len);
    }
}

/// Every context ends at or before the end of the last one.
proof fn lemma_ends_below_total(m: SpanModel)
    requires
        m.wf(),
    ensures
        forall|i: int| 0 <= i < m.ends.len() ==> m.ends[i] <= m.total(),
{
    assert forall|i: int| 0 <= i < m.ends.len() implies m.ends[i] <= m.total() by {
        if i < m.ends.len() - 1 {
            assert(m.ends[i] < m.ends[m.ends.len() - 1]);
        }
    }
}

/// An offset covered by a context lies before the end of the last context.
proof fn lemma_covered_below_total(m: SpanModel, i: int, offset: int)
    requires
        m.wf(),
        m.covers(i, offset),
    ensures
        offset < m.total(),
{
    if i < m.ends.len() - 1 {
        assert(m.ends[i] < m.ends[m.ends.len() - 1]);
    }
}

/// Interning a span and looking its identifier up gives the span back.
#[verifier::rlimit(60)]
#[verifier::spinoff_prover]
pub proof fn law_intern_then_lookup(m: SpanModel, context: usize, start: usize, end: usize)
    requires
        m.wf(),
        m.can_intern(context, start, end),
    ensures
        m.intern(context, start, end).0.wf(),
        m.intern(context, start, end).0.valid_bits(m.intern(context, start, end).1),
        m.intern(context, start, end).0.lookup(m.intern(context, start, end).1) == (context, start, end),
{
    let (m2, bits) = m.intern(context, start, end);
    let offset = m.start_of(context as int) + start;
    let len = end - start;
    let t = (context, start, end);
    if len > LEN_MAX || offset >= OFFSET_MASK {
        if m.interned.contains(t) {
            let k = choose|k: int| 0 <= k < m.interned.len() && m.interned[k] == t;
            lemma_interned_bits(k as u64);
        } else {
            let n = m.interned.len();
            lemma_interned_bits(n as u64);
            lemma_push_interned_wf(m, t);
            assert(m2.interned[n as int] == t);
        }
    } else {
        lemma_inline_bits(offset as u64, len as u64);
        assert(m.covers(context as int, offset));
        lemma_covers_unique(m, context as int, offset);
    }
}

proof fn lemma_push_interned_wf(m: SpanModel, t: (usize, usize, usize))
    requires
        m.wf(),
        m.span_in_bounds(t),
        !m.interned.contains(t),
        m.interned.len() < usize::MAX,
    ensures
        (SpanModel { interned: m.interned.push(t), ..m }).wf(),
{
    let m2 = SpanModel { interned: m.interned.push(t), ..m };
    let n = m.interned.len();
    assert forall|k1: int, k2: int| 0 <= k1 < k2 < m2.interned.len() implies m2.interned[k1] != m2.interned[k2] by {
        if k2 == n {
            assert(m.interned.contains(m.interned[k1]));
        } else {
            assert(m2.interned[k1] == m.interned[k1]);
            assert(m2.interned[k2] == m.interned[k2]);
        }
    }
    assert forall|k: int| 0 <= k < m2.interned.len() implies m2.span_in_bounds(#[trigger] m2.interned[k]) by {
        if k < n {
            assert(m2.interned[k] == m.interned[k]);
        }
    }
    assert forall|j: int| 0 <= j < m2.sources.len() implies {
        &&& #[trigger] m2.sources[j] < m2.contexts.len()
        &&& m2.contexts[m2.sources[j] as int] matches SpanContext::Source(id) && id.index() == j
    } by {
        assert(m.sources[j] < m.contexts.len());
    }
}

/// Interning a span leaves the span of every earlier identifier as it was.
pub proof fn law_intern_keeps_earlier_spans(
    m: SpanModel,
    context: usize,
    start: usize,
    end: usize,
    earlier: u64,
)
    requires
        m.wf(),
        m.can_intern(context, start, end),
        m.valid_bits(earlier),
    ensures
        m.intern(context, start, end).0.valid_bits(earlier),
        m.intern(context, start, end).0.lookup(earlier) == m.lookup(earlier),
{
    law_intern_then_lookup(m, context, start, end);
    let (m2, bits) = m.intern(context, start, end);
    if is_interned_bits(earlier) {
        assert(m2.interned[interned_index(earlier)] == m.interned[interned_index(earlier)]);
    } else {
        assert(m2.ends == m.ends);
        let offset = inline_offset(earlier);
        let i = choose|i: int| m.covers(i, offset) && offset + inline_len(earlier) < #[trigger] m.ends[i];
        lemma_covers_unique(m, i, offset);
        assert(m2.covers(i, offset));
        lemma_covers_unique(m2, i, offset);
    }
}

/// Interning a span a second time gives the same identifier and leaves the
/// state as it was.
pub proof fn law_intern_is_idempotent(m: SpanModel, context: usize, start: usize, end: usize)
    requires
        m.wf(),
        m.can_intern(context, start, end),
        m.intern(context, start, end).0.can_intern(context, start, end),
    ensures
        m.intern(context, start, end).0.intern(context, start, end) == m.intern(context, start, end),
{
    law_intern_then_lookup(m, context, start, end);
    let (m2, bits) = m.intern(context, start, end);
    let offset = m.start_of(context as int) + start;
    let len = end - start;
    let t = (context, start, end);
    if len > LEN_MAX || offset >= OFFSET_MASK {
        let n = m.interned.len();
        if !m.interned.contains(t) {
            assert(m2.interned[n as int] == t);
            assert(m2.interned.contains(t));
            let k = choose|k: int| 0 <= k < m2.interned.len() && m2.interned[k] == t;
            if k != n {
                assert(m2.interned[k] != m2.interned[n as int]);
            }
            assert(m2.start_of(context as int) == m.start_of(context as int));
        }
    }
}

/// A new source gets a context that stands for it, and every earlier
/// identifier keeps its span.
pub proof fn law_new_source_context(m: SpanModel, len: nat, earlier: u64)
    requires
        m.wf(),
        m.valid_bits(earlier),
    ensures
        m.with_source(len).contexts[m.contexts.len() as int] matches SpanContext::Source(id) && id.index()
            == m.sources.len(),
        m.with_source(len).sources[m.sources.len() as int] == m.contexts.len(),
        m.with_source(len).valid_bits(earlier),
        m.with_source(len).lookup(earlier) == m.lookup(earlier),
{
    let m2 = m.with_source(len);
    if !is_interned_bits(earlier) {
        let offset = inline_offset(earlier);
        let i = choose|i: int| m.covers(i, offset) && offset + inline_len(earlier) < #[trigger] m.ends[i];
        lemma_covers_unique(m, i, offset);
        assert(m2.ends[i] == m.ends[i]);
        assert(m2.start_of(i) == m.start_of(i));
        assert(m2.covers(i, offset));
        assert forall|j: int| m2.covers(j, offset) implies j == i by {
            lemma_ends_below_total(m);
            if j == m.ends.len() {
                assert(m2.start_of(j) == m.total());
                assert(m.ends[i] <= m.total());
            } else if j < i {
                assert(m.ends[j] <= m.start_of(i));
            } else if j > i {
                assert(m.ends[i] <= m.start_of(j));
            }
        }
    }
}


/// Whether `later` keeps every context and every interned span of `m`, at
/// the same place: it is `m` after contexts were added and spans interned.
pub open spec fn extends(later: SpanModel, m: SpanModel) -> bool {
    &&& m.ends.len() <= later.ends.len()
    &&& forall|i: int| 0 <= i < m.ends.len() ==> #[trigger] later.ends[i] == m.ends[i]
    &&& m.interned.len() <= later.interned.len()
    &&& forall|k: int| 0 <= k < m.interned.len() ==> #[trigger] later.interned[k] == m.interned[k]
}

/// Adding a source keeps what was there.
pub proof fn lemma_with_source_extends(m: SpanModel, len: nat)
    ensures
        extends(m.with_source(len), m),
{
}

/// Interning a span keeps what was there.
pub proof fn lemma_intern_extends(m: SpanModel, context: usize, start: usize, end: usize)
    ensures
        extends(m.intern(context, start, end).0, m),
{
}

/// Keeping what was there is transitive.
pub proof fn lemma_extends_trans(m1: SpanModel, m2: SpanModel, m3: SpanModel)
    requires
        extends(m2, m1),
        extends(m3, m2),
    ensures
        extends(m3, m1),
{
}

/// An identifier keeps its span in every state that keeps what was there.
pub proof fn lemma_extends_keeps_lookup(m: SpanModel, later: SpanModel, bits: u64)
    requires
        m.wf(),
        later.wf(),
        extends(later, m),
        m.valid_bits(bits),
    ensures
        later.valid_bits(bits),
        later.lookup(bits) == m.lookup(bits),
{
    if !is_interned_bits(bits) {
        let offset = inline_offset(bits);
        let i = choose|i: int| m.covers(i, offset) && offset + inline_len(bits) < #[trigger] m.ends[i];
        lemma_covers_unique(m, i, offset);
        assert(later.ends[i] == m.ends[i]);
        if i > 0 {
            assert(later.ends[i - 1] == m.ends[i - 1]);
        }
        assert(later.start_of(i) == m.start_of(i));
        assert(later.covers(i, offset));
        lemma_covers_unique(later, i, offset);
    } else {
        assert(later.interned[interned_index(bits)] == m.interned[interned_index(bits)]);
    }
}

/// Interning gives one identifier per span: where identifier `a` was given
/// to span `t1`, and span `t2` is interned in any later state, `t2` gets
/// `a` exactly where it is `t1`.
pub proof fn law_intern_identity(
    m1: SpanModel,
    c1: usize,
    s1: usize,
    e1: usize,
    m2: SpanModel,
    c2: usize,
    s2: usize,
    e2: usize,
)
    requires
        m1.wf(),
        m1.can_intern(c1, s1, e1),
        m2.wf(),
        extends(m2, m1.intern(c1, s1, e1).0),
        m2.can_intern(c2, s2, e2),
    ensures
        (m2.intern(c2, s2, e2).1 == m1.intern(c1, s1, e1).1) == ((c2, s2, e2) == (c1, s1, e1)),
{
    let (m1b, a) = m1.intern(c1, s1, e1);
    let (m2b, b) = m2.intern(c2, s2, e2);
    law_intern_then_lookup(m1, c1, s1, e1);
    lemma_extends_keeps_lookup(m1b, m2, a);
    law_intern_then_lookup(m2, c2, s2, e2);
    law_intern_keeps_earlier_spans(m2, c2, s2, e2, a);
    if (c2, s2, e2) == (c1, s1, e1) {
        let t = (c1, s1, e1);
        assert(m2.ends[c1 as int] == m1.ends[c1 as int]);
        if c1 > 0 {
            assert(m2.ends[c1 - 1] == m1.ends[c1 - 1]);
        }
        assert(m2.start_of(c1 as int) == m1.start_of(c1 as int));
        let offset = m1.start_of(c1 as int) + s1;
        let len = e1 - s1;
        if len > LEN_MAX || offset >= OFFSET_MASK {
            let k: int = if m1.interned.contains(t) {
                choose|k: int| 0 <= k < m1.interned.len() && m1.interned[k] == t
            } else {
                m1.interned.len() as int
            };
            assert(m1b.interned[k] == t);
            assert(a == interned_bits(k as u64));
            assert(m2.interned[k] == t);
            assert(m2.interned.contains(t));
            let k2 = choose|k2: int| 0 <= k2 < m2.interned.len() && m2.interned[k2] == t;
            if k2 != k {
                if k2 < k {
                    assert(m2.interned[k2] != m2.interned[k]);
                } else {
                    assert(m2.interned[k] != m2.interned[k2]);
                }
            }
        }
    }
}


/// What the invariant of a span manager gives its callers: every context
/// has an end, and the tables fit in a `usize`.
pub proof fn lemma_wf_bounds(m: SpanModel)
    requires
        m.wf(),
    ensures
        m.ends.len() == m.contexts.len(),
        m.contexts.len() <= usize::MAX,
        m.sources.len() <= usize::MAX,
        m.interned.len() <= usize::MAX,
        forall|j: int| 0 <= j < m.sources.len() ==> #[trigger] m.sources[j] < m.contexts.len(),
{
}

} // verus!
