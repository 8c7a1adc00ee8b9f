use rsjsonnet_lang::span::{SpanContext, SpanManager};

#[test]
fn contexts_are_numbered_in_order() {
    let mut manager = SpanManager::new();
    let (ctx_a, src_a) = manager.insert_source_context(10);
    let (ctx_b, src_b) = manager.insert_source_context(5);
    assert_ne!(ctx_a, ctx_b);
    assert_ne!(src_a, src_b);
    assert_eq!(manager.get_context(ctx_a), &SpanContext::Source(src_a));
    assert_eq!(manager.get_context(ctx_b), &SpanContext::Source(src_b));
}

#[test]
fn interned_span_is_looked_up_again() {
    let mut manager = SpanManager::new();
    let (ctx_a, _) = manager.insert_source_context(10);
    let (ctx_b, _) = manager.insert_source_context(5);
    let a = manager.intern_span(ctx_a, 2, 5);
    let b = manager.intern_span(ctx_b, 0, 5);
    let c = manager.intern_span(ctx_a, 10, 10);
    assert_eq!(manager.get_span(a), (ctx_a, 2, 5));
    assert_eq!(manager.get_span(b), (ctx_b, 0, 5));
    assert_eq!(manager.get_span(c), (ctx_a, 10, 10));
}

#[test]
fn interning_twice_gives_one_identifier() {
    let mut manager = SpanManager::new();
    let (ctx, _) = manager.insert_source_context(100);
    let first = manager.intern_span(ctx, 3, 40);
    let second = manager.intern_span(ctx, 3, 40);
    assert_eq!(first, second);
    let other = manager.intern_span(ctx, 3, 41);
    assert_ne!(first, other);
}

#[test]
fn long_spans_are_kept_in_the_table() {
    let mut manager = SpanManager::new();
    let len = 1usize << 27;
    let (ctx, _) = manager.insert_source_context(len);
    let whole = manager.intern_span(ctx, 0, len);
    let again = manager.intern_span(ctx, 0, len);
    let part = manager.intern_span(ctx, 1, len);
    assert_eq!(whole, again);
    assert_ne!(whole, part);
    assert_eq!(manager.get_span(whole), (ctx, 0, len));
    assert_eq!(manager.get_span(part), (ctx, 1, len));
    let short = manager.intern_span(ctx, 5, 9);
    assert_eq!(manager.get_span(short), (ctx, 5, 9));
}

#[test]
fn surrounding_span_runs_from_first_start_to_second_end() {
    let mut manager = SpanManager::new();
    let (_, _) = manager.insert_source_context(7);
    let (ctx, _) = manager.insert_source_context(50);
    let a = manager.intern_span(ctx, 4, 8);
    let b = manager.intern_span(ctx, 20, 31);
    let both = manager.make_surrounding_span(a, b);
    assert_eq!(manager.get_span(both), (ctx, 4, 31));
}

#[test]
fn identifiers_show_their_offset_or_index() {
    let mut manager = SpanManager::new();
    let (ctx_a, _) = manager.insert_source_context(10);
    let (ctx_b, _) = manager.insert_source_context(5);
    let a = manager.intern_span(ctx_a, 2, 5);
    let b = manager.intern_span(ctx_b, 1, 4);
    assert_eq!(a.debug_text(), "Inline { offset: 2, len: 3 }");
    assert_eq!(b.debug_text(), "Inline { offset: 12, len: 3 }");
    let mut big = SpanManager::new();
    let len = 1usize << 27;
    let (ctx, _) = big.insert_source_context(len);
    let long = big.intern_span(ctx, 0, len);
    assert_eq!(long.debug_text(), "Interned(0)");
}

#[test]
fn later_contexts_keep_earlier_ones_and_their_spans() {
    let mut m = SpanManager::new();
    let (c0, s0) = m.insert_source_context(10);
    let early = m.intern_span(c0, 2, 5);
    let (c1, s1) = m.insert_source_context(5);
    assert_eq!(m.get_context(c0), &SpanContext::Source(s0));
    assert_eq!(m.get_context(c1), &SpanContext::Source(s1));
    assert_eq!(m.get_span(early), (c0, 2, 5));
    // a span that starts exactly where context 0 ends belongs to context 1
    let id = m.intern_span(c1, 0, 5);
    assert_eq!(m.get_span(id), (c1, 0, 5));
    // the same span interned after other calls gets the same identifier
    let again = m.intern_span(c0, 2, 5);
    assert_eq!(again, early);
    assert_ne!(m.intern_span(c0, 2, 6), early);
}

#[test]
fn a_span_just_over_the_inline_limit_is_interned() {
    let mut m = SpanManager::new();
    let (c, _) = m.insert_source_context(33554432);
    let id = m.intern_span(c, 0, 33554432);
    assert_eq!(id.debug_text(), "Interned(0)");
    assert_eq!(m.get_span(id), (c, 0, 33554432));
}
