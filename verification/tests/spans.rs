use managed_gc::datastruct::{ObjectId, PAGE_SIZE};
use managed_gc::managed_heap::{ManagedHeap, SpanId};
use managed_gc::mcentral::MCentral;
use managed_gc::mspan::{MSpan, MSpanSizeClass};

const CLASSES: [MSpanSizeClass; MSpanSizeClass::COUNT] = [
    MSpanSizeClass::B64,
    MSpanSizeClass::B128,
    MSpanSizeClass::B256,
    MSpanSizeClass::B512,
    MSpanSizeClass::B3072,
];

#[test]
fn class_tables() {
    let sizes: Vec<usize> = CLASSES.iter().map(|c| c.block_size()).collect();
    let pages: Vec<usize> = CLASSES.iter().map(|c| c.pages_per_span()).collect();
    let index: Vec<usize> = CLASSES.iter().map(|c| c.to_index()).collect();
    assert_eq!(sizes, vec![64, 128, 256, 512, 3072]);
    assert_eq!(pages, vec![1, 1, 1, 1, 3]);
    assert_eq!(index, vec![0, 1, 2, 3, 4]);
}

#[test]
fn blocks_fill_their_span() {
    let blocks: Vec<usize> =
        CLASSES.iter().map(|c| MSpan::new(*c, ObjectId(4096)).total_blocks).collect();
    assert_eq!(blocks, vec![64, 32, 16, 8, 4]);
    for c in CLASSES {
        let span = MSpan::new(c, ObjectId(4096));
        assert_eq!(span.total_blocks * c.block_size(), c.pages_per_span() * PAGE_SIZE);
        assert_eq!(span.alloc_bits, [0; 4]);
        assert_eq!(span.marked_bits, [0; 4]);
    }
}

#[test]
fn spans_can_be_made_anywhere() {
    let span = MSpan::new(MSpanSizeClass::B512, ObjectId(usize::MAX));
    assert_eq!(span.start_id, ObjectId(usize::MAX));
    assert_eq!(span.total_blocks, 8);
    assert!(!span.is_full());
    assert_eq!(span.find_next_block(), Some(ObjectId(usize::MAX)));
}

#[test]
fn blocks_are_found_lowest_first() {
    let mut span = MSpan::new(MSpanSizeClass::B64, ObjectId(8192));
    assert_eq!(span.find_next_block(), Some(ObjectId(8192)));
    span.publish_block(ObjectId(8192));
    assert_eq!(span.find_next_block(), Some(ObjectId(8256)));
    span.publish_block(ObjectId(8192 + 2 * 64));
    assert_eq!(span.find_next_block(), Some(ObjectId(8256)));
    span.publish_block(ObjectId(8256));
    assert_eq!(span.find_next_block(), Some(ObjectId(8192 + 3 * 64)));
    assert_eq!(span.alloc_bits, [0b111, 0, 0, 0]);
}

#[test]
fn full_spans_have_no_block_left() {
    for c in CLASSES {
        let mut span = MSpan::new(c, ObjectId(4096));
        for k in 0..span.total_blocks {
            assert!(!span.is_full());
            assert_eq!(span.find_next_block(), Some(ObjectId(4096 + k * c.block_size())));
            span.publish_block(ObjectId(4096 + k * c.block_size()));
            assert!(span.allocated_at(k));
        }
        assert!(span.is_full());
        assert_eq!(span.find_next_block(), None);
    }
}

#[test]
fn a_full_word_does_not_end_the_search() {
    let mut span = MSpan::new(MSpanSizeClass::B64, ObjectId(4096));
    span.total_blocks = 130;
    span.alloc_bits = [u64::MAX, 0b11, 0, 0];
    assert_eq!(span.find_next_block(), Some(ObjectId(4096 + 66 * 64)));
    span.alloc_bits = [u64::MAX, u64::MAX, 0b1, 0];
    assert_eq!(span.find_next_block(), Some(ObjectId(4096 + 129 * 64)));
    span.alloc_bits = [u64::MAX, u64::MAX, 0b11, 0];
    assert_eq!(span.find_next_block(), None);
    assert!(span.is_full());
}

#[test]
fn publishing_an_inner_offset_takes_its_block() {
    let mut span = MSpan::new(MSpanSizeClass::B512, ObjectId(4096));
    span.publish_block(ObjectId(4096 + 512 * 3 + 17));
    assert_eq!(span.alloc_bits, [0b1000, 0, 0, 0]);
}

#[test]
fn marks_are_set_once() {
    let mut span = MSpan::new(MSpanSizeClass::B64, ObjectId(4096));
    assert!(span.mark_at(63));
    assert!(!span.mark_at(63));
    assert!(span.mark_at(0));
    assert_eq!(span.marked_bits, [1 | 1 << 63, 0, 0, 0]);
    assert_eq!(span.alloc_bits, [0; 4]);
}

#[test]
fn sweeping_keeps_marked_blocks() {
    let mut span = MSpan::new(MSpanSizeClass::B128, ObjectId(4096));
    span.alloc_bits = [0b1110, 0, 0, 0];
    span.marked_bits = [0b0111, 0, 0, 0];
    span.sweep();
    assert_eq!(span.alloc_bits, [0b0110, 0, 0, 0]);
    assert_eq!(span.marked_bits, [0; 4]);
}

#[test]
fn sweeping_leaves_words_without_blocks_alone() {
    let mut span = MSpan::new(MSpanSizeClass::B64, ObjectId(4096));
    span.alloc_bits = [5, 6, 0, 0];
    span.marked_bits = [4, 2, 0, 0];
    span.sweep();
    assert_eq!(span.alloc_bits, [4, 6, 0, 0]);
    assert_eq!(span.marked_bits, [0, 2, 0, 0]);
}

#[test]
fn spans_are_cut_one_behind_the_other() {
    let mut heap = ManagedHeap::new(7 * 4096);
    assert_eq!(heap.get_page_map_len(), 8);
    let a = heap.grow_span(MSpanSizeClass::B64).unwrap();
    let b = heap.grow_span(MSpanSizeClass::B3072).unwrap();
    assert_eq!(heap.span(a).start_id, ObjectId(4096));
    assert_eq!(heap.span(b).start_id, ObjectId(8192));
    assert!(heap.grow_span(MSpanSizeClass::B3072).is_err());
    let c = heap.grow_span(MSpanSizeClass::B512).unwrap();
    assert_eq!(heap.span(c).start_id, ObjectId(8192 + 12288));
    let d = heap.grow_span(MSpanSizeClass::B512).unwrap();
    assert_eq!(heap.span(d).start_id, ObjectId(6 * 4096));
    assert!(heap.grow_span(MSpanSizeClass::B64).is_err());
    let owners: Vec<Option<SpanId>> = (0..10).map(|p| heap.get_span_for_page(p)).collect();
    assert_eq!(
        owners,
        vec![None, Some(a), Some(b), Some(b), Some(b), Some(c), Some(d), None, None, None]
    );
}

#[test]
fn pool_hands_out_the_latest_span_with_room() {
    let mut heap = ManagedHeap::new(64 * 4096);
    let mut pool = MCentral::new();
    assert_eq!(pool.pop_span(MSpanSizeClass::B64), None);
    let a = heap.grow_span(MSpanSizeClass::B64).unwrap();
    let b = heap.grow_span(MSpanSizeClass::B64).unwrap();
    let full = heap.grow_span(MSpanSizeClass::B64).unwrap();
    heap.span_mut(full).alloc_bits = [u64::MAX, 0, 0, 0];
    pool.push_span(MSpanSizeClass::B64, a, &heap);
    pool.push_span(MSpanSizeClass::B64, full, &heap);
    pool.push_span(MSpanSizeClass::B64, b, &heap);
    assert_eq!(pool.bins[0].full, vec![full]);
    assert_eq!(pool.pop_span(MSpanSizeClass::B128), None);
    assert_eq!(pool.pop_span(MSpanSizeClass::B64), Some(b));
    assert_eq!(pool.pop_span(MSpanSizeClass::B64), Some(a));
    assert_eq!(pool.pop_span(MSpanSizeClass::B64), None);
}

#[test]
fn swept_spans_move_to_the_spans_with_room() {
    let mut heap = ManagedHeap::new(64 * 4096);
    let mut pool = MCentral::new();
    let mut spans: Vec<SpanId> = Vec::new();
    for _ in 0..3 {
        let s = heap.grow_span(MSpanSizeClass::B512).unwrap();
        heap.span_mut(s).alloc_bits = [0xFF, 0, 0, 0];
        pool.push_span(MSpanSizeClass::B512, s, &heap);
        spans.push(s);
    }
    pool.sweep_full_spans(&heap);
    assert_eq!(pool.bins[3].full, spans);
    heap.span_mut(spans[0]).alloc_bits = [0x7F, 0, 0, 0];
    heap.span_mut(spans[2]).alloc_bits = [0, 0, 0, 0];
    pool.sweep_full_spans(&heap);
    assert_eq!(pool.bins[3].full, vec![spans[1]]);
    assert_eq!(pool.bins[3].partial, vec![spans[0], spans[2]]);
}
