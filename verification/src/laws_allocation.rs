//! What holds of allocation in the paged runtime.

use crate::datastruct::{ManagedObject, ObjectId, OBJ_HEADER_SIZE, PAGE_SIZE};
use crate::laws_collection::law_blocks_disjoint;
use crate::managed_heap::{HeapState, SpanId};
use crate::mcache::{exhausted, provided, served, source, source_usable, target};
use crate::mcentral::CentralState;
use crate::memory::{lemma_same_word, lemma_word_bytes, lemma_word_written, splice, word_bytes};
use crate::mspan::{MSpan, MSpanSizeClass};
use vstd::prelude::*;

verus! {

/// Cutting a span from the next free pages adds its blocks, all of them free and unmarked, and changes
/// nothing about the others.
pub proof fn law_grow_adds_free_blocks(h: HeapState, size_class: MSpanSizeClass)
    requires
        h.wf(),
        h.spans.len() < usize::MAX,
        h.next_page_offset + size_class.span_bytes() <= h.memory.len(),
    ensures
        ({
            let span = MSpan::fresh(size_class, ObjectId(h.next_page_offset as usize));
            let g = h.with_span(span);
            &&& g.wf()
            &&& forall|id: ObjectId| #[trigger]
                g.is_block(id) == (h.is_block(id) || span.is_block(id))
            &&& forall|id: ObjectId| span.is_block(id) ==> !#[trigger] h.is_block(id)
            &&& forall|id: ObjectId| #[trigger] g.allocated(id) == h.allocated(id)
            &&& forall|id: ObjectId| #[trigger] g.marked(id) == h.marked(id)
            &&& forall|id: ObjectId| h.is_block(id) ==> #[trigger] g.home(id) == h.home(id)
        }),
{
    let start = ObjectId(h.next_page_offset as usize);
    let span = MSpan::fresh(size_class, start);
    let g = h.with_span(span);
    let new = SpanId(h.spans.len() as usize);
    MSpan::lemma_fresh(size_class, start);
    span.lemma_wf_in_range();
    crate::managed_heap::lemma_with_span_wf(h, span);
    assert forall|id: ObjectId|
        #![trigger g.is_block(id)]
        #![trigger h.is_block(id)]
        #![trigger g.allocated(id)]
        #![trigger g.marked(id)]
        #![trigger g.home(id)]
        {
            &&& g.is_block(id) == (h.is_block(id) || span.is_block(id))
            &&& span.is_block(id) ==> !h.is_block(id)
            &&& g.allocated(id) == h.allocated(id)
            &&& g.marked(id) == h.marked(id)
            &&& h.is_block(id) ==> g.home(id) == h.home(id)
        } by {
        let p = id.0 as int / PAGE_SIZE as int;
        assert(p * PAGE_SIZE <= id.0 < p * PAGE_SIZE + PAGE_SIZE);
        if h.is_block(id) {
            h.lemma_block_bounds(id);
            assert(h.page_wf(p));
        }
        if span.is_block(id) {
            span.lemma_is_block(id);
            span.lemma_block_end(span.index_of(id));
            assert(g.covers(new, p));
            assert(g.span_of(id) == Some(new));
        }
        if g.is_block(id) {
            g.lemma_block_bounds(id);
            if g.owner(id) == new {
                assert(span.is_block(id));
                let k = span.index_of(id);
                span.lemma_is_block(id);
                assert(!span.allocated(k) && !span.marked(k));
            } else {
                assert(h.span_of(id) == g.span_of(id));
            }
        }
    }
}

/// A span that is cut right after another one begins exactly where that one ends.
pub proof fn law_spans_are_adjacent(h: HeapState, first: MSpanSizeClass, second: MSpanSizeClass)
    requires
        h.wf(),
        h.spans.len() + 1 < usize::MAX,
        h.next_page_offset + first.span_bytes() + second.span_bytes() <= h.memory.len(),
    ensures
        ({
            let g = h.with_span(MSpan::fresh(first, ObjectId(h.next_page_offset as usize)));
            let f = g.with_span(MSpan::fresh(second, ObjectId(g.next_page_offset as usize)));
            let s = SpanId(h.spans.len() as usize);
            let t = SpanId((h.spans.len() + 1) as usize);
            f.span(t).start_id.0 == f.span_end(s)
        }),
{
}

/// Writing bytes moves, takes and marks no block.
proof fn lemma_with_bytes_blocks(h: HeapState, at: int, bytes: Seq<u8>)
    ensures
        forall|id: ObjectId| #[trigger] h.with_bytes(at, bytes).is_block(id) == h.is_block(id),
        forall|id: ObjectId| #[trigger] h.with_bytes(at, bytes).allocated(id) == h.allocated(id),
        forall|id: ObjectId| #[trigger] h.with_bytes(at, bytes).marked(id) == h.marked(id),
        forall|id: ObjectId| #[trigger] h.with_bytes(at, bytes).home(id) == h.home(id),
{
    let g = h.with_bytes(at, bytes);
    assert forall|id: ObjectId| #[trigger] g.span_of(id) == h.span_of(id) by {}
    assert forall|id: ObjectId| #[trigger] g.is_block(id) == h.is_block(id) by {
        assert(g.span_of(id) == h.span_of(id));
    }
    assert forall|id: ObjectId| #[trigger] g.home(id) == h.home(id) by {
        assert(g.span_of(id) == h.span_of(id));
    }
    assert forall|id: ObjectId| #[trigger] g.allocated(id) == h.allocated(id) by {
        assert(g.is_block(id) == h.is_block(id));
        assert(g.home(id) == h.home(id));
    }
    assert forall|id: ObjectId| #[trigger] g.marked(id) == h.marked(id) by {
        assert(g.is_block(id) == h.is_block(id));
        assert(g.home(id) == h.home(id));
    }
}

/// Taking a free block of a span takes that block alone.
proof fn lemma_publish(h: HeapState, s: SpanId, after: MSpan, id: ObjectId)
    requires
        h.wf(),
        s.0 < h.spans.len(),
        h.span(s).is_block(id),
        after.is_published(&h.span(s), h.span(s).index_of(id)),
    ensures
        h.with_span_at(s, after).wf(),
        h.is_block(id),
        h.owner(id) == s,
        forall|x: ObjectId| #[trigger] h.with_span_at(s, after).is_block(x) == h.is_block(x),
        forall|x: ObjectId| #[trigger]
            h.with_span_at(s, after).allocated(x) == (h.allocated(x) || x == id),
        forall|x: ObjectId| #[trigger] h.with_span_at(s, after).marked(x) == h.marked(x),
        forall|x: ObjectId|
            h.is_block(x) ==> #[trigger] h.with_span_at(s, after).size_of_block(x)
                == h.size_of_block(x),
{
    let span = h.span(s);
    let k = span.index_of(id);
    let g = h.with_span_at(s, after);
    assert(h.span_wf(s));
    span.lemma_is_block(id);
    span.lemma_block_end(k);
    let p = id.0 as int / PAGE_SIZE as int;
    assert(p * PAGE_SIZE <= id.0 < p * PAGE_SIZE + PAGE_SIZE);
    assert(h.covers(s, p));
    after.lemma_bit_change_wf(&span, k);
    h.lemma_with_span_at(s, after);
    assert forall|x: ObjectId|
        #![trigger g.allocated(x)]
        #![trigger g.marked(x)]
        #![trigger g.size_of_block(x)]
        {
            &&& g.allocated(x) == (h.allocated(x) || x == id)
            &&& g.marked(x) == h.marked(x)
            &&& h.is_block(x) ==> g.size_of_block(x) == h.size_of_block(x)
        } by {
        assert(g.span_of(x) == h.span_of(x));
        assert(g.is_block(x) == h.is_block(x));
        if h.is_block(x) {
            h.lemma_index_in_span(x);
            if h.owner(x) == s {
                let j = span.index_of(x);
                assert(after.allocated(j) == (span.allocated(j) || j == k));
                if j == k {
                    h.lemma_same_block(x, id);
                }
            }
        }
    }
}

/// Whether the heap is well formed before and after a request for a block of the class, the span at
/// hand is usable, and the heap is not exhausted: what a request needs to be served. A state is that of
/// the heap, the cache and the pool.
pub open spec fn request_ok(
    before: (HeapState, Seq<Option<SpanId>>, CentralState),
    size_class: MSpanSizeClass,
    after: (HeapState, Seq<Option<SpanId>>, CentralState),
) -> bool {
    &&& before.0.wf()
    &&& after.0.wf()
    &&& source_usable(before.0, before.1, before.2, size_class)
    &&& !exhausted(before.0, before.1, before.2, size_class)
}

/// What `served` says of the heap before the bytes are written.
pub proof fn lemma_served(
    before: (HeapState, Seq<Option<SpanId>>, CentralState),
    size_class: MSpanSizeClass,
    obj: ManagedObject,
    id: ObjectId,
    after: (HeapState, Seq<Option<SpanId>>, CentralState),
)
    requires
        request_ok(before, size_class, after),
        served(before, size_class, obj, id, after),
    ensures
        ({
            let h = provided(before.0, before.1, before.2, size_class);
            let s = target(before.0, before.1, before.2, size_class);
            let g = h.with_span_at(s, after.0.span(s));
            &&& h.wf()
            &&& s.0 < h.spans.len()
            &&& h.is_block(id)
            &&& h.owner(id) == s
            &&& !h.allocated(id)
            &&& g.wf()
            &&& after.0 == g.with_bytes(id.0 as int, h.object_bytes(obj))
            &&& h.memory == before.0.memory
            &&& h.order == before.0.order
            &&& forall|x: ObjectId| #[trigger] h.allocated(x) == before.0.allocated(x)
            &&& forall|x: ObjectId| #[trigger] h.marked(x) == before.0.marked(x)
            &&& forall|x: ObjectId| before.0.is_block(x) ==> #[trigger] h.is_block(x)
            &&& forall|x: ObjectId|
                before.0.is_block(x) ==> #[trigger] h.size_of_block(x) == before.0.size_of_block(x)
            &&& forall|x: ObjectId| #[trigger] g.is_block(x) == h.is_block(x)
            &&& forall|x: ObjectId| #[trigger] g.allocated(x) == (h.allocated(x) || x == id)
            &&& forall|x: ObjectId| #[trigger] g.marked(x) == h.marked(x)
            &&& forall|x: ObjectId|
                h.is_block(x) ==> #[trigger] g.size_of_block(x) == h.size_of_block(x)
        }),
{
    let h = provided(before.0, before.1, before.2, size_class);
    let s = target(before.0, before.1, before.2, size_class);
    if source(before.1, before.2, size_class) is None {
        assert(after.0.spans.len() == before.0.spans.len() + 1);
        law_grow_adds_free_blocks(before.0, size_class);
        assert forall|x: ObjectId| before.0.is_block(x) implies #[trigger] h.size_of_block(x)
            == before.0.size_of_block(x) by {
            assert(h.home(x) == before.0.home(x));
        }
    }
    lemma_publish(h, s, after.0.span(s), id);
}

/// A request is served with a block that was free; it is taken afterwards, and so are the blocks that
/// were taken before, and no others. No mark changes, and no block changes its size.
pub proof fn law_served_takes_one_free_block(
    before: (HeapState, Seq<Option<SpanId>>, CentralState),
    size_class: MSpanSizeClass,
    obj: ManagedObject,
    id: ObjectId,
    after: (HeapState, Seq<Option<SpanId>>, CentralState),
)
    requires
        request_ok(before, size_class, after),
        served(before, size_class, obj, id, after),
    ensures
        PAGE_SIZE <= id.0,
        after.0.is_block(id),
        !before.0.allocated(id),
        forall|x: ObjectId| #[trigger]
            after.0.allocated(x) == (before.0.allocated(x) || x == id),
        forall|x: ObjectId| #[trigger] after.0.marked(x) == before.0.marked(x),
        forall|x: ObjectId| before.0.is_block(x) ==> #[trigger] after.0.is_block(x),
        forall|x: ObjectId|
            before.0.is_block(x) ==> #[trigger] after.0.size_of_block(x)
                == before.0.size_of_block(x),
        after.0.size_of_block(id) == provided(before.0, before.1, before.2, size_class).span(
            target(before.0, before.1, before.2, size_class),
        ).size_class.block_size(),
{
    lemma_served(before, size_class, obj, id, after);
    let h = provided(before.0, before.1, before.2, size_class);
    let s = target(before.0, before.1, before.2, size_class);
    let g = h.with_span_at(s, after.0.span(s));
    lemma_with_bytes_blocks(g, id.0 as int, h.object_bytes(obj));
    assert(g.is_block(id));
    g.lemma_block_bounds(id);
    assert forall|x: ObjectId| #[trigger]
        after.0.allocated(x) == (before.0.allocated(x) || x == id) by {
        assert(after.0.allocated(x) == g.allocated(x));
        assert(h.allocated(x) == before.0.allocated(x));
    }
    assert forall|x: ObjectId| #[trigger] after.0.marked(x) == before.0.marked(x) by {
        assert(after.0.marked(x) == g.marked(x));
        assert(h.marked(x) == before.0.marked(x));
    }
    assert forall|x: ObjectId|
        #![trigger after.0.is_block(x)]
        #![trigger after.0.size_of_block(x)]
        before.0.is_block(x) implies after.0.is_block(x) && after.0.size_of_block(x)
        == before.0.size_of_block(x) by {
        assert(after.0.is_block(x) == g.is_block(x));
        assert(h.is_block(x));
        assert(after.0.home(x) == g.home(x));
        assert(g.size_of_block(x) == h.size_of_block(x));
        assert(h.size_of_block(x) == before.0.size_of_block(x));
    }
    assert(after.0.home(id) == g.home(id));
    assert(g.size_of_block(id) == h.size_of_block(id));
}

/// What was written into a block is read back from it: the type and the payload.
pub proof fn law_served_object_is_read_back(
    before: (HeapState, Seq<Option<SpanId>>, CentralState),
    size_class: MSpanSizeClass,
    obj: ManagedObject,
    id: ObjectId,
    after: (HeapState, Seq<Option<SpanId>>, CentralState),
)
    requires
        request_ok(before, size_class, after),
        served(before, size_class, obj, id, after),
    ensures
        after.0.slot_type(id) == obj.type_desc_ptr,
        after.0.memory.subrange(
            id.0 + OBJ_HEADER_SIZE,
            id.0 + OBJ_HEADER_SIZE + obj.payload.len(),
        ) == obj.payload@,
{
    lemma_served(before, size_class, obj, id, after);
    law_served_takes_one_free_block(before, size_class, obj, id, after);
    after.0.lemma_block_bounds(id);
    law_slot_is_read_back(before.0, id, obj);
    assert(after.0.memory == before.0.with_bytes(
        id.0 as int,
        before.0.object_bytes(obj),
    ).memory);
}

/// An object written into a slot is read back from it: its type and its payload.
pub proof fn law_slot_is_read_back(h: HeapState, id: ObjectId, obj: ManagedObject)
    requires
        id.0 + OBJ_HEADER_SIZE + obj.payload.len() <= h.memory.len(),
    ensures
        ({
            let g = h.with_bytes(id.0 as int, h.object_bytes(obj));
            &&& g.slot_type(id) == obj.type_desc_ptr
            &&& g.memory.subrange(
                id.0 + OBJ_HEADER_SIZE,
                id.0 + OBJ_HEADER_SIZE + obj.payload.len(),
            ) == obj.payload@
        }),
{
    let w = obj.type_desc_ptr.0 as u64;
    let at = id.0 as int;
    let g = h.with_bytes(at, h.object_bytes(obj));
    lemma_word_written(h.order, h.memory, at, w);
    lemma_same_word(h.order, g.memory, splice(h.memory, at, word_bytes(h.order, w)), at);
    assert(g.memory.subrange(at + OBJ_HEADER_SIZE, at + OBJ_HEADER_SIZE + obj.payload.len())
        =~= obj.payload@);
}

/// Serving a request changes no byte of any other block.
pub proof fn law_served_keeps_other_blocks(
    before: (HeapState, Seq<Option<SpanId>>, CentralState),
    size_class: MSpanSizeClass,
    obj: ManagedObject,
    id: ObjectId,
    after: (HeapState, Seq<Option<SpanId>>, CentralState),
    other: ObjectId,
)
    requires
        request_ok(before, size_class, after),
        served(before, size_class, obj, id, after),
        after.0.is_block(other),
        other != id,
    ensures
        forall|i: int|
            other.0 <= i < other.0 + after.0.size_of_block(other) ==> after.0.memory[i]
                == before.0.memory[i],
{
    lemma_served(before, size_class, obj, id, after);
    law_served_takes_one_free_block(before, size_class, obj, id, after);
    law_blocks_disjoint(after.0, id, other);
    after.0.lemma_block_bounds(other);
    lemma_word_bytes();
}

/// A reference stored into a field of an object is read back from that field; the other fields and the
/// type stay.
pub proof fn law_reference_is_read_back(
    h: HeapState,
    id: ObjectId,
    field_index: int,
    new_ref: ObjectId,
)
    requires
        h.readable(id),
        0 <= field_index < h.refs_count(id),
    ensures
        ({
            let g = h.with_bytes(
                h.field_addr(id, field_index),
                word_bytes(h.order, new_ref.0 as u64),
            );
            &&& g.slot_type(id) == h.slot_type(id)
            &&& g.readable(id)
            &&& g.references(id) == h.references(id).update(field_index, new_ref.0 as u64)
        }),
{
    let at = h.field_addr(id, field_index);
    let w = new_ref.0 as u64;
    let g = h.with_bytes(at, word_bytes(h.order, w));
    lemma_word_written(h.order, h.memory, at, w);
    lemma_same_word(h.order, g.memory, h.memory, id.0 as int);
    assert forall|i: int| 0 <= i < h.refs_count(id) && i != field_index implies g.field(id, i)
        == h.field(id, i) by {
        lemma_same_word(h.order, g.memory, h.memory, h.field_addr(id, i));
    }
    assert(g.references(id) =~= h.references(id).update(field_index, w));
}

} // verus!
