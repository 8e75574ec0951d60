//! What the answer to a request says, in terms of the object, the tables and the bytes.

use crate::datastruct::{AllocError, ManagedObject, ObjectId};
use crate::managed_heap::{HeapState, SpanId};
use crate::mcache::{answered, fitting, provided, source, source_usable, target};
use crate::mcentral::CentralState;
use crate::memory::{lemma_word_bytes, word_bytes};
use crate::mspan::{bit_at, MSpan, MSpanSizeClass};
use vstd::prelude::*;

verus! {

/// Whether `c` is the class that has to serve an object with `payload` bytes of payload for which
/// `size_class` was asked: a class whose blocks hold the object, namely the one that was asked for
/// where that holds it, and otherwise one such that no smaller class does.
pub open spec fn must_serve(size_class: MSpanSizeClass, payload: int, c: MSpanSizeClass) -> bool {
    &&& 8 + payload <= c.block_size()
    &&& c == size_class || {
        &&& 8 + payload > size_class.block_size()
        &&& forall|d: MSpanSizeClass|
            8 + payload <= #[trigger] d.block_size() ==> c.block_size() <= d.block_size()
    }
}

/// Exactly one class has to serve an object that fits into some class.
pub proof fn law_one_class_must_serve(
    size_class: MSpanSizeClass,
    payload: int,
    c: MSpanSizeClass,
    d: MSpanSizeClass,
)
    requires
        0 <= payload <= 3064,
    ensures
        must_serve(size_class, payload, fitting(size_class, payload)),
        must_serve(size_class, payload, c) && must_serve(size_class, payload, d) ==> c == d,
{
    let f = fitting(size_class, payload);
    assert forall|x: MSpanSizeClass|
        8 + payload <= #[trigger] x.block_size() && f != size_class implies f.block_size()
        <= x.block_size() by {
        crate::mcache::law_fitting_class(size_class, payload, x);
    }
    assert(8 + payload <= MSpanSizeClass::B3072.block_size());
    if must_serve(size_class, payload, c) && must_serve(size_class, payload, d) {
        assert(8 + payload <= c.block_size());
        assert(8 + payload <= d.block_size());
    }
}

/// A request for an object that fits into some class is refused if, and only if, the class that has to
/// serve it has no span in the cache and none with room in the pool, and the heap has not enough pages
/// left for one more. It is then refused for lack of memory, and nothing changes.
pub proof fn law_refused_only_for_lack_of_room(
    before: (HeapState, Seq<Option<SpanId>>, CentralState),
    size_class: MSpanSizeClass,
    obj: ManagedObject,
    r: Result<ObjectId, AllocError>,
    after: (HeapState, Seq<Option<SpanId>>, CentralState),
    c: MSpanSizeClass,
)
    requires
        answered(before, size_class, obj, r, after),
        must_serve(size_class, obj.payload@.len() as int, c),
    ensures
        r is Err <==> {
            &&& before.1[c.to_index() as int] is None
            &&& before.2.partial[c.to_index() as int].len() == 0
            &&& before.0.next_page_offset + c.pages_per_span() * 4096 > before.0.memory.len()
        },
        r is Err ==> r == Err::<ObjectId, AllocError>(AllocError::OutOfMemory) && after == before,
{
    let n = obj.payload@.len() as int;
    assert(8 + n <= c.block_size());
    law_one_class_must_serve(size_class, n, c, fitting(size_class, n));
}

/// Any refusal, whatever the size of the object, is for lack of memory and changes nothing.
pub proof fn law_refusal_changes_nothing(
    before: (HeapState, Seq<Option<SpanId>>, CentralState),
    size_class: MSpanSizeClass,
    obj: ManagedObject,
    e: AllocError,
    after: (HeapState, Seq<Option<SpanId>>, CentralState),
)
    requires
        answered(before, size_class, obj, Err(e), after),
    ensures
        e == AllocError::OutOfMemory,
        after == before,
        obj.payload@.len() > 3064 ==> {
            &&& before.1[size_class.to_index() as int] is None
            &&& before.2.partial[size_class.to_index() as int].len() == 0
            &&& before.0.next_page_offset + size_class.pages_per_span() * 4096
                > before.0.memory.len()
        },
{
}

/// Whether `s` is the span that a request for the class uses: the one in the cache; if there is none,
/// the one with room that came into the pool last; and if there is none either, a new one.
pub open spec fn span_to_use(
    before: (HeapState, Seq<Option<SpanId>>, CentralState),
    c: MSpanSizeClass,
    s: SpanId,
) -> bool {
    let held = before.1[c.to_index() as int];
    let room = before.2.partial[c.to_index() as int];
    &&& held is Some ==> held == Some(s)
    &&& held is None && room.len() > 0 ==> s == room[room.len() - 1]
    &&& held is None && room.len() == 0 ==> s.0 == before.0.spans.len()
}

/// A request is served with the free block of the smallest index of the span that is at hand, and
/// neither pages nor spans are added. If no span is at hand, it is served with the first block of a span
/// of the class that is cut from the next free pages.
pub proof fn law_served_from(
    before: (HeapState, Seq<Option<SpanId>>, CentralState),
    size_class: MSpanSizeClass,
    obj: ManagedObject,
    id: ObjectId,
    after: (HeapState, Seq<Option<SpanId>>, CentralState),
    c: MSpanSizeClass,
    s: SpanId,
)
    requires
        before.0.wf(),
        source_usable(before.0, before.1, before.2, c),
        answered(before, size_class, obj, Ok(id), after),
        must_serve(size_class, obj.payload@.len() as int, c),
        span_to_use(before, c, s),
    ensures
        ({
            let h = before.0;
            let h2 = after.0;
            let n = s.0 as int;
            let span = h.spans[n];
            &&& s.0 < h.spans.len() ==> {
                &&& exists|k: int|
                    {
                        &&& 0 <= k < span.total_blocks
                        &&& id.0 == span.start_id.0 + #[trigger] (k * c.block_size())
                        &&& !bit_at(span.alloc_bits@, k)
                        &&& forall|j: int| 0 <= j < k ==> #[trigger] bit_at(span.alloc_bits@, j)
                    }
                &&& h2.next_page_offset == h.next_page_offset
                &&& h2.page_map == h.page_map
                &&& h2.spans.len() == h.spans.len()
            }
            &&& s.0 == h.spans.len() ==> {
                &&& id.0 == h.next_page_offset
                &&& h2.next_page_offset == h.next_page_offset + 4096 * c.pages_per_span()
                &&& h2.spans.len() == h.spans.len() + 1
                &&& h2.spans[n].size_class == c
                &&& h2.spans[n].start_id == id
                &&& h2.spans[n].total_blocks * c.block_size() == 4096 * c.pages_per_span()
                &&& forall|j: int|
                    0 <= j < 256 ==> #[trigger] bit_at(h2.spans[n].alloc_bits@, j) == (j == 0)
                &&& forall|j: int|
                    0 <= j < 256 ==> !#[trigger] bit_at(h2.spans[n].marked_bits@, j)
            }
            &&& s.0 <= h.spans.len()
        }),
{
    let (h, cache, pool) = before;
    let n = obj.payload@.len() as int;
    assert(8 + n <= c.block_size());
    law_one_class_must_serve(size_class, n, c, fitting(size_class, n));
    assert(s == target(h, cache, pool, c));
    let g = provided(h, cache, pool, c);
    let span = g.span(s);
    let k = span.index_of(id);
    span.lemma_is_block(id);
    crate::laws_spans::law_masks(span, k);
    if source(cache, pool, c) is None {
        let start = ObjectId(h.next_page_offset as usize);
        let made = after.0.spans[s.0 as int];
        MSpan::lemma_fresh(c, start);
        assert(span == MSpan::fresh(c, start));
        crate::mspan::law_blocks_fill_span(c);
        if k > 0 {
            assert(span.allocated(0));
        }
        assert(k == 0);
        assert(id.0 == start.0 + 0 * c.block_size());
        assert forall|j: int|
            #![trigger bit_at(made.alloc_bits@, j)]
            #![trigger bit_at(made.marked_bits@, j)]
            0 <= j < 256 implies bit_at(made.alloc_bits@, j) == (j == 0) && !bit_at(
            made.marked_bits@,
            j,
        ) by {
            crate::laws_spans::law_one_bit_changes(span, made, k, j);
            assert(!span.allocated(j) && !span.marked(j));
        }
    } else {
        assert(span == h.spans[s.0 as int]);
        assert(id.0 == span.start_id.0 + k * c.block_size());
    }
}

/// Serving a request writes the address of the object's type and its payload to the beginning of the
/// block, and changes no other byte. Of all spans that were there it sets the bit of this block in the
/// mask of taken blocks, and changes no other bit of any mask.
pub proof fn law_served_changes(
    before: (HeapState, Seq<Option<SpanId>>, CentralState),
    size_class: MSpanSizeClass,
    obj: ManagedObject,
    id: ObjectId,
    after: (HeapState, Seq<Option<SpanId>>, CentralState),
    c: MSpanSizeClass,
    s: SpanId,
    t: SpanId,
    j: int,
)
    requires
        before.0.wf(),
        source_usable(before.0, before.1, before.2, c),
        answered(before, size_class, obj, Ok(id), after),
        must_serve(size_class, obj.payload@.len() as int, c),
        span_to_use(before, c, s),
        t.0 < before.0.spans.len(),
        0 <= j < before.0.spans[t.0 as int].total_blocks,
    ensures
        ({
            let h = before.0;
            let h2 = after.0;
            let v = h.spans[t.0 as int];
            let w = h2.spans[t.0 as int];
            let at = id.0 as int;
            let n = obj.payload@.len();
            &&& at + 8 + n <= h.memory.len()
            &&& h2.memory == h.memory.take(at) + word_bytes(h.order, obj.type_desc_ptr.0 as u64)
                + obj.payload@ + h.memory.skip(at + 8 + n)
            &&& h2.order == h.order
            &&& h2.types == h.types
            &&& w.size_class == v.size_class
            &&& w.start_id == v.start_id
            &&& w.total_blocks == v.total_blocks
            &&& w.marked_bits == v.marked_bits
            &&& bit_at(w.alloc_bits@, j) == (bit_at(v.alloc_bits@, j) || t == s && at
                == v.start_id.0 + j * v.size_class.block_size())
        }),
{
    let (h, cache, pool) = before;
    let h2 = after.0;
    let at = id.0 as int;
    let n = obj.payload@.len();
    assert(8 + n <= c.block_size());
    law_one_class_must_serve(size_class, n as int, c, fitting(size_class, n as int));
    assert(s == target(h, cache, pool, c));
    let g = provided(h, cache, pool, c);
    let span = g.span(s);
    let k = span.index_of(id);
    if source(cache, pool, c) is None {
        MSpan::lemma_fresh(c, ObjectId(h.next_page_offset as usize));
    } else {
        assert(h.span_wf(s));
    }
    assert(h.span_wf(t));
    span.lemma_is_block(id);
    span.lemma_block_end(k);
    lemma_word_bytes();
    assert(h2.memory =~= h.memory.take(at) + word_bytes(h.order, obj.type_desc_ptr.0 as u64)
        + obj.payload@ + h.memory.skip(at + 8 + n));
    let v = h.span(t);
    v.lemma_wf_in_range();
    if t == s {
        crate::laws_spans::law_one_bit_changes(span, h2.span(s), k, j);
        if at == v.start_id.0 + j * v.size_class.block_size() {
            v.lemma_block_addr(j, id);
        }
    } else {
        assert(h2.spans[t.0 as int] == h.spans[t.0 as int]);
    }
}

/// If a request has filled the span that it used, the span is put behind the full spans of its class in
/// the pool and the cache holds none of the class; otherwise the cache holds it. If it came out of the
/// pool, it is not there any more. The other classes of cache and pool stay as they are.
pub proof fn law_served_bookkeeping(
    before: (HeapState, Seq<Option<SpanId>>, CentralState),
    size_class: MSpanSizeClass,
    obj: ManagedObject,
    id: ObjectId,
    after: (HeapState, Seq<Option<SpanId>>, CentralState),
    c: MSpanSizeClass,
    s: SpanId,
    d: int,
)
    requires
        before.0.wf(),
        source_usable(before.0, before.1, before.2, c),
        answered(before, size_class, obj, Ok(id), after),
        must_serve(size_class, obj.payload@.len() as int, c),
        span_to_use(before, c, s),
        before.1.len() == MSpanSizeClass::COUNT,
        before.2.partial.len() == MSpanSizeClass::COUNT,
        before.2.full.len() == MSpanSizeClass::COUNT,
        0 <= d < MSpanSizeClass::COUNT,
    ensures
        ({
            let (h, cache, pool) = before;
            let (h2, cache2, pool2) = after;
            let i = c.to_index() as int;
            let span = h2.spans[s.0 as int];
            let filled = forall|j: int|
                0 <= j < span.total_blocks ==> #[trigger] bit_at(span.alloc_bits@, j);
            &&& d != i ==> cache2[d] == cache[d] && pool2.partial[d] == pool.partial[d]
                && pool2.full[d] == pool.full[d]
            &&& cache[i] is None && pool.partial[i].len() > 0 ==> pool2.partial[i].push(s)
                == pool.partial[i]
            &&& cache[i] is Some || pool.partial[i].len() == 0 ==> pool2.partial[i]
                == pool.partial[i]
            &&& filled ==> cache2[i] is None && pool2.full[i] == pool.full[i].push(s)
            &&& !filled ==> cache2[i] == Some(s) && pool2.full[i] == pool.full[i]
            &&& cache2.len() == cache.len()
            &&& pool2.partial.len() == pool.partial.len()
            &&& pool2.full.len() == pool.full.len()
        }),
{
    let (h, cache, pool) = before;
    let i = c.to_index() as int;
    let n = obj.payload@.len() as int;
    assert(8 + n <= c.block_size());
    law_one_class_must_serve(size_class, n, c, fitting(size_class, n));
    assert(s == target(h, cache, pool, c));
    crate::laws_spans::law_masks(after.0.spans[s.0 as int], 0);
    if cache[i] is None && pool.partial[i].len() > 0 {
        assert(pool.partial[i].drop_last().push(s) =~= pool.partial[i]);
    }
}

} // verus!
