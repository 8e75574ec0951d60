//! What blocks, objects and references of the paged heap are, in terms of its bytes and tables.

use crate::datastruct::{ManagedObject, ObjectId, TypeDescriptor, TypePtr, PAGE_SIZE};
use crate::managed_heap::{HeapState, SpanId};
use crate::memory::{law_word_at, lemma_word_bytes, word_at, word_bytes};
use crate::mspan::{bit_at, MSpan, MSpanSizeClass};
use vstd::prelude::*;

verus! {

/// An offset is that of a block if the page it points into, which is not the first one, belongs to a
/// span, and the offset is a whole multiple of the block size behind the start of that span.
pub proof fn law_block_is_in_span(h: HeapState, id: ObjectId)
    requires
        h.wf(),
    ensures
        h.is_block(id) <==> exists|s: SpanId, k: int|
            {
                &&& s.0 < h.spans.len()
                &&& 0 <= k < h.spans[s.0 as int].total_blocks
                &&& id.0 == h.spans[s.0 as int].start_id.0 + #[trigger] (k
                    * h.spans[s.0 as int].size_class.block_size())
            },
        h.is_block(id) ==> {
            let p = id.0 as int / 4096;
            &&& 1 <= p < h.page_map.len()
            &&& h.page_map[p] == Some(h.owner(id))
            &&& h.size_of_block(id) == h.spans[h.owner(id).0 as int].size_class.block_size()
        },
{
    if h.is_block(id) {
        h.lemma_block_bounds(id);
        let s = h.owner(id);
        h.span(s).lemma_is_block(id);
        let k = h.span(s).index_of(id);
        assert(id.0 == h.spans[s.0 as int].start_id.0 + k
            * h.spans[s.0 as int].size_class.block_size());
    }
    assert forall|s: SpanId, k: int|
        {
            &&& s.0 < h.spans.len()
            &&& 0 <= k < h.spans[s.0 as int].total_blocks
            &&& id.0 == h.spans[s.0 as int].start_id.0 + #[trigger] (k
                * h.spans[s.0 as int].size_class.block_size())
        } implies h.is_block(id) by {
        let span = h.span(s);
        assert(h.span_wf(s));
        span.lemma_block_addr(k, id);
        span.lemma_block_end(k);
        let p = id.0 as int / PAGE_SIZE as int;
        assert(p * PAGE_SIZE <= id.0 < p * PAGE_SIZE + PAGE_SIZE);
        assert(h.covers(s, p));
    }
}

/// Whether the block at `id` is taken is told by its bit in the one mask of its span, and whether it is
/// marked by its bit in the other.
pub proof fn law_block_state_is_one_bit(h: HeapState, s: SpanId, k: int, id: ObjectId)
    requires
        h.wf(),
        s.0 < h.spans.len(),
        0 <= k < h.spans[s.0 as int].total_blocks,
        id.0 == h.spans[s.0 as int].start_id.0 + k * h.spans[s.0 as int].size_class.block_size(),
    ensures
        h.allocated(id) <==> bit_at(h.spans[s.0 as int].alloc_bits@, k),
        h.marked(id) <==> bit_at(h.spans[s.0 as int].marked_bits@, k),
{
    let span = h.span(s);
    assert(h.span_wf(s));
    span.lemma_block_addr(k, id);
    span.lemma_block_end(k);
    let p = id.0 as int / PAGE_SIZE as int;
    assert(p * PAGE_SIZE <= id.0 < p * PAGE_SIZE + PAGE_SIZE);
    assert(h.covers(s, p));
    assert(h.span_of(id) == Some(s));
}

/// What is no block is neither taken nor marked.
pub proof fn law_only_blocks_have_a_state(h: HeapState, id: ObjectId)
    ensures
        h.allocated(id) ==> h.is_block(id),
        h.marked(id) ==> h.is_block(id),
{
}

/// Registering descriptors gives each an address of its own, never null, under which it is found, and
/// which later registrations do not change.
pub proof fn law_registered_type_is_found(h: HeapState, desc: TypeDescriptor, p: TypePtr)
    requires
        h.types.len() < usize::MAX,
    ensures
        ({
            let g = HeapState { types: h.types.push(desc), ..h };
            let new = TypePtr((h.types.len() + 1) as usize);
            &&& new.0 != 0
            &&& !h.is_type(new)
            &&& g.is_type(new)
            &&& g.type_at(new) == desc
            &&& h.is_type(p) ==> g.is_type(p) && g.type_at(p) == h.type_at(p) && p != new
            &&& h.is_type(p) ==> h.types.contains(h.type_at(p))
        }),
{
    if h.is_type(p) {
        assert(h.types[p.0 - 1] == h.type_at(p));
    }
}

/// An object has as many references as its type declares, and each is the word in its place behind the
/// type word: the first eight bytes of the payload, the next eight, and so on.
pub proof fn law_declared_references(h: HeapState, id: ObjectId, p: TypePtr, i: int)
    requires
        id.0 + 8 <= h.memory.len(),
        h.memory.subrange(id.0 as int, id.0 + 8) == word_bytes(h.order, p.0 as u64),
        1 <= p.0 <= h.types.len(),
        id.0 + 8 + 8 * h.types[p.0 - 1].refs_count <= h.memory.len(),
        0 <= i < h.types[p.0 - 1].refs_count,
    ensures
        h.readable(id),
        h.slot_type(id) == p,
        h.refs_count(id) == h.types[p.0 - 1].refs_count,
        h.references(id).len() == h.types[p.0 - 1].refs_count,
        word_bytes(h.order, h.references(id)[i]) == h.memory.subrange(
            id.0 + 8 + 8 * i,
            id.0 + 16 + 8 * i,
        ),
{
    lemma_word_bytes();
    law_word_at(h.order, h.memory, id.0 + 8 + 8 * i);
    assert(h.slot_type(id) == p);
}

/// An object that was written has exactly the references that its type declares, and each is the word
/// in its place in the payload.
pub proof fn law_written_object_has_its_references(h: HeapState, id: ObjectId, obj: ManagedObject)
    requires
        id.0 + 8 + obj.payload@.len() <= h.memory.len(),
        1 <= obj.type_desc_ptr.0 <= h.types.len(),
        8 * h.types[obj.type_desc_ptr.0 - 1].refs_count <= obj.payload@.len(),
    ensures
        ({
            let g = h.with_bytes(id.0 as int, h.object_bytes(obj));
            let n = h.types[obj.type_desc_ptr.0 - 1].refs_count;
            &&& g.readable(id)
            &&& g.references(id).len() == n
            &&& forall|i: int|
                #![trigger g.references(id)[i]]
                0 <= i < n ==> word_bytes(h.order, g.references(id)[i]) == obj.payload@.subrange(
                    8 * i,
                    8 * i + 8,
                )
            &&& forall|i: int|
                0 <= i < g.memory.len() && !(id.0 <= i < id.0 + 8 + obj.payload@.len())
                    ==> #[trigger] g.memory[i] == h.memory[i]
            &&& g.order == h.order
            &&& g.types == h.types
            &&& g.spans == h.spans
            &&& g.page_map == h.page_map
            &&& g.next_page_offset == h.next_page_offset
        }),
{
    let g = h.with_bytes(id.0 as int, h.object_bytes(obj));
    let p = obj.type_desc_ptr;
    let n = h.types[p.0 - 1].refs_count;
    lemma_word_bytes();
    assert(g.memory.subrange(id.0 as int, id.0 + 8) =~= word_bytes(h.order, p.0 as u64));
    assert(word_at(h.order, g.memory, id.0 as int) == p.0 as u64);
    assert(g.slot_type(id) == p);
    assert forall|i: int|
        #![trigger g.references(id)[i]]
        0 <= i < n implies word_bytes(h.order, g.references(id)[i]) == obj.payload@.subrange(
        8 * i,
        8 * i + 8,
    ) by {
        law_declared_references(g, id, p, i);
        assert(g.memory.subrange(id.0 + 8 + 8 * i, id.0 + 16 + 8 * i) =~= obj.payload@.subrange(
            8 * i,
            8 * i + 8,
        ));
    }
}

/// Writing an object into a slot puts the address of its type and its payload there, and changes no
/// other byte and nothing else.
pub proof fn law_slot_bytes(h: HeapState, id: ObjectId, obj: ManagedObject)
    requires
        id.0 + 8 + obj.payload@.len() <= h.memory.len(),
    ensures
        h.with_bytes(id.0 as int, h.object_bytes(obj)) == (HeapState {
            memory: h.memory.take(id.0 as int) + word_bytes(h.order, obj.type_desc_ptr.0 as u64)
                + obj.payload@ + h.memory.skip(id.0 + 8 + obj.payload@.len()),
            ..h
        }),
{
    lemma_word_bytes();
    assert(h.with_bytes(id.0 as int, h.object_bytes(obj)).memory =~= h.memory.take(id.0 as int)
        + word_bytes(h.order, obj.type_desc_ptr.0 as u64) + obj.payload@ + h.memory.skip(
        id.0 + 8 + obj.payload@.len(),
    ));
}

/// An object refers to a block if one of its references is the offset of that block, at whatever
/// position, and to nothing else.
pub proof fn law_edges_are_references(h: HeapState, a: ObjectId, b: ObjectId)
    ensures
        h.edge()(a, b) <==> h.is_block(b) && exists|i: int|
            0 <= i < h.references(a).len() && #[trigger] h.references(a)[i] as usize == b.0,
        h.fresh_edge()(a, b) <==> h.edge()(a, b) && !h.marked(b),
{
}

/// An object whose payload holds the offset of a block in one of its reference fields refers to that
/// block.
pub proof fn law_offset_in_payload_is_an_edge(
    h: HeapState,
    id: ObjectId,
    obj: ManagedObject,
    i: int,
    b: ObjectId,
)
    requires
        id.0 + 8 + obj.payload@.len() <= h.memory.len(),
        1 <= obj.type_desc_ptr.0 <= h.types.len(),
        8 * h.types[obj.type_desc_ptr.0 - 1].refs_count <= obj.payload@.len(),
        0 <= i < h.types[obj.type_desc_ptr.0 - 1].refs_count,
        obj.payload@.subrange(8 * i, 8 * i + 8) == word_bytes(h.order, b.0 as u64),
        h.with_bytes(id.0 as int, h.object_bytes(obj)).is_block(b),
    ensures
        h.with_bytes(id.0 as int, h.object_bytes(obj)).edge()(id, b),
{
    let g = h.with_bytes(id.0 as int, h.object_bytes(obj));
    law_written_object_has_its_references(h, id, obj);
    lemma_word_bytes();
    assert(word_bytes(h.order, g.references(id)[i]) == word_bytes(h.order, b.0 as u64));
    assert(g.references(id)[i] == b.0 as u64);
    law_edges_are_references(g, id, b);
}

/// A reference that is stored into a field changes the eight bytes of that field, and nothing else.
pub proof fn law_stored_reference_bytes(h: HeapState, id: ObjectId, i: int, new_ref: ObjectId)
    requires
        0 <= i,
        id.0 + 16 + 8 * i <= h.memory.len(),
    ensures
        ({
            let g = h.with_bytes(h.field_addr(id, i), word_bytes(h.order, new_ref.0 as u64));
            &&& h.field_addr(id, i) == id.0 + 8 + 8 * i
            &&& g.memory.subrange(id.0 + 8 + 8 * i, id.0 + 16 + 8 * i) == word_bytes(
                h.order,
                new_ref.0 as u64,
            )
            &&& g.memory.len() == h.memory.len()
            &&& forall|j: int|
                0 <= j < h.memory.len() && !(id.0 + 8 + 8 * i <= j < id.0 + 16 + 8 * i)
                    ==> #[trigger] g.memory[j] == h.memory[j]
            &&& g == (HeapState { memory: g.memory, ..h })
        }),
{
    lemma_word_bytes();
    let g = h.with_bytes(h.field_addr(id, i), word_bytes(h.order, new_ref.0 as u64));
    assert(g.memory.subrange(id.0 + 8 + 8 * i, id.0 + 16 + 8 * i) =~= word_bytes(
        h.order,
        new_ref.0 as u64,
    ));
}

/// Cutting a span takes the next free pages, as many as the class needs, enters the span for each of
/// them, and leaves all other entries, spans, bytes and types alone.
pub proof fn law_cut_span(h: HeapState, size_class: MSpanSizeClass, p: int)
    requires
        h.wf(),
        h.spans.len() < usize::MAX,
        h.next_page_offset + size_class.pages_per_span() * 4096 <= h.memory.len(),
        0 <= p < h.page_map.len(),
    ensures
        ({
            let start = ObjectId(h.next_page_offset as usize);
            let g = h.with_span(MSpan::fresh(size_class, start));
            let first = h.next_page_offset / 4096;
            &&& g.spans == h.spans.push(MSpan::fresh(size_class, start))
            &&& g.next_page_offset == h.next_page_offset + 4096 * size_class.pages_per_span()
            &&& g.page_map.len() == h.page_map.len()
            &&& g.page_map[p] == if first <= p < first + size_class.pages_per_span() {
                Some(SpanId(h.spans.len() as usize))
            } else {
                h.page_map[p]
            }
            &&& g.memory == h.memory
            &&& g.order == h.order
            &&& g.types == h.types
        }),
{
}

/// Heaps that differ in their marks alone have the same bytes, pages, types and spans, and the same
/// blocks taken.
pub proof fn law_only_marks_differ(h: HeapState, g: HeapState, i: int)
    requires
        g.same_but_marks(h),
        0 <= i < h.spans.len(),
    ensures
        g.order == h.order,
        g.memory == h.memory,
        g.next_page_offset == h.next_page_offset,
        g.page_map == h.page_map,
        g.types == h.types,
        g.spans.len() == h.spans.len(),
        g.spans[i].size_class == h.spans[i].size_class,
        g.spans[i].start_id == h.spans[i].start_id,
        g.spans[i].total_blocks == h.spans[i].total_blocks,
        g.spans[i].alloc_bits == h.spans[i].alloc_bits,
{
    assert(g.spans[i].same_shape(&h.spans[i]));
}

/// A sweep changes the masks alone, and those of every span as sweeping that span does.
pub proof fn law_sweep_changes_masks(h: HeapState, g: HeapState, i: int)
    requires
        g.is_swept(h),
        0 <= i < h.spans.len(),
    ensures
        g.order == h.order,
        g.memory == h.memory,
        g.next_page_offset == h.next_page_offset,
        g.page_map == h.page_map,
        g.types == h.types,
        g.spans.len() == h.spans.len(),
        g.spans[i].is_swept(&h.spans[i]),
{
    assert(g.spans[i].is_swept(&h.spans[i]));
}

} // verus!
