//! What holds of the bump-allocated heap as a whole.

use crate::bump_allocator::{header_bytes, lemma_header_written, object_size, BumpState};
use crate::bump_collector::{graph_ok, is_collected};
use crate::bump_heap::{
    law_write_object, lemma_object_end, lemma_objects_ordered, lemma_same_body,
    lemma_same_headers_same_heap, HeapState, ManagedObject,
};
use crate::datastruct::{GcColor, ObjectHeader, ObjectId, OBJECT_HEADER_SIZE};
use crate::memory::{lemma_word_bytes, splice, word_at, word_bytes, ByteOrder};
use crate::reach::{lemma_reach_closed, lemma_reach_start, lemma_reach_step, reachable};
use vstd::prelude::*;

verus! {

/// An allocated object's header can be read back: it is white and says what was asked for.
pub proof fn law_allocated_header_is_read_back(b: BumpState, refs_count: usize, payload_size: usize)
    requires
        b.wf(),
        b.next + object_size(refs_count as int, payload_size as int) <= b.memory.len(),
    ensures
        ({
            let header = b.new_header(refs_count, payload_size);
            let after = BumpState {
                memory: splice(b.memory, b.next, header_bytes(b.order, header)),
                next: b.next + object_size(refs_count as int, payload_size as int),
                ..b
            };
            &&& after.readable(header.id)
            &&& after.header(header.id) == header
            &&& after.refs_readable(header.id)
        }),
{
    lemma_header_written(b.order, b.memory, b.next, b.new_header(refs_count, payload_size));
}

/// A header that was written over another one, below the next object, is read back, and the next object
/// begins where it would have begun.
pub proof fn law_updated_header_is_read_back(b: BumpState, id: ObjectId, header: ObjectHeader)
    requires
        b.wf(),
        id.0 + OBJECT_HEADER_SIZE <= b.next,
    ensures
        ({
            let after = BumpState {
                memory: splice(b.memory, id.0 as int, header_bytes(b.order, header)),
                ..b
            };
            &&& after.readable(id)
            &&& after.header(id) == header
            &&& after.next == b.next
        }),
{
    lemma_header_written(b.order, b.memory, id.0 as int, header);
}

/// Every object begins at a multiple of eight bytes, and objects do not overlap.
pub proof fn law_objects_aligned_and_apart(h: HeapState, i: int, j: int)
    requires
        h.wf(),
        0 <= i < j < h.objects.len(),
    ensures
        h.objects[i].0 % 8 == 0,
        h.objects[j].0 % 8 == 0,
        h.objects[i].0 + h.header(h.objects[i]).size <= h.objects[j].0,
        h.objects[j].0 + h.header(h.objects[j]).size <= h.next,
{
    assert(h.object_ok(i));
    assert(h.object_ok(j));
    lemma_objects_ordered(h, i, j);
    lemma_object_end(h, j);
}

/// A collection keeps what can be reached from the roots: header, references and payload.
pub proof fn law_collect_keeps_live(
    h: HeapState,
    after: HeapState,
    roots: Seq<ObjectId>,
    id: ObjectId,
)
    requires
        h.wf(),
        graph_ok(h, roots),
        is_collected(h, after, roots),
        reachable(h.edge(), roots, id),
    ensures
        after.is_object(id),
        after.header(id) == h.header(id),
        after.references(id) == h.references(id),
        after.payload(id) == h.payload(id),
{
    assert(h.is_object(id));
    let i = choose|i: int| 0 <= i < h.objects.len() && h.objects[i] == id;
    assert(after.header(h.objects[i]) == h.header(h.objects[i]));
    lemma_same_body(after, h, i);
}

/// A collection unlinks what cannot be reached from the roots, cycles too: such an object has no
/// references any more, and nothing else in its header changes.
pub proof fn law_collect_unlinks_garbage(
    h: HeapState,
    after: HeapState,
    roots: Seq<ObjectId>,
    id: ObjectId,
)
    requires
        h.wf(),
        is_collected(h, after, roots),
        h.is_object(id),
        !reachable(h.edge(), roots, id),
    ensures
        after.is_object(id),
        after.header(id) == (ObjectHeader { refs_count: 0, ..h.header(id) }),
        after.references(id) == Seq::<ObjectId>::empty(),
{
    let i = choose|i: int| 0 <= i < h.objects.len() && h.objects[i] == id;
    assert(after.header(h.objects[i]) == (ObjectHeader { refs_count: 0, ..h.header(id) }));
    assert(after.references(id) =~= Seq::<ObjectId>::empty());
}

/// The same objects can be reached from the roots after a collection as before it.
pub proof fn law_collect_keeps_reachability(
    h: HeapState,
    after: HeapState,
    roots: Seq<ObjectId>,
    id: ObjectId,
)
    requires
        h.wf(),
        graph_ok(h, roots),
        is_collected(h, after, roots),
    ensures
        reachable(after.edge(), roots, id) == reachable(h.edge(), roots, id),
{
    let old_reach = |x: ObjectId| reachable(h.edge(), roots, x);
    let new_reach = |x: ObjectId| reachable(after.edge(), roots, x);
    let both = |x: ObjectId| old_reach(x) && new_reach(x);
    assert forall|x: ObjectId| roots.contains(x) implies both(x) by {
        lemma_reach_start(h.edge(), roots, x);
        lemma_reach_start(after.edge(), roots, x);
    }
    assert forall|a: ObjectId, b: ObjectId| both(a) && #[trigger] h.edge()(a, b) implies both(b) by {
        law_collect_keeps_live(h, after, roots, a);
        assert(after.edge()(a, b));
        lemma_reach_step(h.edge(), roots, a, b);
        lemma_reach_step(after.edge(), roots, a, b);
    }
    assert forall|a: ObjectId, b: ObjectId| both(a) && #[trigger] after.edge()(a, b) implies both(
        b,
    ) by {
        law_collect_keeps_live(h, after, roots, a);
        assert(h.edge()(a, b));
    }
    lemma_reach_closed(h.edge(), roots, both);
    lemma_reach_closed(after.edge(), roots, both);
    if old_reach(id) {
        assert(both(id));
    }
    if new_reach(id) {
        assert(both(id));
    }
}

/// Collecting again with the same roots succeeds and changes nothing.
pub proof fn law_collect_twice(
    h: HeapState,
    once: HeapState,
    twice: HeapState,
    roots: Seq<ObjectId>,
)
    requires
        h.wf(),
        graph_ok(h, roots),
        is_collected(h, once, roots),
        once.wf(),
        is_collected(once, twice, roots),
        twice.wf(),
    ensures
        graph_ok(once, roots),
        twice == once,
{
    assert forall|id: ObjectId| #[trigger] reachable(once.edge(), roots, id) implies once.is_object(
        id,
    ) by {
        law_collect_keeps_reachability(h, once, roots, id);
        assert(reachable(h.edge(), roots, id));
        assert(h.is_object(id));
    }
    assert forall|i: int|
        #![trigger once.objects[i]]
        0 <= i < once.objects.len() implies twice.header(once.objects[i]) == once.header(
        once.objects[i],
    ) by {
        let o = once.objects[i];
        assert(h.objects[i] == o);
        law_collect_keeps_reachability(h, once, roots, o);
    }
    lemma_same_headers_same_heap(twice, once);
}

/// The room for a payload is the least multiple of eight that holds it, and an object takes this room,
/// eight bytes for each reference and 40 bytes for the header.
pub proof fn law_padding(refs_count: int, payload_size: int)
    requires
        0 <= refs_count,
        0 <= payload_size,
    ensures
        ({
            let room = object_size(refs_count, payload_size) - 40 - 8 * refs_count;
            &&& room % 8 == 0
            &&& payload_size <= room < payload_size + 8
        }),
{
}

/// Where the parts of a header lie: the identifier first, then the colour, in one byte with seven zero
/// bytes behind it, then the size, the number of references and the size of the payload.
pub proof fn law_header_layout(order: ByteOrder, h: ObjectHeader, i: int)
    requires
        9 <= i < 16,
    ensures
        header_bytes(order, h).len() == 40,
        header_bytes(order, h).subrange(0, 8) == word_bytes(order, h.id.0 as u64),
        header_bytes(order, h)[8] == (match h.color {
            GcColor::White => 0u8,
            GcColor::Grey => 1u8,
            GcColor::Black => 2u8,
        }),
        header_bytes(order, h)[i] == 0,
        header_bytes(order, h).subrange(16, 24) == word_bytes(order, h.size as u64),
        header_bytes(order, h).subrange(24, 32) == word_bytes(order, h.refs_count as u64),
        header_bytes(order, h).subrange(32, 40) == word_bytes(order, h.payload_size as u64),
{
    lemma_word_bytes();
    let b = header_bytes(order, h);
    assert(b.subrange(0, 8) =~= word_bytes(order, h.id.0 as u64));
    assert(b.subrange(16, 24) =~= word_bytes(order, h.size as u64));
    assert(b.subrange(24, 32) =~= word_bytes(order, h.refs_count as u64));
    assert(b.subrange(32, 40) =~= word_bytes(order, h.payload_size as u64));
}

/// The header of a new object: it is white, carries its own offset as identifier and the numbers that
/// were asked for, and its size is that of header, references and payload up to the next multiple of
/// eight.
pub proof fn law_new_header(b: BumpState, refs_count: usize, payload_size: usize)
    requires
        b.wf(),
        b.next + object_size(refs_count as int, payload_size as int) <= b.memory.len(),
    ensures
        ({
            let h = b.new_header(refs_count, payload_size);
            &&& h.id.0 == b.next
            &&& h.color == GcColor::White
            &&& h.refs_count == refs_count
            &&& h.payload_size == payload_size
            &&& 40 + 8 * refs_count + payload_size <= h.size < 48 + 8 * refs_count + payload_size
            &&& h.size % 8 == 0
        }),
{
}

/// What is read as a header is what lies in the places of its parts, and it can be read where 40 bytes
/// below the next object have a colour in the place of the colour.
pub proof fn law_header_is_read_from_its_places(b: BumpState, id: ObjectId, i: int)
    requires
        b.wf(),
    ensures
        b.readable(id) <==> id.0 + 40 <= b.next && b.memory[id.0 + 8] <= 2,
        b.header(id).id.0 == word_at(b.order, b.memory, id.0 as int) as usize,
        b.header(id).size == word_at(b.order, b.memory, id.0 + 16) as usize,
        b.header(id).refs_count == word_at(b.order, b.memory, id.0 + 24) as usize,
        b.header(id).payload_size == word_at(b.order, b.memory, id.0 + 32) as usize,
        b.memory[id.0 + 8] == 0 <==> b.header(id).color == GcColor::White,
        b.memory[id.0 + 8] == 1 <==> b.header(id).color == GcColor::Grey,
        b.references(id).len() == b.header(id).refs_count,
        0 <= i < b.header(id).refs_count ==> b.references(id)[i].0 == word_at(
            b.order,
            b.memory,
            id.0 + 40 + 8 * i,
        ) as usize,
        b.refs_readable(id) <==> b.readable(id) && id.0 + 40 + 8 * b.header(id).refs_count
            <= b.memory.len(),
{
}

/// The heap's readers see what the allocator sees, and the payload lies behind the references.
pub proof fn law_heap_reads_what_lies_there(h: HeapState, id: ObjectId)
    ensures
        h.bump() == (BumpState { order: h.order, memory: h.memory, next: h.next }),
        h.header(id) == h.bump().header(id),
        h.references(id) == h.bump().references(id),
        h.payload(id) == h.memory.subrange(
            id.0 + 40 + 8 * h.header(id).refs_count,
            id.0 + 40 + 8 * h.header(id).refs_count + h.header(id).payload_size,
        ),
        h.object_readable(id) <==> h.bump().readable(id) && id.0 + 40 + 8 * h.header(id).refs_count
            + h.header(id).payload_size <= h.memory.len(),
{
}

/// Writing an object appends it: it begins where the last one ends, and takes the header, the
/// references and the padded payload. No byte below or behind it changes.
pub proof fn law_written_object_is_appended(h: HeapState, obj: ManagedObject, i: int)
    requires
        h.wf(),
        h.next + object_size(obj.references@.len() as int, obj.payload@.len() as int)
            <= h.memory.len(),
        0 <= i < h.memory.len(),
    ensures
        ({
            let g = h.with_object(obj);
            let id = ObjectId(h.next as usize);
            let r = obj.references@.len();
            let n = obj.payload@.len();
            &&& g.objects == h.objects.push(id)
            &&& id.0 == h.next
            &&& h.next + 40 + 8 * r + n <= g.next < h.next + 48 + 8 * r + n
            &&& g.next % 8 == 0
            &&& g.order == h.order
            &&& g.memory.len() == h.memory.len()
            &&& i < h.next || i >= h.next + 40 + 8 * r + n ==> g.memory[i] == h.memory[i]
            &&& g.header(id) == (ObjectHeader {
                id,
                color: GcColor::White,
                size: (g.next - h.next) as usize,
                refs_count: r as usize,
                payload_size: n as usize,
            })
            &&& g.header(id).size == g.next - h.next
            &&& g.header(id).refs_count == r
            &&& g.header(id).payload_size == n
        }),
{
    law_write_object(h, obj);
    crate::bump_heap::lemma_object_bytes_len(h, obj);
    crate::bump_allocator::lemma_object_size(
        obj.references@.len() as int,
        obj.payload@.len() as int,
    );
}

/// An object refers to exactly those to which it was written with a reference, at whatever position.
/// The references of the other objects stay.
pub proof fn law_written_references_are_edges(
    h: HeapState,
    obj: ManagedObject,
    a: ObjectId,
    b: ObjectId,
)
    requires
        h.wf(),
        h.next + object_size(obj.references@.len() as int, obj.payload@.len() as int)
            <= h.memory.len(),
    ensures
        ({
            let g = h.with_object(obj);
            let id = ObjectId(h.next as usize);
            &&& g.edge()(id, b) <==> exists|k: int|
                0 <= k < obj.references@.len() && #[trigger] obj.references@[k] == b
            &&& h.is_object(a) ==> (g.edge()(a, b) <==> h.edge()(a, b))
        }),
{
    let g = h.with_object(obj);
    let id = ObjectId(h.next as usize);
    law_write_object(h, obj);
    assert(g.objects[h.objects.len() as int] == id);
    assert(g.is_object(id));
    assert(g.references(id) == obj.references@);
    if h.is_object(a) {
        let i = choose|i: int| 0 <= i < h.objects.len() && h.objects[i] == a;
        assert(g.objects[i] == a);
        assert(g.references(h.objects[i]) == h.references(h.objects[i]));
    }
}

/// An object refers to what any one of its references holds, and to nothing else; what is no object
/// refers to nothing.
pub proof fn law_edges_are_references(h: HeapState, a: ObjectId, b: ObjectId)
    ensures
        h.edge()(a, b) <==> h.objects.contains(a) && exists|k: int|
            0 <= k < h.references(a).len() && #[trigger] h.references(a)[k] == b,
{
}

/// A collection keeps every root, and whatever a kept object refers to, from any of its references:
/// with header, references and payload.
pub proof fn law_collect_follows_every_reference(
    h: HeapState,
    after: HeapState,
    roots: Seq<ObjectId>,
    a: ObjectId,
    k: int,
)
    requires
        h.wf(),
        graph_ok(h, roots),
        is_collected(h, after, roots),
    ensures
        roots.contains(a) ==> reachable(h.edge(), roots, a),
        reachable(h.edge(), roots, a) ==> {
            &&& h.objects.contains(a)
            &&& after.header(a) == h.header(a)
            &&& after.references(a) == h.references(a)
            &&& after.payload(a) == h.payload(a)
        },
        reachable(h.edge(), roots, a) && 0 <= k < h.references(a).len() ==> {
            let b = h.references(a)[k];
            &&& reachable(h.edge(), roots, b)
            &&& h.objects.contains(b)
            &&& after.header(b) == h.header(b)
            &&& after.references(b) == h.references(b)
            &&& after.payload(b) == h.payload(b)
        },
{
    if roots.contains(a) {
        lemma_reach_start(h.edge(), roots, a);
    }
    if reachable(h.edge(), roots, a) {
        law_collect_keeps_live(h, after, roots, a);
        if 0 <= k < h.references(a).len() {
            let b = h.references(a)[k];
            assert(h.is_object(a));
            assert(h.edge()(a, b));
            lemma_reach_step(h.edge(), roots, a, b);
            law_collect_keeps_live(h, after, roots, b);
        }
    }
}

/// A collection keeps nothing without need: an object outside a set that holds the roots and all that
/// its members refer to loses its references.
pub proof fn law_collect_keeps_nothing_else(
    h: HeapState,
    after: HeapState,
    roots: Seq<ObjectId>,
    keep: spec_fn(ObjectId) -> bool,
    id: ObjectId,
)
    requires
        h.wf(),
        is_collected(h, after, roots),
        forall|a: ObjectId| roots.contains(a) ==> #[trigger] keep(a),
        forall|a: ObjectId, b: ObjectId, k: int|
            #![trigger keep(b), h.references(a)[k]]
            keep(a) && h.objects.contains(a) && 0 <= k < h.references(a).len() && h.references(
                a,
            )[k] == b ==> keep(b),
        h.objects.contains(id),
        !keep(id),
    ensures
        after.header(id).refs_count == 0,
        after.header(id).color == GcColor::White,
        after.header(id).size == h.header(id).size,
        after.header(id).payload_size == h.header(id).payload_size,
        after.header(id).id == h.header(id).id,
{
    assert forall|a: ObjectId, b: ObjectId| keep(a) && #[trigger] h.edge()(a, b) implies keep(
        b,
    ) by {
        let k = choose|k: int| 0 <= k < h.references(a).len() && h.references(a)[k] == b;
        assert(h.references(a)[k] == b);
        assert(keep(b) || !keep(b));
    }
    lemma_reach_closed(h.edge(), roots, keep);
    law_collect_unlinks_garbage(h, after, roots, id);
    let i = choose|i: int| 0 <= i < h.objects.len() && h.objects[i] == id;
    assert(h.header(h.objects[i]).color == GcColor::White);
}

/// A collection succeeds if, and only if, the roots and all that can be reached from them are objects:
/// it does if they lie in a set of objects that holds the roots and all that its members refer to, and
/// it does not if a root, or something that a reachable object refers to, is no object.
pub proof fn law_collect_succeeds_on_objects(
    h: HeapState,
    roots: Seq<ObjectId>,
    keep: spec_fn(ObjectId) -> bool,
    a: ObjectId,
    k: int,
)
    ensures
        (forall|x: ObjectId| roots.contains(x) ==> #[trigger] keep(x)) && (forall|x: ObjectId|
            #[trigger] keep(x) ==> h.objects.contains(x)) && (forall|x: ObjectId, y: ObjectId, j: int|
            #![trigger keep(y), h.references(x)[j]]
            keep(x) && 0 <= j < h.references(x).len() && h.references(x)[j] == y ==> keep(y))
            ==> graph_ok(h, roots),
        graph_ok(h, roots) && roots.contains(a) ==> h.objects.contains(a),
        graph_ok(h, roots) && reachable(h.edge(), roots, a) && 0 <= k < h.references(a).len()
            ==> h.objects.contains(h.references(a)[k]),
{
    let edge = h.edge();
    if (forall|x: ObjectId| roots.contains(x) ==> #[trigger] keep(x)) && (forall|x: ObjectId|
        #[trigger] keep(x) ==> h.objects.contains(x)) && (forall|x: ObjectId, y: ObjectId, j: int|
        #![trigger keep(y), h.references(x)[j]]
        keep(x) && 0 <= j < h.references(x).len() && h.references(x)[j] == y ==> keep(y)) {
        assert forall|x: ObjectId, y: ObjectId| keep(x) && #[trigger] edge(x, y) implies keep(y) by {
            let j = choose|j: int| 0 <= j < h.references(x).len() && h.references(x)[j] == y;
            assert(h.references(x)[j] == y);
            assert(keep(y) || !keep(y));
        }
        lemma_reach_closed(edge, roots, keep);
        assert forall|x: ObjectId| #[trigger] reachable(edge, roots, x) implies h.is_object(x) by {
            assert(keep(x));
        }
    }
    if graph_ok(h, roots) && roots.contains(a) {
        lemma_reach_start(edge, roots, a);
        assert(h.is_object(a));
    }
    if graph_ok(h, roots) && reachable(edge, roots, a) && 0 <= k < h.references(a).len() {
        assert(h.is_object(a));
        assert(edge(a, h.references(a)[k]));
        lemma_reach_step(edge, roots, a, h.references(a)[k]);
        assert(h.is_object(h.references(a)[k]));
    }
}

/// A collection moves no object and changes no byte outside the headers.
pub proof fn law_collect_moves_nothing(
    h: HeapState,
    after: HeapState,
    roots: Seq<ObjectId>,
    k: int,
)
    requires
        is_collected(h, after, roots),
        0 <= k < h.memory.len(),
        forall|i: int|
            0 <= i < h.objects.len() ==> !((#[trigger] h.objects[i]).0 <= k < h.objects[i].0 + 40),
    ensures
        after.objects == h.objects,
        after.next == h.next,
        after.order == h.order,
        after.memory.len() == h.memory.len(),
        after.memory[k] == h.memory[k],
{
    assert(!h.in_header(k));
}

/// The objects follow one another from offset zero on, each where the one before it ends, and the next
/// one will begin where the last one ends.
pub proof fn law_objects_follow_one_another(h: HeapState, i: int)
    requires
        h.wf(),
        0 <= i < h.objects.len(),
    ensures
        h.objects[0].0 == 0,
        h.objects[i].0 + h.header(h.objects[i]).size == if i + 1 < h.objects.len() {
            h.objects[i + 1].0 as int
        } else {
            h.next
        },
        h.header(h.objects[i]).id == h.objects[i],
        40 + 8 * h.header(h.objects[i]).refs_count + h.header(h.objects[i]).payload_size <= h.header(
            h.objects[i],
        ).size,
        h.is_object(h.objects[i]),
{
    assert(h.object_ok(i));
}

} // verus!
