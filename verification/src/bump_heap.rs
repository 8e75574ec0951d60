//! The bump-allocated heap: objects one behind the other, each with a header that carries its colour.

use crate::bump_allocator::{
    header_at, header_bytes, lemma_header_written, lemma_object_size, lemma_same_header,
    object_size, references_at, BumpAllocator, BumpState,
};
use crate::datastruct::{
    AllocError, GcColor, ObjectHeader, ObjectId, OBJECT_HEADER_SIZE, OBJECT_ID_SIZE,
};
use crate::memory::{
    is_native, lemma_same_word, lemma_word_bytes, splice, word_bytes, ByteOrder,
};
use vstd::prelude::*;

verus! {

/// An object of the bump-allocated heap.
#[derive(Debug, Clone)]
pub struct ManagedObject {
    /// The identifier. Writing an object ignores it: the heap gives the object its own.
    pub id: ObjectId,
    /// The objects that this one refers to.
    pub references: Vec<ObjectId>,
    /// Plain data.
    pub payload: Vec<u8>,
}

/// The bytes of references, one word each.
pub open spec fn refs_bytes(order: ByteOrder, refs: Seq<ObjectId>) -> Seq<u8>
    decreases refs.len(),
{
    if refs.len() == 0 {
        Seq::empty()
    } else {
        refs_bytes(order, refs.drop_last()) + word_bytes(order, refs.last().0 as u64)
    }
}

/// What a heap holds.
#[verifier::ext_equal]
pub struct HeapState {
    /// The order of the bytes of a word.
    pub order: ByteOrder,
    /// The bytes.
    pub memory: Seq<u8>,
    /// Offset of the next object.
    pub next: int,
    /// The objects, in the order in which they were written, which is that of their offsets.
    pub objects: Seq<ObjectId>,
}

impl HeapState {
    /// The header of the object at `id`.
    pub open spec fn header(self, id: ObjectId) -> ObjectHeader {
        header_at(self.order, self.memory, id.0 as int)
    }

    /// The references of the object at `id`.
    pub open spec fn references(self, id: ObjectId) -> Seq<ObjectId> {
        references_at(
            self.order,
            self.memory,
            id.0 + OBJECT_HEADER_SIZE,
            self.header(id).refs_count as int,
        )
    }

    /// The payload of the object at `id`.
    pub open spec fn payload(self, id: ObjectId) -> Seq<u8> {
        let at = id.0 + OBJECT_HEADER_SIZE + self.header(id).refs_count * OBJECT_ID_SIZE;
        self.memory.subrange(at, at + self.header(id).payload_size)
    }

    /// The offset right behind the object at `id`.
    pub open spec fn end(self, id: ObjectId) -> int {
        id.0 + self.header(id).size
    }

    /// Object number `i` has an intact header, its references and payload fit into its size, and the
    /// next object begins right behind it.
    pub open spec fn object_ok(self, i: int) -> bool {
        let id = self.objects[i];
        let h = self.header(id);
        &&& id.0 + OBJECT_HEADER_SIZE <= self.memory.len()
        &&& self.memory.subrange(id.0 as int, id.0 + OBJECT_HEADER_SIZE) == header_bytes(
            self.order,
            h,
        )
        &&& h.id == id
        &&& OBJECT_HEADER_SIZE + h.refs_count * OBJECT_ID_SIZE + h.payload_size <= h.size
        &&& id.0 % 8 == 0
        &&& h.size % 8 == 0
        &&& self.end(id) == if i + 1 < self.objects.len() {
            self.objects[i + 1].0 as int
        } else {
            self.next
        }
    }

    /// The objects fill the heap from offset zero up to the next offset.
    pub open spec fn layout_wf(self) -> bool {
        &&& 0 <= self.next <= self.memory.len() <= isize::MAX
        &&& self.next % 8 == 0
        &&& self.objects.len() == 0 ==> self.next == 0
        &&& self.objects.len() > 0 ==> self.objects[0].0 == 0
        &&& forall|i: int| 0 <= i < self.objects.len() ==> #[trigger] self.object_ok(i)
    }

    /// Whether every object is white.
    pub open spec fn all_white(self) -> bool {
        forall|i: int|
            0 <= i < self.objects.len() ==> (#[trigger] self.header(self.objects[i])).color
                == GcColor::White
    }

    /// The invariant of a heap: between collections, every object is white.
    pub open spec fn wf(self) -> bool {
        self.layout_wf() && self.all_white()
    }

    /// The allocator's part of the state.
    pub open spec fn bump(self) -> BumpState {
        BumpState { order: self.order, memory: self.memory, next: self.next }
    }

    /// The bytes of a new object at the next offset: header, references, payload.
    pub open spec fn object_bytes(self, obj: ManagedObject) -> Seq<u8> {
        header_bytes(
            self.order,
            self.bump().new_header(
                obj.references@.len() as usize,
                obj.payload@.len() as usize,
            ),
        ) + refs_bytes(self.order, obj.references@) + obj.payload@
    }

    /// The heap with one more object.
    pub open spec fn with_object(self, obj: ManagedObject) -> HeapState {
        HeapState {
            memory: splice(self.memory, self.next, self.object_bytes(obj)),
            next: self.next + object_size(
                obj.references@.len() as int,
                obj.payload@.len() as int,
            ),
            objects: self.objects.push(ObjectId(self.next as usize)),
            ..self
        }
    }

    /// Whether an object is at `id`.
    pub open spec fn is_object(self, id: ObjectId) -> bool {
        self.objects.contains(id)
    }

    /// Whether the object at `a` refers to `b`.
    pub open spec fn edge(self) -> spec_fn(ObjectId, ObjectId) -> bool {
        |a: ObjectId, b: ObjectId| self.is_object(a) && self.references(a).contains(b)
    }

    /// Whether an object that is not white is at `id`.
    pub open spec fn marked(self, id: ObjectId) -> bool {
        self.is_object(id) && self.header(id).color != GcColor::White
    }

    /// The set of the objects that are not white.
    pub open spec fn marks(self) -> spec_fn(ObjectId) -> bool {
        |id: ObjectId| self.marked(id)
    }

    /// How many offsets of the heap are not those of marked objects.
    pub open spec fn unmarked_count(self) -> nat {
        crate::reach::count_outside(self.marks(), self.memory.len())
    }

    /// Whether the byte at `k` belongs to a header.
    pub open spec fn in_header(self, k: int) -> bool {
        exists|i: int|
            0 <= i < self.objects.len() && (#[trigger] self.objects[i]).0 <= k < self.objects[i].0
                + OBJECT_HEADER_SIZE
    }

    /// Whether both heaps have the same objects in the same places and agree on every byte outside
    /// the headers.
    pub open spec fn same_but_headers(self, other: HeapState) -> bool {
        &&& self.order == other.order
        &&& self.objects == other.objects
        &&& self.next == other.next
        &&& self.memory.len() == other.memory.len()
        &&& forall|k: int|
            0 <= k < self.memory.len() && !other.in_header(k) ==> #[trigger] self.memory[k]
                == other.memory[k]
    }

    /// Whether only the colours differ.
    pub open spec fn same_but_colors(self, other: HeapState) -> bool {
        &&& self.same_but_headers(other)
        &&& forall|i: int|
            #![trigger self.objects[i]]
            0 <= i < self.objects.len() ==> self.header(self.objects[i]) == (ObjectHeader {
                color: self.header(self.objects[i]).color,
                ..other.header(other.objects[i])
            })
    }

    /// The header that a settled object has: it is white, and if it is to be freed, its references
    /// are dropped.
    pub open spec fn settled(h: ObjectHeader, free: bool) -> ObjectHeader {
        ObjectHeader {
            color: GcColor::White,
            refs_count: if free {
                0
            } else {
                h.refs_count
            },
            ..h
        }
    }

    /// The heap with `header` in front of the object at `id`.
    pub open spec fn with_header(self, id: ObjectId, header: ObjectHeader) -> HeapState {
        HeapState {
            memory: splice(self.memory, id.0 as int, header_bytes(self.order, header)),
            ..self
        }
    }

    /// Whether the references and the payload that the header at `id` announces lie inside the
    /// memory.
    pub open spec fn object_readable(self, id: ObjectId) -> bool {
        &&& self.bump().readable(id)
        &&& id.0 + OBJECT_HEADER_SIZE + self.header(id).refs_count * OBJECT_ID_SIZE + self.header(
            id,
        ).payload_size <= self.memory.len()
    }
}

/// Objects lie one behind the other.
pub proof fn lemma_objects_ordered(h: HeapState, i: int, j: int)
    requires
        h.layout_wf(),
        0 <= i < j < h.objects.len(),
    ensures
        h.end(h.objects[i]) <= h.objects[j].0,
        h.objects[i].0 + OBJECT_HEADER_SIZE <= h.objects[j].0,
    decreases j - i,
{
    assert(h.object_ok(i));
    if i + 1 < j {
        lemma_objects_ordered(h, i + 1, j);
        assert(h.object_ok(i + 1));
    }
}

/// An object ends at or below the next offset.
pub proof fn lemma_object_end(h: HeapState, i: int)
    requires
        h.layout_wf(),
        0 <= i < h.objects.len(),
    ensures
        h.objects[i].0 + OBJECT_HEADER_SIZE <= h.end(h.objects[i]) <= h.next,
        h.bump().readable(h.objects[i]),
{
    let n = h.objects.len() as int;
    assert(h.object_ok(i));
    assert(h.object_ok(n - 1));
    if i < n - 1 {
        lemma_objects_ordered(h, i, n - 1);
    }
    let id = h.objects[i];
    lemma_header_written(h.order, h.memory, id.0 as int, h.header(id));
    assert(h.memory[id.0 + 8] == h.memory.subrange(id.0 as int, id.0 + OBJECT_HEADER_SIZE)[8]);
    let bytes = header_bytes(h.order, h.header(id));
    assert(splice(h.memory, id.0 as int, bytes)[id.0 + 8] == bytes[8]);
}

/// Putting another header of the same object in place keeps the layout and all other headers.
pub proof fn lemma_with_header(h: HeapState, i: int, header: ObjectHeader)
    requires
        h.layout_wf(),
        0 <= i < h.objects.len(),
        header.id == h.objects[i],
        header.size == h.header(h.objects[i]).size,
        OBJECT_HEADER_SIZE + header.refs_count * OBJECT_ID_SIZE + header.payload_size
            <= header.size,
    ensures
        ({
            let g = h.with_header(h.objects[i], header);
            &&& g.layout_wf()
            &&& g.same_but_headers(h)
            &&& g.header(h.objects[i]) == header
            &&& forall|j: int|
                #![trigger h.objects[j]]
                0 <= j < h.objects.len() && j != i ==> g.header(h.objects[j]) == h.header(
                    h.objects[j],
                )
        }),
{
    let id = h.objects[i];
    let g = h.with_header(id, header);
    assert(h.object_ok(i));
    lemma_header_written(h.order, h.memory, id.0 as int, header);
    assert forall|j: int|
        #![trigger h.objects[j]]
        0 <= j < h.objects.len() && j != i implies {
        &&& g.header(h.objects[j]) == h.header(h.objects[j])
        &&& g.memory.subrange(h.objects[j].0 as int, h.objects[j].0 + OBJECT_HEADER_SIZE)
            == h.memory.subrange(h.objects[j].0 as int, h.objects[j].0 + OBJECT_HEADER_SIZE)
    } by {
        let o = h.objects[j];
        assert(h.object_ok(j));
        if j < i {
            lemma_objects_ordered(h, j, i);
        } else {
            lemma_objects_ordered(h, i, j);
        }
        lemma_same_header(h.order, g.memory, h.memory, o.0 as int);
        assert(g.memory.subrange(o.0 as int, o.0 + OBJECT_HEADER_SIZE) =~= h.memory.subrange(
            o.0 as int,
            o.0 + OBJECT_HEADER_SIZE,
        ));
    }
    assert forall|k: int|
        0 <= k < g.memory.len() && !h.in_header(k) implies #[trigger] g.memory[k]
        == h.memory[k] by {
        if id.0 <= k < id.0 + OBJECT_HEADER_SIZE {
            assert(h.in_header(k));
        }
    }
    assert forall|j: int| 0 <= j < g.objects.len() implies #[trigger] g.object_ok(j) by {
        assert(h.object_ok(j));
        let o = h.objects[j];
        if j == i {
            assert(g.memory.subrange(id.0 as int, id.0 + OBJECT_HEADER_SIZE) =~= header_bytes(
                h.order,
                header,
            ));
        }
    }
}

/// No byte behind the header of an object, up to its end, belongs to a header.
pub proof fn lemma_body_not_header(h: HeapState, i: int, k: int)
    requires
        h.layout_wf(),
        0 <= i < h.objects.len(),
        h.objects[i].0 + OBJECT_HEADER_SIZE <= k < h.end(h.objects[i]),
    ensures
        !h.in_header(k),
{
    assert forall|j: int| 0 <= j < h.objects.len() implies !((#[trigger] h.objects[j]).0 <= k
        < h.objects[j].0 + OBJECT_HEADER_SIZE) by {
        if j < i {
            lemma_objects_ordered(h, j, i);
        } else if i < j {
            lemma_objects_ordered(h, i, j);
        }
    }
}

/// An object whose header announces the same has the same references and payload in heaps that agree
/// outside the headers.
pub proof fn lemma_same_body(g: HeapState, h: HeapState, i: int)
    requires
        h.layout_wf(),
        g.same_but_headers(h),
        0 <= i < h.objects.len(),
        g.header(h.objects[i]).refs_count == h.header(h.objects[i]).refs_count,
        g.header(h.objects[i]).payload_size == h.header(h.objects[i]).payload_size,
    ensures
        g.references(h.objects[i]) == h.references(h.objects[i]),
        g.payload(h.objects[i]) == h.payload(h.objects[i]),
{
    let o = h.objects[i];
    assert(h.object_ok(i));
    lemma_object_end(h, i);
    let from = o.0 + OBJECT_HEADER_SIZE;
    assert forall|k: int| from <= k < h.end(o) implies g.memory[k] == h.memory[k] by {
        lemma_body_not_header(h, i, k);
    }
    assert forall|k: int| 0 <= k < h.header(o).refs_count implies g.references(o)[k]
        == h.references(o)[k] by {
        lemma_same_word(h.order, g.memory, h.memory, from + k * OBJECT_ID_SIZE);
    }
    assert(g.references(o) =~= h.references(o));
    assert(g.payload(o) =~= h.payload(o));
}

/// Heaps that differ in the colours alone have the same references.
pub proof fn lemma_same_edges(g: HeapState, h: HeapState)
    requires
        h.layout_wf(),
        g.same_but_colors(h),
    ensures
        g.edge() == h.edge(),
        forall|id: ObjectId| h.is_object(id) ==> #[trigger] g.references(id) == h.references(id),
{
    assert forall|id: ObjectId| h.is_object(id) implies #[trigger] g.references(id)
        == h.references(id) by {
        let i = choose|i: int| 0 <= i < h.objects.len() && h.objects[i] == id;
        assert(g.objects[i] == id);
        lemma_same_body(g, h, i);
    }
    assert forall|a: ObjectId, b: ObjectId| #[trigger] g.edge()(a, b) == h.edge()(a, b) by {
        if h.is_object(a) {
            assert(g.references(a) == h.references(a));
        }
    }
    assert(g.edge() =~= h.edge());
}

/// Heaps with the same layout that agree on all headers and outside the headers are one.
pub proof fn lemma_same_headers_same_heap(g: HeapState, h: HeapState)
    requires
        g.layout_wf(),
        h.layout_wf(),
        g.same_but_headers(h),
        forall|i: int|
            #![trigger h.objects[i]]
            0 <= i < h.objects.len() ==> g.header(h.objects[i]) == h.header(h.objects[i]),
    ensures
        g == h,
{
    assert forall|k: int| 0 <= k < g.memory.len() implies #[trigger] g.memory[k]
        == h.memory[k] by {
        if h.in_header(k) {
            let i = choose|i: int|
                0 <= i < h.objects.len() && (#[trigger] h.objects[i]).0 <= k < h.objects[i].0
                    + OBJECT_HEADER_SIZE;
            let o = h.objects[i];
            assert(h.object_ok(i));
            assert(g.object_ok(i));
            assert(g.memory.subrange(o.0 as int, o.0 + OBJECT_HEADER_SIZE)[k - o.0]
                == h.memory.subrange(o.0 as int, o.0 + OBJECT_HEADER_SIZE)[k - o.0]);
        }
    }
    assert(g.memory =~= h.memory);
}

/// References take eight bytes each, one behind the other.
proof fn lemma_refs_bytes(order: ByteOrder, refs: Seq<ObjectId>)
    ensures
        refs_bytes(order, refs).len() == refs.len() * 8,
        forall|i: int|
            #![trigger refs[i]]
            0 <= i < refs.len() ==> refs_bytes(order, refs).subrange(i * 8, i * 8 + 8) == word_bytes(
                order,
                refs[i].0 as u64,
            ),
    decreases refs.len(),
{
    lemma_word_bytes();
    if refs.len() > 0 {
        let rest = refs.drop_last();
        let n = rest.len() as int;
        lemma_refs_bytes(order, rest);
        let words = refs_bytes(order, refs);
        assert forall|i: int|
            #![trigger refs[i]]
            0 <= i < refs.len() implies words.subrange(i * 8, i * 8 + 8) == word_bytes(
            order,
            refs[i].0 as u64,
        ) by {
            if i < n {
                assert(rest[i] == refs[i]);
                assert(words.subrange(i * 8, i * 8 + 8) =~= refs_bytes(order, rest).subrange(
                    i * 8,
                    i * 8 + 8,
                ));
            } else {
                assert(words.subrange(i * 8, i * 8 + 8) =~= word_bytes(
                    order,
                    refs[i].0 as u64,
                ));
            }
        }
    }
}

/// Every object keeps its header, references and payload, and the new object has what was written.
pub proof fn law_write_object(h: HeapState, obj: ManagedObject)
    requires
        h.wf(),
        h.next + object_size(obj.references@.len() as int, obj.payload@.len() as int)
            <= h.memory.len(),
    ensures
        ({
            let g = h.with_object(obj);
            let id = ObjectId(h.next as usize);
            &&& g.wf()
            &&& g.object_readable(id)
            &&& g.header(id) == h.bump().new_header(
                obj.references@.len() as usize,
                obj.payload@.len() as usize,
            )
            &&& g.references(id) == obj.references@
            &&& g.payload(id) == obj.payload@
            &&& forall|i: int|
                #![trigger h.objects[i]]
                0 <= i < h.objects.len() ==> {
                    let o = h.objects[i];
                    &&& g.object_readable(o)
                    &&& g.header(o) == h.header(o)
                    &&& g.references(o) == h.references(o)
                    &&& g.payload(o) == h.payload(o)
                }
        }),
{
    let g = h.with_object(obj);
    let id = ObjectId(h.next as usize);
    let at = h.next;
    lemma_new_object(h, obj);
    // The objects that were there before.
    assert forall|i: int|
        #![trigger h.objects[i]]
        0 <= i < h.objects.len() implies {
        let o = h.objects[i];
        &&& g.object_readable(o)
        &&& g.header(o) == h.header(o)
        &&& g.references(o) == h.references(o)
        &&& g.payload(o) == h.payload(o)
    } by {
        lemma_old_object(h, obj, i);
    }
    let n = h.objects.len() as int;
    assert forall|i: int| 0 <= i < g.objects.len() implies #[trigger] g.object_ok(i) by {
        if i < n {
            let o = h.objects[i];
            lemma_old_object(h, obj, i);
            assert(h.object_ok(i));
            lemma_object_end(h, i);
            assert(g.memory.subrange(o.0 as int, o.0 + OBJECT_HEADER_SIZE) =~= h.memory.subrange(
                o.0 as int,
                o.0 + OBJECT_HEADER_SIZE,
            ));
        } else {
            assert(at % 8 == 0);
        }
    }
    assert forall|i: int| 0 <= i < g.objects.len() implies (#[trigger] g.header(
        g.objects[i],
    )).color == GcColor::White by {
        if i < n {
            assert(g.objects[i] == h.objects[i]);
            assert(h.header(h.objects[i]).color == GcColor::White);
        }
    }
}

/// The new object has what was written.
proof fn lemma_new_object(h: HeapState, obj: ManagedObject)
    requires
        h.wf(),
        h.next + object_size(obj.references@.len() as int, obj.payload@.len() as int)
            <= h.memory.len(),
    ensures
        ({
            let g = h.with_object(obj);
            let id = ObjectId(h.next as usize);
            let nh = h.bump().new_header(
                obj.references@.len() as usize,
                obj.payload@.len() as usize,
            );
            &&& g.header(id) == nh
            &&& g.memory.subrange(h.next, h.next + OBJECT_HEADER_SIZE) == header_bytes(h.order, nh)
            &&& g.references(id) == obj.references@
            &&& g.payload(id) == obj.payload@
            &&& g.object_readable(id)
            &&& g.next % 8 == 0
            &&& nh.size % 8 == 0
            &&& OBJECT_HEADER_SIZE + nh.refs_count * OBJECT_ID_SIZE + nh.payload_size <= nh.size
            &&& h.next + nh.size == g.next
        }),
{
    let g = h.with_object(obj);
    let id = ObjectId(h.next as usize);
    let at = h.next;
    let refs = obj.references@;
    let payload = obj.payload@;
    let nh = h.bump().new_header(refs.len() as usize, payload.len() as usize);
    let bytes = h.object_bytes(obj);
    let words = refs_bytes(h.order, refs);
    lemma_refs_bytes(h.order, refs);
    lemma_header_written(h.order, h.memory, at, nh);
    lemma_object_size(refs.len() as int, payload.len() as int);
    assert(bytes.len() <= object_size(refs.len() as int, payload.len() as int));
    lemma_same_header(h.order, g.memory, splice(h.memory, at, header_bytes(h.order, nh)), at);
    assert(g.header(id) == nh);
    assert(g.memory.subrange(at, at + OBJECT_HEADER_SIZE) =~= header_bytes(h.order, nh));
    assert forall|i: int| 0 <= i < refs.len() implies g.references(id)[i] == refs[i] by {
        let w = at + OBJECT_HEADER_SIZE + i * OBJECT_ID_SIZE;
        lemma_word_bytes();
        assert(words.subrange(i * 8, i * 8 + 8) == word_bytes(h.order, refs[i].0 as u64));
        assert(g.memory.subrange(w, w + 8) =~= words.subrange(i * 8, i * 8 + 8));
    }
    assert(g.references(id) =~= refs);
    assert(g.payload(id) =~= payload);
}

/// How many bytes are written for an object.
pub proof fn lemma_object_bytes_len(h: HeapState, obj: ManagedObject)
    requires
        h.wf(),
    ensures
        h.object_bytes(obj).len() == OBJECT_HEADER_SIZE + obj.references@.len() * OBJECT_ID_SIZE
            + obj.payload@.len(),
{
    lemma_refs_bytes(h.order, obj.references@);
    lemma_word_bytes();
}

/// Writing one more object leaves the objects below it alone.
proof fn lemma_old_object(h: HeapState, obj: ManagedObject, i: int)
    requires
        h.wf(),
        h.next + object_size(obj.references@.len() as int, obj.payload@.len() as int)
            <= h.memory.len(),
        0 <= i < h.objects.len(),
    ensures
        ({
            let g = h.with_object(obj);
            let o = h.objects[i];
            &&& g.object_readable(o)
            &&& g.header(o) == h.header(o)
            &&& g.references(o) == h.references(o)
            &&& g.payload(o) == h.payload(o)
        }),
{
    let g = h.with_object(obj);
    let o = h.objects[i];
    assert(h.object_ok(i));
    lemma_object_end(h, i);
    lemma_same_header(h.order, g.memory, h.memory, o.0 as int);
    assert forall|k: int| 0 <= k < h.header(o).refs_count implies g.references(o)[k]
        == h.references(o)[k] by {
        lemma_same_word(
            h.order,
            g.memory,
            h.memory,
            o.0 + OBJECT_HEADER_SIZE + k * OBJECT_ID_SIZE,
        );
    }
    assert(g.references(o) =~= h.references(o));
    assert(g.payload(o) =~= h.payload(o));
}

/// The heap.
pub struct ManagedHeap {
    allocator: BumpAllocator,
    objects: Ghost<Seq<ObjectId>>,
}

impl View for ManagedHeap {
    type V = HeapState;

    closed spec fn view(&self) -> HeapState {
        HeapState {
            order: self.allocator@.order,
            memory: self.allocator@.memory,
            next: self.allocator@.next,
            objects: self.objects@,
        }
    }
}

impl ManagedHeap {
    /// The invariant of a heap.
    pub open spec fn wf(&self) -> bool {
        self@.wf()
    }

    /// A heap of `capacity` zero bytes without objects that lays out words as this machine does.
    pub fn new(capacity: usize) -> (heap: Self)
        requires
            capacity <= isize::MAX,
        ensures
            heap.wf(),
            is_native(heap@.order),
            heap@ == (HeapState {
                order: heap@.order,
                memory: Seq::new(capacity as nat, |i: int| 0u8),
                next: 0,
                objects: Seq::empty(),
            }),
    {
        ManagedHeap { allocator: BumpAllocator::new(capacity), objects: Ghost(Seq::empty()) }
    }

    /// A heap of `capacity` zero bytes without objects that lays out words in the given order.
    pub fn with_order(capacity: usize, order: ByteOrder) -> (heap: Self)
        requires
            capacity <= isize::MAX,
        ensures
            heap.wf(),
            heap@ == (HeapState {
                order,
                memory: Seq::new(capacity as nat, |i: int| 0u8),
                next: 0,
                objects: Seq::empty(),
            }),
    {
        ManagedHeap {
            allocator: BumpAllocator::with_order(capacity, order),
            objects: Ghost(Seq::empty()),
        }
    }

    /// Writes an object behind the last one and returns its identifier, which is its offset.
    pub fn write_object(&mut self, obj: &ManagedObject) -> (r: Result<ObjectId, AllocError>)
        requires
            old(self).wf(),
        ensures
            final(self).wf(),
            match r {
                Ok(id) => {
                    &&& old(self)@.next + object_size(
                        obj.references@.len() as int,
                        obj.payload@.len() as int,
                    ) <= old(self)@.memory.len()
                    &&& id.0 == old(self)@.next
                    &&& final(self)@ == old(self)@.with_object(*obj)
                },
                Err(e) => {
                    &&& e == AllocError::OutOfMemory
                    &&& old(self)@.next + object_size(
                        obj.references@.len() as int,
                        obj.payload@.len() as int,
                    ) > old(self)@.memory.len()
                    &&& final(self)@ == old(self)@
                },
            },
    {
        let refs_count: usize = obj.references.len();
        let id = match self.allocator.allocate(refs_count, obj.payload.len()) {
            Ok(id) => id,
            Err(e) => {
                return Err(e);
            },
        };
        let ghost h = old(self)@;
        let ghost nh = h.bump().new_header(refs_count, obj.payload@.len() as usize);
        let ghost m0 = self.allocator@.memory;
        let ghost refs = obj.references@;
        let offset: usize = id.0 + OBJECT_HEADER_SIZE;
        let mut i: usize = 0;
        proof {
            lemma_header_written(h.order, h.memory, h.next, nh);
            lemma_refs_bytes(h.order, refs);
            assert(refs.take(0) =~= Seq::<ObjectId>::empty());
            assert(splice(m0, offset as int, Seq::<u8>::empty()) =~= m0);
        }
        while i < refs_count
            invariant
                i <= refs_count,
                refs_count == refs.len(),
                refs == obj.references@,
                offset + refs_count * OBJECT_ID_SIZE <= m0.len() <= isize::MAX,
                self.allocator@.memory == splice(
                    m0,
                    offset as int,
                    refs_bytes(h.order, refs.take(i as int)),
                ),
                self.allocator@.next == h.next + object_size(
                    refs_count as int,
                    obj.payload@.len() as int,
                ),
                self.objects@ == h.objects,
                self.allocator@.order == h.order,
            decreases refs_count - i,
        {
            self.allocator.write_reference(offset + i * OBJECT_ID_SIZE, obj.references[i]);
            proof {
                let done = refs.take(i as int);
                let now = refs.take(i + 1);
                assert(now.drop_last() =~= done);
                assert(now.last() == refs[i as int]);
                lemma_refs_bytes(h.order, done);
                assert(self.allocator@.memory =~= splice(
                    m0,
                    offset as int,
                    refs_bytes(h.order, now),
                ));
            }
            i = i + 1;
        }
        proof {
            assert(refs.take(refs_count as int) =~= refs);
        }
        self.allocator.write_bytes(offset + refs_count * OBJECT_ID_SIZE, obj.payload.as_slice());
        self.objects = Ghost(self.objects@.push(id));
        proof {
            assert(self@.memory =~= h.with_object(*obj).memory);
            law_write_object(h, *obj);
        }
        Ok(id)
    }

    /// Reads the header of the object at `object_id`.
    pub fn read_header(&self, object_id: ObjectId) -> (r: Result<ObjectHeader, AllocError>)
        requires
            self.wf(),
        ensures
            match r {
                Ok(header) => self@.bump().readable(object_id) && header == self@.header(object_id),
                Err(e) => e == AllocError::InvalidPointer && !self@.bump().readable(object_id),
            },
    {
        self.allocator.read_header(object_id)
    }

    /// Reads the object at `object_id`. Fails if no header can be read there, or if what the header
    /// announces does not lie inside the memory.
    pub fn read_object(&self, object_id: ObjectId) -> (r: Result<ManagedObject, AllocError>)
        requires
            self.wf(),
        ensures
            match r {
                Ok(obj) => {
                    &&& self@.object_readable(object_id)
                    &&& obj.id == self@.header(object_id).id
                    &&& obj.references@ == self@.references(object_id)
                    &&& obj.payload@ == self@.payload(object_id)
                },
                Err(e) => e == AllocError::InvalidPointer && !self@.object_readable(object_id),
            },
    {
        let header = match self.allocator.read_header(object_id) {
            Ok(header) => header,
            Err(e) => {
                return Err(e);
            },
        };
        let references = match self.allocator.read_references(object_id) {
            Ok(references) => references,
            Err(e) => {
                return Err(e);
            },
        };
        let at: usize = object_id.0 + OBJECT_HEADER_SIZE + header.refs_count * OBJECT_ID_SIZE;
        if header.payload_size > self.allocator.capacity() - at {
            return Err(AllocError::InvalidPointer);
        }
        let payload = self.allocator.read_bytes(at, header.payload_size);
        Ok(ManagedObject { id: header.id, references, payload })
    }

    /// Whether an object is at `object_id`.
    pub fn contains(&self, object_id: ObjectId) -> (r: bool)
        requires
            self@.layout_wf(),
        ensures
            r == self@.is_object(object_id),
    {
        let ghost h = self@;
        let mut at = ObjectId(0);
        let ghost mut i: int = 0;
        while at.0 < object_id.0 && !self.allocator.over_next(at)
            invariant
                h == self@,
                h.layout_wf(),
                0 <= i <= h.objects.len(),
                at.0 == if i < h.objects.len() {
                    h.objects[i].0 as int
                } else {
                    h.next
                },
                forall|j: int|
                    0 <= j < i ==> (#[trigger] h.objects[j]).0 < object_id.0,
            decreases h.objects.len() - i,
        {
            proof {
                assert(h.object_ok(i));
                lemma_object_end(h, i);
            }
            let header = self.header_of(at);
            at = ObjectId(at.0 + header.size);
            proof {
                i = i + 1;
            }
        }
        proof {
            if at.0 < h.next {
                assert(i < h.objects.len());
                if at.0 == object_id.0 {
                    assert(h.objects[i] == object_id);
                }
            }
            if h.is_object(object_id) {
                let j = choose|j: int| 0 <= j < h.objects.len() && h.objects[j] == object_id;
                lemma_object_end(h, j);
                assert(h.objects[j].0 == object_id.0);
                assert(i <= j);
                if i < j {
                    lemma_objects_ordered(h, i, j);
                    lemma_object_end(h, i);
                }
            }
        }
        at.0 == object_id.0 && !self.allocator.over_next(at)
    }

    /// The header of an object.
    pub(crate) fn header_of(&self, object_id: ObjectId) -> (header: ObjectHeader)
        requires
            self@.layout_wf(),
            self@.is_object(object_id),
        ensures
            header == self@.header(object_id),
    {
        proof {
            let i = choose|i: int| 0 <= i < self@.objects.len() && self@.objects[i] == object_id;
            lemma_object_end(self@, i);
        }
        self.allocator.read_header(object_id).unwrap()
    }

    /// The references of an object.
    pub(crate) fn references_of(&self, object_id: ObjectId) -> (refs: Vec<ObjectId>)
        requires
            self@.layout_wf(),
            self@.is_object(object_id),
        ensures
            refs@ == self@.references(object_id),
    {
        proof {
            let i = choose|i: int| 0 <= i < self@.objects.len() && self@.objects[i] == object_id;
            assert(self@.object_ok(i));
            lemma_object_end(self@, i);
        }
        self.allocator.read_references(object_id).unwrap()
    }

    /// Writes the header of an object.
    pub(crate) fn set_header(&mut self, object_id: ObjectId, header: ObjectHeader)
        requires
            old(self)@.layout_wf(),
            old(self)@.is_object(object_id),
        ensures
            final(self)@ == old(self)@.with_header(object_id, header),
    {
        proof {
            let i = choose|i: int|
                0 <= i < self@.objects.len() && self@.objects[i] == object_id;
            assert(self@.object_ok(i));
        }
        let _updated = self.allocator.update_header(object_id, header);
    }

    /// Makes every object white. If `free_white` is set, the objects that were white lose their
    /// references.
    pub(crate) fn settle(&mut self, free_white: bool)
        requires
            old(self)@.layout_wf(),
        ensures
            final(self)@.layout_wf(),
            final(self)@.same_but_headers(old(self)@),
            forall|i: int|
                #![trigger old(self)@.objects[i]]
                0 <= i < old(self)@.objects.len() ==> final(self)@.header(old(self)@.objects[i])
                    == HeapState::settled(
                    old(self)@.header(old(self)@.objects[i]),
                    free_white && old(self)@.header(old(self)@.objects[i]).color == GcColor::White,
                ),
    {
        let ghost h = self@;
        let mut at = ObjectId(0);
        let ghost mut i: int = 0;
        while !self.allocator.over_next(at)
            invariant
                h.layout_wf(),
                self@.layout_wf(),
                self@.same_but_headers(h),
                0 <= i <= h.objects.len(),
                at.0 == if i < h.objects.len() {
                    h.objects[i].0 as int
                } else {
                    h.next
                },
                forall|j: int|
                    #![trigger h.objects[j]]
                    0 <= j < i ==> self@.header(h.objects[j]) == HeapState::settled(
                        h.header(h.objects[j]),
                        free_white && h.header(h.objects[j]).color == GcColor::White,
                    ),
                forall|j: int|
                    #![trigger h.objects[j]]
                    i <= j < h.objects.len() ==> self@.header(h.objects[j]) == h.header(
                        h.objects[j],
                    ),
            decreases h.objects.len() - i,
        {
            let ghost g = self@;
            proof {
                assert(i < h.objects.len());
                assert(h.object_ok(i));
                assert(g.object_ok(i));
                lemma_object_end(h, i);
                assert(g.objects[i] == at);
                assert(h.objects[i] == at);
            }
            let mut header = self.header_of(at);
            if header.color == GcColor::White {
                if free_white {
                    header.refs_count = 0;
                }
            } else {
                header.color = GcColor::White;
            }
            proof {
                lemma_with_header(g, i, header);
                lemma_same_but_headers_trans(g.with_header(at, header), g, h);
            }
            self.set_header(at, header);
            at = ObjectId(at.0 + header.size);
            proof {
                i = i + 1;
            }
        }
        proof {
            if i < h.objects.len() {
                lemma_object_end(h, i);
            }
        }
    }
}

/// Agreeing outside the headers is transitive.
pub proof fn lemma_same_but_headers_trans(f: HeapState, g: HeapState, h: HeapState)
    requires
        f.same_but_headers(g),
        g.same_but_headers(h),
    ensures
        f.same_but_headers(h),
{
    assert forall|k: int| 0 <= k < f.memory.len() && !h.in_header(k) implies #[trigger] f.memory[k]
        == h.memory[k] by {
        assert(!g.in_header(k));
        assert(g.memory[k] == h.memory[k]);
    }
}

} // verus!
