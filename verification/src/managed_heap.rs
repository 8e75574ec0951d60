//! The paged heap.
//!
//! `ManagedHeap` is one run of bytes from which spans are cut, page by page. It hands out spans and
//! reads and writes object slots by offset; placing objects inside spans is the work of `MCache` and
//! `MCentral`.

use crate::datastruct::{
    AllocError, ManagedObject, ObjectId, TypeDescriptor, TypePtr, OBJ_HEADER_SIZE, PAGE_SIZE,
};
use crate::memory::{
    is_native, lemma_word_bytes, native_order, read_word, word_at, word_bytes, write_bytes, write_word,
    ByteOrder,
};
use crate::mspan::{MSpan, MSpanSizeClass};
use vstd::prelude::*;

verus! {

/// Names a span of a heap, by its position in the order in which the spans were cut.
#[derive(Copy, Clone, Debug, Hash, PartialEq, Eq, Structural)]
pub struct SpanId(pub usize);

/// Bookkeeping of a heap.
pub struct HeapMeta {
    /// Offset of the first page that no span owns yet.
    pub next_page_offset: usize,
    /// For every page, the span that owns it.
    pub page_map: Vec<Option<SpanId>>,
    /// All spans, in the order in which they were cut.
    pub spans: Vec<MSpan>,
}

/// The heap: the store of all objects of the runtime.
pub struct ManagedHeap {
    order: ByteOrder,
    memory: Vec<u8>,
    meta: HeapMeta,
    types: Vec<TypeDescriptor>,
}

/// Whether one of the reference fields holds the offset of `b`.
pub open spec fn names(refs: Seq<u64>, b: ObjectId) -> bool {
    exists|i: int| 0 <= i < refs.len() && #[trigger] refs[i] as usize == b.0
}

/// What a heap holds.
#[verifier::ext_equal]
pub struct HeapState {
    /// The order of the bytes of a word.
    pub order: ByteOrder,
    /// The bytes.
    pub memory: Seq<u8>,
    /// Offset of the first page that no span owns yet.
    pub next_page_offset: int,
    /// For every page, the span that owns it.
    pub page_map: Seq<Option<SpanId>>,
    /// All spans, in the order in which they were cut.
    pub spans: Seq<MSpan>,
    /// The registered descriptors, in the order in which they were registered.
    pub types: Seq<TypeDescriptor>,
}

impl HeapState {
    /// The span named `s`.
    pub open spec fn span(self, s: SpanId) -> MSpan {
        self.spans[s.0 as int]
    }

    /// Offset just past the last page of span `s`.
    pub open spec fn span_end(self, s: SpanId) -> int {
        self.span(s).start_id.0 + self.span(s).size_class.span_bytes()
    }

    /// Whether page `p` lies in span `s`.
    pub open spec fn covers(self, s: SpanId, p: int) -> bool {
        self.span(s).start_id.0 <= p * PAGE_SIZE < self.span_end(s)
    }

    /// Span `s` is well formed and consists of whole pages between the first page, which stays
    /// unused, and the next free one.
    pub open spec fn span_wf(self, s: SpanId) -> bool {
        &&& self.span(s).wf()
        &&& self.span(s).start_id.0 % PAGE_SIZE == 0
        &&& PAGE_SIZE <= self.span(s).start_id.0
        &&& self.span_end(s) <= self.next_page_offset
    }

    /// The entry of page `p`: the one span that covers it, or none if no span does, which is so of
    /// the first page and of the pages that were not handed out yet.
    pub open spec fn page_wf(self, p: int) -> bool {
        match self.page_map[p] {
            Some(s) => s.0 < self.spans.len() && self.covers(s, p),
            None => p == 0 || self.next_page_offset <= p * PAGE_SIZE,
        }
    }

    /// The invariant of a heap.
    pub open spec fn wf(self) -> bool {
        &&& PAGE_SIZE < self.memory.len() <= isize::MAX
        &&& self.page_map.len() == self.memory.len() / (PAGE_SIZE as nat) + 1
        &&& PAGE_SIZE <= self.next_page_offset <= self.memory.len()
        &&& self.next_page_offset % (PAGE_SIZE as int) == 0
        &&& self.spans.len() <= usize::MAX
        &&& forall|s: SpanId| s.0 < self.spans.len() ==> #[trigger] self.span_wf(s)
        &&& forall|p: int| 0 <= p < self.page_map.len() ==> #[trigger] self.page_wf(p)
        &&& forall|s: SpanId, p: int|
            s.0 < self.spans.len() && #[trigger] self.covers(s, p) ==> self.page_map[p] == Some(s)
    }

    /// The span that owns the page which `id` points into. The first page has no owner.
    pub open spec fn span_of(self, id: ObjectId) -> Option<SpanId> {
        let p = id.0 as int / PAGE_SIZE as int;
        if PAGE_SIZE <= id.0 && p < self.page_map.len() {
            self.page_map[p]
        } else {
            None
        }
    }

    /// Whether `id` is the offset of a block of some span.
    pub open spec fn is_block(self, id: ObjectId) -> bool {
        self.span_of(id) matches Some(s) && self.span(s).is_block(id)
    }

    /// The span that owns the page which `id` points into, where there is one.
    pub open spec fn owner(self, id: ObjectId) -> SpanId {
        self.span_of(id)->0
    }

    /// What the owner of the page holds.
    pub open spec fn home(self, id: ObjectId) -> MSpan {
        self.span(self.owner(id))
    }

    /// Size of the block at `id`.
    pub open spec fn size_of_block(self, id: ObjectId) -> int {
        self.home(id).size_class.block_size() as int
    }

    /// Whether `id` is the offset of a block that is taken.
    pub open spec fn allocated(self, id: ObjectId) -> bool {
        self.is_block(id) && self.home(id).allocated(self.home(id).index_of(id))
    }

    /// Whether `id` is the offset of a block that is marked alive.
    pub open spec fn marked(self, id: ObjectId) -> bool {
        self.is_block(id) && self.home(id).marked(self.home(id).index_of(id))
    }

    /// Whether no block is marked.
    pub open spec fn unmarked(self) -> bool {
        forall|id: ObjectId| !#[trigger] self.marked(id)
    }

    /// Whether `p` is the address of a registered descriptor.
    pub open spec fn is_type(self, p: TypePtr) -> bool {
        1 <= p.0 <= self.types.len()
    }

    /// The descriptor at address `p`.
    pub open spec fn type_at(self, p: TypePtr) -> TypeDescriptor {
        self.types[p.0 - 1]
    }

    /// The descriptor address stored in front of the object at `id`.
    pub open spec fn slot_type(self, id: ObjectId) -> TypePtr {
        TypePtr(word_at(self.order, self.memory, id.0 as int) as usize)
    }

    /// Number of reference fields of the object at `id`.
    pub open spec fn refs_count(self, id: ObjectId) -> usize {
        self.type_at(self.slot_type(id)).refs_count
    }

    /// Offset of reference field `i` of the object at `id`.
    pub open spec fn field_addr(self, id: ObjectId, i: int) -> int {
        id.0 + OBJ_HEADER_SIZE + i * 8
    }

    /// Whether a whole type word with the address of a registered descriptor is at `id`.
    pub open spec fn has_type(self, id: ObjectId) -> bool {
        &&& id.0 + OBJ_HEADER_SIZE <= self.memory.len()
        &&& self.is_type(self.slot_type(id))
    }

    /// Whether an object is at `id` whose reference fields all lie inside the heap.
    pub open spec fn readable(self, id: ObjectId) -> bool {
        &&& self.has_type(id)
        &&& self.field_addr(id, self.refs_count(id) as int) <= self.memory.len()
    }

    /// Reference field `i` of the object at `id`.
    pub open spec fn field(self, id: ObjectId, i: int) -> u64 {
        word_at(self.order, self.memory, self.field_addr(id, i))
    }

    /// All reference fields of the object at `id`.
    pub open spec fn references(self, id: ObjectId) -> Seq<u64> {
        Seq::new(self.refs_count(id) as nat, |i: int| self.field(id, i))
    }

    /// Whether a reference field of the object at `a` names the block at `b`.
    pub open spec fn edge(self) -> spec_fn(ObjectId, ObjectId) -> bool {
        |a: ObjectId, b: ObjectId| self.is_block(b) && names(self.references(a), b)
    }

    /// The set of marked blocks.
    pub open spec fn marks(self) -> spec_fn(ObjectId) -> bool {
        |id: ObjectId| self.marked(id)
    }

    /// Whether a reference field of the object at `a` names the unmarked block at `b`.
    pub open spec fn fresh_edge(self) -> spec_fn(ObjectId, ObjectId) -> bool {
        crate::reach::avoiding(self.edge(), self.marks())
    }

    /// How many offsets of the heap are not those of marked blocks.
    pub open spec fn unmarked_count(self) -> nat {
        crate::reach::count_outside(self.marks(), self.memory.len())
    }

    /// Whether only the marks differ.
    pub open spec fn same_but_marks(self, other: HeapState) -> bool {
        &&& self.order == other.order
        &&& self.memory == other.memory
        &&& self.next_page_offset == other.next_page_offset
        &&& self.page_map == other.page_map
        &&& self.types == other.types
        &&& self.spans.len() == other.spans.len()
        &&& forall|i: int|
            0 <= i < self.spans.len() ==> #[trigger] self.spans[i].same_shape(&other.spans[i])
                && self.spans[i].alloc_bits == other.spans[i].alloc_bits
    }

    /// Whether every span has been swept and nothing else differs.
    pub open spec fn is_swept(self, before: HeapState) -> bool {
        &&& self.order == before.order
        &&& self.memory == before.memory
        &&& self.next_page_offset == before.next_page_offset
        &&& self.page_map == before.page_map
        &&& self.types == before.types
        &&& self.spans.len() == before.spans.len()
        &&& forall|i: int|
            0 <= i < self.spans.len() ==> #[trigger] self.spans[i].is_swept(&before.spans[i])
    }

    /// The heap with one more span, cut from the next free pages.
    pub open spec fn with_span(self, span: MSpan) -> HeapState {
        HeapState {
            next_page_offset: self.next_page_offset + span.size_class.span_bytes(),
            page_map: Seq::new(
                self.page_map.len(),
                |p: int|
                    if span.start_id.0 <= p * PAGE_SIZE < span.start_id.0
                        + span.size_class.span_bytes() {
                        Some(SpanId(self.spans.len() as usize))
                    } else {
                        self.page_map[p]
                    },
            ),
            spans: self.spans.push(span),
            ..self
        }
    }

    /// The heap with `span` in place of span `s`.
    pub open spec fn with_span_at(self, s: SpanId, span: MSpan) -> HeapState {
        HeapState { spans: self.spans.update(s.0 as int, span), ..self }
    }

    /// The heap with `bytes` in memory from `at` on.
    pub open spec fn with_bytes(self, at: int, bytes: Seq<u8>) -> HeapState {
        HeapState { memory: crate::memory::splice(self.memory, at, bytes), ..self }
    }

    /// The bytes of an object: its type word, then its payload.
    pub open spec fn object_bytes(self, obj: ManagedObject) -> Seq<u8> {
        word_bytes(self.order, obj.type_desc_ptr.0 as u64) + obj.payload@
    }
}

/// Cutting a fresh span from the next free pages keeps the heap well formed.
pub proof fn lemma_with_span_wf(h: HeapState, span: MSpan)
    requires
        h.wf(),
        h.spans.len() < usize::MAX,
        span.wf(),
        span.start_id.0 == h.next_page_offset,
        h.next_page_offset + span.size_class.span_bytes() <= h.memory.len(),
    ensures
        h.with_span(span).wf(),
{
    let g = h.with_span(span);
    let new = SpanId(h.spans.len() as usize);
    assert forall|s: SpanId| s.0 < g.spans.len() implies #[trigger] g.span_wf(s) by {
        if s != new {
            assert(h.span_wf(s));
        }
    }
    assert forall|p: int| 0 <= p < g.page_map.len() implies #[trigger] g.page_wf(p) by {
        assert(h.page_wf(p));
    }
    assert forall|s: SpanId, p: int|
        s.0 < g.spans.len() && #[trigger] g.covers(s, p) implies g.page_map[p] == Some(s) by {
        assert(g.span_wf(s));
        if s != new {
            assert(h.span_wf(s));
            assert(h.covers(s, p));
        }
    }
}

impl HeapState {
    /// Putting a span of the same shape in the place of another keeps the heap well formed and
    /// moves no block.
    pub proof fn lemma_with_span_at(self, s: SpanId, span: MSpan)
        requires
            self.wf(),
            s.0 < self.spans.len(),
            span.wf(),
            span.same_shape(&self.span(s)),
        ensures
            self.with_span_at(s, span).wf(),
            forall|id: ObjectId| #[trigger]
                self.with_span_at(s, span).span_of(id) == self.span_of(id),
            forall|id: ObjectId| #[trigger]
                self.with_span_at(s, span).is_block(id) == self.is_block(id),
    {
        let g = self.with_span_at(s, span);
        assert forall|t: SpanId| t.0 < g.spans.len() implies #[trigger] g.span_wf(t) by {
            assert(self.span_wf(t));
        }
        assert forall|p: int| 0 <= p < g.page_map.len() implies #[trigger] g.page_wf(p) by {
            assert(self.page_wf(p));
        }
        assert forall|t: SpanId, p: int|
            t.0 < g.spans.len() && #[trigger] g.covers(t, p) implies g.page_map[p] == Some(t) by {
            assert(self.covers(t, p));
        }
        assert forall|id: ObjectId| #[trigger] g.is_block(id) == self.is_block(id) by {
            assert(g.span_of(id) == self.span_of(id));
            if self.span_of(id) is Some {
                assert(self.page_wf(id.0 as int / PAGE_SIZE as int));
            }
        }
    }

    /// Writing into memory keeps the heap well formed.
    pub proof fn lemma_with_bytes_wf(self, at: int, bytes: Seq<u8>)
        requires
            self.wf(),
        ensures
            self.with_bytes(at, bytes).wf(),
    {
        let g = self.with_bytes(at, bytes);
        assert forall|t: SpanId| t.0 < g.spans.len() implies #[trigger] g.span_wf(t) by {
            assert(self.span_wf(t));
        }
        assert forall|p: int| 0 <= p < g.page_map.len() implies #[trigger] g.page_wf(p) by {
            assert(self.page_wf(p));
        }
        assert forall|t: SpanId, p: int|
            t.0 < g.spans.len() && #[trigger] g.covers(t, p) implies g.page_map[p] == Some(t) by {
            assert(self.covers(t, p));
        }
    }

    /// Registering types keeps the heap well formed.
    pub proof fn lemma_with_types_wf(self, types: Seq<TypeDescriptor>)
        requires
            self.wf(),
        ensures
            (HeapState { types, ..self }).wf(),
    {
        let g = HeapState { types, ..self };
        assert forall|t: SpanId| t.0 < g.spans.len() implies #[trigger] g.span_wf(t) by {
            assert(self.span_wf(t));
        }
        assert forall|p: int| 0 <= p < g.page_map.len() implies #[trigger] g.page_wf(p) by {
            assert(self.page_wf(p));
        }
        assert forall|t: SpanId, p: int|
            t.0 < g.spans.len() && #[trigger] g.covers(t, p) implies g.page_map[p] == Some(t) by {
            assert(self.covers(t, p));
        }
    }

    /// Heaps that differ in their marks alone have the same blocks, taken blocks and references.
    pub proof fn lemma_same_but_marks(self, other: HeapState)
        requires
            other.wf(),
            self.same_but_marks(other),
        ensures
            forall|id: ObjectId| #[trigger] self.span_of(id) == other.span_of(id),
            forall|id: ObjectId| #[trigger] self.is_block(id) == other.is_block(id),
            forall|id: ObjectId| #[trigger] self.allocated(id) == other.allocated(id),
            forall|id: ObjectId| #[trigger] self.readable(id) == other.readable(id),
            forall|id: ObjectId| #[trigger] self.references(id) == other.references(id),
            self.edge() == other.edge(),
    {
        assert forall|id: ObjectId|
            #![trigger self.is_block(id)]
            #![trigger self.allocated(id)]
            self.is_block(id) == other.is_block(id) && self.allocated(id) == other.allocated(
                id,
            ) by {
            assert(self.span_of(id) == other.span_of(id));
            if other.span_of(id) is Some {
                assert(other.page_wf(id.0 as int / PAGE_SIZE as int));
                let i = other.owner(id).0 as int;
                assert(self.spans[i].same_shape(&other.spans[i]));
            }
        }
        assert forall|id: ObjectId| #[trigger]
            self.references(id) == other.references(id) by {
            assert(self.references(id) =~= other.references(id));
        }
        assert forall|a: ObjectId, b: ObjectId| #[trigger]
            self.edge()(a, b) == other.edge()(a, b) by {
            assert(self.is_block(b) == other.is_block(b));
            assert(self.references(a) == other.references(a));
        }
        assert(self.edge() =~= other.edge());
    }

    /// Differing in the marks alone is transitive.
    pub proof fn lemma_same_but_marks_trans(self, mid: HeapState, other: HeapState)
        requires
            self.same_but_marks(mid),
            mid.same_but_marks(other),
        ensures
            self.same_but_marks(other),
    {
        assert forall|i: int| 0 <= i < self.spans.len() implies #[trigger] self.spans[i].same_shape(
            &other.spans[i],
        ) && self.spans[i].alloc_bits == other.spans[i].alloc_bits by {
            assert(self.spans[i].same_shape(&mid.spans[i]));
            assert(mid.spans[i].same_shape(&other.spans[i]));
        }
    }

    /// A block lies between the first page and the end of the heap.
    pub proof fn lemma_block_bounds(self, id: ObjectId)
        requires
            self.wf(),
            self.is_block(id),
        ensures
            self.owner(id).0 < self.spans.len(),
            self.span_wf(self.owner(id)),
            PAGE_SIZE <= id.0,
            self.home(id).start_id.0 <= id.0,
            id.0 + self.size_of_block(id) <= self.span_end(self.owner(id))
                <= self.next_page_offset <= self.memory.len(),
    {
        self.lemma_index_in_span(id);
        self.home(id).lemma_is_block(id);
        self.home(id).lemma_block_end(self.home(id).index_of(id));
    }

    /// Two block offsets with the same owner and the same index are one.
    pub proof fn lemma_same_block(self, a: ObjectId, b: ObjectId)
        requires
            self.wf(),
            self.is_block(a),
            self.is_block(b),
            self.owner(a) == self.owner(b),
            self.home(a).index_of(a) == self.home(b).index_of(b),
        ensures
            a == b,
    {
        self.home(a).lemma_is_block(a);
        self.home(b).lemma_is_block(b);
    }

    /// An offset into a span lies in one of its blocks.
    pub proof fn lemma_index_in_span(self, id: ObjectId)
        requires
            self.wf(),
            self.span_of(id) is Some,
        ensures
            self.owner(id).0 < self.spans.len(),
            self.span_wf(self.owner(id)),
            self.home(id).start_id.0 <= id.0 < self.span_end(self.owner(id)),
            0 <= self.home(id).index_of(id) < self.home(id).total_blocks,
    {
        let p = id.0 as int / PAGE_SIZE as int;
        let s = self.owner(id);
        assert(self.page_wf(p));
        assert(self.span_wf(s));
        let span = self.span(s);
        let size = span.size_class.block_size() as int;
        span.lemma_wf_in_range();
        assert(p * PAGE_SIZE <= id.0 < p * PAGE_SIZE + PAGE_SIZE);
        assert(self.span_end(s) % (PAGE_SIZE as int) == 0);
        let d = id.0 - span.start_id.0;
        vstd::arithmetic::div_mod::lemma_fundamental_div_mod(d, size);
        vstd::arithmetic::div_mod::lemma_div_pos_is_pos(d, size);
        assert(d / size < span.total_blocks) by (nonlinear_arith)
            requires
                d < span.total_blocks * size,
                d == size * (d / size) + d % size,
                0 <= d % size,
                0 < size,
        ;
    }
}

impl View for ManagedHeap {
    type V = HeapState;

    closed spec fn view(&self) -> HeapState {
        HeapState {
            order: self.order,
            memory: self.memory@,
            next_page_offset: self.meta.next_page_offset as int,
            page_map: self.meta.page_map@,
            spans: self.meta.spans@,
            types: self.types@,
        }
    }
}

impl ManagedHeap {
    /// The invariant of a heap.
    pub open spec fn wf(&self) -> bool {
        self@.wf()
    }

    /// A heap of `heap_size` zero bytes without spans that lays out words as this machine does. The
    /// first page is never handed out, so no object is ever at offset zero.
    pub fn new(heap_size: usize) -> (heap: Self)
        requires
            PAGE_SIZE < heap_size <= isize::MAX,
        ensures
            heap.wf(),
            is_native(heap@.order),
            heap@.memory == Seq::new(heap_size as nat, |i: int| 0u8),
            heap@.next_page_offset == PAGE_SIZE,
            heap@.page_map == Seq::new(
                (heap_size as nat / PAGE_SIZE as nat) + 1,
                |p: int| None::<SpanId>,
            ),
            heap@.spans == Seq::<MSpan>::empty(),
            heap@.types == Seq::<TypeDescriptor>::empty(),
    {
        ManagedHeap::with_order(heap_size, native_order())
    }

    /// A heap of `heap_size` zero bytes without spans that lays out words in the given order.
    pub fn with_order(heap_size: usize, order: ByteOrder) -> (heap: Self)
        requires
            PAGE_SIZE < heap_size <= isize::MAX,
        ensures
            heap.wf(),
            heap@.order == order,
            heap@.memory == Seq::new(heap_size as nat, |i: int| 0u8),
            heap@.next_page_offset == PAGE_SIZE,
            heap@.page_map == Seq::new(
                (heap_size as nat / PAGE_SIZE as nat) + 1,
                |p: int| None::<SpanId>,
            ),
            heap@.spans == Seq::<MSpan>::empty(),
            heap@.types == Seq::<TypeDescriptor>::empty(),
    {
        let memory: Vec<u8> = vec![0u8; heap_size];
        let pages: usize = (heap_size / PAGE_SIZE) + 1;
        let page_map: Vec<Option<SpanId>> = vec![None; pages];
        let heap = ManagedHeap {
            order,
            memory,
            meta: HeapMeta { next_page_offset: PAGE_SIZE, page_map, spans: Vec::new() },
            types: Vec::new(),
        };
        proof {
            assert(heap@.memory =~= Seq::new(heap_size as nat, |i: int| 0u8));
            assert(heap@.page_map =~= Seq::new(pages as nat, |p: int| None::<SpanId>));
        }
        heap
    }

    /// The order in which the bytes of a word lie in memory.
    pub fn byte_order(&self) -> (order: ByteOrder)
        ensures
            order == self@.order,
    {
        self.order
    }

    /// Cuts a new span of the given class from the next free pages and enters it into the page map.
    pub fn grow_span(&mut self, size_class: MSpanSizeClass) -> (r: Result<SpanId, AllocError>)
        requires
            old(self).wf(),
        ensures
            final(self).wf(),
            match r {
                Ok(s) => {
                    let start = old(self)@.next_page_offset;
                    &&& start + size_class.span_bytes() <= old(self)@.memory.len()
                    &&& s.0 == old(self)@.spans.len()
                    &&& final(self)@ == old(self)@.with_span(
                        MSpan::fresh(size_class, ObjectId(start as usize)),
                    )
                },
                Err(e) => {
                    &&& e == AllocError::OutOfMemory
                    &&& old(self)@.next_page_offset + size_class.span_bytes() > old(
                        self,
                    )@.memory.len()
                    &&& final(self)@ == old(self)@
                },
            },
    {
        let bytes_needed: usize = PAGE_SIZE * size_class.pages_per_span();
        if self.meta.next_page_offset + bytes_needed > self.memory.len() {
            return Err(AllocError::OutOfMemory);
        }
        let start: usize = self.meta.next_page_offset;
        let span = MSpan::new(size_class, ObjectId(start));
        let id = SpanId(self.meta.spans.len());
        let start_page: usize = start / PAGE_SIZE;
        let end_page: usize = start_page + size_class.pages_per_span();
        let mut i: usize = start_page;
        while i < end_page
            invariant
                start_page <= i <= end_page < self.meta.page_map@.len(),
                self.meta.page_map@ == Seq::new(
                    old(self).meta.page_map@.len(),
                    |p: int|
                        if start_page <= p < i {
                            Some(id)
                        } else {
                            old(self).meta.page_map@[p]
                        },
                ),
                self.meta.spans == old(self).meta.spans,
                self.meta.next_page_offset == old(self).meta.next_page_offset,
                self.order == old(self).order,
                self.memory == old(self).memory,
                self.types == old(self).types,
            decreases end_page - i,
        {
            self.meta.page_map[i] = Some(id);
            i = i + 1;
            proof {
                assert(self.meta.page_map@ =~= Seq::new(
                    old(self).meta.page_map@.len(),
                    |p: int|
                        if start_page <= p < i {
                            Some(id)
                        } else {
                            old(self).meta.page_map@[p]
                        },
                ));
            }
        }
        self.meta.spans.push(span);
        self.meta.next_page_offset = start + bytes_needed;
        proof {
            assert(self.meta.spans.len() <= usize::MAX);
            lemma_with_span_wf(old(self)@, span);
            assert(self@ =~= old(self)@.with_span(span));
        }
        Ok(id)
    }

    /// Registers a type descriptor and returns its address.
    pub fn register_type(&mut self, desc: TypeDescriptor) -> (p: TypePtr)
        requires
            old(self)@.types.len() < usize::MAX,
        ensures
            old(self).wf() ==> final(self).wf(),
            final(self)@ == (HeapState { types: old(self)@.types.push(desc), ..old(self)@ }),
            p.0 == old(self)@.types.len() + 1,
            final(self)@.is_type(p),
            final(self)@.type_at(p) == desc,
    {
        self.types.push(desc);
        proof {
            if old(self).wf() {
                old(self)@.lemma_with_types_wf(self@.types);
            }
        }
        TypePtr(self.types.len())
    }

    /// The descriptor at a registered address.
    pub fn type_descriptor(&self, p: TypePtr) -> (desc: TypeDescriptor)
        requires
            self@.is_type(p),
        ensures
            desc == self@.type_at(p),
    {
        self.types[p.0 - 1]
    }

    /// Writes an object into the slot at `obj_id`: its type word, and right behind it its payload.
    /// Whether the slot belongs to the caller is not checked.
    pub fn write_to_slot(&mut self, obj_id: ObjectId, obj: &ManagedObject)
        requires
            obj_id.0 + OBJ_HEADER_SIZE + obj.payload.len() <= old(self)@.memory.len(),
        ensures
            old(self).wf() ==> final(self).wf(),
            final(self)@ == old(self)@.with_bytes(
                obj_id.0 as int,
                old(self)@.object_bytes(*obj),
            ),
    {
        // The length of a vector fits into a word.
        let ghost size = self.memory.len();
        write_word(self.order, &mut self.memory, obj_id.0, obj.type_desc_ptr.0 as u64);
        write_bytes(&mut self.memory, obj_id.0 + 8, obj.payload.as_slice());
        proof {
            lemma_word_bytes();
            assert(self@.memory =~= old(self)@.with_bytes(
                obj_id.0 as int,
                old(self)@.object_bytes(*obj),
            ).memory);
            if old(self).wf() {
                old(self)@.lemma_with_bytes_wf(obj_id.0 as int, old(self)@.object_bytes(*obj));
            }
        }
    }

    /// The descriptor address and the payload bytes of the slot of the given class at `obj_id`. The
    /// payload is the whole block behind the type word.
    pub fn read_from_slot(&self, obj_id: ObjectId, size_class: MSpanSizeClass) -> (r: (
        TypePtr,
        &[u8],
    ))
        requires
            obj_id.0 + size_class.block_size() <= self@.memory.len(),
        ensures
            r.0 == self@.slot_type(obj_id),
            r.1@ == self@.memory.subrange(
                obj_id.0 + OBJ_HEADER_SIZE,
                obj_id.0 + size_class.block_size(),
            ),
    {
        // The length of a vector fits into a word.
        let ghost size = self.memory.len();
        let type_desc_ptr = TypePtr(read_word(self.order, &self.memory, obj_id.0) as usize);
        let payload_len: usize = size_class.block_size() - 8;
        let from: usize = obj_id.0 + OBJ_HEADER_SIZE;
        let payload = vstd::slice::slice_subrange(self.memory.as_slice(), from, from + payload_len);
        (type_desc_ptr, payload)
    }

    /// The number of reference fields that the type of the object at `obj_id` declares.
    pub fn read_refs_count(&self, obj_id: ObjectId) -> (n: usize)
        requires
            self@.has_type(obj_id),
        ensures
            n == self@.refs_count(obj_id),
    {
        // The length of a vector fits into a word.
        let ghost size = self.memory.len();
        let type_desc_ptr = TypePtr(read_word(self.order, &self.memory, obj_id.0) as usize);
        self.type_descriptor(type_desc_ptr).refs_count
    }

    /// The reference fields of the object at `obj_id`: the first eight-byte fields of its payload.
    pub fn read_references(&self, obj_id: ObjectId) -> (refs: Vec<u64>)
        requires
            self@.readable(obj_id),
        ensures
            refs@ == self@.references(obj_id),
    {
        let refs_count: usize = self.read_refs_count(obj_id);
        // The length of a vector fits into a word.
        let ghost size = self.memory.len();
        let mut refs: Vec<u64> = Vec::new();
        let mut i: usize = 0;
        while i < refs_count
            invariant
                i <= refs_count,
                refs_count == self@.refs_count(obj_id),
                self@.readable(obj_id),
                self@.memory.len() == self.memory.len(),
                refs@ == self@.references(obj_id).take(i as int),
            decreases refs_count - i,
        {
            let at: usize = obj_id.0 + OBJ_HEADER_SIZE + i * 8;
            let w: u64 = read_word(self.order, &self.memory, at);
            refs.push(w);
            i = i + 1;
            proof {
                assert(refs@ =~= self@.references(obj_id).take(i as int));
            }
        }
        proof {
            assert(refs@ =~= self@.references(obj_id));
        }
        refs
    }

    /// Stores a reference into field `field_index` of the object at `obj_id`. Whether the object has
    /// such a field is not checked.
    pub fn write_reference(&mut self, obj_id: ObjectId, field_index: usize, new_ref: ObjectId)
        requires
            old(self)@.field_addr(obj_id, field_index + 1) <= old(self)@.memory.len(),
        ensures
            old(self).wf() ==> final(self).wf(),
            final(self)@ == old(self)@.with_bytes(
                old(self)@.field_addr(obj_id, field_index as int),
                word_bytes(old(self)@.order, new_ref.0 as u64),
            ),
    {
        // The length of a vector fits into a word.
        let ghost size = self.memory.len();
        let byte_offset: usize = obj_id.0 + OBJ_HEADER_SIZE + (field_index * 8);
        write_word(self.order, &mut self.memory, byte_offset, new_ref.0 as u64);
        proof {
            if old(self).wf() {
                old(self)@.lemma_with_bytes_wf(
                    byte_offset as int,
                    word_bytes(old(self)@.order, new_ref.0 as u64),
                );
            }
        }
    }

    /// Number of entries of the page map.
    pub fn get_page_map_len(&self) -> (n: usize)
        ensures
            n == self@.page_map.len(),
    {
        self.meta.page_map.len()
    }

    /// The span that owns page `page_idx`; none if the page is free or does not exist.
    pub fn get_span_for_page(&self, page_idx: usize) -> (r: Option<SpanId>)
        ensures
            r == if page_idx < self@.page_map.len() {
                self@.page_map[page_idx as int]
            } else {
                None
            },
    {
        if page_idx < self.meta.page_map.len() {
            self.meta.page_map[page_idx]
        } else {
            None
        }
    }

    /// Read access to a span.
    pub fn span(&self, s: SpanId) -> (span: &MSpan)
        requires
            s.0 < self@.spans.len(),
        ensures
            *span == self@.span(s),
    {
        &self.meta.spans[s.0]
    }

    /// Write access to a span. The heap holds whatever is left in the span in the end.
    pub fn span_mut(&mut self, s: SpanId) -> (span: &mut MSpan)
        requires
            s.0 < old(self)@.spans.len(),
        ensures
            *span == old(self)@.span(s),
            final(self)@ == old(self)@.with_span_at(s, *final(span)),
    {
        &mut self.meta.spans[s.0]
    }
}

/// Whether the block that `id` lies in is taken.
pub fn is_allocated(id: ObjectId, heap: &ManagedHeap) -> (r: bool)
    requires
        heap.wf(),
        heap@.span_of(id) is Some,
    ensures
        r == heap@.home(id).allocated(heap@.home(id).index_of(id)),
        heap@.is_block(id) ==> r == heap@.allocated(id),
{
    let page_num: usize = id.0 / PAGE_SIZE;
    match heap.get_span_for_page(page_num) {
        Some(s) => {
            proof {
                assert(heap@.page_wf(page_num as int));
                assert(heap@.span_wf(s));
                heap@.lemma_index_in_span(id);
                heap@.span(s).lemma_wf_in_range();
            }
            let span = heap.span(s);
            let index: usize = (id.0 - span.start_id.0) / span.size_class.block_size();
            span.allocated_at(index)
        },
        None => false,
    }
}

} // verus!
