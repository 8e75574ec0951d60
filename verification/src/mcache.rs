//! The allocation cache of one thread.
//!
//! A cache holds at most one span of every size class and allocates from it. When the span is full it
//! goes to the central pool; the next span comes from the pool, or from the heap if the pool has
//! none.

use crate::datastruct::{AllocError, ManagedObject, ObjectId, OBJ_HEADER_SIZE};
use crate::managed_heap::{HeapState, ManagedHeap, SpanId};
use crate::mcentral::{CentralState, MCentral};
use crate::mspan::{MSpan, MSpanSizeClass};
use vstd::prelude::*;

verus! {

/// The cache: the span that is in use for every size class.
pub struct MCache {
    /// The spans in use, at the positions of their classes.
    pub alloc_spans: [Option<SpanId>; MSpanSizeClass::COUNT],
}

impl View for MCache {
    type V = Seq<Option<SpanId>>;

    open spec fn view(&self) -> Seq<Option<SpanId>> {
        self.alloc_spans@
    }
}

/// The class whose blocks hold an object with `payload` bytes of payload: the class that was asked for
/// if the object fits there, and otherwise the smallest class that it fits into. If it fits into no
/// class, this is the one that was asked for.
pub open spec fn fitting(size_class: MSpanSizeClass, payload: int) -> MSpanSizeClass {
    let size = OBJ_HEADER_SIZE + payload;
    if size <= size_class.block_size() {
        size_class
    } else if size <= MSpanSizeClass::B64.block_size() {
        MSpanSizeClass::B64
    } else if size <= MSpanSizeClass::B128.block_size() {
        MSpanSizeClass::B128
    } else if size <= MSpanSizeClass::B256.block_size() {
        MSpanSizeClass::B256
    } else if size <= MSpanSizeClass::B512.block_size() {
        MSpanSizeClass::B512
    } else if size <= MSpanSizeClass::B3072.block_size() {
        MSpanSizeClass::B3072
    } else {
        size_class
    }
}

/// An object that fits into the class that was asked for stays there. Any other object that fits into
/// some class gets one that holds it, and no smaller class does.
pub proof fn law_fitting_class(size_class: MSpanSizeClass, payload: int, other: MSpanSizeClass)
    requires
        0 <= payload,
    ensures
        OBJ_HEADER_SIZE + payload <= size_class.block_size() ==> fitting(size_class, payload)
            == size_class,
        OBJ_HEADER_SIZE + payload <= other.block_size() ==> OBJ_HEADER_SIZE + payload <= fitting(
            size_class,
            payload,
        ).block_size(),
        OBJ_HEADER_SIZE + payload > size_class.block_size() && OBJ_HEADER_SIZE + payload
            <= other.block_size() ==> fitting(size_class, payload).block_size()
            <= other.block_size(),
{
}

/// The class whose blocks hold an object with `payload` bytes of payload.
pub fn fitting_class(size_class: MSpanSizeClass, payload: usize) -> (r: MSpanSizeClass)
    ensures
        r == fitting(size_class, payload as int),
{
    if payload <= size_class.block_size() - OBJ_HEADER_SIZE {
        size_class
    } else if payload <= MSpanSizeClass::B64.block_size() - OBJ_HEADER_SIZE {
        MSpanSizeClass::B64
    } else if payload <= MSpanSizeClass::B128.block_size() - OBJ_HEADER_SIZE {
        MSpanSizeClass::B128
    } else if payload <= MSpanSizeClass::B256.block_size() - OBJ_HEADER_SIZE {
        MSpanSizeClass::B256
    } else if payload <= MSpanSizeClass::B512.block_size() - OBJ_HEADER_SIZE {
        MSpanSizeClass::B512
    } else if payload <= MSpanSizeClass::B3072.block_size() - OBJ_HEADER_SIZE {
        MSpanSizeClass::B3072
    } else {
        size_class
    }
}

/// The span that the next allocation of the class uses without cutting a new one: the one in use, or
/// else the one that the pool hands out.
pub open spec fn source(
    cache: Seq<Option<SpanId>>,
    central: CentralState,
    size_class: MSpanSizeClass,
) -> Option<SpanId> {
    match cache[size_class.to_index() as int] {
        Some(s) => Some(s),
        None => central.top(size_class),
    }
}

/// The pool once the span for the next allocation of the class has been found.
pub open spec fn central_after(
    cache: Seq<Option<SpanId>>,
    central: CentralState,
    size_class: MSpanSizeClass,
) -> CentralState {
    match cache[size_class.to_index() as int] {
        Some(s) => central,
        None => central.popped(size_class),
    }
}

/// The span that the next allocation of the class uses, cut or not.
pub open spec fn target(
    heap: HeapState,
    cache: Seq<Option<SpanId>>,
    central: CentralState,
    size_class: MSpanSizeClass,
) -> SpanId {
    match source(cache, central, size_class) {
        Some(s) => s,
        None => SpanId(heap.spans.len() as usize),
    }
}

/// The heap once there is a span for the next allocation of the class: with a new span if there was
/// none.
pub open spec fn provided(
    heap: HeapState,
    cache: Seq<Option<SpanId>>,
    central: CentralState,
    size_class: MSpanSizeClass,
) -> HeapState {
    match source(cache, central, size_class) {
        Some(s) => heap,
        None => heap.with_span(
            MSpan::fresh(size_class, ObjectId(heap.next_page_offset as usize)),
        ),
    }
}

/// Whether a span has to be cut for the next allocation of the class and the heap has no room for it.
pub open spec fn exhausted(
    heap: HeapState,
    cache: Seq<Option<SpanId>>,
    central: CentralState,
    size_class: MSpanSizeClass,
) -> bool {
    &&& source(cache, central, size_class) is None
    &&& heap.next_page_offset + size_class.span_bytes() > heap.memory.len()
}

/// Whether the span at hand for the next allocation of the class, if there is one, is a span of the
/// heap of that class with a free block.
pub open spec fn source_usable(
    heap: HeapState,
    cache: Seq<Option<SpanId>>,
    central: CentralState,
    size_class: MSpanSizeClass,
) -> bool {
    source(cache, central, size_class) matches Some(s) ==> {
        &&& s.0 < heap.spans.len()
        &&& heap.span(s).size_class == size_class
        &&& !heap.span(s).all_allocated()
    }
}

/// Whether a request for a block of the class, made in state `before`, has been served with the block
/// at `id`, which left state `after`. A state is that of the heap, the cache and the pool.
///
/// The block is the lowest free one of the span at hand, or of a new span if there was none. It is
/// taken and holds the whole object. If it was the last free block, the span goes to the pool; otherwise
/// the cache keeps it.
pub open spec fn served(
    before: (HeapState, Seq<Option<SpanId>>, CentralState),
    size_class: MSpanSizeClass,
    obj: ManagedObject,
    id: ObjectId,
    after: (HeapState, Seq<Option<SpanId>>, CentralState),
) -> bool {
    let (heap, cache, central) = before;
    let (heap2, cache2, central2) = after;
    let s = target(heap, cache, central, size_class);
    let h = provided(heap, cache, central, size_class);
    let k = h.span(s).index_of(id);
    let i = size_class.to_index() as int;
    let pool = central_after(cache, central, size_class);
    &&& h.span(s).is_block(id)
    &&& h.span(s).is_first_free(k)
    &&& OBJ_HEADER_SIZE + obj.payload@.len() <= h.span(s).size_class.block_size()
    &&& heap2.span(s).is_published(&h.span(s), k)
    &&& heap2 == h.with_span_at(s, heap2.span(s)).with_bytes(
        id.0 as int,
        h.object_bytes(obj),
    )
    &&& cache2 == cache.update(
        i,
        if heap2.span(s).all_allocated() {
            None
        } else {
            Some(s)
        },
    )
    &&& central2 == if heap2.span(s).all_allocated() {
        pool.with_full(size_class, s)
    } else {
        pool
    }
}

/// Whether `r` answers a request for a block of the class, made in state `before`, and left state
/// `after`. The request is served from the class that fits the object; if that class has no span at
/// hand and the heap has no room for one, it is refused and nothing changes.
pub open spec fn answered(
    before: (HeapState, Seq<Option<SpanId>>, CentralState),
    size_class: MSpanSizeClass,
    obj: ManagedObject,
    r: Result<ObjectId, AllocError>,
    after: (HeapState, Seq<Option<SpanId>>, CentralState),
) -> bool {
    let class = fitting(size_class, obj.payload@.len() as int);
    match r {
        Ok(id) => {
            &&& !exhausted(before.0, before.1, before.2, class)
            &&& served(before, class, obj, id, after)
        },
        Err(e) => {
            &&& e == AllocError::OutOfMemory
            &&& exhausted(before.0, before.1, before.2, class)
            &&& after == before
        },
    }
}

impl MCache {
    /// A cache that holds no spans.
    pub fn new() -> (cache: Self)
        ensures
            cache@ == Seq::new(MSpanSizeClass::COUNT as nat, |i: int| None::<SpanId>),
    {
        let cache = MCache { alloc_spans: [None, None, None, None, None] };
        proof {
            assert(cache@ =~= Seq::new(MSpanSizeClass::COUNT as nat, |i: int| None::<SpanId>));
        }
        cache
    }

    /// Allocates a block and writes an object into it. The block is of the given class, or, if the
    /// object does not fit there, of the smallest class that holds it.
    pub fn allocate(
        &mut self,
        central: &mut MCentral,
        heap: &mut ManagedHeap,
        size_class: MSpanSizeClass,
        obj: &ManagedObject,
    ) -> (r: Result<ObjectId, AllocError>)
        requires
            old(heap).wf(),
            source_usable(
                old(heap)@,
                old(self)@,
                old(central)@,
                fitting(size_class, obj.payload@.len() as int),
            ),
            OBJ_HEADER_SIZE + obj.payload@.len() <= MSpanSizeClass::B3072.block_size() || exhausted(
                old(heap)@,
                old(self)@,
                old(central)@,
                fitting(size_class, obj.payload@.len() as int),
            ),
        ensures
            final(heap).wf(),
            answered(
                (old(heap)@, old(self)@, old(central)@),
                size_class,
                *obj,
                r,
                (final(heap)@, final(self)@, final(central)@),
            ),
            match r {
                Ok(id) => OBJ_HEADER_SIZE + obj.payload@.len() <= final(heap)@.size_of_block(id),
                Err(_) => true,
            },
    {
        let size_class = fitting_class(size_class, obj.payload.len());
        let index: usize = size_class.to_index();
        let span = match self.alloc_spans[index] {
            Some(s) => s,
            None => match central.pop_span(size_class) {
                Some(s) => s,
                None => match heap.grow_span(size_class) {
                    Ok(s) => s,
                    Err(e) => {
                        return Err(e);
                    },
                },
            },
        };
        let ghost h = heap@;
        let ghost before = h.span(span);
        proof {
            assert(h == provided(old(heap)@, old(self)@, old(central)@, size_class));
            assert(h.span_wf(span));
            before.lemma_wf_in_range();
            if source(old(self)@, old(central)@, size_class) is None {
                MSpan::lemma_fresh(
                    size_class,
                    ObjectId(old(heap)@.next_page_offset as usize),
                );
                assert(!before.allocated(0));
            }
        }
        let object_id: ObjectId = heap.span(span).find_next_block().unwrap();
        proof {
            before.lemma_is_block(object_id);
            before.lemma_block_end(before.index_of(object_id));
        }
        heap.write_to_slot(object_id, obj);
        heap.span_mut(span).publish_block(object_id);
        proof {
            let after = heap@.span(span);
            let k = before.index_of(object_id);
            after.lemma_bit_change_wf(&before, k);
            h.lemma_with_span_at(span, after);
            let bytes = h.object_bytes(*obj);
            h.with_span_at(span, after).lemma_with_bytes_wf(object_id.0 as int, bytes);
            assert(heap@ =~= h.with_span_at(span, after).with_bytes(object_id.0 as int, bytes));
        }
        if heap.span(span).is_full() {
            self.alloc_spans[index] = None;
            central.push_span(size_class, span, heap);
        } else {
            self.alloc_spans[index] = Some(span);
        }
        proof {
            crate::laws_allocation::law_served_takes_one_free_block(
                (old(heap)@, old(self)@, old(central)@),
                size_class,
                *obj,
                object_id,
                (heap@, self@, central@),
            );
        }
        Ok(object_id)
    }
}

} // verus!
