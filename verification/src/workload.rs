//! Runs of allocation requests, as the measurements make them.

use crate::datastruct::{
    AllocError, ManagedObject, ObjectId, TypeDescriptor, TypePtr, OBJ_HEADER_SIZE, PAGE_SIZE,
};
use crate::laws_allocation::request_ok;
use crate::laws_pool::runtime_wf;
use crate::managed_heap::{is_allocated, HeapState, ManagedHeap, SpanId};
use crate::mcache::{exhausted, served, MCache};
use crate::mcentral::{CentralState, MCentral};
use crate::mspan::MSpanSizeClass;
use vstd::prelude::*;

verus! {

/// A state of the runtime as one cache sees it: the heap, the cache and the pool.
pub type Snapshot = (HeapState, Seq<Option<SpanId>>, CentralState);

/// Which size classes the requests of a run ask for.
#[derive(Debug, Clone, Copy, PartialEq, Eq, Structural)]
pub enum Workload {
    /// All requests ask for one class.
    Uniform(MSpanSizeClass),
    /// Requests whose number is divisible by ten ask for a block of the largest class, other requests
    /// whose number is divisible by three for one of 512 bytes, and the rest for small ones.
    Mixed,
}

impl Workload {
    /// The class that request number `i` asks for.
    pub open spec fn class(self, i: int) -> MSpanSizeClass {
        match self {
            Workload::Uniform(size_class) => size_class,
            Workload::Mixed => if i % 10 == 0 {
                MSpanSizeClass::B3072
            } else if i % 3 == 0 {
                MSpanSizeClass::B512
            } else {
                MSpanSizeClass::B64
            },
        }
    }

    /// The class that request number `i` asks for.
    pub fn class_at(&self, i: usize) -> (size_class: MSpanSizeClass)
        ensures
            size_class == self.class(i as int),
    {
        match self {
            Workload::Uniform(size_class) => *size_class,
            Workload::Mixed => if i % 10 == 0 {
                MSpanSizeClass::B3072
            } else if i % 3 == 0 {
                MSpanSizeClass::B512
            } else {
                MSpanSizeClass::B64
            },
        }
    }
}

/// Size of the payload that fills a block of the class behind its type word.
pub fn payload_size(size_class: MSpanSizeClass) -> (n: usize)
    ensures
        n + OBJ_HEADER_SIZE == size_class.block_size(),
{
    size_class.block_size() - OBJ_HEADER_SIZE
}

/// The type of objects without references that fill a block of the class.
pub open spec fn plain(size_class: MSpanSizeClass) -> TypeDescriptor {
    TypeDescriptor { total_size: size_class.spec_block_size(), refs_count: 0 }
}

/// The type of objects without references that fill a block of the class.
pub fn plain_type(size_class: MSpanSizeClass) -> (desc: TypeDescriptor)
    ensures
        desc == plain(size_class),
{
    TypeDescriptor { total_size: size_class.block_size(), refs_count: 0 }
}

/// Whether the table holds, at the position of every class, the address of its plain type.
pub open spec fn types_ok(h: HeapState, types: Seq<TypePtr>) -> bool {
    &&& types.len() == MSpanSizeClass::COUNT
    &&& forall|c: MSpanSizeClass|
        h.is_type(#[trigger] types[c.to_index() as int]) && h.type_at(types[c.to_index() as int])
            == plain(c)
}

/// Registers the plain type of every class and returns their addresses, at the positions of the
/// classes.
pub fn register_plain_types(heap: &mut ManagedHeap) -> (types: [TypePtr; MSpanSizeClass::COUNT])
    requires
        old(heap)@.types.len() + MSpanSizeClass::COUNT <= usize::MAX,
    ensures
        old(heap).wf() ==> final(heap).wf(),
        final(heap)@ == (HeapState {
            types: old(heap)@.types + seq![
                plain(MSpanSizeClass::B64),
                plain(MSpanSizeClass::B128),
                plain(MSpanSizeClass::B256),
                plain(MSpanSizeClass::B512),
                plain(MSpanSizeClass::B3072),
            ],
            ..old(heap)@
        }),
        types_ok(final(heap)@, types@),
        forall|i: int|
            0 <= i < MSpanSizeClass::COUNT ==> (#[trigger] types@[i]).0 == old(heap)@.types.len() + 1
                + i,
{
    let types = [
        heap.register_type(plain_type(MSpanSizeClass::B64)),
        heap.register_type(plain_type(MSpanSizeClass::B128)),
        heap.register_type(plain_type(MSpanSizeClass::B256)),
        heap.register_type(plain_type(MSpanSizeClass::B512)),
        heap.register_type(plain_type(MSpanSizeClass::B3072)),
    ];
    proof {
        assert(heap@.types =~= old(heap)@.types + seq![
            plain(MSpanSizeClass::B64),
            plain(MSpanSizeClass::B128),
            plain(MSpanSizeClass::B256),
            plain(MSpanSizeClass::B512),
            plain(MSpanSizeClass::B3072),
        ]);
        assert forall|c: MSpanSizeClass|
            heap@.is_type(#[trigger] types@[c.to_index() as int]) && heap@.type_at(
                types@[c.to_index() as int],
            ) == plain(c) by {
            match c {
                MSpanSizeClass::B64 => {},
                MSpanSizeClass::B128 => {},
                MSpanSizeClass::B256 => {},
                MSpanSizeClass::B512 => {},
                MSpanSizeClass::B3072 => {},
            }
        }
    }
    types
}

/// Whether `obj` has the given type and fills a block of the class with the given byte.
pub open spec fn is_filled(
    obj: ManagedObject,
    size_class: MSpanSizeClass,
    ty: TypePtr,
    fill: u8,
) -> bool {
    &&& obj.type_desc_ptr == ty
    &&& obj.payload@ == Seq::new(
        (size_class.block_size() - OBJ_HEADER_SIZE) as nat,
        |i: int| fill,
    )
}

/// An object of the given type that fills a block of the class with the given byte.
pub fn filled_object(size_class: MSpanSizeClass, ty: TypePtr, fill: u8) -> (obj: ManagedObject)
    ensures
        is_filled(obj, size_class, ty, fill),
{
    let n: usize = payload_size(size_class);
    let payload: Vec<u8> = vec![fill; n];
    proof {
        assert(payload@ =~= Seq::new(
            (size_class.block_size() - OBJ_HEADER_SIZE) as nat,
            |i: int| fill,
        ));
    }
    ManagedObject { type_desc_ptr: ty, payload }
}

/// Whether one request for a block of the class has been served with the block at `id`, which holds
/// an object that fills it.
pub open spec fn step(
    before: Snapshot,
    size_class: MSpanSizeClass,
    ty: TypePtr,
    fill: u8,
    id: ObjectId,
    after: Snapshot,
) -> bool {
    &&& request_ok(before, size_class, after)
    &&& exists|obj: ManagedObject|
        is_filled(obj, size_class, ty, fill) && #[trigger] served(
            before,
            size_class,
            obj,
            id,
            after,
        )
}

/// Whether a run of requests, made one after the other from state `before` on, has been served with
/// the blocks `ids`, which left state `after`.
pub open spec fn run(
    before: Snapshot,
    workload: Workload,
    types: Seq<TypePtr>,
    fill: u8,
    ids: Seq<ObjectId>,
    after: Snapshot,
) -> bool
    decreases ids.len(),
{
    if ids.len() == 0 {
        after == before
    } else {
        let size_class = workload.class(ids.len() - 1);
        exists|mid: Snapshot|
            run(before, workload, types, fill, ids.drop_last(), mid) && #[trigger] step(
                mid,
                size_class,
                types[size_class.to_index() as int],
                fill,
                ids.last(),
                after,
            )
    }
}

/// Makes `n` requests and fills the blocks. Stops at the first request that the heap has no room for.
pub fn allocate_run(
    cache: &mut MCache,
    central: &mut MCentral,
    heap: &mut ManagedHeap,
    workload: Workload,
    types: &[TypePtr; MSpanSizeClass::COUNT],
    fill: u8,
    n: usize,
) -> (r: Result<Vec<ObjectId>, AllocError>)
    requires
        runtime_wf(old(heap)@, old(central)@, seq![old(cache)@]),
    ensures
        runtime_wf(final(heap)@, final(central)@, seq![final(cache)@]),
        ({
            let before = (old(heap)@, old(cache)@, old(central)@);
            let after = (final(heap)@, final(cache)@, final(central)@);
            match r {
                Ok(ids) => ids@.len() == n && run(before, workload, types@, fill, ids@, after),
                Err(e) => {
                    &&& e == AllocError::OutOfMemory
                    &&& exists|ids: Seq<ObjectId>|
                        {
                            &&& ids.len() < n
                            &&& #[trigger] run(before, workload, types@, fill, ids, after)
                            &&& exhausted(
                                final(heap)@,
                                final(cache)@,
                                final(central)@,
                                workload.class(ids.len() as int),
                            )
                        }
                },
            }
        }),
{
    let ghost before = (heap@, cache@, central@);
    let mut ids: Vec<ObjectId> = Vec::new();
    let mut i: usize = 0;
    while i < n
        invariant
            i <= n,
            ids@.len() == i,
            before == (old(heap)@, old(cache)@, old(central)@),
            runtime_wf(heap@, central@, seq![cache@]),
            run(before, workload, types@, fill, ids@, (heap@, cache@, central@)),
        decreases n - i,
    {
        let ghost mid = (heap@, cache@, central@);
        let size_class = workload.class_at(i);
        let obj = filled_object(size_class, types[size_class.to_index()], fill);
        proof {
            crate::laws_pool::law_request_is_usable(
                heap@,
                central@,
                seq![cache@],
                0,
                size_class,
            );
        }
        match cache.allocate(central, heap, size_class, &obj) {
            Ok(id) => {
                let ghost now = (heap@, cache@, central@);
                let ghost done = ids@;
                proof {
                    assert(step(mid, size_class, types@[size_class.to_index() as int], fill, id, now));
                    crate::laws_pool::law_runtime_kept_by_served(
                        mid,
                        size_class,
                        obj,
                        id,
                        now,
                        seq![mid.1],
                        0,
                    );
                    assert(seq![mid.1].update(0, cache@) =~= seq![cache@]);
                }
                ids.push(id);
                proof {
                    assert(ids@.drop_last() =~= done);
                    assert(ids@.last() == id);
                }
            },
            Err(e) => {
                return Err(e);
            },
        }
        i = i + 1;
    }
    Ok(ids)
}

/// How many entries of a page map name a span.
pub open spec fn owned_pages(page_map: Seq<Option<SpanId>>) -> nat
    decreases page_map.len(),
{
    if page_map.len() == 0 {
        0
    } else {
        owned_pages(page_map.drop_last()) + if page_map.last() is Some {
            1nat
        } else {
            0nat
        }
    }
}

/// Counts the pages that belong to a span. These are all pages that have been handed out; the first page
/// never is.
pub fn occupied_pages(heap: &ManagedHeap) -> (n: usize)
    requires
        heap.wf(),
    ensures
        n == owned_pages(heap@.page_map),
        n == heap@.next_page_offset / (PAGE_SIZE as int) - 1,
{
    let mut n: usize = 0;
    let mut p: usize = 0;
    let ghost pages = heap@.next_page_offset / (PAGE_SIZE as int);
    while p < heap.get_page_map_len()
        invariant
            heap.wf(),
            pages == heap@.next_page_offset / (PAGE_SIZE as int),
            p <= heap@.page_map.len(),
            n <= p,
            n == owned_pages(heap@.page_map.take(p as int)),
            n == if p == 0 {
                0
            } else if p <= pages {
                p - 1
            } else {
                pages - 1
            },
        decreases heap@.page_map.len() - p,
    {
        proof {
            assert(heap@.page_wf(p as int));
            if let Some(s) = heap@.page_map[p as int] {
                assert(heap@.span_wf(s));
            }
            assert(heap@.page_map.take(p + 1).drop_last() =~= heap@.page_map.take(p as int));
        }
        if heap.get_span_for_page(p).is_some() {
            n = n + 1;
        }
        p = p + 1;
    }
    proof {
        assert(heap@.page_map.take(p as int) =~= heap@.page_map);
    }
    n
}

/// How many pages more there are than before; none if there are fewer.
pub fn growth(before: usize, after: usize) -> (n: usize)
    ensures
        n == if before <= after {
            after - before
        } else {
            0
        },
{
    after.saturating_sub(before)
}

/// Whether all of the blocks are taken.
pub fn all_allocated(ids: &[ObjectId], heap: &ManagedHeap) -> (r: bool)
    requires
        heap.wf(),
        forall|k: int| 0 <= k < ids@.len() ==> heap@.is_block(#[trigger] ids@[k]),
    ensures
        r == forall|k: int| 0 <= k < ids@.len() ==> heap@.allocated(#[trigger] ids@[k]),
{
    let mut k: usize = 0;
    while k < ids.len()
        invariant
            k <= ids@.len(),
            heap.wf(),
            forall|j: int| 0 <= j < ids@.len() ==> heap@.is_block(#[trigger] ids@[j]),
            forall|j: int| 0 <= j < k ==> heap@.allocated(#[trigger] ids@[j]),
        decreases ids@.len() - k,
    {
        assert(heap@.is_block(ids@[k as int]));
        if !is_allocated(ids[k], heap) {
            assert(!heap@.allocated(ids@[k as int]));
            return false;
        }
        k = k + 1;
    }
    true
}

/// Whether none of the blocks is taken.
pub fn none_allocated(ids: &[ObjectId], heap: &ManagedHeap) -> (r: bool)
    requires
        heap.wf(),
        forall|k: int| 0 <= k < ids@.len() ==> heap@.is_block(#[trigger] ids@[k]),
    ensures
        r == forall|k: int| 0 <= k < ids@.len() ==> !heap@.allocated(#[trigger] ids@[k]),
{
    let mut k: usize = 0;
    while k < ids.len()
        invariant
            k <= ids@.len(),
            heap.wf(),
            forall|j: int| 0 <= j < ids@.len() ==> heap@.is_block(#[trigger] ids@[j]),
            forall|j: int| 0 <= j < k ==> !heap@.allocated(#[trigger] ids@[j]),
        decreases ids@.len() - k,
    {
        assert(heap@.is_block(ids@[k as int]));
        if is_allocated(ids[k], heap) {
            assert(heap@.allocated(ids@[k as int]));
            return false;
        }
        k = k + 1;
    }
    true
}

/// Splits a list into the elements at even positions and those at odd positions.
pub fn split_alternating(ids: &[ObjectId]) -> (r: (Vec<ObjectId>, Vec<ObjectId>))
    ensures
        r.0@ == Seq::new(((ids@.len() + 1) / 2) as nat, |k: int| ids@[2 * k]),
        r.1@ == Seq::new((ids@.len() / 2) as nat, |k: int| ids@[2 * k + 1]),
{
    let mut even: Vec<ObjectId> = Vec::new();
    let mut odd: Vec<ObjectId> = Vec::new();
    let mut i: usize = 0;
    while i < ids.len()
        invariant
            i <= ids@.len(),
            even@ == Seq::new(((i + 1) / 2) as nat, |k: int| ids@[2 * k]),
            odd@ == Seq::new((i / 2) as nat, |k: int| ids@[2 * k + 1]),
        decreases ids@.len() - i,
    {
        if i % 2 == 0 {
            even.push(ids[i]);
        } else {
            odd.push(ids[i]);
        }
        i = i + 1;
        proof {
            assert(even@ =~= Seq::new(((i + 1) / 2) as nat, |k: int| ids@[2 * k]));
            assert(odd@ =~= Seq::new((i / 2) as nat, |k: int| ids@[2 * k + 1]));
        }
    }
    (even, odd)
}

/// Size of a heap for the measurement of pauses over `n` small objects: room for twice as many, and at
/// least eight mebibytes.
pub open spec fn pause_heap_bytes(n: int) -> int {
    if n * 128 + 4096 < 8388608 {
        8388608
    } else {
        n * 128 + 4096
    }
}

/// Size of a heap for the measurement of pauses over `n` small objects.
pub fn pause_heap_size(n: usize) -> (size: usize)
    requires
        n * 128 + 4096 <= usize::MAX,
    ensures
        size == pause_heap_bytes(n as int),
{
    let size: usize = n * 128 + 4096;
    if size < 8388608 {
        8388608
    } else {
        size
    }
}

/// Size of a heap for the measurement of one class with `n` objects: their blocks, and sixteen
/// mebibytes to spare.
pub open spec fn class_heap_bytes(n: int, size_class: MSpanSizeClass) -> int {
    n * size_class.block_size() + 16777216
}

/// Size of a heap for the measurement of one class with `n` objects.
pub fn class_heap_size(n: usize, size_class: MSpanSizeClass) -> (size: usize)
    requires
        class_heap_bytes(n as int, size_class) <= usize::MAX,
    ensures
        size == class_heap_bytes(n as int, size_class),
{
    let block: usize = size_class.block_size();
    proof {
        assert(0 <= n * block) by (nonlinear_arith)
            requires
                0 <= n,
                0 <= block,
        ;
    }
    n * block + 16777216
}

} // verus!
