//! A runtime of its own for objects of one size class that hold no references, and the measurements
//! that are made with it.

use crate::datastruct::{AllocError, ObjectId, TypePtr, PAGE_SIZE};
use crate::garbage_collector::{marks_added, newly_marked, GarbageCollector, GcState};
use crate::laws_collection::live;
use crate::laws_footprint::{larger, spans_for, taken_count, uniform};
use crate::laws_pool::runtime_wf;
use crate::laws_reuse::nothing_lost;
use crate::laws_workload::block_bytes;
use crate::managed_heap::{names, HeapState, ManagedHeap, SpanId};
use crate::mcache::MCache;
use crate::mcentral::{CentralState, MCentral};
use crate::memory::is_native;
use crate::mspan::MSpanSizeClass;
use crate::workload::{
    all_allocated, allocate_run, growth, none_allocated, occupied_pages, pause_heap_bytes,
    pause_heap_size, register_plain_types, run, split_alternating, types_ok, Snapshot, Workload,
};
use vstd::prelude::*;

verus! {

/// The runtime.
pub struct UniformHeap {
    /// The class of all objects.
    pub size_class: MSpanSizeClass,
    /// The heap.
    pub heap: ManagedHeap,
    /// The pool.
    pub central: MCentral,
    /// The only cache.
    pub cache: MCache,
    /// The collector.
    pub gc: GarbageCollector,
    /// The addresses of the plain types, at the positions of their classes.
    pub types: [TypePtr; MSpanSizeClass::COUNT],
}

impl UniformHeap {
    /// The state of the runtime.
    pub open spec fn state(&self) -> Snapshot {
        (self.heap@, self.cache@, self.central@)
    }

    /// The address of the type of all objects.
    pub open spec fn object_type(&self) -> TypePtr {
        self.types@[self.size_class.to_index() as int]
    }

    /// Whether `h` is a state of the heap between collections: no block is marked, and every object is
    /// of the one type.
    pub open spec fn sound(&self, h: HeapState) -> bool {
        &&& runtime_wf(h, self.central@, seq![self.cache@])
        &&& nothing_lost(h, self.central@, seq![self.cache@])
        &&& uniform(h, self.size_class)
        &&& types_ok(h, self.types@)
        &&& h.unmarked()
        &&& forall|id: ObjectId| #[trigger]
            h.allocated(id) ==> h.slot_type(id) == self.object_type()
    }

    /// The invariant between collections.
    pub open spec fn wf(&self) -> bool {
        self.sound(self.heap@) && self.gc@.worklist.len() == 0
    }

    /// Whether a collection of `h` has marked the roots.
    pub open spec fn rooted(&self, h: HeapState, roots: Seq<ObjectId>) -> bool {
        &&& self.sound(h)
        &&& all_taken(h, roots)
        &&& self.heap.wf()
        &&& marks_added(h, self.heap@, roots)
        &&& self.gc@.worklist == newly_marked(h, roots)
    }

    /// Whether a collection of `h` has marked all that is live.
    pub open spec fn traced(&self, h: HeapState, roots: Seq<ObjectId>) -> bool {
        &&& self.sound(h)
        &&& all_taken(h, roots)
        &&& self.heap.wf()
        &&& self.heap@.same_but_marks(h)
        &&& forall|id: ObjectId| #[trigger] self.heap@.marked(id) == roots.contains(id)
        &&& self.gc@.worklist.len() == 0
    }

    /// Whether a collection of `h` is over: the roots alone are still taken.
    pub open spec fn collected(&self, h: HeapState, roots: Seq<ObjectId>) -> bool {
        &&& self.wf()
        &&& self.heap@.order == h.order
        &&& self.heap@.memory == h.memory
        &&& self.heap@.page_map == h.page_map
        &&& self.heap@.spans.len() == h.spans.len()
        &&& forall|x: ObjectId| #[trigger] self.heap@.is_block(x) == h.is_block(x)
        &&& forall|x: ObjectId| #[trigger] self.heap@.allocated(x) == roots.contains(x)
        &&& roots.no_duplicates() ==> taken_count(self.heap@) == roots.len()
    }

    /// A runtime without objects.
    pub fn new(size_class: MSpanSizeClass, heap_size: usize) -> (r: Self)
        requires
            PAGE_SIZE < heap_size <= isize::MAX,
        ensures
            r.wf(),
            r.size_class == size_class,
            is_native(r.heap@.order),
            r.heap@.memory == Seq::new(heap_size as nat, |i: int| 0u8),
            r.heap@.memory.len() == heap_size,
            r.heap@.page_map.len() == heap_size as nat / (PAGE_SIZE as nat) + 1,
            r.heap@.spans.len() == 0,
            r.heap@.types.len() == MSpanSizeClass::COUNT,
            r.cache@ == Seq::new(MSpanSizeClass::COUNT as nat, |i: int| None::<SpanId>),
            r.central@ == CentralState::empty(),
            r.gc@ == (GcState {
                worklist: Seq::empty(),
                is_marking: false,
                barrier_worklist: Seq::empty(),
            }),
            taken_count(r.heap@) == 0,
            forall|id: ObjectId| !#[trigger] r.heap@.allocated(id),
    {
        let mut heap = ManagedHeap::new(heap_size);
        let types = register_plain_types(&mut heap);
        let r = UniformHeap {
            size_class,
            heap,
            central: MCentral::new(),
            cache: MCache::new(),
            gc: GarbageCollector::new(),
            types,
        };
        proof {
            let h = r.heap@;
            crate::laws_pool::law_runtime_starts(h, 1);
            assert(seq![r.cache@] =~= Seq::new(
                1,
                |c: int|
                    Seq::new(MSpanSizeClass::COUNT as nat, |i: int| None::<SpanId>),
            ));
            assert forall|id: ObjectId| !#[trigger] h.is_block(id) by {}
            crate::laws_footprint::lemma_no_blocks(h);
        }
        r
    }

    /// Makes `n` requests and fills the blocks.
    pub fn wave(&mut self, n: usize, fill: u8) -> (r: Result<Vec<ObjectId>, AllocError>)
        requires
            old(self).wf(),
        ensures
            final(self).wf(),
            final(self).size_class == old(self).size_class,
            final(self).types == old(self).types,
            final(self).gc == old(self).gc,
            final(self).heap@.order == old(self).heap@.order,
            final(self).heap@.memory.len() == old(self).heap@.memory.len(),
            final(self).heap@.page_map.len() == old(self).heap@.page_map.len(),
            ({
                let c = old(self).size_class;
                let taken = taken_count(old(self).heap@);
                match r {
                    Ok(ids) => {
                        &&& ids@.len() == n
                        &&& run(
                            old(self).state(),
                            Workload::Uniform(c),
                            old(self).types@,
                            fill,
                            ids@,
                            final(self).state(),
                        )
                        &&& ids@.no_duplicates()
                        &&& forall|x: ObjectId| #[trigger]
                            final(self).heap@.allocated(x) == (old(self).heap@.allocated(x)
                                || ids@.contains(x))
                        &&& taken_count(final(self).heap@) == taken + n
                        &&& final(self).heap@.spans.len() == larger(
                            old(self).heap@.spans.len() as int,
                            spans_for(c, taken + n),
                        )
                        &&& PAGE_SIZE + spans_for(c, taken + n) * c.span_bytes() <= old(
                            self,
                        ).heap@.memory.len()
                    },
                    Err(e) => {
                        &&& e == AllocError::OutOfMemory
                        &&& PAGE_SIZE + spans_for(c, taken + n) * c.span_bytes() > old(
                            self,
                        ).heap@.memory.len()
                        &&& exists|ids: Seq<ObjectId>|
                            ids.len() < n && #[trigger] run(
                                old(self).state(),
                                Workload::Uniform(c),
                                old(self).types@,
                                fill,
                                ids,
                                final(self).state(),
                            )
                    },
                }
            }),
    {
        let workload = Workload::Uniform(self.size_class);
        let ghost before = self.state();
        let ghost c = self.size_class;
        let r = allocate_run(
            &mut self.cache,
            &mut self.central,
            &mut self.heap,
            workload,
            &self.types,
            fill,
            n,
        );
        proof {
            let ids = if r is Ok {
                r->Ok_0@
            } else {
                choose|ids: Seq<ObjectId>|
                    {
                        &&& ids.len() < n
                        &&& #[trigger] run(before, workload, self.types@, fill, ids, self.state())
                        &&& crate::mcache::exhausted(
                            self.heap@,
                            self.cache@,
                            self.central@,
                            workload.class(ids.len() as int),
                        )
                    }
            };
            crate::laws_workload::law_run(before, workload, self.types@, fill, ids, self.state());
            crate::laws_footprint::law_run_footprint(
                before,
                c,
                self.types@,
                fill,
                ids,
                self.state(),
            );
            if r is Err {
                crate::laws_footprint::law_run_fails_for_lack_of_room(
                    before,
                    c,
                    self.types@,
                    fill,
                    ids,
                    self.state(),
                    n as int,
                );
            } else {
                let spans = self.heap@.spans.len() as int;
                let needed = spans_for(c, taken_count(before.0) + n);
                let bytes = c.span_bytes();
                assert(needed * bytes <= spans * bytes) by (nonlinear_arith)
                    requires
                        needed <= spans,
                        bytes >= 0,
                ;
            }
            assert(self.heap@.unmarked()) by {
                assert forall|id: ObjectId| !#[trigger] self.heap@.marked(id) by {
                    assert(!before.0.marked(id));
                }
            }
            assert forall|id: ObjectId| #[trigger] self.heap@.allocated(
                id,
            ) implies self.heap@.slot_type(id) == self.object_type() by {
                if !before.0.allocated(id) {
                    let k = choose|k: int| 0 <= k < ids.len() && ids[k] == id;
                    assert(self.heap@.slot_type(ids[k]) == self.types@[workload.class(
                        k,
                    ).to_index() as int]);
                }
            }
        }
        r
    }

    /// Begins a collection: marks the roots.
    pub fn mark_roots(&mut self, roots: &[ObjectId])
        requires
            old(self).wf(),
            all_taken(old(self).heap@, roots@),
        ensures
            final(self).size_class == old(self).size_class,
            final(self).types == old(self).types,
            final(self).rooted(old(self).heap@, roots@),
            final(self).cache@ == old(self).cache@,
            final(self).central@ == old(self).central@,
            final(self).gc@ == (GcState { worklist: final(self).gc@.worklist, ..old(self).gc@ }),
    {
        self.gc.initialize(roots, &mut self.heap);
        proof {
            assert(self.gc@.worklist =~= newly_marked(old(self).heap@, roots@));
        }
    }

    /// Goes on with a collection: follows all references.
    pub fn trace(&mut self)
        requires
            exists|h: HeapState, roots: Seq<ObjectId>| #[trigger] old(self).rooted(h, roots),
        ensures
            final(self).size_class == old(self).size_class,
            final(self).types == old(self).types,
            forall|h: HeapState, roots: Seq<ObjectId>| #[trigger]
                old(self).rooted(h, roots) ==> final(self).traced(h, roots),
            final(self).heap@.same_but_marks(old(self).heap@),
            final(self).cache@ == old(self).cache@,
            final(self).central@ == old(self).central@,
            final(self).gc@ == (GcState { worklist: Seq::empty(), ..old(self).gc@ }),
    {
        let ghost h1 = self.heap@;
        proof {
            let (h, roots) = choose|h: HeapState, roots: Seq<ObjectId>| #[trigger]
                old(self).rooted(h, roots);
            lemma_only_roots_live(h, roots, self.object_type());
            crate::laws_collection::law_trace_can_run(h, h1, roots);
        }
        self.gc.trace(&mut self.heap);
        proof {
            assert forall|h: HeapState, roots: Seq<ObjectId>| #[trigger]
                old(self).rooted(h, roots) implies self.traced(h, roots) by {
                lemma_only_roots_live(h, roots, self.object_type());
                crate::laws_collection::law_trace_marks_live(h, h1, self.heap@, roots);
            }
        }
    }

    /// Ends a collection: frees what is not marked.
    pub fn sweep(&mut self)
        requires
            exists|h: HeapState, roots: Seq<ObjectId>| #[trigger] old(self).traced(h, roots),
        ensures
            final(self).size_class == old(self).size_class,
            final(self).types == old(self).types,
            forall|h: HeapState, roots: Seq<ObjectId>| #[trigger]
                old(self).traced(h, roots) ==> final(self).collected(h, roots),
            final(self).heap@.is_swept(old(self).heap@),
            final(self).cache@ == old(self).cache@,
            final(self).central@ == old(self).central@.resorted(final(self).heap@),
            final(self).gc@ == old(self).gc@,
    {
        let ghost h2 = self.heap@;
        let ghost caches = seq![self.cache@];
        let ghost pool = self.central@;
        proof {
            let (h, roots) = choose|h: HeapState, roots: Seq<ObjectId>| #[trigger]
                old(self).traced(h, roots);
            crate::laws_pool::law_runtime_kept_by_marking(h, h2, pool, caches);
            crate::laws_pool::law_sweep_can_run(h2, pool, caches);
        }
        self.gc.sweep(&mut self.heap, &mut self.central);
        proof {
            let h3 = self.heap@;
            crate::laws_pool::law_runtime_kept_by_sweep(h2, h3, pool, caches);
            crate::laws_collection::law_sweep_frees_unmarked(h2, h3);
            assert forall|h: HeapState, roots: Seq<ObjectId>| #[trigger]
                old(self).traced(h, roots) implies self.collected(h, roots) by {
                crate::laws_reuse::law_marking_loses_no_span(h, h2, pool, caches);
                crate::laws_reuse::law_sweep_loses_no_span(h2, h3, pool, caches);
                h2.lemma_same_but_marks(h);
                assert forall|x: ObjectId| #[trigger] h3.is_block(x) == h.is_block(x) by {
                    assert(h2.is_block(x) == h.is_block(x));
                }
                assert forall|x: ObjectId| #[trigger] h3.allocated(x) == roots.contains(x) by {
                    assert(h3.allocated(x) == (h2.allocated(x) && h2.marked(x)));
                    assert(h2.allocated(x) == h.allocated(x));
                    if roots.contains(x) {
                        let k = choose|k: int| 0 <= k < roots.len() && roots[k] == x;
                        assert(h.allocated(roots[k]));
                    }
                }
                assert forall|s: SpanId| s.0 < h3.spans.len() implies #[trigger] h3.span(
                    s,
                ).size_class == self.size_class by {
                    let i = s.0 as int;
                    assert(h3.spans[i].is_swept(&h2.spans[i]));
                    assert(h2.spans[i].same_shape(&h.spans[i]));
                    assert(h.span(s).size_class == self.size_class);
                }
                crate::laws_footprint::lemma_same_block_count(h, h3);
                assert forall|id: ObjectId| #[trigger] h3.allocated(id) implies h3.slot_type(id)
                    == self.object_type() by {
                    let k = choose|k: int| 0 <= k < roots.len() && roots[k] == id;
                    assert(h.allocated(roots[k]));
                }
                if roots.no_duplicates() {
                    assert forall|k: int| 0 <= k < roots.len() implies (#[trigger] roots[k]).0
                        < h3.memory.len() by {
                        assert(h.allocated(roots[k]));
                        h.lemma_block_bounds(roots[k]);
                    }
                    crate::laws_footprint::lemma_taken_list(h3, roots);
                }
            }
        }
    }

    /// A whole collection: frees every block that is not a root.
    pub fn collect(&mut self, roots: &[ObjectId])
        requires
            old(self).wf(),
            all_taken(old(self).heap@, roots@),
        ensures
            final(self).size_class == old(self).size_class,
            final(self).types == old(self).types,
            final(self).collected(old(self).heap@, roots@),
            final(self).heap@.types == old(self).heap@.types,
            final(self).heap@.next_page_offset == old(self).heap@.next_page_offset,
            final(self).cache@ == old(self).cache@,
            final(self).central@ == old(self).central@.resorted(final(self).heap@),
            final(self).gc@ == old(self).gc@,
    {
        self.mark_roots(roots);
        self.trace();
        self.sweep();
    }
}

/// Whether all of the blocks are taken.
pub open spec fn all_taken(h: HeapState, ids: Seq<ObjectId>) -> bool {
    forall|k: int| 0 <= k < ids.len() ==> h.allocated(#[trigger] ids[k])
}

/// If every root is taken and all roots are of a type without references, the roots alone are live,
/// and all of them are intact.
proof fn lemma_only_roots_live(h: HeapState, roots: Seq<ObjectId>, ty: TypePtr)
    requires
        h.wf(),
        h.is_type(ty),
        h.type_at(ty).refs_count == 0,
        forall|k: int|
            0 <= k < roots.len() ==> h.allocated(#[trigger] roots[k]) && h.slot_type(roots[k])
                == ty,
    ensures
        forall|id: ObjectId| #[trigger] live(h, roots, id) == roots.contains(id),
        forall|id: ObjectId| #[trigger] live(h, roots, id) ==> h.readable(id),
{
    crate::laws_collection::lemma_block_roots(h, roots);
    let v = crate::laws_collection::block_roots(h, roots);
    let inside = |id: ObjectId| roots.contains(id);
    assert forall|id: ObjectId| v.contains(id) implies inside(id) by {}
    assert forall|a: ObjectId, b: ObjectId| inside(a) && #[trigger] h.edge()(a, b) implies inside(
        b,
    ) by {
        let k = choose|k: int| 0 <= k < roots.len() && roots[k] == a;
        assert(h.slot_type(roots[k]) == ty);
        assert(h.references(a).len() == 0);
        assert(!names(h.references(a), b));
    }
    crate::reach::lemma_reach_closed(h.edge(), v, inside);
    assert forall|id: ObjectId| #[trigger] live(h, roots, id) == roots.contains(id) by {
        if live(h, roots, id) {
            assert(inside(id));
        }
        if roots.contains(id) {
            let k = choose|k: int| 0 <= k < roots.len() && roots[k] == id;
            assert(h.allocated(roots[k]));
            crate::laws_collection::law_roots_are_live(h, roots, id);
        }
    }
    assert forall|id: ObjectId| #[trigger] live(h, roots, id) implies h.readable(id) by {
        let k = choose|k: int| 0 <= k < roots.len() && roots[k] == id;
        assert(h.allocated(roots[k]));
        h.lemma_block_bounds(id);
    }
}

/// In a collection of a heap whose objects hold no references, exactly the roots are marked, both before
/// and after the references are followed, and what is taken stays taken until the sweep. Before, the
/// marked blocks wait in the list, each once; after, the list is empty.
pub proof fn law_exactly_the_roots_are_marked(
    u: UniformHeap,
    h: HeapState,
    roots: Seq<ObjectId>,
    id: ObjectId,
)
    ensures
        u.rooted(h, roots) ==> {
            &&& u.heap@.marked(id) <==> roots.contains(id)
            &&& u.gc@.worklist.contains(id) <==> roots.contains(id)
            &&& u.gc@.worklist.no_duplicates()
            &&& u.heap@.allocated(id) <==> h.allocated(id)
            &&& u.heap@.memory == h.memory
        },
        u.traced(h, roots) ==> {
            &&& u.heap@.marked(id) <==> roots.contains(id)
            &&& u.gc@.worklist.len() == 0
            &&& u.heap@.allocated(id) <==> h.allocated(id)
            &&& u.heap@.memory == h.memory
        },
{
    if u.rooted(h, roots) {
        crate::laws_collection::law_marked_roots(h, u.heap@, roots, id);
        u.heap@.lemma_same_but_marks(h);
        assert(!h.marked(id));
        if roots.contains(id) {
            let k = choose|k: int| 0 <= k < roots.len() && roots[k] == id;
            assert(h.allocated(roots[k]));
        }
        assert(u.heap@.allocated(id) == h.allocated(id));
    }
    if u.traced(h, roots) {
        u.heap@.lemma_same_but_marks(h);
        assert(u.heap@.allocated(id) == h.allocated(id));
        assert(u.heap@.marked(id) == roots.contains(id));
    }
}

/// A collection of a heap whose objects hold no references leaves exactly the roots taken, with all
/// their bytes, and leaves the pages to the spans that had them.
pub proof fn law_collected_keeps_exactly_the_roots(
    u: UniformHeap,
    h: HeapState,
    roots: Seq<ObjectId>,
    id: ObjectId,
)
    requires
        u.collected(h, roots),
    ensures
        u.heap@.allocated(id) <==> roots.contains(id),
        !u.heap@.marked(id),
        u.heap@.memory == h.memory,
        u.heap@.page_map == h.page_map,
        u.heap@.is_block(id) <==> h.is_block(id),
        u.gc@.worklist.len() == 0,
{
}

/// A runtime for the measurement of pauses, filled with `n` small objects. Its heap is large enough,
/// so filling it never fails.
pub fn pause_runtime(n: usize, fill: u8) -> (r: (UniformHeap, Vec<ObjectId>))
    requires
        pause_heap_bytes(n as int) <= isize::MAX,
    ensures
        r.0.wf(),
        r.0.size_class == MSpanSizeClass::B64,
        is_native(r.0.heap@.order),
        r.0.heap@.memory.len() == pause_heap_bytes(n as int),
        r.1@.len() == n,
        r.1@.no_duplicates(),
        forall|x: ObjectId| #[trigger] r.0.heap@.allocated(x) == r.1@.contains(x),
        all_taken(r.0.heap@, r.1@),
        forall|k: int, j: int|
            0 <= k < n && 8 <= j < 64 ==> #[trigger] block_bytes(r.0.heap@, r.1@[k])[j] == fill,
        r.0.heap@.spans.len() == spans_for(MSpanSizeClass::B64, n as int),
{
    let mut runtime = UniformHeap::new(MSpanSizeClass::B64, pause_heap_size(n));
    proof {
        crate::laws_footprint::law_pause_heap_has_room(n as int);
        crate::laws_footprint::lemma_spans_for(MSpanSizeClass::B64, 0, n as int);
    }
    let ghost start = runtime.state();
    let ids = runtime.wave(n, fill).unwrap();
    proof {
        assert forall|k: int, j: int| 0 <= k < n && 8 <= j < 64 implies #[trigger] block_bytes(
            runtime.heap@,
            ids@[k],
        )[j] == fill by {
            crate::laws_workload::law_run_fills_blocks(
                start,
                Workload::Uniform(MSpanSizeClass::B64),
                runtime.types@,
                fill,
                ids@,
                runtime.state(),
                k,
                j,
            );
        }
        assert forall|k: int| 0 <= k < ids@.len() implies runtime.heap@.allocated(
            #[trigger] ids@[k],
        ) by {
            assert(ids@.contains(ids@[k]));
        }
    }
    (runtime, ids)
}

/// What the measurement of fragmentation found.
#[derive(Debug, Clone, Copy, PartialEq, Eq, Structural)]
pub struct RecoveryReport {
    /// Number of entries of the page map, which never changes.
    pub page_map_len: usize,
    /// Whether no garbage survived the collection.
    pub garbage_freed: bool,
    /// Whether all roots survived the collection.
    pub roots_alive: bool,
    /// Pages that belonged to a span before the second wave.
    pub occupied_after_wave1: usize,
    /// Pages that belonged to a span after the second wave.
    pub occupied_after_wave2: usize,
    /// Pages that the second wave added.
    pub growth: usize,
}

/// Fills a heap with small objects, frees every second one, and fills it with as many again. Reports
/// how many pages belonged to spans before and after the second wave.
pub fn fragmentation_recovery(heap_size: usize, batch_size: usize) -> (r: Result<
    RecoveryReport,
    AllocError,
>)
    requires
        PAGE_SIZE < heap_size <= isize::MAX,
    ensures
        ({
            let c = MSpanSizeClass::B64;
            let kept = (batch_size + 1) / 2;
            let first = spans_for(c, batch_size as int);
            let second = spans_for(c, kept + batch_size);
            match r {
                Ok(report) => {
                    &&& PAGE_SIZE + second * PAGE_SIZE <= heap_size
                    &&& report.page_map_len == heap_size / PAGE_SIZE + 1
                    &&& report.garbage_freed
                    &&& report.roots_alive
                    &&& report.occupied_after_wave1 == first
                    &&& report.occupied_after_wave2 == second
                    &&& report.growth == second - first
                    &&& 64 * (report.occupied_after_wave1 - 1) < batch_size
                        || report.occupied_after_wave1 == 0
                    &&& batch_size <= 64 * report.occupied_after_wave1
                    &&& 64 * (report.occupied_after_wave2 - 1) < kept + batch_size
                        || report.occupied_after_wave2 == 0
                    &&& kept + batch_size <= 64 * report.occupied_after_wave2
                },
                Err(e) => {
                    &&& e == AllocError::OutOfMemory
                    &&& PAGE_SIZE + second * PAGE_SIZE > heap_size
                },
            }
        }),
{
    let mut runtime = UniformHeap::new(MSpanSizeClass::B64, heap_size);
    proof {
        crate::laws_footprint::lemma_spans_for_mono(
            MSpanSizeClass::B64,
            batch_size as int,
            (batch_size + 1) / 2 + batch_size,
        );
    }
    let ids = match runtime.wave(batch_size, 0xAA) {
        Ok(ids) => ids,
        Err(e) => {
            return Err(e);
        },
    };
    let (roots, garbage) = split_alternating(ids.as_slice());
    let page_map_len: usize = runtime.heap.get_page_map_len();
    proof {
        assert forall|k: int| 0 <= k < ids@.len() implies runtime.heap@.allocated(
            #[trigger] ids@[k],
        ) by {
            assert(ids@.contains(ids@[k]));
        }
        assert forall|k: int| 0 <= k < roots@.len() implies runtime.heap@.allocated(
            #[trigger] roots@[k],
        ) by {
            assert(roots@[k] == ids@[2 * k]);
        }
        assert forall|k: int| 0 <= k < garbage@.len() implies runtime.heap@.is_block(
            #[trigger] garbage@[k],
        ) && !roots@.contains(garbage@[k]) by {
            assert(garbage@[k] == ids@[2 * k + 1]);
            if roots@.contains(garbage@[k]) {
                let j = choose|j: int| 0 <= j < roots@.len() && roots@[j] == garbage@[k];
                assert(ids@[2 * j] == ids@[2 * k + 1]);
            }
        }
    }
    runtime.collect(roots.as_slice());
    proof {
        assert forall|k: int| 0 <= k < roots@.len() implies runtime.heap@.allocated(
            #[trigger] roots@[k],
        ) by {
            assert(roots@.contains(roots@[k]));
        }
    }
    let garbage_freed: bool = none_allocated(garbage.as_slice(), &runtime.heap);
    let roots_alive: bool = all_allocated(roots.as_slice(), &runtime.heap);
    let occupied_after_wave1: usize = occupied_pages(&runtime.heap);
    match runtime.wave(batch_size, 0xBB) {
        Ok(_) => {},
        Err(e) => {
            return Err(e);
        },
    }
    let occupied_after_wave2: usize = occupied_pages(&runtime.heap);
    proof {
        let c = MSpanSizeClass::B64;
        crate::laws_footprint::law_spans_for(c, batch_size as int);
        crate::laws_footprint::law_spans_for(c, (batch_size + 1) / 2 + batch_size);
    }
    Ok(
        RecoveryReport {
            page_map_len,
            garbage_freed,
            roots_alive,
            occupied_after_wave1,
            occupied_after_wave2,
            growth: growth(occupied_after_wave1, occupied_after_wave2),
        },
    )
}

} // verus!
