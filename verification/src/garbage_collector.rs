//! The mark-and-sweep collector.
//!
//! On the paged heap a cycle is `initialize` with the roots, `trace`, and `sweep`. A block is white
//! while its mark is clear, grey while it is marked and on the worklist, and black once it has been
//! taken off. On the bump-allocated heap a cycle is one call of `collect`.

use crate::bump_collector::{graph_ok, is_collected, mark_from_roots};
use crate::datastruct::{AllocError, ObjectId, PAGE_SIZE};
use crate::managed_heap::{names, HeapState, ManagedHeap, SpanId};
use crate::mcentral::MCentral;
use crate::reach::{reachable, reachable_by_edge};
use vstd::prelude::*;

verus! {

/// The collector.
pub struct GarbageCollector {
    worklist: Vec<ObjectId>,
    is_marking: bool,
    barrier_worklist: Vec<ObjectId>,
}

/// What a collector holds.
#[verifier::ext_equal]
pub struct GcState {
    /// The grey objects, the next one to be traced last.
    pub worklist: Seq<ObjectId>,
    /// Whether marking is under way.
    pub is_marking: bool,
    /// What a write barrier has recorded.
    pub barrier_worklist: Seq<ObjectId>,
}

impl View for GarbageCollector {
    type V = GcState;

    closed spec fn view(&self) -> GcState {
        GcState {
            worklist: self.worklist@,
            is_marking: self.is_marking,
            barrier_worklist: self.barrier_worklist@,
        }
    }
}

/// The white blocks among `ids`, each once, in the order of their first appearance.
pub open spec fn newly_marked(heap: HeapState, ids: Seq<ObjectId>) -> Seq<ObjectId>
    decreases ids.len(),
{
    if ids.len() == 0 {
        Seq::empty()
    } else {
        let rest = newly_marked(heap, ids.drop_last());
        let id = ids.last();
        if heap.is_block(id) && !heap.marked(id) && !ids.drop_last().contains(id) {
            rest.push(id)
        } else {
            rest
        }
    }
}

/// Whether the marks of `after` are those of `before` and those of the blocks among `ids`, and
/// nothing else differs.
pub open spec fn marks_added(before: HeapState, after: HeapState, ids: Seq<ObjectId>) -> bool {
    &&& after.same_but_marks(before)
    &&& forall|id: ObjectId| #[trigger]
        after.marked(id) == (before.marked(id) || before.is_block(id) && ids.contains(id))
}

/// Whether the marks of `after` are those of `before` and those of the blocks which a chain of
/// references through unmarked blocks leads to from `worklist`, and nothing else differs.
pub open spec fn marks_traced(
    before: HeapState,
    after: HeapState,
    worklist: Seq<ObjectId>,
) -> bool {
    &&& after.same_but_marks(before)
    &&& forall|id: ObjectId| #[trigger]
        after.marked(id) == (before.marked(id) || reachable_by_edge(
            before.fresh_edge(),
            worklist,
            id,
        ))
}

impl GarbageCollector {
    /// A collector that has nothing to do.
    pub fn new() -> (gc: GarbageCollector)
        ensures
            gc@ == (GcState {
                worklist: Seq::empty(),
                is_marking: false,
                barrier_worklist: Seq::empty(),
            }),
    {
        GarbageCollector {
            worklist: Vec::new(),
            is_marking: false,
            barrier_worklist: Vec::new(),
        }
    }

    /// Marks the block at `obj_id` and says whether it was white. What is not the offset of a block
    /// is ignored: offsets into the unused first page, past the heap, into pages without a span, and
    /// into the middle of a block.
    pub fn mark_object(&self, obj_id: ObjectId, heap: &mut ManagedHeap) -> (r: bool)
        requires
            old(heap).wf(),
        ensures
            final(heap).wf(),
            marks_added(old(heap)@, final(heap)@, seq![obj_id]),
            r == (old(heap)@.is_block(obj_id) && !old(heap)@.marked(obj_id)),
    {
        let offset: usize = obj_id.0;
        if offset < PAGE_SIZE {
            return false;
        }
        let page_num: usize = offset / PAGE_SIZE;
        if page_num >= heap.get_page_map_len() {
            return false;
        }
        let s = match heap.get_span_for_page(page_num) {
            Some(s) => s,
            None => {
                return false;
            },
        };
        proof {
            heap@.lemma_index_in_span(obj_id);
        }
        let span_start: usize = heap.span(s).start_id.0;
        if offset < span_start {
            return false;
        }
        let offset_per_span: usize = offset - span_start;
        let block_size: usize = heap.span(s).size_class.block_size();
        if offset_per_span % block_size != 0 {
            return false;
        }
        let index_per_span: usize = offset_per_span / block_size;
        if index_per_span >= heap.span(s).total_blocks {
            return false;
        }
        let r: bool = heap.span_mut(s).mark_at(index_per_span);
        proof {
            let h = old(heap)@;
            let k = index_per_span as int;
            let after = heap@.span(s);
            after.lemma_bit_change_wf(&h.span(s), k);
            h.lemma_with_span_at(s, after);
            assert forall|id: ObjectId| #[trigger]
                heap@.marked(id) == (h.marked(id) || h.is_block(id) && seq![obj_id].contains(
                    id,
                )) by {
                assert(heap@.span_of(id) == h.span_of(id));
                assert(heap@.is_block(id) == h.is_block(id));
                assert(seq![obj_id].contains(id) == (id == obj_id)) by {
                    if id == obj_id {
                        assert(seq![obj_id][0] == obj_id);
                    }
                }
                if h.is_block(id) {
                    h.lemma_index_in_span(id);
                }
                if h.is_block(id) && h.owner(id) == s {
                    if h.home(id).index_of(id) == k {
                        h.lemma_same_block(id, obj_id);
                    }
                    assert(after.marked(h.home(id).index_of(id)) == (h.span(s).marked(
                        h.home(id).index_of(id),
                    ) || h.home(id).index_of(id) == k));
                }
            }
        }
        r
    }

    /// Marks the blocks among the roots and puts those that were white on the worklist.
    pub fn initialize(&mut self, roots: &[ObjectId], heap: &mut ManagedHeap)
        requires
            old(heap).wf(),
        ensures
            final(heap).wf(),
            marks_added(old(heap)@, final(heap)@, roots@),
            final(self)@ == (GcState {
                worklist: old(self)@.worklist + newly_marked(old(heap)@, roots@),
                ..old(self)@
            }),
    {
        let mut i: usize = 0;
        proof {
            assert(roots@.take(0) =~= Seq::<ObjectId>::empty());
            assert(self.worklist@ + Seq::<ObjectId>::empty() =~= self.worklist@);
        }
        while i < roots.len()
            invariant
                i <= roots@.len(),
                heap.wf(),
                old(heap).wf(),
                marks_added(old(heap)@, heap@, roots@.take(i as int)),
                self.worklist@ == old(self).worklist@ + newly_marked(
                    old(heap)@,
                    roots@.take(i as int),
                ),
                self.is_marking == old(self).is_marking,
                self.barrier_worklist@ == old(self).barrier_worklist@,
            decreases roots@.len() - i,
        {
            let root = roots[i];
            let ghost before = heap@;
            let ghost seen = roots@.take(i as int);
            let ghost now = roots@.take(i + 1);
            proof {
                assert(now.drop_last() =~= seen);
                assert(now =~= seen.push(root));
                before.lemma_same_but_marks(old(heap)@);
            }
            if self.mark_object(root, heap) {
                self.worklist.push(root);
            }
            proof {
                assert(before.marked(root) == (old(heap)@.marked(root) || old(heap)@.is_block(root)
                    && seen.contains(root)));
                lemma_marks_added_push(old(heap)@, before, heap@, seen, root);
                assert(self.worklist@ =~= old(self).worklist@ + newly_marked(old(heap)@, now));
            }
            i = i + 1;
        }
        proof {
            assert(roots@.take(i as int) =~= roots@);
        }
    }

    /// Marks the blocks that the reference fields name and puts those that were white on the
    /// worklist.
    fn visit(&mut self, refs: &Vec<u64>, heap: &mut ManagedHeap)
        requires
            old(heap).wf(),
        ensures
            final(heap).wf(),
            final(heap)@.same_but_marks(old(heap)@),
            forall|id: ObjectId| #[trigger]
                final(heap)@.marked(id) == (old(heap)@.marked(id) || old(heap)@.is_block(id)
                    && names(refs@, id)),
            forall|id: ObjectId| #[trigger]
                final(self)@.worklist.contains(id) <==> old(self)@.worklist.contains(id) || (
                final(heap)@.marked(id) && !old(heap)@.marked(id)),
            final(heap)@.unmarked_count() + final(self)@.worklist.len() == old(
                heap,
            )@.unmarked_count() + old(self)@.worklist.len(),
            final(self)@ == (GcState { worklist: final(self)@.worklist, ..old(self)@ }),
    {
        let mut i: usize = 0;
        while i < refs.len()
            invariant
                i <= refs@.len(),
                heap.wf(),
                old(heap).wf(),
                heap@.same_but_marks(old(heap)@),
                forall|id: ObjectId| #[trigger]
                    heap@.marked(id) == (old(heap)@.marked(id) || old(heap)@.is_block(id) && names(
                        refs@.take(i as int),
                        id,
                    )),
                forall|id: ObjectId| #[trigger]
                    self.worklist@.contains(id) <==> old(self).worklist@.contains(id) || (
                    heap@.marked(id) && !old(heap)@.marked(id)),
                heap@.unmarked_count() + self.worklist@.len() == old(heap)@.unmarked_count() + old(
                    self,
                ).worklist@.len(),
                self.is_marking == old(self).is_marking,
                self.barrier_worklist@ == old(self).barrier_worklist@,
            decreases refs@.len() - i,
        {
            let child_id = ObjectId(refs[i] as usize);
            let ghost before = heap@;
            let ghost listed = self.worklist@;
            proof {
                before.lemma_same_but_marks(old(heap)@);
            }
            let marked: bool = self.mark_object(child_id, heap);
            if marked {
                self.worklist.push(child_id);
            }
            proof {
                assert forall|id: ObjectId| #[trigger]
                    heap@.marked(id) == (before.marked(id) || before.is_block(id) && id
                        == child_id) by {
                    assert(seq![child_id].contains(id) == (id == child_id)) by {
                        assert(seq![child_id][0] == child_id);
                    }
                }
                heap@.lemma_same_but_marks_trans(before, old(heap)@);
                lemma_names_push(refs@, i as int);
                if marked {
                    before.lemma_block_bounds(child_id);
                    crate::reach::lemma_count_outside_insert(
                        before.marks(),
                        heap@.marks(),
                        child_id,
                        before.memory.len(),
                    );
                    assert forall|id: ObjectId| #[trigger]
                        self.worklist@.contains(id) <==> listed.contains(id) || id == child_id by {
                        lemma_contains_push(listed, child_id, id);
                    }
                } else {
                    assert forall|id: ObjectId| #[trigger] heap@.marked(id) == before.marked(
                        id,
                    ) by {}
                    crate::reach::lemma_count_outside_same(
                        before.marks(),
                        heap@.marks(),
                        before.memory.len(),
                    );
                }
            }
            i = i + 1;
        }
        proof {
            assert(refs@.take(i as int) =~= refs@);
        }
    }

    /// Follows references from the worklist until no grey object is left.
    pub fn trace(&mut self, heap: &mut ManagedHeap)
        requires
            old(heap).wf(),
            forall|id: ObjectId| #[trigger]
                reachable(old(heap)@.fresh_edge(), old(self)@.worklist, id) ==> old(
                    heap,
                )@.readable(id),
        ensures
            final(heap).wf(),
            marks_traced(old(heap)@, final(heap)@, old(self)@.worklist),
            final(self)@ == (GcState { worklist: Seq::empty(), ..old(self)@ }),
    {
        let ghost h = old(heap)@;
        let ghost w = old(self)@.worklist;
        let ghost edge = h.fresh_edge();
        proof {
            assert forall|id: ObjectId| w.contains(id) implies reachable(edge, w, id) by {
                crate::reach::lemma_reach_start(edge, w, id);
            }
        }
        while self.worklist.len() > 0
            invariant
                heap.wf(),
                h.wf(),
                edge == h.fresh_edge(),
                heap@.same_but_marks(h),
                forall|id: ObjectId| #[trigger] reachable(edge, w, id) ==> h.readable(id),
                forall|id: ObjectId| #[trigger] h.marked(id) ==> heap@.marked(id),
                // What has been marked or is on the worklist is reachable.
                forall|id: ObjectId| #[trigger]
                    heap@.marked(id) && !h.marked(id) ==> reachable_by_edge(edge, w, id),
                forall|id: ObjectId| #[trigger]
                    self.worklist@.contains(id) ==> reachable(edge, w, id),
                // What is reachable so far is grey, or all of its children are marked.
                forall|a: ObjectId, b: ObjectId|
                    (w.contains(a) || heap@.marked(a) && !h.marked(a)) && !self.worklist@.contains(
                        a,
                    ) && #[trigger] edge(a, b) ==> heap@.marked(b),
                self.is_marking == old(self).is_marking,
                self.barrier_worklist@ == old(self).barrier_worklist@,
            decreases heap@.unmarked_count() + self.worklist@.len(),
        {
            let ghost before = heap@;
            let ghost listed = self.worklist@;
            let obj_id: ObjectId = self.worklist.pop().unwrap();
            let ghost rest = self.worklist@;
            proof {
                before.lemma_same_but_marks(h);
                lemma_contains_drop_last(listed);
                assert(reachable(edge, w, obj_id));
                assert(before.readable(obj_id) == h.readable(obj_id));
            }
            let refs: Vec<u64> = heap.read_references(obj_id);
            self.visit(&refs, heap);
            proof {
                heap@.lemma_same_but_marks_trans(before, h);
                assert(refs@ == h.references(obj_id));
                assert forall|id: ObjectId| #[trigger]
                    heap@.marked(id) && !h.marked(id) implies reachable_by_edge(edge, w, id) by {
                    if !before.marked(id) {
                        assert(before.is_block(id) == h.is_block(id));
                        assert(edge(obj_id, id));
                    }
                }
                assert forall|id: ObjectId| #[trigger] self.worklist@.contains(id) implies reachable(
                    edge,
                    w,
                    id,
                ) by {
                    if rest.contains(id) {
                        assert(listed.contains(id));
                    } else {
                        assert(reachable_by_edge(edge, w, id));
                        let a = choose|a: ObjectId| #[trigger] reachable(edge, w, a) && edge(a, id);
                        crate::reach::lemma_reach_step(edge, w, a, id);
                    }
                }
                assert forall|a: ObjectId, b: ObjectId|
                    (w.contains(a) || heap@.marked(a) && !h.marked(a)) && !self.worklist@.contains(
                        a,
                    ) && #[trigger] edge(a, b) implies heap@.marked(b) by {
                    assert(before.is_block(b) == h.is_block(b));
                    if a == obj_id {
                        assert(names(refs@, b));
                    } else {
                        assert(!listed.contains(a));
                    }
                }
            }
        }
        proof {
            let inside = |id: ObjectId| w.contains(id) || heap@.marked(id) && !h.marked(id);
            assert forall|a: ObjectId, b: ObjectId| inside(a) && #[trigger] edge(a, b) implies inside(
                b,
            ) by {
                assert(!self.worklist@.contains(a));
                assert(heap@.marked(b));
            }
            crate::reach::lemma_reach_closed(edge, w, inside);
            assert forall|id: ObjectId| #[trigger]
                heap@.marked(id) == (h.marked(id) || reachable_by_edge(edge, w, id)) by {
                if reachable_by_edge(edge, w, id) {
                    let a = choose|a: ObjectId| #[trigger] reachable(edge, w, a) && edge(a, id);
                    assert(inside(a));
                    assert(!self.worklist@.contains(a));
                }
            }
            assert(self.worklist@ =~= Seq::<ObjectId>::empty());
        }
    }

    /// Frees every unmarked block, clears all marks, and moves the spans of the pool that have free
    /// blocks again.
    pub fn sweep(&mut self, heap: &mut ManagedHeap, central: &mut MCentral)
        requires
            old(heap).wf(),
            old(central)@.full_in_heap(old(heap)@),
        ensures
            final(heap).wf(),
            final(heap)@.is_swept(old(heap)@),
            final(central)@ == old(central)@.resorted(final(heap)@),
            final(self)@ == old(self)@,
    {
        let ghost h = old(heap)@;
        let mut i: usize = 0;
        while i < heap.get_page_map_len()
            invariant
                heap.wf(),
                h.wf(),
                i <= h.page_map.len() + 2,
                heap@ == (HeapState { spans: heap@.spans, ..h }),
                heap@.spans.len() == h.spans.len(),
                forall|s: SpanId|
                    s.0 < h.spans.len() ==> #[trigger] h.span_end(s) <= i * PAGE_SIZE
                        || h.span(s).start_id.0 >= i * PAGE_SIZE,
                forall|j: int|
                    0 <= j < h.spans.len() && h.spans[j].start_id.0 < i * PAGE_SIZE
                        ==> #[trigger] heap@.spans[j].is_swept(&h.spans[j]),
                forall|j: int|
                    0 <= j < h.spans.len() && h.spans[j].start_id.0 >= i * PAGE_SIZE
                        ==> #[trigger] heap@.spans[j] == h.spans[j],
            decreases h.page_map.len() + 2 - i,
        {
            match heap.get_span_for_page(i) {
                Some(s) => {
                    let ghost before = heap@;
                    proof {
                        assert(h.page_wf(i as int));
                        assert(h.span_wf(s));
                        assert(before.span_wf(s));
                        assert(h.span_end(s) > i * PAGE_SIZE);
                        assert(before.spans[s.0 as int] == h.spans[s.0 as int]);
                        before.span(s).lemma_wf_in_range();
                    }
                    heap.span_mut(s).sweep();
                    proof {
                        before.lemma_with_span_at(s, heap@.span(s));
                        lemma_sweep_step(h, s, i as int);
                        assert forall|j: int|
                            0 <= j < h.spans.len() && h.spans[j].start_id.0 < h.span_end(
                                s,
                            ) implies #[trigger] heap@.spans[j].is_swept(&h.spans[j]) by {
                            let t = SpanId(j as usize);
                            assert(h.span_wf(t));
                            if t != s {
                                assert(h.span_end(t) <= i * PAGE_SIZE);
                                assert(before.spans[j].is_swept(&h.spans[j]));
                            }
                        }
                    }
                    i = i + heap.span(s).size_class.pages_per_span();
                },
                None => {
                    proof {
                        lemma_sweep_skip(h, i as int);
                        assert forall|j: int|
                            0 <= j < h.spans.len() && h.spans[j].start_id.0 < (i + 1)
                                * PAGE_SIZE implies #[trigger] heap@.spans[j].is_swept(
                            &h.spans[j],
                        ) by {
                            let t = SpanId(j as usize);
                            assert(h.span_wf(t));
                            assert(h.span_end(t) <= i * PAGE_SIZE);
                        }
                    }
                    i = i + 1;
                },
            }
        }
        proof {
            assert forall|j: int| 0 <= j < h.spans.len() implies #[trigger] heap@.spans[j].is_swept(
                &h.spans[j],
            ) by {
                let s = SpanId(j as usize);
                assert(h.span_wf(s));
            }
        }
        central.sweep_full_spans(heap);
    }

    /// Marking is under way from now on.
    pub fn start_marking(&mut self)
        ensures
            final(self)@ == (GcState { is_marking: true, ..old(self)@ }),
    {
        self.is_marking = true;
    }

    /// Marking is over.
    pub fn stop_marking(&mut self)
        ensures
            final(self)@ == (GcState { is_marking: false, ..old(self)@ }),
    {
        self.is_marking = false;
    }

    /// Takes out what a write barrier has recorded.
    pub fn drain_barrier_worklist(&mut self) -> (list: Vec<ObjectId>)
        ensures
            list@ == old(self)@.barrier_worklist,
            final(self)@ == (GcState { barrier_worklist: Seq::empty(), ..old(self)@ }),
    {
        let mut list: Vec<ObjectId> = Vec::new();
        std::mem::swap(&mut list, &mut self.barrier_worklist);
        list
    }

    /// Collects the garbage of a bump-allocated heap: an object that cannot be reached from the roots
    /// loses its references. Fails if something that can be reached is not an object; the heap is
    /// then as it was.
    pub fn collect(
        &mut self,
        heap: &mut crate::bump_heap::ManagedHeap,
        roots: &[ObjectId],
    ) -> (r: Result<(), AllocError>)
        requires
            old(heap).wf(),
        ensures
            final(heap).wf(),
            final(self)@ == (GcState { worklist: Seq::empty(), ..old(self)@ }),
            match r {
                Ok(_) => {
                    &&& graph_ok(old(heap)@, roots@)
                    &&& is_collected(old(heap)@, final(heap)@, roots@)
                },
                Err(e) => {
                    &&& e == AllocError::InvalidPointer
                    &&& !graph_ok(old(heap)@, roots@)
                    &&& final(heap)@ == old(heap)@
                },
            },
    {
        self.worklist.clear();
        let marked: bool = mark_from_roots(&mut self.worklist, heap, roots);
        let ghost g = heap@;
        heap.settle(marked);
        self.worklist.clear();
        proof {
            crate::bump_collector::lemma_settled(old(heap)@, g, heap@, marked, roots@);
        }
        if marked {
            Ok(())
        } else {
            Err(AllocError::InvalidPointer)
        }
    }
}

/// The pages behind span `s`, which begins with page `i`, begin no earlier than any span that was not
/// passed yet.
proof fn lemma_sweep_step(h: HeapState, s: SpanId, i: int)
    requires
        h.wf(),
        0 <= i < h.page_map.len(),
        h.page_map[i] == Some(s),
        h.span(s).start_id.0 == i * PAGE_SIZE,
        forall|t: SpanId|
            t.0 < h.spans.len() ==> #[trigger] h.span_end(t) <= i * PAGE_SIZE
                || h.span(t).start_id.0 >= i * PAGE_SIZE,
    ensures
        s.0 < h.spans.len(),
        i + h.span(s).size_class.pages_per_span() <= h.page_map.len() + 2,
        forall|t: SpanId|
            t.0 < h.spans.len() ==> #[trigger] h.span_end(t) <= h.span_end(s) && (t == s
                || h.span_end(t) <= i * PAGE_SIZE) || h.span(t).start_id.0 >= h.span_end(s),
        h.span_end(s) == (i + h.span(s).size_class.pages_per_span()) * PAGE_SIZE,
{
    assert(h.page_wf(i));
    assert(h.span_wf(s));
    assert forall|t: SpanId| t.0 < h.spans.len() implies #[trigger] h.span_end(t) <= h.span_end(s)
        && (t == s || h.span_end(t) <= i * PAGE_SIZE) || h.span(t).start_id.0 >= h.span_end(s) by {
        assert(h.span_wf(t));
        if t != s && h.span(t).start_id.0 >= i * PAGE_SIZE && h.span(t).start_id.0 < h.span_end(
            s,
        ) {
            let q = h.span(t).start_id.0 as int / PAGE_SIZE as int;
            assert(q * PAGE_SIZE == h.span(t).start_id.0);
            assert(h.covers(t, q));
            assert(h.covers(s, q));
        }
    }
}

/// No span begins with a page that has no owner.
proof fn lemma_sweep_skip(h: HeapState, i: int)
    requires
        h.wf(),
        0 <= i < h.page_map.len(),
        h.page_map[i] is None,
        forall|t: SpanId|
            t.0 < h.spans.len() ==> #[trigger] h.span_end(t) <= i * PAGE_SIZE
                || h.span(t).start_id.0 >= i * PAGE_SIZE,
    ensures
        forall|t: SpanId|
            t.0 < h.spans.len() ==> #[trigger] h.span_end(t) <= i * PAGE_SIZE
                || h.span(t).start_id.0 >= (i + 1) * PAGE_SIZE,
{
    assert forall|t: SpanId| t.0 < h.spans.len() implies #[trigger] h.span_end(t) <= i * PAGE_SIZE
        || h.span(t).start_id.0 >= (i + 1) * PAGE_SIZE by {
        assert(h.span_wf(t));
        if h.span(t).start_id.0 == i * PAGE_SIZE {
            assert(h.covers(t, i));
        }
    }
}

/// Adding one more identifier to the marks.
proof fn lemma_marks_added_push(
    first: HeapState,
    mid: HeapState,
    last: HeapState,
    seen: Seq<ObjectId>,
    id: ObjectId,
)
    requires
        first.wf(),
        marks_added(first, mid, seen),
        marks_added(mid, last, seq![id]),
    ensures
        marks_added(first, last, seen.push(id)),
{
    mid.lemma_same_but_marks(first);
    assert forall|x: ObjectId| #[trigger]
        last.marked(x) == (first.marked(x) || first.is_block(x) && seen.push(id).contains(x)) by {
        lemma_contains_push(seen, id, x);
        lemma_contains_push(Seq::empty(), id, x);
        assert(seq![id] =~= Seq::<ObjectId>::empty().push(id));
        assert(mid.is_block(x) == first.is_block(x));
        assert(mid.marked(x) == (first.marked(x) || first.is_block(x) && seen.contains(x)));
    }
    last.lemma_same_but_marks_trans(mid, first);
}

/// What a list with one more element holds.
pub proof fn lemma_contains_push(s: Seq<ObjectId>, x: ObjectId, y: ObjectId)
    ensures
        s.push(x).contains(y) <==> s.contains(y) || y == x,
{
    if y == x {
        assert(s.push(x)[s.len() as int] == x);
    }
    if s.contains(y) {
        let i = choose|i: int| 0 <= i < s.len() && s[i] == y;
        assert(s.push(x)[i] == y);
    }
}

/// What a list holds besides its last element.
pub proof fn lemma_contains_drop_last(s: Seq<ObjectId>)
    requires
        s.len() > 0,
    ensures
        s.contains(s.last()),
        forall|x: ObjectId| #[trigger] s.contains(x) <==> s.drop_last().contains(x) || x == s.last(),
{
    assert forall|x: ObjectId| #[trigger] s.contains(x) <==> s.drop_last().contains(x) || x == s.last() by {
        lemma_contains_push(s.drop_last(), s.last(), x);
        assert(s.drop_last().push(s.last()) =~= s);
    }
}

/// One more reference field names one more offset.
proof fn lemma_names_push(refs: Seq<u64>, i: int)
    requires
        0 <= i < refs.len(),
    ensures
        forall|id: ObjectId| #[trigger]
            names(refs.take(i + 1), id) <==> names(refs.take(i), id) || ObjectId(
                refs[i] as usize,
            ) == id,
{
    assert forall|id: ObjectId| #[trigger]
        names(refs.take(i + 1), id) <==> names(refs.take(i), id) || ObjectId(refs[i] as usize)
            == id by {
        if names(refs.take(i), id) {
            let j = choose|j: int| 0 <= j < i && #[trigger] refs.take(i)[j] as usize == id.0;
            assert(refs.take(i + 1)[j] as usize == id.0);
        }
        if ObjectId(refs[i] as usize) == id {
            assert(refs.take(i + 1)[i] as usize == id.0);
        }
        if names(refs.take(i + 1), id) {
            let j = choose|j: int|
                0 <= j < i + 1 && #[trigger] refs.take(i + 1)[j] as usize == id.0;
            if j < i {
                assert(refs.take(i)[j] as usize == id.0);
            }
        }
    }
}

} // verus!
