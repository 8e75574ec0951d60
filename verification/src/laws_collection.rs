//! What holds of blocks and of collection cycles in the paged heap.

use crate::datastruct::{ObjectId, PAGE_SIZE};
use crate::garbage_collector::{lemma_contains_push, marks_added, marks_traced, newly_marked};
use crate::managed_heap::{HeapState, SpanId};
use crate::reach::{reachable, reachable_by_edge};
use vstd::prelude::*;

verus! {

/// No page belongs to two spans, and the first page belongs to none.
pub proof fn law_page_has_one_owner(h: HeapState, s: SpanId, t: SpanId, p: int)
    requires
        h.wf(),
        s.0 < h.spans.len(),
        t.0 < h.spans.len(),
        h.covers(s, p),
        h.covers(t, p),
    ensures
        s == t,
        0 < p,
{
    assert(h.span_wf(s));
}

/// No object is ever at offset zero, nor anywhere else in the first page, and every block lies inside
/// the heap.
pub proof fn law_block_in_heap(h: HeapState, id: ObjectId)
    requires
        h.wf(),
        h.is_block(id),
    ensures
        PAGE_SIZE <= id.0,
        id.0 + h.size_of_block(id) <= h.memory.len(),
{
    h.lemma_block_bounds(id);
}

/// Different blocks do not overlap.
pub proof fn law_blocks_disjoint(h: HeapState, a: ObjectId, b: ObjectId)
    requires
        h.wf(),
        h.is_block(a),
        h.is_block(b),
        a != b,
    ensures
        a.0 + h.size_of_block(a) <= b.0 || b.0 + h.size_of_block(b) <= a.0,
{
    h.lemma_block_bounds(a);
    h.lemma_block_bounds(b);
    let s = h.owner(a);
    let t = h.owner(b);
    if s == t {
        let span = h.span(s);
        span.lemma_is_block(a);
        span.lemma_is_block(b);
        let i = span.index_of(a);
        let j = span.index_of(b);
        let size = span.size_class.block_size() as int;
        if i < j {
            assert(i * size + size <= j * size) by (nonlinear_arith)
                requires
                    i + 1 <= j,
                    0 <= size,
            ;
        } else {
            assert(i != j);
            assert(j * size + size <= i * size) by (nonlinear_arith)
                requires
                    j + 1 <= i,
                    0 <= size,
            ;
        }
    } else {
        let p = h.span(s).start_id.0 as int / PAGE_SIZE as int;
        let q = h.span(t).start_id.0 as int / PAGE_SIZE as int;
        assert(p * PAGE_SIZE == h.span(s).start_id.0);
        assert(q * PAGE_SIZE == h.span(t).start_id.0);
        assert(h.covers(s, p));
        assert(h.covers(t, q));
        assert(!h.covers(t, p));
        assert(!h.covers(s, q));
    }
}

/// Reachability depends on the set of the starting points alone.
proof fn lemma_same_start(
    edge: spec_fn(ObjectId, ObjectId) -> bool,
    v: Seq<ObjectId>,
    w: Seq<ObjectId>,
)
    requires
        forall|x: ObjectId| v.contains(x) ==> w.contains(x),
    ensures
        forall|x: ObjectId| #[trigger] reachable(edge, v, x) ==> reachable(edge, w, x),
{
    let inside = |x: ObjectId| reachable(edge, w, x);
    assert forall|x: ObjectId| v.contains(x) implies inside(x) by {
        crate::reach::lemma_reach_start(edge, w, x);
    }
    assert forall|a: ObjectId, b: ObjectId| inside(a) && #[trigger] edge(a, b) implies inside(b) by {
        crate::reach::lemma_reach_step(edge, w, a, b);
    }
    crate::reach::lemma_reach_closed(edge, v, inside);
}

/// The roots that are offsets of blocks.
pub open spec fn block_roots(h: HeapState, roots: Seq<ObjectId>) -> Seq<ObjectId> {
    roots.filter(|id: ObjectId| h.is_block(id))
}

/// Whether a chain of references leads from one of the roots to the block at `id`.
pub open spec fn live(h: HeapState, roots: Seq<ObjectId>, id: ObjectId) -> bool {
    reachable(h.edge(), block_roots(h, roots), id)
}

/// The roots that are offsets of blocks are those of the roots for which this holds.
pub proof fn lemma_block_roots(h: HeapState, roots: Seq<ObjectId>)
    ensures
        forall|id: ObjectId| #[trigger]
            block_roots(h, roots).contains(id) <==> roots.contains(id) && h.is_block(id),
    decreases roots.len(),
{
    reveal(Seq::filter);
    let ok = |id: ObjectId| h.is_block(id);
    if roots.len() > 0 {
        let rest = roots.drop_last();
        lemma_block_roots(h, rest);
        assert forall|id: ObjectId| #[trigger]
            block_roots(h, roots).contains(id) <==> roots.contains(id) && h.is_block(id) by {
            lemma_contains_push(rest, roots.last(), id);
            lemma_contains_push(block_roots(h, rest), roots.last(), id);
            assert(rest.push(roots.last()) =~= roots);
            assert(block_roots(h, rest).contains(id) <==> rest.contains(id) && h.is_block(id));
        }
    }
}

proof fn lemma_newly_marked(h: HeapState, roots: Seq<ObjectId>)
    ensures
        forall|id: ObjectId| #[trigger]
            newly_marked(h, roots).contains(id) <==> roots.contains(id) && h.is_block(id)
                && !h.marked(id),
    decreases roots.len(),
{
    if roots.len() > 0 {
        let rest = roots.drop_last();
        lemma_newly_marked(h, rest);
        assert forall|id: ObjectId| #[trigger]
            newly_marked(h, roots).contains(id) <==> roots.contains(id) && h.is_block(id)
                && !h.marked(id) by {
            lemma_contains_push(rest, roots.last(), id);
            lemma_contains_push(newly_marked(h, rest), roots.last(), id);
            assert(rest.push(roots.last()) =~= roots);
            assert(newly_marked(h, rest).contains(id) <==> rest.contains(id) && h.is_block(id)
                && !h.marked(id));
        }
    }
}

/// If every object that can be reached from the roots is intact, `trace` can be called after
/// `initialize`.
pub proof fn law_trace_can_run(h0: HeapState, h1: HeapState, roots: Seq<ObjectId>)
    requires
        h0.wf(),
        h0.unmarked(),
        forall|id: ObjectId| #[trigger] live(h0, roots, id) ==> h0.readable(id),
        marks_added(h0, h1, roots),
    ensures
        forall|id: ObjectId| #[trigger]
            reachable(h1.fresh_edge(), newly_marked(h0, roots), id) ==> h1.readable(id),
{
    let w = newly_marked(h0, roots);
    h1.lemma_same_but_marks(h0);
    lemma_newly_marked(h0, roots);
    lemma_block_roots(h0, roots);
    let inside = |id: ObjectId| live(h0, roots, id);
    assert forall|id: ObjectId| w.contains(id) implies inside(id) by {
        crate::reach::lemma_reach_start(h0.edge(), block_roots(h0, roots), id);
    }
    assert forall|a: ObjectId, b: ObjectId| inside(a) && #[trigger] h1.fresh_edge()(
        a,
        b,
    ) implies inside(b) by {
        crate::reach::lemma_reach_step(h0.edge(), block_roots(h0, roots), a, b);
    }
    crate::reach::lemma_reach_closed(h1.fresh_edge(), w, inside);
    assert forall|id: ObjectId| #[trigger] reachable(h1.fresh_edge(), w, id) implies h1.readable(
        id,
    ) by {
        assert(inside(id));
        assert(h1.readable(id) == h0.readable(id));
    }
}

/// After `initialize` and `trace` on a heap without marks, exactly the live blocks are marked.
pub proof fn law_trace_marks_live(
    h0: HeapState,
    h1: HeapState,
    h2: HeapState,
    roots: Seq<ObjectId>,
)
    requires
        h0.wf(),
        h0.unmarked(),
        marks_added(h0, h1, roots),
        marks_traced(h1, h2, newly_marked(h0, roots)),
    ensures
        forall|id: ObjectId| #[trigger] h2.marked(id) == live(h0, roots, id),
        h2.same_but_marks(h0),
{
    let w = newly_marked(h0, roots);
    let v = block_roots(h0, roots);
    let edge = h0.edge();
    let fresh = h1.fresh_edge();
    h1.lemma_same_but_marks(h0);
    h2.lemma_same_but_marks_trans(h1, h0);
    lemma_newly_marked(h0, roots);
    lemma_block_roots(h0, roots);
    assert forall|id: ObjectId| v.contains(id) <==> w.contains(id) by {
        assert(!h0.marked(id));
    }
    lemma_same_start(edge, v, w);
    lemma_same_start(edge, w, v);
    // What a chain through unmarked blocks reaches is reachable.
    let reached = |id: ObjectId| reachable(edge, w, id);
    assert forall|id: ObjectId| w.contains(id) implies reached(id) by {
        crate::reach::lemma_reach_start(edge, w, id);
    }
    assert forall|a: ObjectId, b: ObjectId| reached(a) && #[trigger] fresh(a, b) implies reached(
        b,
    ) by {
        crate::reach::lemma_reach_step(edge, w, a, b);
    }
    crate::reach::lemma_reach_closed(fresh, w, reached);
    // The marks hold the roots and are closed under references.
    let marked = |id: ObjectId| h2.marked(id);
    assert forall|id: ObjectId| h1.marked(id) <==> w.contains(id) by {
        assert(!h0.marked(id));
        assert(h1.marked(id) == (h0.marked(id) || h0.is_block(id) && roots.contains(id)));
    }
    assert forall|id: ObjectId| w.contains(id) implies marked(id) by {
        assert(h1.marked(id));
    }
    assert forall|a: ObjectId, b: ObjectId| marked(a) && #[trigger] edge(a, b) implies marked(
        b,
    ) by {
        assert(h2.marked(a));
        if !h1.marked(b) {
            assert(fresh(a, b));
            if h1.marked(a) {
                crate::reach::lemma_reach_start(fresh, w, a);
            } else {
                let c = choose|c: ObjectId| #[trigger] reachable(fresh, w, c) && fresh(c, a);
                crate::reach::lemma_reach_step(fresh, w, c, a);
            }
            assert(reachable_by_edge(fresh, w, b));
        }
        assert(h2.marked(b));
    }
    crate::reach::lemma_reach_closed(edge, w, marked);
    assert forall|id: ObjectId| #[trigger] h2.marked(id) == live(h0, roots, id) by {
        if h2.marked(id) {
            if h1.marked(id) {
                assert(reached(id));
            } else {
                let c = choose|c: ObjectId| #[trigger] reachable(fresh, w, c) && fresh(c, id);
                assert(reached(c));
                crate::reach::lemma_reach_step(edge, w, c, id);
            }
            assert(reachable(edge, w, id));
        }
        if live(h0, roots, id) {
            assert(reachable(edge, w, id));
            assert(marked(id));
        }
    }
}

/// A block is taken after a sweep exactly if it was taken and marked before, and no mark is left.
pub proof fn law_sweep_frees_unmarked(h0: HeapState, h1: HeapState)
    requires
        h0.wf(),
        h1.is_swept(h0),
    ensures
        forall|id: ObjectId| #[trigger] h1.is_block(id) == h0.is_block(id),
        forall|id: ObjectId| #[trigger]
            h1.allocated(id) == (h0.allocated(id) && h0.marked(id)),
        h1.unmarked(),
{
    assert forall|id: ObjectId|
        #![trigger h1.is_block(id)]
        #![trigger h1.allocated(id)]
        #![trigger h1.marked(id)]
        h1.is_block(id) == h0.is_block(id) && h1.allocated(id) == (h0.allocated(id) && h0.marked(
            id,
        )) && !h1.marked(id) by {
        assert(h1.span_of(id) == h0.span_of(id));
        if h0.span_of(id) is Some {
            h0.lemma_index_in_span(id);
            let i = h0.owner(id).0 as int;
            let before = h0.spans[i];
            let after = h1.spans[i];
            assert(after.is_swept(&before));
            before.lemma_wf_in_range();
            let k = before.index_of(id);
            assert(after.allocated(k) == (before.allocated(k) && (before.marked(k) || k
                >= before.swept_bits())));
            assert(after.marked(k) == (before.marked(k) && k >= before.swept_bits()));
        }
    }
}

/// A collection cycle (`initialize`, `trace`, `sweep`) on a heap without marks frees exactly the blocks
/// that no chain of references leads to from a root, whether or not they refer to each other. It
/// changes no byte and leaves no mark, so that the next cycle can begin.
pub proof fn law_collection(
    h0: HeapState,
    h1: HeapState,
    h2: HeapState,
    h3: HeapState,
    roots: Seq<ObjectId>,
)
    requires
        h0.wf(),
        h0.unmarked(),
        marks_added(h0, h1, roots),
        marks_traced(h1, h2, newly_marked(h0, roots)),
        h2.wf(),
        h3.is_swept(h2),
    ensures
        forall|id: ObjectId| #[trigger]
            h3.allocated(id) == (h0.allocated(id) && live(h0, roots, id)),
        h3.memory == h0.memory,
        h3.unmarked(),
{
    law_trace_marks_live(h0, h1, h2, roots);
    law_sweep_frees_unmarked(h2, h3);
    h2.lemma_same_but_marks(h0);
}

/// Marking roots marks those that are offsets of blocks, keeps the marks that were there, and adds no
/// others. The blocks that were white are listed, each once.
pub proof fn law_marked_roots(h: HeapState, g: HeapState, roots: Seq<ObjectId>, id: ObjectId)
    requires
        marks_added(h, g, roots),
    ensures
        g.marked(id) <==> h.marked(id) || h.is_block(id) && roots.contains(id),
        g.same_but_marks(h),
        newly_marked(h, roots).contains(id) <==> roots.contains(id) && h.is_block(id) && !h.marked(
            id,
        ),
        newly_marked(h, roots).no_duplicates(),
{
    lemma_newly_marked(h, roots);
    lemma_newly_marked_once(h, roots);
}

/// Roots are listed in the order in which they first occur: one more root is listed last if it is the
/// offset of a white block and is not among the others, and is not listed otherwise.
pub proof fn law_listed_in_order(h: HeapState, roots: Seq<ObjectId>, id: ObjectId)
    ensures
        newly_marked(h, Seq::empty()).len() == 0,
        newly_marked(h, roots.push(id)) == if h.is_block(id) && !h.marked(id) && !roots.contains(
            id,
        ) {
            newly_marked(h, roots).push(id)
        } else {
            newly_marked(h, roots)
        },
{
    lemma_newly_marked(h, roots);
    assert(roots.push(id).drop_last() =~= roots);
}

proof fn lemma_newly_marked_once(h: HeapState, roots: Seq<ObjectId>)
    ensures
        newly_marked(h, roots).no_duplicates(),
    decreases roots.len(),
{
    if roots.len() > 0 {
        let rest = roots.drop_last();
        lemma_newly_marked_once(h, rest);
        lemma_newly_marked(h, rest);
        let v = newly_marked(h, rest);
        let w = newly_marked(h, roots);
        if w.len() > v.len() {
            assert(!v.contains(roots.last()));
            assert forall|a: int, b: int|
                0 <= a < w.len() && 0 <= b < w.len() && a != b implies w[a] != w[b] by {
                if a < v.len() {
                    assert(v.contains(w[a]));
                }
                if b < v.len() {
                    assert(v.contains(w[b]));
                }
            }
        }
    }
}

/// Tracing keeps every mark. It marks every block that a listed object refers to, and every block that
/// an object refers to which it has marked itself.
pub proof fn law_trace_follows_every_reference(
    h: HeapState,
    g: HeapState,
    worklist: Seq<ObjectId>,
    a: ObjectId,
    b: ObjectId,
    i: int,
)
    requires
        h.wf(),
        marks_traced(h, g, worklist),
        worklist.contains(a) || g.marked(a) && !h.marked(a),
        0 <= i < h.references(a).len(),
        h.references(a)[i] as usize == b.0,
        h.is_block(b),
    ensures
        g.marked(b),
        h.marked(a) ==> g.marked(a),
{
    let edge = h.fresh_edge();
    assert(g.marked(a) == (h.marked(a) || reachable_by_edge(edge, worklist, a)));
    assert(g.marked(b) == (h.marked(b) || reachable_by_edge(edge, worklist, b)));
    assert(crate::managed_heap::names(h.references(a), b));
    if !h.marked(b) {
        assert(edge(a, b));
        if worklist.contains(a) {
            crate::reach::lemma_reach_start(edge, worklist, a);
        } else {
            let c = choose|c: ObjectId| #[trigger] reachable(edge, worklist, c) && edge(c, a);
            crate::reach::lemma_reach_step(edge, worklist, c, a);
        }
        assert(reachable(edge, worklist, a) && edge(a, b));
    }
}

/// Tracing marks nothing without need: whatever it marks lies in every set of blocks that holds all
/// that the listed objects refer to and all that its own members refer to.
pub proof fn law_trace_marks_nothing_else(
    h: HeapState,
    g: HeapState,
    worklist: Seq<ObjectId>,
    keep: spec_fn(ObjectId) -> bool,
    id: ObjectId,
)
    requires
        h.wf(),
        marks_traced(h, g, worklist),
        forall|a: ObjectId, b: ObjectId, i: int|
            #![trigger keep(b), h.references(a)[i]]
            (worklist.contains(a) || keep(a)) && 0 <= i < h.references(a).len() && h.references(
                a,
            )[i] as usize == b.0 && h.is_block(b) ==> keep(b),
        g.marked(id),
        !h.marked(id),
    ensures
        keep(id),
        h.is_block(id),
{
    let edge = h.fresh_edge();
    let inside = |x: ObjectId| worklist.contains(x) || keep(x);
    assert forall|a: ObjectId, b: ObjectId| inside(a) && #[trigger] edge(a, b) implies keep(b) by {
        let i = choose|i: int|
            0 <= i < h.references(a).len() && #[trigger] h.references(a)[i] as usize == b.0;
        assert(h.references(a)[i] as usize == b.0);
        assert(keep(b) || !keep(b));
    }
    crate::reach::lemma_reach_closed(edge, worklist, inside);
    assert(g.marked(id) == (h.marked(id) || reachable_by_edge(edge, worklist, id)));
    let c = choose|c: ObjectId| #[trigger] reachable(edge, worklist, c) && edge(c, id);
    assert(inside(c));
    assert(edge(c, id));
}

/// A collection cycle keeps every taken root, and every taken block that a kept object refers to from
/// any of its reference fields.
pub proof fn law_collection_keeps_what_is_needed(
    h0: HeapState,
    h1: HeapState,
    h2: HeapState,
    h3: HeapState,
    roots: Seq<ObjectId>,
    a: ObjectId,
    b: ObjectId,
    i: int,
)
    requires
        h0.wf(),
        h0.unmarked(),
        marks_added(h0, h1, roots),
        marks_traced(h1, h2, newly_marked(h0, roots)),
        h2.wf(),
        h3.is_swept(h2),
    ensures
        roots.contains(a) && h0.allocated(a) ==> h3.allocated(a),
        h3.allocated(a) && 0 <= i < h0.references(a).len() && h0.references(a)[i] as usize == b.0
            && h0.allocated(b) ==> h3.allocated(b),
{
    law_collection(h0, h1, h2, h3, roots);
    if roots.contains(a) && h0.allocated(a) {
        law_roots_are_live(h0, roots, a);
        assert(h3.allocated(a) == (h0.allocated(a) && live(h0, roots, a)));
    }
    if h3.allocated(a) && 0 <= i < h0.references(a).len() && h0.references(a)[i] as usize == b.0
        && h0.allocated(b) {
        assert(h3.allocated(a) == (h0.allocated(a) && live(h0, roots, a)));
        assert(crate::managed_heap::names(h0.references(a), b));
        law_children_are_live(h0, roots, a, b);
        assert(h3.allocated(b) == (h0.allocated(b) && live(h0, roots, b)));
    }
}

/// A collection cycle keeps nothing without need: what is still taken was taken before, and lies in
/// every set of blocks that holds the roots and all that its members refer to.
pub proof fn law_collection_keeps_nothing_else(
    h0: HeapState,
    h1: HeapState,
    h2: HeapState,
    h3: HeapState,
    roots: Seq<ObjectId>,
    keep: spec_fn(ObjectId) -> bool,
    id: ObjectId,
)
    requires
        h0.wf(),
        h0.unmarked(),
        marks_added(h0, h1, roots),
        marks_traced(h1, h2, newly_marked(h0, roots)),
        h2.wf(),
        h3.is_swept(h2),
        forall|a: ObjectId| roots.contains(a) && h0.is_block(a) ==> #[trigger] keep(a),
        forall|a: ObjectId, b: ObjectId, i: int|
            #![trigger keep(b), h0.references(a)[i]]
            keep(a) && 0 <= i < h0.references(a).len() && h0.references(a)[i] as usize == b.0
                && h0.is_block(b) ==> keep(b),
        h3.allocated(id),
    ensures
        h0.allocated(id),
        keep(id),
{
    law_collection(h0, h1, h2, h3, roots);
    assert(h3.allocated(id) == (h0.allocated(id) && live(h0, roots, id)));
    lemma_block_roots(h0, roots);
    let edge = h0.edge();
    let v = block_roots(h0, roots);
    assert forall|x: ObjectId| v.contains(x) implies keep(x) by {
        assert(roots.contains(x) && h0.is_block(x));
    }
    assert forall|a: ObjectId, b: ObjectId| keep(a) && #[trigger] edge(a, b) implies keep(b) by {
        let i = choose|i: int|
            0 <= i < h0.references(a).len() && #[trigger] h0.references(a)[i] as usize == b.0;
        assert(h0.references(a)[i] as usize == b.0);
        assert(keep(b) || !keep(b));
    }
    crate::reach::lemma_reach_closed(edge, v, keep);
}

/// The same blocks are live after a collection cycle as before it.
pub proof fn law_collection_keeps_liveness(
    h0: HeapState,
    h1: HeapState,
    h2: HeapState,
    h3: HeapState,
    roots: Seq<ObjectId>,
    id: ObjectId,
)
    requires
        h0.wf(),
        marks_added(h0, h1, roots),
        marks_traced(h1, h2, newly_marked(h0, roots)),
        h2.wf(),
        h3.is_swept(h2),
    ensures
        live(h3, roots, id) == live(h0, roots, id),
{
    h2.lemma_same_but_marks_trans(h1, h0);
    h2.lemma_same_but_marks(h0);
    law_sweep_frees_unmarked(h2, h3);
    let ok0 = |x: ObjectId| h0.is_block(x);
    let ok3 = |x: ObjectId| h3.is_block(x);
    assert forall|x: ObjectId| #[trigger] ok3(x) == ok0(x) by {
        assert(h3.is_block(x) == h2.is_block(x));
        assert(h2.is_block(x) == h0.is_block(x));
    }
    assert(ok3 =~= ok0);
    assert forall|a: ObjectId, b: ObjectId| #[trigger] h3.edge()(a, b) == h0.edge()(a, b) by {
        assert(ok3(b) == ok0(b));
        assert(h3.references(a) =~= h2.references(a));
        assert(h2.references(a) == h0.references(a));
    }
    assert(h3.edge() =~= h0.edge());
}

/// A second collection cycle with the same roots frees nothing more and changes no byte.
pub proof fn law_collection_twice(
    h0: HeapState,
    h1: HeapState,
    h2: HeapState,
    once: HeapState,
    h4: HeapState,
    h5: HeapState,
    twice: HeapState,
    roots: Seq<ObjectId>,
)
    requires
        h0.wf(),
        h0.unmarked(),
        marks_added(h0, h1, roots),
        marks_traced(h1, h2, newly_marked(h0, roots)),
        h2.wf(),
        once.is_swept(h2),
        once.wf(),
        marks_added(once, h4, roots),
        marks_traced(h4, h5, newly_marked(once, roots)),
        h5.wf(),
        twice.is_swept(h5),
    ensures
        forall|id: ObjectId| #[trigger] twice.allocated(id) == once.allocated(id),
        twice.memory == once.memory,
        twice.unmarked(),
{
    law_collection(h0, h1, h2, once, roots);
    law_collection(once, h4, h5, twice, roots);
    assert forall|id: ObjectId| #[trigger] twice.allocated(id) == once.allocated(id) by {
        law_collection_keeps_liveness(h0, h1, h2, once, roots, id);
        assert(once.allocated(id) == (h0.allocated(id) && live(h0, roots, id)));
    }
}

/// An object that a root names survives a collection.
pub proof fn law_roots_are_live(h: HeapState, roots: Seq<ObjectId>, id: ObjectId)
    requires
        roots.contains(id),
        h.is_block(id),
    ensures
        live(h, roots, id),
{
    lemma_block_roots(h, roots);
    crate::reach::lemma_reach_start(h.edge(), block_roots(h, roots), id);
}

/// An object that a live object refers to is live.
pub proof fn law_children_are_live(h: HeapState, roots: Seq<ObjectId>, a: ObjectId, b: ObjectId)
    requires
        live(h, roots, a),
        h.edge()(a, b),
    ensures
        live(h, roots, b),
{
    crate::reach::lemma_reach_step(h.edge(), block_roots(h, roots), a, b);
}

} // verus!
