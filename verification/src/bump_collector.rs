//! Marking on the bump-allocated heap.

use crate::bump_heap::{
    lemma_same_but_headers_trans, lemma_same_edges, lemma_same_headers_same_heap,
    lemma_with_header, HeapState, ManagedHeap,
};
use crate::datastruct::{GcColor, ObjectHeader, ObjectId};
use crate::garbage_collector::{lemma_contains_drop_last, lemma_contains_push};
use crate::reach::{
    lemma_count_outside_insert, lemma_count_outside_same, lemma_reach_closed, lemma_reach_start,
    lemma_reach_step, reachable,
};
use vstd::prelude::*;

verus! {

/// Whether every chain of references that begins at a root ends at an object.
pub open spec fn graph_ok(h: HeapState, roots: Seq<ObjectId>) -> bool {
    forall|id: ObjectId| #[trigger] reachable(h.edge(), roots, id) ==> h.is_object(id)
}

/// Whether `after` is `before` after a collection: an object that a chain of references leads to from
/// a root is as it was, every other object has lost its references, and nothing outside the headers
/// has changed.
pub open spec fn is_collected(before: HeapState, after: HeapState, roots: Seq<ObjectId>) -> bool {
    &&& after.same_but_headers(before)
    &&& forall|i: int|
        #![trigger before.objects[i]]
        0 <= i < before.objects.len() ==> after.header(before.objects[i]) == if reachable(
            before.edge(),
            roots,
            before.objects[i],
        ) {
            before.header(before.objects[i])
        } else {
            ObjectHeader { refs_count: 0, ..before.header(before.objects[i]) }
        }
}

/// Changing the colour of one object changes nothing else.
proof fn lemma_recolored(g: HeapState, h: HeapState, id: ObjectId, color: GcColor)
    requires
        g.layout_wf(),
        g.same_but_colors(h),
        g.is_object(id),
    ensures
        ({
            let f = g.with_header(id, ObjectHeader { color, ..g.header(id) });
            &&& f.layout_wf()
            &&& f.same_but_colors(g)
            &&& f.same_but_colors(h)
            &&& f.header(id).color == color
            &&& forall|x: ObjectId| #[trigger]
                f.marked(x) == if x == id {
                    color != GcColor::White
                } else {
                    g.marked(x)
                }
        }),
{
    let header = ObjectHeader { color, ..g.header(id) };
    let f = g.with_header(id, header);
    let i = choose|i: int| 0 <= i < g.objects.len() && g.objects[i] == id;
    assert(g.object_ok(i));
    lemma_with_header(g, i, header);
    lemma_same_but_headers_trans(f, g, h);
    assert forall|j: int|
        #![trigger f.objects[j]]
        0 <= j < f.objects.len() implies f.header(f.objects[j]) == (ObjectHeader {
        color: f.header(f.objects[j]).color,
        ..g.header(g.objects[j])
    }) by {
        assert(f.objects[j] == g.objects[j]);
    }
    assert forall|j: int|
        #![trigger f.objects[j]]
        0 <= j < f.objects.len() implies f.header(f.objects[j]) == (ObjectHeader {
        color: f.header(f.objects[j]).color,
        ..h.header(h.objects[j])
    }) by {
        assert(f.objects[j] == g.objects[j]);
    }
    assert forall|x: ObjectId| #[trigger]
        f.marked(x) == if x == id {
            color != GcColor::White
        } else {
            g.marked(x)
        } by {
        if g.is_object(x) && x != id {
            let j = choose|j: int| 0 <= j < g.objects.len() && g.objects[j] == x;
            assert(f.header(g.objects[j]) == g.header(g.objects[j]));
        }
    }
}

/// Makes a white object grey and puts it on the worklist. Says whether there is an object at `id`.
fn shade(worklist: &mut Vec<ObjectId>, heap: &mut ManagedHeap, id: ObjectId) -> (r: bool)
    requires
        old(heap)@.layout_wf(),
    ensures
        final(heap)@.layout_wf(),
        final(heap)@.same_but_colors(old(heap)@),
        r == old(heap)@.is_object(id),
        forall|x: ObjectId| #[trigger]
            final(heap)@.marked(x) == (old(heap)@.marked(x) || r && x == id),
        forall|x: ObjectId| #[trigger]
            final(worklist)@.contains(x) <==> old(worklist)@.contains(x) || r && x == id && !old(
                heap,
            )@.marked(x),
        final(heap)@.unmarked_count() + final(worklist)@.len() == old(heap)@.unmarked_count() + old(
            worklist,
        )@.len(),
{
    let ghost g = heap@;
    if !heap.contains(id) {
        return false;
    }
    let mut header = heap.header_of(id);
    if header.color == GcColor::White {
        header.color = GcColor::Grey;
        proof {
            lemma_recolored(g, g, id, GcColor::Grey);
        }
        heap.set_header(id, header);
        let ghost listed = worklist@;
        worklist.push(id);
        proof {
            let i = choose|i: int| 0 <= i < g.objects.len() && g.objects[i] == id;
            crate::bump_heap::lemma_object_end(g, i);
            lemma_count_outside_insert(g.marks(), heap@.marks(), id, g.memory.len());
            assert forall|x: ObjectId| #[trigger]
                worklist@.contains(x) <==> listed.contains(x) || x == id by {
                lemma_contains_push(listed, id, x);
            }
        }
    }
    true
}

/// Marks what can be reached from the roots. Says whether that consists of objects alone; marking
/// stops as soon as it meets something else.
pub(crate) fn mark_from_roots(
    worklist: &mut Vec<ObjectId>,
    heap: &mut ManagedHeap,
    roots: &[ObjectId],
) -> (r: bool)
    requires
        old(heap).wf(),
        old(worklist)@.len() == 0,
    ensures
        final(heap)@.layout_wf(),
        final(heap)@.same_but_colors(old(heap)@),
        r == graph_ok(old(heap)@, roots@),
        r ==> final(worklist)@.len() == 0,
        r ==> forall|id: ObjectId| #[trigger]
            final(heap)@.marked(id) == reachable(old(heap)@.edge(), roots@, id),
{
    let ghost h = heap@;
    let ghost edge = h.edge();
    let mut i: usize = 0;
    proof {
        assert forall|id: ObjectId| !#[trigger] h.marked(id) by {
            if h.is_object(id) {
                let j = choose|j: int| 0 <= j < h.objects.len() && h.objects[j] == id;
                assert(h.header(h.objects[j]).color == GcColor::White);
            }
        }
        assert forall|id: ObjectId| !#[trigger] worklist@.contains(id) by {}
    }
    while i < roots.len()
        invariant
            i <= roots@.len(),
            h == old(heap)@,
            h.layout_wf(),
            edge == h.edge(),
            heap@.layout_wf(),
            heap@.same_but_colors(h),
            forall|id: ObjectId| #[trigger] heap@.marked(id) ==> reachable(edge, roots@, id),
            forall|id: ObjectId| #[trigger] heap@.marked(id) ==> worklist@.contains(id),
            forall|id: ObjectId| #[trigger] worklist@.contains(id) ==> heap@.marked(id),
            forall|j: int| 0 <= j < i ==> heap@.marked(#[trigger] roots@[j]),
        decreases roots@.len() - i,
    {
        let root = roots[i];
        let ghost g = heap@;
        proof {
            assert(roots@[i as int] == root);
            lemma_reach_start(edge, roots@, root);
        }
        if !shade(worklist, heap, root) {
            proof {
                lemma_recolor_trans(heap@, g, h);
                assert(!h.is_object(root));
            }
            return false;
        }
        proof {
            lemma_recolor_trans(heap@, g, h);
        }
        i = i + 1;
    }
    while worklist.len() > 0
        invariant
            h == old(heap)@,
            h.layout_wf(),
            edge == h.edge(),
            heap@.layout_wf(),
            heap@.same_but_colors(h),
            forall|id: ObjectId| #[trigger] heap@.marked(id) ==> reachable(edge, roots@, id),
            forall|id: ObjectId| #[trigger] worklist@.contains(id) ==> heap@.marked(id),
            forall|j: int| 0 <= j < roots@.len() ==> heap@.marked(#[trigger] roots@[j]),
            // A marked object is grey, or all of its references are marked.
            forall|a: ObjectId, b: ObjectId|
                heap@.marked(a) && !worklist@.contains(a) && #[trigger] edge(a, b) ==> heap@.marked(
                    b,
                ),
        decreases heap@.unmarked_count() + worklist@.len(),
    {
        let ghost g = heap@;
        let ghost listed = worklist@;
        let id: ObjectId = worklist.pop().unwrap();
        let ghost rest = worklist@;
        proof {
            lemma_contains_drop_last(listed);
            lemma_same_edges(g, h);
            assert(g.marked(id));
            assert forall|x: ObjectId| #[trigger] rest.contains(x) implies g.marked(x) by {
                assert(listed.contains(x));
            }
        }
        let refs: Vec<ObjectId> = heap.references_of(id);
        let mut j: usize = 0;
        while j < refs.len()
            invariant
                j <= refs@.len(),
                h == old(heap)@,
                h.layout_wf(),
                edge == h.edge(),
                h.is_object(id),
                refs@ == h.references(id),
                reachable(edge, roots@, id),
                heap@.layout_wf(),
                heap@.same_but_colors(h),
                forall|x: ObjectId| #[trigger] heap@.marked(x) ==> reachable(edge, roots@, x),
                forall|x: ObjectId| #[trigger] g.marked(x) ==> heap@.marked(x),
                forall|x: ObjectId| #[trigger] worklist@.contains(x) ==> heap@.marked(x),
                forall|x: ObjectId| #[trigger] rest.contains(x) ==> worklist@.contains(x),
                forall|x: ObjectId| #[trigger]
                    heap@.marked(x) && !g.marked(x) ==> worklist@.contains(x),
                forall|k: int| 0 <= k < j ==> heap@.marked(#[trigger] refs@[k]),
                heap@.unmarked_count() + worklist@.len() == g.unmarked_count() + rest.len(),
            decreases refs@.len() - j,
        {
            let child = refs[j];
            let ghost before = heap@;
            proof {
                assert(h.references(id)[j as int] == child);
                assert(edge(id, child));
                lemma_reach_step(edge, roots@, id, child);
            }
            if !shade(worklist, heap, child) {
                proof {
                    lemma_recolor_trans(heap@, before, h);
                    assert(!h.is_object(child));
                }
                return false;
            }
            proof {
                lemma_recolor_trans(heap@, before, h);
            }
            j = j + 1;
        }
        let mut header = heap.header_of(id);
        header.color = GcColor::Black;
        let ghost before = heap@;
        proof {
            assert(before.marked(id));
            lemma_recolored(before, h, id, GcColor::Black);
        }
        heap.set_header(id, header);
        proof {
            assert forall|x: ObjectId| #[trigger] heap@.marked(x) == before.marked(x) by {}
            lemma_count_outside_same(before.marks(), heap@.marks(), h.memory.len());
            assert forall|a: ObjectId, b: ObjectId|
                heap@.marked(a) && !worklist@.contains(a) && #[trigger] edge(
                    a,
                    b,
                ) implies heap@.marked(b) by {
                if a == id {
                    let k = choose|k: int| 0 <= k < refs@.len() && refs@[k] == b;
                    assert(before.marked(refs@[k]));
                } else {
                    assert(g.marked(a));
                    assert(!listed.contains(a));
                    assert(g.marked(b));
                }
            }
        }
    }
    proof {
        let inside = heap@.marks();
        assert forall|x: ObjectId| roots@.contains(x) implies inside(x) by {
            let k = choose|k: int| 0 <= k < roots@.len() && roots@[k] == x;
            assert(heap@.marked(roots@[k]));
        }
        assert forall|a: ObjectId, b: ObjectId| inside(a) && #[trigger] edge(a, b) implies inside(
            b,
        ) by {
            assert(!worklist@.contains(a));
        }
        lemma_reach_closed(edge, roots@, inside);
        assert forall|id: ObjectId| #[trigger] reachable(edge, roots@, id) implies h.is_object(
            id,
        ) by {
            assert(inside(id));
        }
    }
    true
}

/// Differing in the colours alone is transitive.
proof fn lemma_recolor_trans(f: HeapState, g: HeapState, h: HeapState)
    requires
        f.same_but_colors(g),
        g.same_but_colors(h),
    ensures
        f.same_but_colors(h),
{
    lemma_same_but_headers_trans(f, g, h);
    assert forall|j: int|
        #![trigger f.objects[j]]
        0 <= j < f.objects.len() implies f.header(f.objects[j]) == (ObjectHeader {
        color: f.header(f.objects[j]).color,
        ..h.header(h.objects[j])
    }) by {
        assert(f.objects[j] == g.objects[j]);
    }
}

/// Settling a marked heap ends a collection. Settling without freeing anything undoes the marking.
pub proof fn lemma_settled(
    h: HeapState,
    g: HeapState,
    f: HeapState,
    free: bool,
    roots: Seq<ObjectId>,
)
    requires
        h.wf(),
        g.layout_wf(),
        f.layout_wf(),
        g.same_but_colors(h),
        f.same_but_headers(g),
        free ==> forall|id: ObjectId| #[trigger]
            g.marked(id) == reachable(h.edge(), roots, id),
        forall|i: int|
            #![trigger g.objects[i]]
            0 <= i < g.objects.len() ==> f.header(g.objects[i]) == HeapState::settled(
                g.header(g.objects[i]),
                free && g.header(g.objects[i]).color == GcColor::White,
            ),
    ensures
        f.wf(),
        free ==> is_collected(h, f, roots),
        !free ==> f == h,
{
    lemma_same_but_headers_trans(f, g, h);
    assert forall|i: int| 0 <= i < f.objects.len() implies (#[trigger] f.header(
        f.objects[i],
    )).color == GcColor::White by {
        assert(f.objects[i] == g.objects[i]);
    }
    assert forall|i: int|
        #![trigger h.objects[i]]
        0 <= i < h.objects.len() implies f.header(h.objects[i]) == if free && !reachable(
        h.edge(),
        roots,
        h.objects[i],
    ) {
        ObjectHeader { refs_count: 0, ..h.header(h.objects[i]) }
    } else {
        h.header(h.objects[i])
    } by {
        let o = h.objects[i];
        assert(g.objects[i] == o);
        assert(h.header(h.objects[i]).color == GcColor::White);
        assert(g.is_object(o));
        if free {
            assert(g.marked(o) == reachable(h.edge(), roots, o));
        }
    }
    if !free {
        lemma_same_headers_same_heap(f, h);
    }
}

} // verus!
