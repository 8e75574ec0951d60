//! How much memory a runtime takes in which objects of all classes live together.

use crate::datastruct::{ManagedObject, ObjectId, TypePtr, PAGE_SIZE};
use crate::laws_allocation::{
    law_grow_adds_free_blocks, law_served_takes_one_free_block, lemma_served,
};
use crate::laws_footprint::{
    count_inside, larger, lemma_count_mono, lemma_count_none, lemma_count_span, lemma_rounding,
    lemma_spans_for, lemma_spans_for_mono, spans_for,
};
use crate::laws_pool::runtime_wf;
use crate::laws_reuse::{law_grows_only_when_class_is_full, nothing_lost};
use crate::laws_workload::{class_count, law_mixed_distribution, law_run, lemma_step};
use crate::managed_heap::{HeapState, SpanId};
use crate::mcache::{exhausted, provided, served, source, target};
use crate::mspan::{MSpan, MSpanSizeClass};
use crate::reach::{lemma_count_outside_insert, lemma_count_outside_same};
use crate::workload::{is_filled, run, step, Snapshot, Workload};
use vstd::prelude::*;

verus! {

/// The blocks of the class.
pub open spec fn blocks_of(h: HeapState, c: MSpanSizeClass) -> spec_fn(ObjectId) -> bool {
    |id: ObjectId| h.is_block(id) && h.home(id).size_class == c
}

/// The taken blocks of the class.
pub open spec fn taken_of(h: HeapState, c: MSpanSizeClass) -> spec_fn(ObjectId) -> bool {
    |id: ObjectId| h.allocated(id) && h.home(id).size_class == c
}

/// Number of taken blocks of the class.
pub open spec fn class_taken(h: HeapState, c: MSpanSizeClass) -> int {
    count_inside(taken_of(h, c), h.memory.len())
}

/// Number of spans of the class in a list.
pub open spec fn count_spans(spans: Seq<MSpan>, c: MSpanSizeClass) -> nat
    decreases spans.len(),
{
    if spans.len() == 0 {
        0
    } else {
        count_spans(spans.drop_last(), c) + if spans.last().size_class == c {
            1nat
        } else {
            0nat
        }
    }
}

/// Number of spans of the class.
pub open spec fn class_spans(h: HeapState, c: MSpanSizeClass) -> int {
    count_spans(h.spans, c) as int
}

/// Number of bytes of all spans, given the number of spans of each class.
pub open spec fn bytes_of_spans(spans: spec_fn(MSpanSizeClass) -> int) -> int {
    PAGE_SIZE * (spans(MSpanSizeClass::B64) + spans(MSpanSizeClass::B128) + spans(
        MSpanSizeClass::B256,
    ) + spans(MSpanSizeClass::B512) + 3 * spans(MSpanSizeClass::B3072))
}

/// Whether the spans lie behind the first page without gaps, and the blocks of each class are those of
/// its spans.
pub open spec fn tiled(h: HeapState) -> bool {
    &&& h.next_page_offset == PAGE_SIZE + bytes_of_spans(|c: MSpanSizeClass| class_spans(h, c))
    &&& forall|c: MSpanSizeClass|
        count_inside(#[trigger] blocks_of(h, c), h.memory.len()) == class_spans(h, c)
            * c.blocks_per_span()
}

/// A heap without spans is tiled, and no block of any class is taken.
pub proof fn law_new_heap_is_tiled(h: HeapState)
    requires
        h.wf(),
        h.spans.len() == 0,
        h.next_page_offset == PAGE_SIZE,
    ensures
        tiled(h),
        forall|c: MSpanSizeClass| #[trigger] class_taken(h, c) == 0,
        forall|c: MSpanSizeClass| #[trigger] class_spans(h, c) == 0,
{
    assert forall|id: ObjectId| !#[trigger] h.is_block(id) by {
        if h.is_block(id) {
            h.lemma_block_bounds(id);
        }
    }
    assert forall|c: MSpanSizeClass|
        #![trigger blocks_of(h, c)]
        #![trigger class_taken(h, c)]
        count_inside(blocks_of(h, c), h.memory.len()) == 0 && class_taken(h, c) == 0 by {
        assert forall|id: ObjectId| !#[trigger] blocks_of(h, c)(id) by {
            assert(!h.is_block(id));
        }
        assert forall|id: ObjectId| !#[trigger] taken_of(h, c)(id) by {
            assert(!h.is_block(id));
        }
        lemma_count_none(blocks_of(h, c), h.memory.len());
        lemma_count_none(taken_of(h, c), h.memory.len());
    }
    assert forall|c: MSpanSizeClass|
        count_inside(#[trigger] blocks_of(h, c), h.memory.len()) == class_spans(h, c)
            * c.blocks_per_span() by {
        assert(0 * c.blocks_per_span() == 0);
    }
}

/// Lists of spans with the same classes count alike.
proof fn lemma_count_spans_same(v: Seq<MSpan>, w: Seq<MSpan>, c: MSpanSizeClass)
    requires
        v.len() == w.len(),
        forall|i: int| 0 <= i < v.len() ==> (#[trigger] v[i]).size_class == w[i].size_class,
    ensures
        count_spans(v, c) == count_spans(w, c),
    decreases v.len(),
{
    if v.len() > 0 {
        assert forall|i: int| 0 <= i < v.drop_last().len() implies (#[trigger]
        v.drop_last()[i]).size_class == w.drop_last()[i].size_class by {
            assert(v[i].size_class == w[i].size_class);
        }
        lemma_count_spans_same(v.drop_last(), w.drop_last(), c);
        assert(v[v.len() - 1].size_class == w[w.len() - 1].size_class);
    }
}

/// No more blocks of a class are taken than its spans have.
proof fn lemma_class_taken_bounds(h: HeapState, c: MSpanSizeClass)
    requires
        tiled(h),
    ensures
        0 <= class_taken(h, c) <= class_spans(h, c) * c.blocks_per_span(),
{
    let n = h.memory.len();
    let none = |x: ObjectId| false;
    lemma_count_none(none, n);
    lemma_count_mono(none, taken_of(h, c), n);
    assert forall|x: ObjectId| #[trigger] taken_of(h, c)(x) implies blocks_of(h, c)(x) by {}
    lemma_count_mono(taken_of(h, c), blocks_of(h, c), n);
}

/// If no span of the class is at hand, every block of the class is taken.
proof fn lemma_class_full(s: Snapshot, c: MSpanSizeClass)
    requires
        runtime_wf(s.0, s.2, seq![s.1]),
        nothing_lost(s.0, s.2, seq![s.1]),
        tiled(s.0),
        source(s.1, s.2, c) is None,
    ensures
        class_taken(s.0, c) == class_spans(s.0, c) * c.blocks_per_span(),
{
    let h = s.0;
    let v = blocks_of(h, c);
    let w = taken_of(h, c);
    assert forall|id: ObjectId| id.0 < h.memory.len() implies #[trigger] w(id) == v(id) by {
        if h.is_block(id) && h.home(id).size_class == c {
            law_grows_only_when_class_is_full(h, s.2, seq![s.1], 0, c, id);
        }
    }
    lemma_count_outside_same(v, w, h.memory.len());
}

/// Cutting a span adds its blocks to those of its class, and to no others.
proof fn lemma_grow_class_blocks(h: HeapState, size_class: MSpanSizeClass, c: MSpanSizeClass)
    requires
        h.wf(),
        h.spans.len() < usize::MAX,
        h.next_page_offset + size_class.span_bytes() <= h.memory.len(),
    ensures
        ({
            let g = h.with_span(
                MSpan::fresh(size_class, ObjectId(h.next_page_offset as usize)),
            );
            let n = h.memory.len();
            count_inside(blocks_of(g, c), n) == count_inside(blocks_of(h, c), n) + if c
                == size_class {
                c.blocks_per_span()
            } else {
                0
            }
        }),
{
    let start = ObjectId(h.next_page_offset as usize);
    let span = MSpan::fresh(size_class, start);
    let g = h.with_span(span);
    let new = SpanId(h.spans.len() as usize);
    let n = h.memory.len();
    let k = span.total_blocks as int;
    MSpan::lemma_fresh(size_class, start);
    span.lemma_wf_in_range();
    law_grow_adds_free_blocks(h, size_class);
    let v = blocks_of(h, c);
    let w = blocks_of(g, c);
    // The blocks of the new span belong to it.
    assert forall|id: ObjectId| #[trigger] span.is_block(id) implies g.home(id) == span by {
        span.lemma_is_block(id);
        span.lemma_block_end(span.index_of(id));
        let p = id.0 as int / PAGE_SIZE as int;
        assert(p * PAGE_SIZE <= id.0 < p * PAGE_SIZE + PAGE_SIZE);
        assert(g.covers(new, p));
        assert(g.span_of(id) == Some(new));
    }
    assert forall|id: ObjectId| #[trigger] w(id) == (v(id) || c == size_class && span.is_block(
        id,
    )) by {
        assert(g.is_block(id) == (h.is_block(id) || span.is_block(id)));
        if span.is_block(id) {
            assert(!h.is_block(id));
            assert(g.home(id) == span);
        } else if h.is_block(id) {
            assert(g.home(id) == h.home(id));
        }
    }
    if c == size_class {
        assert forall|id: ObjectId| span.is_block(id) implies !#[trigger] v(id) by {
            assert(!h.is_block(id));
        }
        lemma_count_span(v, n, span, k);
        let grown = |id: ObjectId| v(id) || span.is_block(id) && span.index_of(id) < k;
        assert forall|id: ObjectId| id.0 < n implies #[trigger] w(id) == grown(id) by {
            if span.is_block(id) {
                span.lemma_is_block(id);
            }
        }
        lemma_count_outside_same(grown, w, n);
    } else {
        assert forall|id: ObjectId| id.0 < n implies #[trigger] w(id) == v(id) by {}
        lemma_count_outside_same(v, w, n);
    }
}

/// What one more request does to the counts of a class.
proof fn lemma_mixed_step(
    before: Snapshot,
    size_class: MSpanSizeClass,
    ty: TypePtr,
    fill: u8,
    id: ObjectId,
    after: Snapshot,
)
    requires
        runtime_wf(before.0, before.2, seq![before.1]),
        nothing_lost(before.0, before.2, seq![before.1]),
        tiled(before.0),
        step(before, size_class, ty, fill, id, after),
    ensures
        tiled(after.0),
        forall|c: MSpanSizeClass| #[trigger]
            class_taken(after.0, c) == class_taken(before.0, c) + if c == size_class {
                1int
            } else {
                0
            },
        forall|c: MSpanSizeClass| #[trigger]
            class_spans(after.0, c) == if c == size_class {
                larger(class_spans(before.0, c), spans_for(c, class_taken(before.0, c) + 1))
            } else {
                class_spans(before.0, c)
            },
{
    let (h, cache, central) = before;
    let h2 = after.0;
    let n = h.memory.len();
    let g = provided(h, cache, central, size_class);
    let s = target(h, cache, central, size_class);
    let p = g.with_span_at(s, h2.span(s));
    let grown = source(cache, central, size_class) is None;
    let obj = choose|obj: ManagedObject|
        is_filled(obj, size_class, ty, fill) && #[trigger] served(
            before,
            size_class,
            obj,
            id,
            after,
        );
    lemma_step(before, size_class, ty, fill, id, after);
    lemma_served(before, size_class, obj, id, after);
    law_served_takes_one_free_block(before, size_class, obj, id, after);
    h2.lemma_block_bounds(id);
    // No span changes its class, and no block changes its span.
    assert forall|i: int| 0 <= i < h2.spans.len() implies (#[trigger] h2.spans[i]).size_class
        == g.spans[i].size_class by {
        if i == s.0 {
            assert(h2.span(s).same_shape(&g.span(s)));
        }
    }
    assert forall|x: ObjectId|
        #![trigger h2.is_block(x)]
        h2.is_block(x) == g.is_block(x) && (g.is_block(x) ==> h2.home(x).size_class == g.home(
            x,
        ).size_class) by {
        assert(h2.span_of(x) == p.span_of(x));
        assert(p.is_block(x) == g.is_block(x));
        assert(h2.is_block(x) == p.is_block(x));
        if g.is_block(x) {
            g.lemma_block_bounds(x);
            let i = g.owner(x).0 as int;
            assert(h2.spans[i].size_class == g.spans[i].size_class);
        }
    }
    if grown {
        assert(h2.spans.len() == h.spans.len() + 1);
        law_grow_adds_free_blocks(h, size_class);
        lemma_class_full(before, size_class);
    }
    assert forall|x: ObjectId| h.is_block(x) implies #[trigger] g.home(x) == h.home(x) by {}
    assert forall|c: MSpanSizeClass|
        #![trigger class_taken(h2, c)]
        #![trigger class_spans(h2, c)]
        #![trigger blocks_of(h2, c)]
        {
            &&& class_taken(h2, c) == class_taken(h, c) + if c == size_class {
                1int
            } else {
                0
            }
            &&& class_spans(h2, c) == class_spans(h, c) + if grown && c == size_class {
                1int
            } else {
                0
            }
            &&& count_inside(blocks_of(h2, c), n) == class_spans(h2, c) * c.blocks_per_span()
        } by {
        // The spans.
        lemma_count_spans_same(h2.spans, g.spans, c);
        if grown {
            assert(g.spans.drop_last() =~= h.spans);
            assert(g.spans.last().size_class == size_class);
        }
        // The taken blocks.
        let v = taken_of(h, c);
        let w = taken_of(h2, c);
        assert forall|x: ObjectId| #[trigger] w(x) == (v(x) || c == size_class && x == id) by {
            assert(h2.allocated(x) == (h.allocated(x) || x == id));
            if h.allocated(x) {
                assert(h.is_block(x));
                assert(h2.is_block(x));
                assert(g.home(x) == h.home(x));
            }
        }
        if c == size_class {
            lemma_count_outside_insert(v, w, id, n);
        } else {
            assert forall|x: ObjectId| x.0 < n implies #[trigger] w(x) == v(x) by {}
            lemma_count_outside_same(v, w, n);
        }
        // The blocks.
        let b = blocks_of(g, c);
        let b2 = blocks_of(h2, c);
        assert forall|x: ObjectId| x.0 < n implies #[trigger] b2(x) == b(x) by {
            assert(h2.is_block(x) == g.is_block(x));
        }
        lemma_count_outside_same(b, b2, n);
        assert(count_inside(blocks_of(h, c), n) == class_spans(h, c) * c.blocks_per_span());
        if grown {
            lemma_grow_class_blocks(h, size_class, c);
        }
        let k = class_spans(h, c);
        let per = c.blocks_per_span();
        assert((k + 1) * per == k * per + per) by (nonlinear_arith);
    }
    // The pages.
    let f = |c: MSpanSizeClass| class_spans(h, c);
    let f2 = |c: MSpanSizeClass| class_spans(h2, c);
    assert(f2(MSpanSizeClass::B64) == class_spans(h2, MSpanSizeClass::B64));
    assert(f2(MSpanSizeClass::B128) == class_spans(h2, MSpanSizeClass::B128));
    assert(f2(MSpanSizeClass::B256) == class_spans(h2, MSpanSizeClass::B256));
    assert(f2(MSpanSizeClass::B512) == class_spans(h2, MSpanSizeClass::B512));
    assert(f2(MSpanSizeClass::B3072) == class_spans(h2, MSpanSizeClass::B3072));
    assert(tiled(h2));
    // How many spans that is.
    assert forall|c: MSpanSizeClass| #[trigger]
        class_spans(h2, c) == if c == size_class {
            larger(class_spans(h, c), spans_for(c, class_taken(h, c) + 1))
        } else {
            class_spans(h, c)
        } by {
        if c == size_class {
            lemma_class_taken_bounds(h, c);
            lemma_class_taken_bounds(h2, c);
            assert(class_taken(h2, c) == class_taken(h, c) + 1);
            lemma_spans_for(c, class_spans(h2, c), class_taken(h, c) + 1);
            lemma_spans_for(c, class_spans(h, c), class_taken(h, c) + 1);
        }
    }
}

/// A run of requests takes, of each class, as many blocks as it asks for, and memory grows only as far
/// as the taken blocks of each class need it.
#[verifier::rlimit(30)]
pub proof fn law_mixed_run_footprint(
    before: Snapshot,
    workload: Workload,
    types: Seq<TypePtr>,
    fill: u8,
    ids: Seq<ObjectId>,
    after: Snapshot,
)
    requires
        runtime_wf(before.0, before.2, seq![before.1]),
        nothing_lost(before.0, before.2, seq![before.1]),
        tiled(before.0),
        run(before, workload, types, fill, ids, after),
    ensures
        tiled(after.0),
        forall|c: MSpanSizeClass| #[trigger]
            class_taken(after.0, c) == class_taken(before.0, c) + class_count(
                workload,
                0,
                ids.len(),
                c,
            ),
        forall|c: MSpanSizeClass| #[trigger]
            class_spans(after.0, c) == larger(
                class_spans(before.0, c),
                spans_for(c, class_taken(before.0, c) + class_count(workload, 0, ids.len(), c)),
            ),
    decreases ids.len(),
{
    if ids.len() == 0 {
        assert forall|c: MSpanSizeClass| #[trigger]
            class_spans(after.0, c) == larger(
                class_spans(before.0, c),
                spans_for(c, class_taken(before.0, c) + class_count(workload, 0, 0, c)),
            ) by {
            lemma_class_taken_bounds(before.0, c);
            lemma_spans_for(c, class_spans(before.0, c), class_taken(before.0, c));
        }
    } else {
        let n = (ids.len() - 1) as nat;
        let size_class = workload.class(n as int);
        let ty = types[size_class.to_index() as int];
        let rest = ids.drop_last();
        let mid = choose|mid: Snapshot|
            run(before, workload, types, fill, rest, mid) && #[trigger] step(
                mid,
                size_class,
                ty,
                fill,
                ids.last(),
                after,
            );
        law_mixed_run_footprint(before, workload, types, fill, rest, mid);
        law_run(before, workload, types, fill, rest, mid);
        lemma_mixed_step(mid, size_class, ty, fill, ids.last(), after);
        assert forall|c: MSpanSizeClass|
            #![trigger class_taken(after.0, c)]
            #![trigger class_spans(after.0, c)]
            {
                let t = class_taken(before.0, c) + class_count(workload, 0, ids.len(), c);
                &&& class_taken(after.0, c) == t
                &&& class_spans(after.0, c) == larger(
                    class_spans(before.0, c),
                    spans_for(c, t),
                )
            } by {
            let t = class_taken(before.0, c) + class_count(workload, 0, n, c);
            assert(class_taken(mid.0, c) == t);
            assert(class_spans(mid.0, c) == larger(
                class_spans(before.0, c),
                spans_for(c, t),
            ));
            lemma_class_taken_bounds(mid.0, c);
            lemma_one_more(c, class_spans(before.0, c), t);
        }
    }
}

/// Room for one more block is room for the blocks before it.
proof fn lemma_one_more(c: MSpanSizeClass, spans: int, taken: int)
    requires
        0 <= taken,
    ensures
        larger(larger(spans, spans_for(c, taken)), spans_for(c, taken + 1)) == larger(
            spans,
            spans_for(c, taken + 1),
        ),
{
    lemma_spans_for_mono(c, taken, taken + 1);
}

/// More requests ask at least as often for a class.
proof fn lemma_class_count_mono(workload: Workload, m: nat, n: nat, c: MSpanSizeClass)
    requires
        m <= n,
    ensures
        class_count(workload, 0, m, c) <= class_count(workload, 0, n, c),
    decreases n,
{
    if m < n {
        lemma_class_count_mono(workload, m, (n - 1) as nat, c);
    }
}

/// Number of spans of each class that a run of `n` requests needs on a heap without objects.
pub open spec fn run_spans(workload: Workload, n: nat) -> spec_fn(MSpanSizeClass) -> int {
    |c: MSpanSizeClass| spans_for(c, class_count(workload, 0, n, c) as int)
}

/// A run of `n` requests on a heap without objects fails only if the heap cannot hold the spans that
/// its blocks need.
pub proof fn law_mixed_run_fails_for_lack_of_room(
    before: Snapshot,
    workload: Workload,
    types: Seq<TypePtr>,
    fill: u8,
    ids: Seq<ObjectId>,
    after: Snapshot,
    n: nat,
)
    requires
        runtime_wf(before.0, before.2, seq![before.1]),
        before.0.spans.len() == 0,
        before.0.next_page_offset == PAGE_SIZE,
        run(before, workload, types, fill, ids, after),
        exhausted(after.0, after.1, after.2, workload.class(ids.len() as int)),
        ids.len() < n,
    ensures
        PAGE_SIZE + bytes_of_spans(run_spans(workload, n)) > before.0.memory.len(),
{
    let h = before.0;
    let m = ids.len();
    let k = workload.class(m as int);
    law_new_heap_is_tiled(h);
    law_mixed_run_footprint(before, workload, types, fill, ids, after);
    law_run(before, workload, types, fill, ids, after);
    lemma_class_full(after, k);
    let f = |c: MSpanSizeClass| class_spans(after.0, c);
    let needed = run_spans(workload, n);
    assert forall|c: MSpanSizeClass| #[trigger] needed(c) >= class_spans(after.0, c) + if c == k {
        1int
    } else {
        0
    } by {
        let t = class_count(workload, 0, m, c) as int;
        assert(class_taken(h, c) == 0);
        assert(class_spans(h, c) == 0);
        assert(class_taken(after.0, c) == t);
        lemma_class_count_mono(workload, m + 1, n, c);
        assert(class_count(workload, 0, m + 1, c) == t + if c == k {
            1int
        } else {
            0
        });
        lemma_spans_for(c, 0, t);
        lemma_spans_for_mono(c, t, class_count(workload, 0, n, c) as int);
        if c == k {
            lemma_spans_for(c, class_spans(after.0, c), t + 1);
            lemma_spans_for_mono(c, t + 1, class_count(workload, 0, n, c) as int);
        }
    }
    assert(needed(MSpanSizeClass::B64) >= f(MSpanSizeClass::B64));
    assert(needed(MSpanSizeClass::B128) >= f(MSpanSizeClass::B128));
    assert(needed(MSpanSizeClass::B256) >= f(MSpanSizeClass::B256));
    assert(needed(MSpanSizeClass::B512) >= f(MSpanSizeClass::B512));
    assert(needed(MSpanSizeClass::B3072) >= f(MSpanSizeClass::B3072));
}

/// How often `k` times thirty mixed requests ask for each class.
proof fn lemma_mixed_counts(k: nat)
    ensures
        class_count(Workload::Mixed, 0, 30 * k, MSpanSizeClass::B64) == 18 * k,
        class_count(Workload::Mixed, 0, 30 * k, MSpanSizeClass::B128) == 0,
        class_count(Workload::Mixed, 0, 30 * k, MSpanSizeClass::B256) == 0,
        class_count(Workload::Mixed, 0, 30 * k, MSpanSizeClass::B512) == 9 * k,
        class_count(Workload::Mixed, 0, 30 * k, MSpanSizeClass::B3072) == 3 * k,
    decreases k,
{
    lemma_never_asked(30 * k, MSpanSizeClass::B128);
    lemma_never_asked(30 * k, MSpanSizeClass::B256);
    if k > 0 {
        let m = (30 * (k - 1)) as nat;
        lemma_mixed_counts((k - 1) as nat);
        law_mixed_distribution(m as int);
        lemma_class_count_split(Workload::Mixed, m, 30, MSpanSizeClass::B64);
        lemma_class_count_split(Workload::Mixed, m, 30, MSpanSizeClass::B512);
        lemma_class_count_split(Workload::Mixed, m, 30, MSpanSizeClass::B3072);
    }
}

/// Mixed requests never ask for the other two classes.
proof fn lemma_never_asked(n: nat, c: MSpanSizeClass)
    requires
        c == MSpanSizeClass::B128 || c == MSpanSizeClass::B256,
    ensures
        class_count(Workload::Mixed, 0, n, c) == 0,
    decreases n,
{
    if n > 0 {
        lemma_never_asked((n - 1) as nat, c);
    }
}

/// Requests are counted piece by piece.
proof fn lemma_class_count_split(workload: Workload, m: nat, n: nat, c: MSpanSizeClass)
    ensures
        class_count(workload, 0, m + n, c) == class_count(workload, 0, m, c) + class_count(
            workload,
            m as int,
            n,
            c,
        ),
    decreases n,
{
    if n > 0 {
        lemma_class_count_split(workload, m, (n - 1) as nat, c);
        assert((m + n - 1) as nat == m + (n - 1) as nat);
    }
}

/// A heap without objects has room for any `n` mixed requests if it has 14976 bytes for every thirty of
/// them and 24576 bytes to spare.
pub proof fn law_mixed_run_has_room(n: nat, k: nat, heap_size: int)
    requires
        n <= 30 * k,
        14976 * k + 24576 <= heap_size,
    ensures
        PAGE_SIZE + bytes_of_spans(run_spans(Workload::Mixed, n)) <= heap_size,
{
    let needed = run_spans(Workload::Mixed, n);
    lemma_mixed_counts(k);
    assert forall|c: MSpanSizeClass| #[trigger] needed(c) <= spans_for(
        c,
        class_count(Workload::Mixed, 0, 30 * k, c) as int,
    ) by {
        lemma_class_count_mono(Workload::Mixed, n, 30 * k, c);
        lemma_spans_for_mono(
            c,
            class_count(Workload::Mixed, 0, n, c) as int,
            class_count(Workload::Mixed, 0, 30 * k, c) as int,
        );
    }
    let small = spans_for(MSpanSizeClass::B64, (18 * k) as int);
    let medium = spans_for(MSpanSizeClass::B512, (9 * k) as int);
    let large = spans_for(MSpanSizeClass::B3072, (3 * k) as int);
    lemma_rounding(MSpanSizeClass::B64, (18 * k) as int);
    lemma_rounding(MSpanSizeClass::B512, (9 * k) as int);
    lemma_rounding(MSpanSizeClass::B3072, (3 * k) as int);
    assert(small * 4096 <= 18 * k * 64 + 4096);
    assert(medium * 4096 <= 9 * k * 512 + 4096);
    assert(large * 12288 <= 3 * k * 3072 + 12288);
    lemma_spans_for(MSpanSizeClass::B128, 0, 0);
    lemma_spans_for(MSpanSizeClass::B256, 0, 0);
    assert(needed(MSpanSizeClass::B64) <= small);
    assert(needed(MSpanSizeClass::B128) <= 0);
    assert(needed(MSpanSizeClass::B256) <= 0);
    assert(needed(MSpanSizeClass::B512) <= medium);
    assert(needed(MSpanSizeClass::B3072) <= large);
}

} // verus!
