//! How much memory a runtime takes in which all objects are of one class.

use crate::datastruct::{ObjectId, TypePtr, PAGE_SIZE};
use crate::laws_allocation::law_grow_adds_free_blocks;
use crate::laws_pool::runtime_wf;
use crate::laws_reuse::{law_grows_only_when_class_is_full, nothing_lost};
use crate::laws_workload::{law_run, lemma_step};
use crate::managed_heap::{HeapState, SpanId};
use crate::mcache::{exhausted, source, target};
use crate::mspan::{MSpan, MSpanSizeClass};
use crate::reach::{
    count_outside, lemma_count_outside_insert, lemma_count_outside_same,
};
use crate::workload::{class_heap_bytes, pause_heap_bytes, run, step, Snapshot, Workload};
use vstd::prelude::*;

verus! {

/// How many of the first `n` offsets are in `inside`.
pub open spec fn count_inside(inside: spec_fn(ObjectId) -> bool, n: nat) -> int {
    n - count_outside(inside, n)
}

/// Number of blocks of the heap.
pub open spec fn block_count(h: HeapState) -> int {
    count_inside(|id: ObjectId| h.is_block(id), h.memory.len())
}

/// Number of blocks of the heap that are taken.
pub open spec fn taken_count(h: HeapState) -> int {
    count_inside(|id: ObjectId| h.allocated(id), h.memory.len())
}

/// Number of spans that `blocks` blocks of the class need.
pub open spec fn spans_for(size_class: MSpanSizeClass, blocks: int) -> int {
    (blocks + size_class.blocks_per_span() - 1) / size_class.blocks_per_span()
}

/// The larger of two numbers.
pub open spec fn larger(a: int, b: int) -> int {
    if a < b {
        b
    } else {
        a
    }
}

/// Whether all spans are of one class, with no gaps between them.
pub open spec fn uniform(h: HeapState, size_class: MSpanSizeClass) -> bool {
    &&& forall|s: SpanId| s.0 < h.spans.len() ==> #[trigger] h.span(s).size_class == size_class
    &&& h.next_page_offset == PAGE_SIZE + h.spans.len() * size_class.span_bytes()
    &&& block_count(h) == h.spans.len() * size_class.blocks_per_span()
}

/// A set without members counts nothing.
pub proof fn lemma_count_none(inside: spec_fn(ObjectId) -> bool, n: nat)
    requires
        forall|x: ObjectId| !#[trigger] inside(x),
    ensures
        count_inside(inside, n) == 0,
    decreases n,
{
    if n > 0 {
        lemma_count_none(inside, (n - 1) as nat);
        assert(!inside(ObjectId((n - 1) as usize)));
    }
}

/// A larger set counts at least as much.
pub proof fn lemma_count_mono(
    v: spec_fn(ObjectId) -> bool,
    w: spec_fn(ObjectId) -> bool,
    n: nat,
)
    requires
        forall|x: ObjectId| #[trigger] v(x) ==> w(x),
    ensures
        count_inside(v, n) <= count_inside(w, n),
    decreases n,
{
    if n > 0 {
        lemma_count_mono(v, w, (n - 1) as nat);
        assert(v(ObjectId((n - 1) as usize)) ==> w(ObjectId((n - 1) as usize)));
    }
}

/// A list without repetitions counts as much as it is long.
pub proof fn lemma_count_list(ids: Seq<ObjectId>, n: nat)
    requires
        n <= usize::MAX,
        ids.no_duplicates(),
        forall|k: int| 0 <= k < ids.len() ==> (#[trigger] ids[k]).0 < n,
    ensures
        count_inside(|x: ObjectId| ids.contains(x), n) == ids.len(),
    decreases ids.len(),
{
    let all = |x: ObjectId| ids.contains(x);
    if ids.len() == 0 {
        lemma_count_none(all, n);
    } else {
        let rest = ids.drop_last();
        let id = ids.last();
        let some = |x: ObjectId| rest.contains(x);
        assert forall|k: int| 0 <= k < rest.len() implies (#[trigger] rest[k]).0 < n by {
            assert(ids[k].0 < n);
        }
        lemma_count_list(rest, n);
        assert forall|x: ObjectId| #[trigger] all(x) == (some(x) || x == id) by {
            crate::garbage_collector::lemma_contains_push(rest, id, x);
            assert(rest.push(id) =~= ids);
        }
        assert(!some(id)) by {
            if rest.contains(id) {
                let k = choose|k: int| 0 <= k < rest.len() && rest[k] == id;
                assert(ids[k] == ids[ids.len() - 1]);
            }
        }
        assert(ids[ids.len() - 1].0 < n);
        lemma_count_outside_insert(some, all, id, n);
    }
}

/// A heap without blocks has none taken.
pub proof fn lemma_no_blocks(h: HeapState)
    requires
        forall|id: ObjectId| !#[trigger] h.is_block(id),
    ensures
        block_count(h) == 0,
        taken_count(h) == 0,
{
    lemma_count_none(|id: ObjectId| h.is_block(id), h.memory.len());
    let taken = |id: ObjectId| h.allocated(id);
    assert forall|id: ObjectId| !#[trigger] taken(id) by {
        assert(!h.is_block(id));
    }
    lemma_count_none(taken, h.memory.len());
}

/// If the blocks of a list are taken and no others, as many are taken as the list is long.
pub proof fn lemma_taken_list(h: HeapState, ids: Seq<ObjectId>)
    requires
        h.memory.len() <= isize::MAX,
        ids.no_duplicates(),
        forall|k: int| 0 <= k < ids.len() ==> (#[trigger] ids[k]).0 < h.memory.len(),
        forall|id: ObjectId| #[trigger] h.allocated(id) == ids.contains(id),
    ensures
        taken_count(h) == ids.len(),
{
    let v = |id: ObjectId| ids.contains(id);
    let w = |id: ObjectId| h.allocated(id);
    assert forall|id: ObjectId| id.0 < h.memory.len() implies #[trigger] w(id) == v(id) by {
        assert(h.allocated(id) == ids.contains(id));
    }
    lemma_count_outside_same(v, w, h.memory.len());
    lemma_count_list(ids, h.memory.len());
}

/// No more blocks are taken than there are.
pub proof fn law_taken_at_most_blocks(h: HeapState)
    ensures
        taken_count(h) <= block_count(h),
{
    lemma_count_mono(
        |id: ObjectId| h.allocated(id),
        |id: ObjectId| h.is_block(id),
        h.memory.len(),
    );
}

/// The first `k` blocks of a span add `k` to a set that holds none of them.
pub proof fn lemma_count_span(base: spec_fn(ObjectId) -> bool, n: nat, span: MSpan, k: int)
    requires
        n <= usize::MAX,
        span.wf(),
        span.start_id.0 + span.size_class.span_bytes() <= n,
        0 <= k <= span.total_blocks,
        forall|id: ObjectId| span.is_block(id) ==> !#[trigger] base(id),
    ensures
        count_inside(
            |id: ObjectId| base(id) || span.is_block(id) && span.index_of(id) < k,
            n,
        ) == count_inside(base, n) + k,
    decreases k,
{
    let now = |id: ObjectId| base(id) || span.is_block(id) && span.index_of(id) < k;
    if k == 0 {
        assert forall|id: ObjectId| id.0 < n implies #[trigger] now(id) == base(id) by {
            if span.is_block(id) {
                span.lemma_is_block(id);
            }
        }
        lemma_count_outside_same(base, now, n);
    } else {
        let less = |id: ObjectId| base(id) || span.is_block(id) && span.index_of(id) < k - 1;
        lemma_count_span(base, n, span, k - 1);
        span.lemma_block_end(k - 1);
        let x = ObjectId(span.block_addr(k - 1) as usize);
        span.lemma_block_addr(k - 1, x);
        assert(!base(x));
        assert forall|y: ObjectId| #[trigger] now(y) == (less(y) || y == x) by {
            if span.is_block(y) {
                span.lemma_is_block(y);
            }
        }
        lemma_count_outside_insert(less, now, x, n);
    }
}

/// Cutting a span adds its blocks to the count.
proof fn lemma_grow_count(h: HeapState, size_class: MSpanSizeClass)
    requires
        h.wf(),
        h.spans.len() < usize::MAX,
        h.next_page_offset + size_class.span_bytes() <= h.memory.len(),
    ensures
        ({
            let span = MSpan::fresh(size_class, ObjectId(h.next_page_offset as usize));
            block_count(h.with_span(span)) == block_count(h) + size_class.blocks_per_span()
        }),
{
    let start = ObjectId(h.next_page_offset as usize);
    let span = MSpan::fresh(size_class, start);
    let g = h.with_span(span);
    MSpan::lemma_fresh(size_class, start);
    span.lemma_wf_in_range();
    law_grow_adds_free_blocks(h, size_class);
    let k = span.total_blocks as int;
    let old_blocks = |id: ObjectId| h.is_block(id);
    assert forall|id: ObjectId| span.is_block(id) implies !#[trigger] old_blocks(id) by {
        assert(!h.is_block(id));
    }
    lemma_count_span(old_blocks, h.memory.len(), span, k);
    let grown = |id: ObjectId| old_blocks(id) || span.is_block(id) && span.index_of(id) < k;
    let new_blocks = |id: ObjectId| g.is_block(id);
    assert forall|id: ObjectId| id.0 < h.memory.len() implies #[trigger] new_blocks(id) == grown(
        id,
    ) by {
        assert(g.is_block(id) == (h.is_block(id) || span.is_block(id)));
        if span.is_block(id) {
            span.lemma_is_block(id);
        }
    }
    lemma_count_outside_same(grown, new_blocks, h.memory.len());
}

/// Heaps with the same blocks have equally many of them.
pub proof fn lemma_same_block_count(h: HeapState, g: HeapState)
    requires
        g.memory.len() == h.memory.len() <= isize::MAX,
        forall|id: ObjectId| #[trigger] g.is_block(id) == h.is_block(id),
    ensures
        block_count(g) == block_count(h),
{
    let v = |id: ObjectId| h.is_block(id);
    let w = |id: ObjectId| g.is_block(id);
    assert forall|id: ObjectId| id.0 < h.memory.len() implies #[trigger] w(id) == v(id) by {
        assert(g.is_block(id) == h.is_block(id));
    }
    lemma_count_outside_same(v, w, h.memory.len());
}

/// The blocks of each class that fit into a span.
proof fn lemma_blocks_per_span(c: MSpanSizeClass)
    ensures
        c.blocks_per_span() == match c {
            MSpanSizeClass::B64 => 64int,
            MSpanSizeClass::B128 => 32int,
            MSpanSizeClass::B256 => 16int,
            MSpanSizeClass::B512 => 8int,
            MSpanSizeClass::B3072 => 4int,
        },
{
    crate::mspan::law_blocks_fill_span(c);
}

/// Between a full and a fuller number of spans, rounding up counts the spans.
pub proof fn lemma_spans_for(c: MSpanSizeClass, spans: int, blocks: int)
    requires
        0 <= spans,
        0 <= blocks,
    ensures
        0 <= spans_for(c, blocks),
        blocks <= spans * c.blocks_per_span() <==> spans_for(c, blocks) <= spans,
        blocks == spans * c.blocks_per_span() + 1 ==> spans_for(c, blocks) == spans + 1,
{
    lemma_blocks_per_span(c);
    match c {
        MSpanSizeClass::B64 => {},
        MSpanSizeClass::B128 => {},
        MSpanSizeClass::B256 => {},
        MSpanSizeClass::B512 => {},
        MSpanSizeClass::B3072 => {},
    }
}

/// The spans that are needed hold the blocks, and one span less would not.
pub proof fn law_spans_for(c: MSpanSizeClass, blocks: int)
    requires
        0 <= blocks,
    ensures
        ({
            let per = c.pages_per_span() * 4096 / (c.block_size() as int);
            &&& blocks <= spans_for(c, blocks) * per
            &&& blocks > 0 ==> (spans_for(c, blocks) - 1) * per < blocks
            &&& blocks == 0 ==> spans_for(c, blocks) == 0
        }),
{
    lemma_spans_for(c, 0, blocks);
    lemma_spans_for(c, spans_for(c, blocks), blocks);
    if blocks > 0 {
        lemma_spans_for(c, spans_for(c, blocks) - 1, blocks);
    }
}

/// The larger of two numbers is one of them and below neither.
pub proof fn law_larger(a: int, b: int)
    ensures
        larger(a, b) >= a,
        larger(a, b) >= b,
        larger(a, b) == a || larger(a, b) == b,
{
}

/// More blocks need at least as many spans.
pub proof fn lemma_spans_for_mono(c: MSpanSizeClass, a: int, b: int)
    requires
        0 <= a <= b,
    ensures
        0 <= spans_for(c, a) <= spans_for(c, b),
{
    lemma_spans_for(c, 0, a);
    lemma_spans_for(c, 0, b);
    lemma_spans_for(c, spans_for(c, b), b);
    lemma_spans_for(c, spans_for(c, b), a);
}

/// If no span is at hand, every block is taken.
proof fn lemma_none_at_hand(s: Snapshot, size_class: MSpanSizeClass)
    requires
        runtime_wf(s.0, s.2, seq![s.1]),
        nothing_lost(s.0, s.2, seq![s.1]),
        uniform(s.0, size_class),
        source(s.1, s.2, size_class) is None,
    ensures
        taken_count(s.0) == block_count(s.0),
{
    let h = s.0;
    let caches = seq![s.1];
    let v = |id: ObjectId| h.is_block(id);
    let w = |id: ObjectId| h.allocated(id);
    assert forall|id: ObjectId| id.0 < h.memory.len() implies #[trigger] w(id) == v(id) by {
        if h.is_block(id) {
            h.lemma_index_in_span(id);
            assert(h.span(h.owner(id)).size_class == size_class);
            law_grows_only_when_class_is_full(h, s.2, caches, 0, size_class, id);
        }
    }
    lemma_count_outside_same(v, w, h.memory.len());
}

/// What one more request does to the counts.
proof fn lemma_uniform_step(
    before: Snapshot,
    size_class: MSpanSizeClass,
    ty: TypePtr,
    fill: u8,
    id: ObjectId,
    after: Snapshot,
)
    requires
        runtime_wf(before.0, before.2, seq![before.1]),
        nothing_lost(before.0, before.2, seq![before.1]),
        uniform(before.0, size_class),
        step(before, size_class, ty, fill, id, after),
    ensures
        uniform(after.0, size_class),
        taken_count(after.0) == taken_count(before.0) + 1,
        after.0.spans.len() == larger(
            before.0.spans.len() as int,
            spans_for(size_class, taken_count(before.0) + 1),
        ),
{
    let (h, cache, central) = before;
    let h2 = after.0;
    lemma_step(before, size_class, ty, fill, id, after);
    h2.lemma_block_bounds(id);
    // The taken blocks.
    let v = |x: ObjectId| h.allocated(x);
    let w = |x: ObjectId| h2.allocated(x);
    assert forall|x: ObjectId| #[trigger] w(x) == (v(x) || x == id) by {
        assert(h2.allocated(x) == (h.allocated(x) || x == id));
    }
    lemma_count_outside_insert(v, w, id, h.memory.len());
    // The blocks.
    let obj = choose|obj: crate::datastruct::ManagedObject|
        crate::workload::is_filled(obj, size_class, ty, fill) && #[trigger] crate::mcache::served(
            before,
            size_class,
            obj,
            id,
            after,
        );
    crate::laws_allocation::lemma_served(before, size_class, obj, id, after);
    let g = crate::mcache::provided(h, cache, central, size_class);
    let s = target(h, cache, central, size_class);
    assert forall|x: ObjectId| #[trigger] h2.is_block(x) == g.is_block(x) by {
        let p = g.with_span_at(s, h2.span(s));
        assert(h2.span_of(x) == p.span_of(x));
        assert(p.is_block(x) == g.is_block(x));
        assert(h2.is_block(x) == p.is_block(x));
    }
    lemma_same_block_count(g, h2);
    let n = h.spans.len() as int;
    let per = size_class.blocks_per_span();
    let bytes = size_class.span_bytes();
    if source(cache, central, size_class) is None {
        lemma_none_at_hand(before, size_class);
        assert(h2.spans.len() == n + 1);
        lemma_grow_count(h, size_class);
        assert((n + 1) * bytes == n * bytes + bytes) by (nonlinear_arith);
        assert((n + 1) * per == n * per + per) by (nonlinear_arith);
    }
    assert forall|t: SpanId| t.0 < h2.spans.len() implies #[trigger] h2.span(t).size_class
        == size_class by {
        if t == s {
            assert(h2.span(s).same_shape(&g.span(s)));
            if t.0 < h.spans.len() {
                assert(h.span(t).size_class == size_class);
            }
        } else {
            assert(h.span(t).size_class == size_class);
        }
    }
    law_taken_at_most_blocks(h2);
    lemma_taken_nonnegative(h);
    lemma_spans_for(size_class, h2.spans.len() as int, taken_count(h) + 1);
    lemma_spans_for(size_class, n, taken_count(h) + 1);
}

/// The count of taken blocks is not negative.
pub proof fn lemma_taken_nonnegative(h: HeapState)
    ensures
        0 <= taken_count(h),
{
    let none = |x: ObjectId| false;
    lemma_count_none(none, h.memory.len());
    lemma_count_mono(none, |x: ObjectId| h.allocated(x), h.memory.len());
}

/// A run of requests for one class takes as many blocks as there are requests, and memory grows only
/// as far as the blocks that are then taken need it: free blocks are used first.
pub proof fn law_run_footprint(
    before: Snapshot,
    size_class: MSpanSizeClass,
    types: Seq<TypePtr>,
    fill: u8,
    ids: Seq<ObjectId>,
    after: Snapshot,
)
    requires
        runtime_wf(before.0, before.2, seq![before.1]),
        nothing_lost(before.0, before.2, seq![before.1]),
        uniform(before.0, size_class),
        run(before, Workload::Uniform(size_class), types, fill, ids, after),
    ensures
        uniform(after.0, size_class),
        taken_count(after.0) == taken_count(before.0) + ids.len(),
        after.0.spans.len() == larger(
            before.0.spans.len() as int,
            spans_for(size_class, taken_count(before.0) + ids.len()),
        ),
    decreases ids.len(),
{
    lemma_taken_nonnegative(before.0);
    if ids.len() == 0 {
        law_taken_at_most_blocks(before.0);
        lemma_spans_for(size_class, before.0.spans.len() as int, taken_count(before.0));
    } else {
        let ty = types[size_class.to_index() as int];
        let rest = ids.drop_last();
        let w = Workload::Uniform(size_class);
        let mid = choose|mid: Snapshot|
            run(before, w, types, fill, rest, mid) && #[trigger] step(
                mid,
                size_class,
                ty,
                fill,
                ids.last(),
                after,
            );
        law_run_footprint(before, size_class, types, fill, rest, mid);
        law_run(before, w, types, fill, rest, mid);
        lemma_uniform_step(mid, size_class, ty, fill, ids.last(), after);
        let t = taken_count(before.0) + rest.len();
        lemma_spans_for_mono(size_class, t, t + 1);
    }
}

/// A run of `n` requests for one class fails only if the heap cannot hold the blocks that would then
/// be taken.
pub proof fn law_run_fails_for_lack_of_room(
    before: Snapshot,
    size_class: MSpanSizeClass,
    types: Seq<TypePtr>,
    fill: u8,
    ids: Seq<ObjectId>,
    after: Snapshot,
    n: int,
)
    requires
        runtime_wf(before.0, before.2, seq![before.1]),
        nothing_lost(before.0, before.2, seq![before.1]),
        uniform(before.0, size_class),
        run(before, Workload::Uniform(size_class), types, fill, ids, after),
        exhausted(after.0, after.1, after.2, size_class),
        ids.len() < n,
    ensures
        PAGE_SIZE + spans_for(size_class, taken_count(before.0) + n) * size_class.span_bytes()
            > before.0.memory.len(),
{
    law_run_footprint(before, size_class, types, fill, ids, after);
    law_run(before, Workload::Uniform(size_class), types, fill, ids, after);
    lemma_none_at_hand(after, size_class);
    lemma_taken_nonnegative(before.0);
    let spans = after.0.spans.len() as int;
    let needed = spans_for(size_class, taken_count(before.0) + n);
    lemma_spans_for(size_class, spans, taken_count(before.0) + n);
    let bytes = size_class.span_bytes();
    assert(needed * bytes >= spans * bytes + bytes) by (nonlinear_arith)
        requires
            needed >= spans + 1,
            bytes >= 0,
    ;
}

/// Rounding up to whole spans adds less than one span.
pub proof fn lemma_rounding(c: MSpanSizeClass, n: int)
    requires
        0 <= n,
    ensures
        spans_for(c, n) * c.span_bytes() <= n * c.block_size() + c.span_bytes(),
{
    let per = c.blocks_per_span();
    let size = c.block_size() as int;
    let k = spans_for(c, n);
    crate::mspan::law_blocks_fill_span(c);
    vstd::arithmetic::div_mod::lemma_fundamental_div_mod(n + per - 1, per);
    assert(k * (per * size) <= n * size + per * size) by (nonlinear_arith)
        requires
            per * k <= n + per - 1,
            0 <= size,
    ;
}

/// The heap for the measurement of pauses over `n` objects has room for them.
pub proof fn law_pause_heap_has_room(n: int)
    requires
        0 <= n,
    ensures
        PAGE_SIZE + spans_for(MSpanSizeClass::B64, n) * MSpanSizeClass::B64.span_bytes()
            <= pause_heap_bytes(n),
{
    lemma_rounding(MSpanSizeClass::B64, n);
    let k = spans_for(MSpanSizeClass::B64, n);
    assert(MSpanSizeClass::B64.span_bytes() == 4096);
    assert(MSpanSizeClass::B64.block_size() == 64);
    assert(k * 4096 <= n * 64 + 4096);
    if n < 63 {
        assert(n * 64 + 8192 <= 8388608);
    } else {
        assert(n * 64 + 8192 <= n * 128 + 4160);
    }
}

/// The heap for the measurement of one class with `n` objects has room for them.
pub proof fn law_class_heap_has_room(n: int, size_class: MSpanSizeClass)
    requires
        0 <= n,
    ensures
        PAGE_SIZE + spans_for(size_class, n) * size_class.span_bytes() <= class_heap_bytes(
            n,
            size_class,
        ),
{
    lemma_rounding(size_class, n);
}

} // verus!
