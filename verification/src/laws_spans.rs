//! What the masks, positions and bookkeeping of spans mean.

use crate::datastruct::{ObjectId, PAGE_SIZE};
use crate::managed_heap::SpanId;
use crate::mcentral::CentralState;
use crate::mspan::{bit_at, bits_set, MSpan, MSpanSizeClass};
use vstd::arithmetic::power2::pow2;
use vstd::prelude::*;

verus! {

/// A bit of a mask is a binary digit of one of its words.
pub proof fn law_bit_is_binary_digit(words: Seq<u64>, k: int)
    requires
        0 <= k < 64 * words.len(),
    ensures
        bit_at(words, k) <==> words[k / 64] as int / (pow2((k % 64) as nat) as int) % 2 == 1,
{
    let w = words[k / 64];
    let b = (k % 64) as u64;
    vstd::bits::lemma_u64_shr_is_div(w, b);
    let q = w >> b;
    assert(q & 1 == q % 2) by (bit_vector);
}

/// The number of set bits grows by one at each set bit, and at no other.
pub proof fn law_bits_are_counted(words: Seq<u64>, m: nat, n: nat)
    requires
        m <= n,
    ensures
        bits_set(words, m) <= bits_set(words, n) <= bits_set(words, m) + (n - m),
        bits_set(words, n) == bits_set(words, m) <==> forall|k: int|
            m <= k < n ==> !bit_at(words, k),
        bits_set(words, n) == bits_set(words, m) + (n - m) <==> forall|k: int|
            m <= k < n ==> bit_at(words, k),
        n == m + 1 ==> bits_set(words, n) == bits_set(words, m) + if bit_at(words, m as int) {
            1int
        } else {
            0
        },
        bits_set(words, 0) == 0,
    decreases n,
{
    if m < n {
        let p = (n - 1) as nat;
        law_bits_are_counted(words, m, p);
        if forall|k: int| m <= k < n ==> !bit_at(words, k) {
            assert(!bit_at(words, n - 1));
        }
        if forall|k: int| m <= k < n ==> bit_at(words, k) {
            assert(bit_at(words, n - 1));
        }
        if bits_set(words, n) == bits_set(words, m) {
            assert forall|k: int| m <= k < n implies !bit_at(words, k) by {
                if k < n - 1 {
                    assert(!bit_at(words, k));
                }
            }
        }
        if bits_set(words, n) == bits_set(words, m) + (n - m) {
            assert forall|k: int| m <= k < n implies bit_at(words, k) by {
                if k < n - 1 {
                    assert(bit_at(words, k));
                }
            }
        }
    }
}

/// The blocks of a span are those at whole multiples of the block size from its start on, as many as
/// it has, and the index of a block is that multiple.
pub proof fn law_block_positions(span: MSpan, id: ObjectId)
    ensures
        span.is_block(id) <==> exists|k: int|
            0 <= k < span.total_blocks && id.0 == span.start_id.0 + #[trigger] (k
                * span.size_class.block_size()),
        forall|k: int|
            0 <= k < span.total_blocks && id.0 == span.start_id.0 + #[trigger] (k
                * span.size_class.block_size()) ==> span.index_of(id) == k,
{
    if span.is_block(id) {
        span.lemma_is_block(id);
        let k = span.index_of(id);
        assert(0 <= k < span.total_blocks && id.0 == span.start_id.0 + k
            * span.size_class.block_size());
    }
    assert forall|k: int|
        0 <= k < span.total_blocks && id.0 == span.start_id.0 + #[trigger] (k
            * span.size_class.block_size()) implies span.is_block(id) && span.index_of(id)
        == k by {
        span.lemma_block_addr(k, id);
    }
}

/// A block is taken if its bit is set in the one mask, and marked if its bit is set in the other. All
/// blocks are taken if none is free; the first free block is the free one with the smallest index.
pub proof fn law_masks(span: MSpan, k: int)
    ensures
        span.allocated(k) <==> bit_at(span.alloc_bits@, k),
        span.marked(k) <==> bit_at(span.marked_bits@, k),
        span.all_allocated() <==> forall|j: int|
            0 <= j < span.total_blocks ==> #[trigger] bit_at(span.alloc_bits@, j),
        span.is_first_free(k) <==> {
            &&& 0 <= k < span.total_blocks
            &&& !bit_at(span.alloc_bits@, k)
            &&& forall|j: int| 0 <= j < k ==> #[trigger] bit_at(span.alloc_bits@, j)
        },
        span.full() <==> bits_set(span.alloc_bits@, 256) >= span.total_blocks,
        span.wf() ==> (span.full() <==> forall|j: int|
            0 <= j < span.total_blocks ==> #[trigger] bit_at(span.alloc_bits@, j)),
{
    assert forall|j: int| 0 <= j < span.total_blocks implies (#[trigger] bit_at(
        span.alloc_bits@,
        j,
    ) == span.allocated(j)) by {}
    if forall|j: int| 0 <= j < span.total_blocks ==> #[trigger] bit_at(span.alloc_bits@, j) {
        assert forall|j: int| 0 <= j < span.total_blocks implies span.allocated(j) by {
            assert(bit_at(span.alloc_bits@, j));
        }
    }
    if span.all_allocated() {
        assert forall|j: int| 0 <= j < span.total_blocks implies #[trigger] bit_at(
            span.alloc_bits@,
            j,
        ) by {
            assert(span.allocated(j));
        }
    }
    if span.is_first_free(k) {
        assert forall|j: int| 0 <= j < k implies #[trigger] bit_at(span.alloc_bits@, j) by {
            assert(span.allocated(j));
        }
    }
    if forall|j: int| 0 <= j < k ==> #[trigger] bit_at(span.alloc_bits@, j) {
        assert forall|j: int| 0 <= j < k implies span.allocated(j) by {
            assert(bit_at(span.alloc_bits@, j));
        }
    }
    if span.wf() {
        span.lemma_full();
    }
}

/// A new span has the blocks of its class from its start on, and no bit of either mask is set.
pub proof fn law_new_span(size_class: MSpanSizeClass, start_id: ObjectId, k: int)
    requires
        0 <= k < 256,
    ensures
        ({
            let span = MSpan::fresh(size_class, start_id);
            &&& span.size_class == size_class
            &&& span.start_id == start_id
            &&& span.total_blocks * size_class.block_size() == size_class.pages_per_span()
                * PAGE_SIZE
            &&& !bit_at(span.alloc_bits@, k)
            &&& !bit_at(span.marked_bits@, k)
        }),
{
    MSpan::lemma_fresh(size_class, start_id);
    crate::mspan::law_blocks_fill_span(size_class);
    let span = MSpan::fresh(size_class, start_id);
    assert(!span.allocated(k) && !span.marked(k));
}

/// Taking a block sets its bit in the one mask, marking it sets its bit in the other; nothing else of
/// the span changes.
pub proof fn law_one_bit_changes(before: MSpan, after: MSpan, k: int, j: int)
    requires
        0 <= j < 256,
    ensures
        after.is_published(&before, k) ==> {
            &&& after.size_class == before.size_class
            &&& after.start_id == before.start_id
            &&& after.total_blocks == before.total_blocks
            &&& after.marked_bits == before.marked_bits
            &&& bit_at(after.alloc_bits@, j) == (bit_at(before.alloc_bits@, j) || j == k)
        },
        after.is_marked_at(&before, k) ==> {
            &&& after.size_class == before.size_class
            &&& after.start_id == before.start_id
            &&& after.total_blocks == before.total_blocks
            &&& after.alloc_bits == before.alloc_bits
            &&& bit_at(after.marked_bits@, j) == (bit_at(before.marked_bits@, j) || j == k)
        },
{
    if after.is_published(&before, k) {
        assert(after.allocated(j) == (before.allocated(j) || j == k));
    }
    if after.is_marked_at(&before, k) {
        assert(after.marked(j) == (before.marked(j) || j == k));
    }
}

/// A swept span has every block taken that was taken and marked, no other, and no block marked; it
/// lies where it lay.
pub proof fn law_swept_span(before: MSpan, after: MSpan, k: int)
    requires
        after.is_swept(&before),
        before.total_blocks <= 256,
        0 <= k < before.total_blocks,
    ensures
        after.size_class == before.size_class,
        after.start_id == before.start_id,
        after.total_blocks == before.total_blocks,
        bit_at(after.alloc_bits@, k) == (bit_at(before.alloc_bits@, k) && bit_at(
            before.marked_bits@,
            k,
        )),
        !bit_at(after.marked_bits@, k),
{
    assert(k < before.swept_bits());
    assert(after.allocated(k) == (before.allocated(k) && (before.marked(k) || k
        >= before.swept_bits())));
    assert(after.marked(k) == (before.marked(k) && k >= before.swept_bits()));
}

/// A new pool has a place for every class and no span in any of them.
pub proof fn law_new_pool_is_empty(c: MSpanSizeClass)
    ensures
        CentralState::empty().partial.len() == 5,
        CentralState::empty().full.len() == 5,
        CentralState::empty().partial[c.to_index() as int].len() == 0,
        CentralState::empty().full[c.to_index() as int].len() == 0,
{
}

/// The pool hands out the span that came last among those with room, and loses that one alone.
pub proof fn law_pool_hands_out_the_latest(pool: CentralState, c: MSpanSizeClass)
    requires
        pool.partial.len() == MSpanSizeClass::COUNT,
    ensures
        ({
            let i = c.to_index() as int;
            let n = pool.partial[i].len();
            let after = pool.popped(c);
            &&& after.full == pool.full
            &&& after.partial.len() == pool.partial.len()
            &&& forall|j: int|
                0 <= j < MSpanSizeClass::COUNT && j != i ==> #[trigger] after.partial[j]
                    == pool.partial[j]
            &&& n == 0 ==> pool.top(c) is None && after == pool
            &&& n > 0 ==> {
                &&& pool.top(c) == Some(pool.partial[i][n - 1])
                &&& after.partial[i].push(pool.partial[i][n - 1]) == pool.partial[i]
            }
        }),
{
    let i = c.to_index() as int;
    let n = pool.partial[i].len();
    if n > 0 {
        assert(pool.popped(c).partial[i].push(pool.partial[i][n - 1]) =~= pool.partial[i]);
    }
}

/// What was put into the pool last with room is handed out next, and the pool is then as it was. A full
/// span is put behind the other full ones of its class and changes nothing else.
pub proof fn law_pool_keeps_what_it_gets(pool: CentralState, c: MSpanSizeClass, s: SpanId)
    requires
        pool.partial.len() == MSpanSizeClass::COUNT,
        pool.full.len() == MSpanSizeClass::COUNT,
    ensures
        pool.with_partial(c, s).top(c) == Some(s),
        pool.with_partial(c, s).popped(c) == pool,
        pool.with_full(c, s).partial == pool.partial,
        pool.with_full(c, s).full.len() == pool.full.len(),
        pool.with_full(c, s).full[c.to_index() as int] == pool.full[c.to_index() as int].push(s),
        forall|j: int|
            0 <= j < MSpanSizeClass::COUNT && j != c.to_index() ==> #[trigger] pool.with_full(
                c,
                s,
            ).full[j] == pool.full[j],
{
    let i = c.to_index() as int;
    let g = pool.with_partial(c, s);
    assert(g.partial[i].drop_last() =~= pool.partial[i]);
    assert(g.popped(c).partial =~= pool.partial);
}

/// After a sweep a span is among those of its class with room if it was, or if it was among the full
/// ones and is not full any more; and it is among the full ones if it was and still is full.
pub proof fn law_pool_after_sweep(
    pool: CentralState,
    h: crate::managed_heap::HeapState,
    i: int,
    s: SpanId,
)
    requires
        pool.partial.len() == MSpanSizeClass::COUNT,
        pool.full.len() == MSpanSizeClass::COUNT,
        0 <= i < MSpanSizeClass::COUNT,
    ensures
        ({
            let after = pool.resorted(h);
            let room = bits_set(h.spans[s.0 as int].alloc_bits@, 256)
                < h.spans[s.0 as int].total_blocks;
            &&& after.partial[i].contains(s) <==> pool.partial[i].contains(s)
                || pool.full[i].contains(s) && room
            &&& after.full[i].contains(s) <==> pool.full[i].contains(s) && !room
            &&& after.partial[i].len() + after.full[i].len() == pool.partial[i].len()
                + pool.full[i].len()
            &&& pool.partial[i] == after.partial[i].take(pool.partial[i].len() as int)
        }),
{
    let is_full = |t: SpanId| h.span(t).full();
    let not_full = |t: SpanId| !h.span(t).full();
    let after = pool.resorted(h);
    let v = pool.partial[i];
    let w = pool.full[i].filter(not_full);
    let f = pool.full[i].filter(is_full);
    crate::laws_pool::lemma_filter(pool.full[i], is_full);
    crate::laws_pool::lemma_filter(pool.full[i], not_full);
    lemma_filter_split(pool.full[i], is_full, not_full);
    assert(after.partial[i] == v + w);
    assert(after.full[i] == f);
    assert((v + w).take(v.len() as int) =~= v);
    assert((v + w).contains(s) <==> v.contains(s) || w.contains(s)) by {
        if v.contains(s) {
            let j = choose|j: int| 0 <= j < v.len() && v[j] == s;
            assert((v + w)[j] == s);
        }
        if w.contains(s) {
            let j = choose|j: int| 0 <= j < w.len() && w[j] == s;
            assert((v + w)[v.len() + j] == s);
        }
    }
    if w.contains(s) {
        let j = choose|j: int| 0 <= j < w.len() && w[j] == s;
        assert(not_full(w[j]));
    }
    if f.contains(s) {
        let j = choose|j: int| 0 <= j < f.len() && f[j] == s;
        assert(is_full(f[j]));
    }
}

/// Two opposite filters split a list.
proof fn lemma_filter_split(
    s: Seq<SpanId>,
    p: spec_fn(SpanId) -> bool,
    q: spec_fn(SpanId) -> bool,
)
    requires
        forall|x: SpanId| #[trigger] p(x) == !q(x),
    ensures
        s.filter(p).len() + s.filter(q).len() == s.len(),
    decreases s.len(),
{
    reveal(Seq::filter);
    if s.len() > 0 {
        lemma_filter_split(s.drop_last(), p, q);
        assert(p(s.last()) == !q(s.last()));
    }
}

} // verus!
