//! The invariant that the heap, the pool and the caches keep together.

use crate::datastruct::{AllocError, ManagedObject, ObjectId};
use crate::laws_allocation::request_ok;
use crate::managed_heap::{HeapState, SpanId};
use crate::mcache::{
    answered, central_after, exhausted, fitting, provided, served, source, source_usable, target,
};
use crate::mcentral::CentralState;
use crate::mspan::{law_class_index, MSpanSizeClass};
use vstd::prelude::*;

verus! {

/// Whether `s` is a span of the heap of the class at position `i`.
pub open spec fn in_class(h: HeapState, s: SpanId, i: int) -> bool {
    s.0 < h.spans.len() && h.span(s).size_class.to_index() == i
}

/// Every span that the pool lists as having free blocks has some, and is listed once.
pub open spec fn partial_ok(h: HeapState, central: CentralState) -> bool {
    &&& central.partial.len() == MSpanSizeClass::COUNT
    &&& forall|i: int, j: int|
        #![trigger central.partial[i][j]]
        0 <= i < MSpanSizeClass::COUNT && 0 <= j < central.partial[i].len() ==> in_class(
            h,
            central.partial[i][j],
            i,
        ) && !h.span(central.partial[i][j]).all_allocated()
    &&& forall|i: int|
        0 <= i < MSpanSizeClass::COUNT ==> #[trigger] central.partial[i].no_duplicates()
}

/// Every span that the pool lists as full is full, and is listed once.
pub open spec fn full_ok(h: HeapState, central: CentralState) -> bool {
    &&& central.full.len() == MSpanSizeClass::COUNT
    &&& forall|i: int, j: int|
        #![trigger central.full[i][j]]
        0 <= i < MSpanSizeClass::COUNT && 0 <= j < central.full[i].len() ==> in_class(
            h,
            central.full[i][j],
            i,
        ) && h.span(central.full[i][j]).all_allocated()
    &&& forall|i: int|
        0 <= i < MSpanSizeClass::COUNT ==> #[trigger] central.full[i].no_duplicates()
}

/// Every span in use by a cache has free blocks and is not in the pool.
pub open spec fn cache_ok(
    h: HeapState,
    central: CentralState,
    cache: Seq<Option<SpanId>>,
) -> bool {
    &&& cache.len() == MSpanSizeClass::COUNT
    &&& forall|i: int|
        #![trigger cache[i]]
        0 <= i < MSpanSizeClass::COUNT ==> (cache[i] matches Some(s) ==> in_class(h, s, i)
            && !h.span(s).all_allocated() && !central.partial[i].contains(s))
}

/// No span is in use by two caches.
pub open spec fn caches_apart(v: Seq<Option<SpanId>>, w: Seq<Option<SpanId>>) -> bool {
    forall|i: int|
        #![trigger v[i], w[i]]
        0 <= i < MSpanSizeClass::COUNT && v[i] is Some ==> v[i] != w[i]
}

/// The invariant of a runtime: of its heap, its pool and all of its caches.
pub open spec fn runtime_wf(
    h: HeapState,
    central: CentralState,
    caches: Seq<Seq<Option<SpanId>>>,
) -> bool {
    &&& h.wf()
    &&& partial_ok(h, central)
    &&& full_ok(h, central)
    &&& forall|c: int| 0 <= c < caches.len() ==> #[trigger] cache_ok(h, central, caches[c])
    &&& forall|c: int, d: int|
        0 <= c < caches.len() && 0 <= d < caches.len() && c != d ==> caches_apart(
            #[trigger] caches[c],
            #[trigger] caches[d],
        )
}

/// A new pool and new caches satisfy the invariant on every heap.
pub proof fn law_runtime_starts(h: HeapState, n: nat)
    requires
        h.wf(),
    ensures
        runtime_wf(
            h,
            CentralState::empty(),
            Seq::new(
                n,
                |c: int| Seq::new(MSpanSizeClass::COUNT as nat, |i: int| None::<SpanId>),
            ),
        ),
{
}

/// A request can always be made: the span at hand, if there is one, has a free block. The block that
/// serves it is of the class that was asked for.
pub proof fn law_request_is_usable(
    h: HeapState,
    central: CentralState,
    caches: Seq<Seq<Option<SpanId>>>,
    c: int,
    size_class: MSpanSizeClass,
)
    requires
        runtime_wf(h, central, caches),
        0 <= c < caches.len(),
    ensures
        source_usable(h, caches[c], central, size_class),
        provided(h, caches[c], central, size_class).span(
            target(h, caches[c], central, size_class),
        ).size_class == size_class,
{
    let i = size_class.to_index() as int;
    let cache = caches[c];
    assert(cache_ok(h, central, cache));
    match source(cache, central, size_class) {
        Some(s) => {
            if cache[i] is None {
                let last = central.partial[i].len() - 1;
                assert(central.partial[i][last] == s);
            }
            assert(in_class(h, s, i));
            law_class_index(h.span(s).size_class, size_class);
        },
        None => {},
    }
}

/// Serving a request keeps the invariant, for the cache that made it and for all others.
pub proof fn law_runtime_kept_by_served(
    before: (HeapState, Seq<Option<SpanId>>, CentralState),
    size_class: MSpanSizeClass,
    obj: ManagedObject,
    id: ObjectId,
    after: (HeapState, Seq<Option<SpanId>>, CentralState),
    caches: Seq<Seq<Option<SpanId>>>,
    c: int,
)
    requires
        0 <= c < caches.len(),
        caches[c] == before.1,
        runtime_wf(before.0, before.2, caches),
        request_ok(before, size_class, after),
        served(before, size_class, obj, id, after),
    ensures
        runtime_wf(after.0, after.2, caches.update(c, after.1)),
{
    let (h, cache, central) = before;
    let (h2, cache2, central2) = after;
    let i = size_class.to_index() as int;
    let s = target(h, cache, central, size_class);
    let pool = central_after(cache, central, size_class);
    assert(cache_ok(h, central, cache));
    law_request_is_usable(h, central, caches, c, size_class);
    if source(cache, central, size_class) is None {
        assert(h2.spans.len() == h.spans.len() + 1);
    }
    // Every other span is as it was.
    assert forall|t: SpanId| t.0 < h.spans.len() && t != s implies #[trigger] h2.span(t) == h.span(
        t,
    ) by {}
    assert(in_class(h2, s, i));
    // The span that serves the request is not in the pool any more, nor in another cache.
    assert(!pool.partial[i].contains(s)) by {
        if pool.partial[i].contains(s) {
            let j = choose|j: int| 0 <= j < pool.partial[i].len() && pool.partial[i][j] == s;
            assert(central.partial[i][j] == s);
            if cache[i] is None && central.partial[i].len() > 0 {
                let last = central.partial[i].len() - 1;
                assert(central.partial[i].no_duplicates());
                assert(central.partial[i][last] == s);
            }
        }
    }
    assert(!central.full[i].contains(s)) by {
        if central.full[i].contains(s) {
            let j = choose|j: int| 0 <= j < central.full[i].len() && central.full[i][j] == s;
            assert(h.span(s).all_allocated());
        }
    }
    assert forall|d: int| 0 <= d < caches.len() && d != c implies #[trigger] caches[d][i] != Some(
        s,
    ) by {
        assert(cache_ok(h, central, caches[d]));
        assert(caches_apart(caches[d], caches[c]));
        if caches[d][i] == Some(s) {
            assert(caches[c][i] == cache[i]);
            assert(s.0 < h.spans.len());
            if cache[i] is None {
                let last = central.partial[i].len() - 1;
                assert(central.partial[i][last] == s);
                assert(central.partial[i].contains(s));
            }
        }
    }
    assert(partial_ok(h2, central2)) by {
        assert forall|a: int, j: int|
            #![trigger central2.partial[a][j]]
            0 <= a < MSpanSizeClass::COUNT && 0 <= j < central2.partial[a].len() implies in_class(
            h2,
            central2.partial[a][j],
            a,
        ) && !h2.span(central2.partial[a][j]).all_allocated() by {
            let t = central2.partial[a][j];
            assert(central.partial[a][j] == t);
            assert(in_class(h, t, a));
            assert(pool.partial[a].contains(t));
            assert(t != s);
        }
        assert forall|a: int| 0 <= a < MSpanSizeClass::COUNT implies #[trigger]
            central2.partial[a].no_duplicates() by {
            assert(central.partial[a].no_duplicates());
        }
    }
    assert(full_ok(h2, central2)) by {
        assert forall|a: int, j: int|
            #![trigger central2.full[a][j]]
            0 <= a < MSpanSizeClass::COUNT && 0 <= j < central2.full[a].len() implies in_class(
            h2,
            central2.full[a][j],
            a,
        ) && h2.span(central2.full[a][j]).all_allocated() by {
            let t = central2.full[a][j];
            if j < central.full[a].len() {
                assert(central.full[a][j] == t);
                assert(in_class(h, t, a));
                assert(central.full[a].contains(t));
                assert(t != s);
            }
        }
        assert forall|a: int| 0 <= a < MSpanSizeClass::COUNT implies #[trigger]
            central2.full[a].no_duplicates() by {
            assert(central.full[a].no_duplicates());
        }
    }
    let caches2 = caches.update(c, cache2);
    assert forall|d: int| 0 <= d < caches2.len() implies #[trigger] cache_ok(
        h2,
        central2,
        caches2[d],
    ) by {
        assert(cache_ok(h, central, caches[d]));
        assert forall|a: int|
            #![trigger caches2[d][a]]
            0 <= a < MSpanSizeClass::COUNT implies (caches2[d][a] matches Some(t) ==> in_class(
            h2,
            t,
            a,
        ) && !h2.span(t).all_allocated() && !central2.partial[a].contains(t)) by {
            if d != c || a != i {
                assert(caches2[d][a] == caches[d][a]);
                if let Some(t) = caches[d][a] {
                    assert(in_class(h, t, a));
                    assert(t != s);
                    if central2.partial[a].contains(t) {
                        let j = choose|j: int|
                            0 <= j < central2.partial[a].len() && central2.partial[a][j] == t;
                        assert(central.partial[a][j] == t);
                    }
                }
            }
        }
    }
    assert forall|d: int, e: int|
        0 <= d < caches2.len() && 0 <= e < caches2.len() && d != e implies caches_apart(
        #[trigger] caches2[d],
        #[trigger] caches2[e],
    ) by {
        assert(caches_apart(caches[d], caches[e]));
        assert forall|a: int|
            #![trigger caches2[d][a], caches2[e][a]]
            0 <= a < MSpanSizeClass::COUNT && caches2[d][a] is Some implies caches2[d][a]
            != caches2[e][a] by {
            assert(caches[d][a] is Some ==> caches[d][a] != caches[e][a]);
            if a == i {
                assert(d != c ==> caches[d][i] != Some(s));
                assert(e != c ==> caches[e][i] != Some(s));
            }
        }
    }
}

/// After every request, served or refused, the invariant holds: for every class the cache holds no span
/// or one of that class that is not full. If the request filled its span, the span is among the full
/// spans of the pool and the cache holds none of the class. Otherwise the cache keeps the span, and the
/// next request that the class serves uses it. A refused request changes nothing.
pub proof fn law_cache_after_every_request(
    before: (HeapState, Seq<Option<SpanId>>, CentralState),
    size_class: MSpanSizeClass,
    obj: ManagedObject,
    r: Result<ObjectId, AllocError>,
    after: (HeapState, Seq<Option<SpanId>>, CentralState),
    caches: Seq<Seq<Option<SpanId>>>,
    c: int,
)
    requires
        0 <= c < caches.len(),
        caches[c] == before.1,
        runtime_wf(before.0, before.2, caches),
        after.0.wf(),
        answered(before, size_class, obj, r, after),
    ensures
        runtime_wf(after.0, after.2, caches.update(c, after.1)),
        forall|d: MSpanSizeClass|
            (#[trigger] after.1[d.to_index() as int]) matches Some(s) ==> {
                &&& s.0 < after.0.spans.len()
                &&& after.0.span(s).size_class == d
                &&& !after.0.span(s).full()
            },
        r is Err ==> after == before,
        r is Ok ==> ({
            let class = fitting(size_class, obj.payload@.len() as int);
            let i = class.to_index() as int;
            let s = target(before.0, before.1, before.2, class);
            if after.0.span(s).full() {
                after.2.full[i].contains(s) && after.1[i] is None
            } else {
                after.1[i] == Some(s) && source(after.1, after.2, class) == Some(s)
            }
        }),
{
    let class = fitting(size_class, obj.payload@.len() as int);
    let i = class.to_index() as int;
    let s = target(before.0, before.1, before.2, class);
    law_request_is_usable(before.0, before.2, caches, c, class);
    if let Ok(id) = r {
        law_runtime_kept_by_served(before, class, obj, id, after, caches, c);
        assert(cache_ok(before.0, before.2, before.1));
        assert(after.0.span_wf(s));
        after.0.span(s).lemma_full();
        if after.0.span(s).all_allocated() {
            let full = after.2.full[i];
            assert(full[full.len() - 1] == s);
        }
    } else {
        assert(caches.update(c, after.1) =~= caches);
    }
    let caches2 = caches.update(c, after.1);
    assert(caches2[c] == after.1);
    assert(cache_ok(after.0, after.2, caches2[c]));
    assert forall|d: MSpanSizeClass|
        (#[trigger] after.1[d.to_index() as int]) matches Some(s) ==> {
            &&& s.0 < after.0.spans.len()
            &&& after.0.span(s).size_class == d
            &&& !after.0.span(s).full()
        } by {
        if let Some(t) = after.1[d.to_index() as int] {
            assert(in_class(after.0, t, d.to_index() as int));
            law_class_index(after.0.span(t).size_class, d);
            assert(after.0.span_wf(t));
            after.0.span(t).lemma_full();
        }
    }
}

/// Marking keeps the invariant.
pub proof fn law_runtime_kept_by_marking(
    h: HeapState,
    h2: HeapState,
    central: CentralState,
    caches: Seq<Seq<Option<SpanId>>>,
)
    requires
        runtime_wf(h, central, caches),
        h2.wf(),
        h2.same_but_marks(h),
    ensures
        runtime_wf(h2, central, caches),
{
    assert forall|s: SpanId|
        #![trigger h2.span(s)]
        s.0 < h.spans.len() implies h2.span(s).all_allocated() == h.span(s).all_allocated()
        && h2.span(s).size_class == h.span(s).size_class by {
        let i = s.0 as int;
        assert(h2.spans[i].same_shape(&h.spans[i]));
        if h.span(s).all_allocated() {
            assert forall|k: int| 0 <= k < h2.span(s).total_blocks implies h2.span(s).allocated(
                k,
            ) by {
                assert(h.span(s).allocated(k));
            }
        }
        if h2.span(s).all_allocated() {
            assert forall|k: int| 0 <= k < h.span(s).total_blocks implies h.span(s).allocated(
                k,
            ) by {
                assert(h2.span(s).allocated(k));
            }
        }
    }
    assert forall|i: int, j: int|
        #![trigger central.partial[i][j]]
        0 <= i < MSpanSizeClass::COUNT && 0 <= j < central.partial[i].len() implies in_class(
        h2,
        central.partial[i][j],
        i,
    ) && !h2.span(central.partial[i][j]).all_allocated() by {
        assert(in_class(h, central.partial[i][j], i));
    }
    assert forall|i: int, j: int|
        #![trigger central.full[i][j]]
        0 <= i < MSpanSizeClass::COUNT && 0 <= j < central.full[i].len() implies in_class(
        h2,
        central.full[i][j],
        i,
    ) && h2.span(central.full[i][j]).all_allocated() by {
        assert(in_class(h, central.full[i][j], i));
    }
    assert forall|c: int| 0 <= c < caches.len() implies #[trigger] cache_ok(
        h2,
        central,
        caches[c],
    ) by {
        assert(cache_ok(h, central, caches[c]));
        assert forall|i: int|
            #![trigger caches[c][i]]
            0 <= i < MSpanSizeClass::COUNT implies (caches[c][i] matches Some(s) ==> in_class(
            h2,
            s,
            i,
        ) && !h2.span(s).all_allocated() && !central.partial[i].contains(s)) by {
            if let Some(s) = caches[c][i] {
                assert(in_class(h, s, i));
            }
        }
    }
}

/// What a filtered list of spans holds.
pub proof fn lemma_filter(s: Seq<SpanId>, keep: spec_fn(SpanId) -> bool)
    ensures
        forall|j: int|
            #![trigger s.filter(keep)[j]]
            0 <= j < s.filter(keep).len() ==> keep(s.filter(keep)[j]) && s.contains(
                s.filter(keep)[j],
            ),
        forall|x: SpanId| s.contains(x) && keep(x) ==> #[trigger] s.filter(keep).contains(x),
        s.no_duplicates() ==> s.filter(keep).no_duplicates(),
    decreases s.len(),
{
    reveal(Seq::filter);
    if s.len() > 0 {
        let rest = s.drop_last();
        let kept = rest.filter(keep);
        let out = s.filter(keep);
        lemma_filter(rest, keep);
        assert(rest.push(s.last()) =~= s);
        assert forall|j: int|
            #![trigger out[j]]
            0 <= j < out.len() implies keep(out[j]) && s.contains(out[j]) by {
            if j < kept.len() {
                assert(out[j] == kept[j]);
                let i = choose|i: int| 0 <= i < rest.len() && rest[i] == kept[j];
                assert(s[i] == out[j]);
            } else {
                assert(s[s.len() - 1] == out[j]);
            }
        }
        assert forall|x: SpanId| s.contains(x) && keep(x) implies #[trigger] out.contains(x) by {
            let i = choose|i: int| 0 <= i < s.len() && s[i] == x;
            if i < rest.len() {
                assert(rest[i] == x);
                assert(kept.contains(x));
                let j = choose|j: int| 0 <= j < kept.len() && kept[j] == x;
                assert(out[j] == x);
            } else {
                assert(out[out.len() - 1] == x);
            }
        }
        if s.no_duplicates() {
            assert(rest.no_duplicates());
            assert forall|a: int, b: int|
                0 <= a < out.len() && 0 <= b < out.len() && a != b implies out[a] != out[b] by {
                if a < kept.len() && b < kept.len() {
                    assert(kept[a] != kept[b]);
                } else {
                    let old_one = if a < kept.len() {
                        a
                    } else {
                        b
                    };
                    assert(kept[old_one] == out[old_one]);
                    assert(rest.contains(kept[old_one]));
                    let i = choose|i: int| 0 <= i < rest.len() && rest[i] == kept[old_one];
                    assert(s[i] == out[old_one]);
                }
            }
        }
    }
}

/// The pool's full spans are spans of the heap, so `sweep` can be called.
pub proof fn law_sweep_can_run(
    h: HeapState,
    central: CentralState,
    caches: Seq<Seq<Option<SpanId>>>,
)
    requires
        runtime_wf(h, central, caches),
    ensures
        central.full_in_heap(h),
{
    assert forall|i: int, j: int|
        0 <= i < MSpanSizeClass::COUNT && 0 <= j < central.full[i].len() implies (
    #[trigger] central.full[i][j]).0 < h.spans.len() by {
        assert(in_class(h, central.full[i][j], i));
    }
}

/// The sweep of a collection keeps the invariant: what the pool lists is sorted by what is free now.
pub proof fn law_runtime_kept_by_sweep(
    h: HeapState,
    h2: HeapState,
    central: CentralState,
    caches: Seq<Seq<Option<SpanId>>>,
)
    requires
        runtime_wf(h, central, caches),
        h2.wf(),
        h2.is_swept(h),
    ensures
        runtime_wf(h2, central.resorted(h2), caches),
{
    let after = central.resorted(h2);
    let is_full = |s: SpanId| h2.span(s).full();
    let not_full = |s: SpanId| !h2.span(s).full();
    assert forall|s: SpanId|
        #![trigger h2.span(s)]
        s.0 < h.spans.len() implies (h2.span(s).all_allocated() ==> h.span(s).all_allocated())
        && h2.span(s).size_class == h.span(s).size_class && h2.span(s).full() == h2.span(
        s,
    ).all_allocated() by {
        let i = s.0 as int;
        assert(h2.spans[i].is_swept(&h.spans[i]));
        assert(h2.span_wf(s));
        h2.span(s).lemma_full();
        h2.span(s).lemma_wf_in_range();
        if h2.span(s).all_allocated() {
            assert forall|k: int| 0 <= k < h.span(s).total_blocks implies h.span(s).allocated(
                k,
            ) by {
                assert(h2.span(s).allocated(k));
            }
        }
    }
    assert forall|i: int| 0 <= i < MSpanSizeClass::COUNT implies #[trigger] after.partial[i]
        == central.partial[i] + central.full[i].filter(not_full) && after.full[i]
        == central.full[i].filter(is_full) by {}
    assert forall|i: int, j: int|
        #![trigger after.partial[i][j]]
        0 <= i < MSpanSizeClass::COUNT && 0 <= j < after.partial[i].len() implies in_class(
        h2,
        after.partial[i][j],
        i,
    ) && !h2.span(after.partial[i][j]).all_allocated() by {
        let t = after.partial[i][j];
        let n = central.partial[i].len();
        if j < n {
            assert(central.partial[i][j] == t);
            assert(in_class(h, t, i));
        } else {
            lemma_filter(central.full[i], not_full);
            assert(central.full[i].filter(not_full)[j - n] == t);
            let m = choose|m: int| 0 <= m < central.full[i].len() && central.full[i][m] == t;
            assert(central.full[i][m] == t);
            assert(in_class(h, t, i));
        }
    }
    assert forall|i: int| 0 <= i < MSpanSizeClass::COUNT implies #[trigger]
        after.partial[i].no_duplicates() by {
        let v = central.partial[i];
        let w = central.full[i].filter(not_full);
        lemma_filter(central.full[i], not_full);
        assert(central.partial[i].no_duplicates());
        assert(central.full[i].no_duplicates());
        assert forall|a: int, b: int| 0 <= a < v.len() && 0 <= b < w.len() implies v[a] != w[b] by {
            assert(central.partial[i][a] == v[a]);
            let m = choose|m: int| 0 <= m < central.full[i].len() && central.full[i][m] == w[b];
            assert(h.span(central.full[i][m]).all_allocated());
        }
        assert forall|a: int, b: int|
            0 <= a < after.partial[i].len() && 0 <= b < after.partial[i].len() && a
                != b implies after.partial[i][a] != after.partial[i][b] by {
            let n = v.len();
            if a < n && b < n {
                assert(v[a] != v[b]);
            } else if a >= n && b >= n {
                assert(w[a - n] != w[b - n]);
            } else if a < n {
                assert(v[a] != w[b - n]);
            } else {
                assert(v[b] != w[a - n]);
            }
        }
    }
    assert forall|i: int, j: int|
        #![trigger after.full[i][j]]
        0 <= i < MSpanSizeClass::COUNT && 0 <= j < after.full[i].len() implies in_class(
        h2,
        after.full[i][j],
        i,
    ) && h2.span(after.full[i][j]).all_allocated() by {
        let t = after.full[i][j];
        lemma_filter(central.full[i], is_full);
        assert(central.full[i].filter(is_full)[j] == t);
        let m = choose|m: int| 0 <= m < central.full[i].len() && central.full[i][m] == t;
        assert(central.full[i][m] == t);
        assert(in_class(h, t, i));
    }
    assert forall|i: int| 0 <= i < MSpanSizeClass::COUNT implies #[trigger]
        after.full[i].no_duplicates() by {
        lemma_filter(central.full[i], is_full);
        assert(central.full[i].no_duplicates());
    }
    assert forall|c: int| 0 <= c < caches.len() implies #[trigger] cache_ok(
        h2,
        after,
        caches[c],
    ) by {
        assert(cache_ok(h, central, caches[c]));
        assert forall|i: int|
            #![trigger caches[c][i]]
            0 <= i < MSpanSizeClass::COUNT implies (caches[c][i] matches Some(s) ==> in_class(
            h2,
            s,
            i,
        ) && !h2.span(s).all_allocated() && !after.partial[i].contains(s)) by {
            if let Some(s) = caches[c][i] {
                assert(in_class(h, s, i));
                if after.partial[i].contains(s) {
                    let j = choose|j: int|
                        0 <= j < after.partial[i].len() && after.partial[i][j] == s;
                    let n = central.partial[i].len();
                    if j < n {
                        assert(central.partial[i][j] == s);
                    } else {
                        lemma_filter(central.full[i], not_full);
                        assert(central.full[i].filter(not_full)[j - n] == s);
                        let m = choose|m: int|
                            0 <= m < central.full[i].len() && central.full[i][m] == s;
                        assert(h.span(central.full[i][m]).all_allocated());
                    }
                }
            }
        }
    }
}

/// Memory that a collection frees is used again: a full span of the pool in which a block has become
/// free is handed out for requests of its class, and no new span is cut before that.
pub proof fn law_freed_span_is_used_again(
    h: HeapState,
    central: CentralState,
    size_class: MSpanSizeClass,
    s: SpanId,
    cache: Seq<Option<SpanId>>,
)
    requires
        central.partial.len() == MSpanSizeClass::COUNT,
        central.full.len() == MSpanSizeClass::COUNT,
        central.full[size_class.to_index() as int].contains(s),
        !h.span(s).full(),
    ensures
        central.resorted(h).partial[size_class.to_index() as int].contains(s),
        !central.resorted(h).full[size_class.to_index() as int].contains(s),
        source(cache, central.resorted(h), size_class) is Some,
        !exhausted(h, cache, central.resorted(h), size_class),
{
    let i = size_class.to_index() as int;
    let is_full = |s: SpanId| h.span(s).full();
    let not_full = |s: SpanId| !h.span(s).full();
    lemma_filter(central.full[i], not_full);
    lemma_filter(central.full[i], is_full);
    let w = central.full[i].filter(not_full);
    let after = central.resorted(h);
    assert(w.contains(s));
    let j = choose|j: int| 0 <= j < w.len() && w[j] == s;
    assert(after.partial[i] == central.partial[i] + w);
    assert(after.partial[i][central.partial[i].len() + j] == s);
    assert(after.full[i] == central.full[i].filter(is_full));
    if after.full[i].contains(s) {
        let m = choose|m: int| 0 <= m < after.full[i].len() && after.full[i][m] == s;
        assert(is_full(after.full[i][m]));
    }
}

} // verus!
