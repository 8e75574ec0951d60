//! No span is ever lost, and the heap grows only when it has to.

use crate::datastruct::{ManagedObject, ObjectId};
use crate::laws_allocation::request_ok;
use crate::laws_pool::{cache_ok, lemma_filter, runtime_wf};
use crate::managed_heap::{HeapState, SpanId};
use crate::mcache::{served, source, target};
use crate::mcentral::CentralState;
use crate::mspan::MSpanSizeClass;
use vstd::prelude::*;

verus! {

/// Whether span `s` is in use by a cache.
pub open spec fn in_use(h: HeapState, caches: Seq<Seq<Option<SpanId>>>, s: SpanId) -> bool {
    exists|c: int|
        0 <= c < caches.len() && #[trigger] caches[c][h.span(s).size_class.to_index() as int]
            == Some(s)
}

/// Whether span `s` is in the pool or in use by a cache.
pub open spec fn listed(
    h: HeapState,
    central: CentralState,
    caches: Seq<Seq<Option<SpanId>>>,
    s: SpanId,
) -> bool {
    let i = h.span(s).size_class.to_index() as int;
    ||| central.partial[i].contains(s)
    ||| central.full[i].contains(s)
    ||| in_use(h, caches, s)
}

/// Whether every span of the heap is in the pool or in use by a cache.
pub open spec fn nothing_lost(
    h: HeapState,
    central: CentralState,
    caches: Seq<Seq<Option<SpanId>>>,
) -> bool {
    forall|s: SpanId| s.0 < h.spans.len() ==> #[trigger] listed(h, central, caches, s)
}

/// Serving a request loses no span.
pub proof fn law_served_loses_no_span(
    before: (HeapState, Seq<Option<SpanId>>, CentralState),
    size_class: MSpanSizeClass,
    obj: ManagedObject,
    id: ObjectId,
    after: (HeapState, Seq<Option<SpanId>>, CentralState),
    caches: Seq<Seq<Option<SpanId>>>,
    c: int,
)
    requires
        0 <= c < caches.len(),
        caches[c] == before.1,
        runtime_wf(before.0, before.2, caches),
        nothing_lost(before.0, before.2, caches),
        request_ok(before, size_class, after),
        served(before, size_class, obj, id, after),
    ensures
        nothing_lost(after.0, after.2, caches.update(c, after.1)),
{
    let (h, cache, central) = before;
    let (h2, cache2, central2) = after;
    let i = size_class.to_index() as int;
    let s = target(h, cache, central, size_class);
    let caches2 = caches.update(c, cache2);
    assert(cache_ok(h, central, cache));
    crate::laws_pool::law_request_is_usable(h, central, caches, c, size_class);
    assert(h2.span(s).size_class == size_class);
    assert forall|t: SpanId| t.0 < h2.spans.len() implies #[trigger] listed(
        h2,
        central2,
        caches2,
        t,
    ) by {
        let a = h2.span(t).size_class.to_index() as int;
        if t == s {
            assert(a == i);
            if h2.span(s).all_allocated() {
                let f = central2.full[i];
                assert(f[f.len() - 1] == s);
            } else {
                assert(caches2[c][i] == Some(s));
            }
        } else {
            assert(t.0 < h.spans.len());
            assert(h2.span(t) == h.span(t));
            assert(listed(h, central, caches, t));
            if central.partial[a].contains(t) {
                let j = choose|j: int| 0 <= j < central.partial[a].len() && central.partial[a][j] == t;
                if a == i && cache[i] is None {
                    assert(central.partial[i][central.partial[i].len() - 1] == s);
                }
                assert(central2.partial[a][j] == t);
            } else if central.full[a].contains(t) {
                let j = choose|j: int| 0 <= j < central.full[a].len() && central.full[a][j] == t;
                assert(central2.full[a][j] == t);
            } else {
                let d = choose|d: int|
                    0 <= d < caches.len() && #[trigger] caches[d][h.span(
                        t,
                    ).size_class.to_index() as int] == Some(t);
                assert(caches[d][a] == Some(t));
                if d == c && a == i {
                    assert(cache[i] == Some(t));
                }
                assert(caches2[d][a] == Some(t));
            }
        }
    }
}

/// Marking loses no span.
pub proof fn law_marking_loses_no_span(
    h: HeapState,
    h2: HeapState,
    central: CentralState,
    caches: Seq<Seq<Option<SpanId>>>,
)
    requires
        nothing_lost(h, central, caches),
        h2.same_but_marks(h),
    ensures
        nothing_lost(h2, central, caches),
{
    assert forall|s: SpanId| s.0 < h2.spans.len() implies #[trigger] listed(
        h2,
        central,
        caches,
        s,
    ) by {
        assert(h2.spans[s.0 as int].same_shape(&h.spans[s.0 as int]));
        assert(listed(h, central, caches, s));
    }
}

/// A sweep loses no span.
pub proof fn law_sweep_loses_no_span(
    h: HeapState,
    h2: HeapState,
    central: CentralState,
    caches: Seq<Seq<Option<SpanId>>>,
)
    requires
        central.partial.len() == MSpanSizeClass::COUNT,
        central.full.len() == MSpanSizeClass::COUNT,
        nothing_lost(h, central, caches),
        h2.is_swept(h),
    ensures
        nothing_lost(h2, central.resorted(h2), caches),
{
    let after = central.resorted(h2);
    let is_full = |s: SpanId| h2.span(s).full();
    let not_full = |s: SpanId| !h2.span(s).full();
    assert forall|s: SpanId| s.0 < h2.spans.len() implies #[trigger] listed(
        h2,
        after,
        caches,
        s,
    ) by {
        let i = h.span(s).size_class.to_index() as int;
        assert(h2.spans[s.0 as int].is_swept(&h.spans[s.0 as int]));
        assert(listed(h, central, caches, s));
        assert(after.partial[i] == central.partial[i] + central.full[i].filter(not_full));
        assert(after.full[i] == central.full[i].filter(is_full));
        let n = central.partial[i].len();
        if central.partial[i].contains(s) {
            let j = choose|j: int| 0 <= j < n && central.partial[i][j] == s;
            assert(after.partial[i][j] == s);
        } else if central.full[i].contains(s) {
            lemma_filter(central.full[i], is_full);
            lemma_filter(central.full[i], not_full);
            if is_full(s) {
                assert(after.full[i].contains(s));
            } else {
                let w = central.full[i].filter(not_full);
                assert(w.contains(s));
                let j = choose|j: int| 0 <= j < w.len() && w[j] == s;
                assert(after.partial[i][n + j] == s);
            }
        } else {
            assert(in_use(h, caches, s));
        }
    }
}

/// The heap grows only when it has to: if a request finds no span at hand, every free block of its
/// class lies in a span that another cache is using.
pub proof fn law_grows_only_when_class_is_full(
    h: HeapState,
    central: CentralState,
    caches: Seq<Seq<Option<SpanId>>>,
    c: int,
    size_class: MSpanSizeClass,
    id: ObjectId,
)
    requires
        0 <= c < caches.len(),
        runtime_wf(h, central, caches),
        nothing_lost(h, central, caches),
        source(caches[c], central, size_class) is None,
        h.is_block(id),
        h.home(id).size_class == size_class,
    ensures
        h.allocated(id) || exists|d: int|
            0 <= d < caches.len() && d != c && #[trigger] caches[d][size_class.to_index() as int]
                == Some(h.owner(id)),
{
    let i = size_class.to_index() as int;
    let s = h.owner(id);
    h.lemma_index_in_span(id);
    h.home(id).lemma_is_block(id);
    assert(listed(h, central, caches, s));
    assert(!central.partial[i].contains(s));
    if central.full[i].contains(s) {
        let j = choose|j: int| 0 <= j < central.full[i].len() && central.full[i][j] == s;
        assert(h.span(central.full[i][j]).all_allocated());
        assert(h.home(id).allocated(h.home(id).index_of(id)));
    } else {
        assert(in_use(h, caches, s));
        let d = choose|d: int|
            0 <= d < caches.len() && #[trigger] caches[d][h.span(s).size_class.to_index() as int]
                == Some(s);
        assert(caches[d][i] == Some(s));
    }
}

} // verus!
