//! Reachability over object references.

use crate::datastruct::ObjectId;
use vstd::prelude::*;

verus! {

/// Whether `x` is at the end of a chain of `n` references that begins at one of `start`.
pub open spec fn reach_in(
    edge: spec_fn(ObjectId, ObjectId) -> bool,
    start: Seq<ObjectId>,
    n: nat,
    x: ObjectId,
) -> bool
    decreases n,
{
    if n == 0 {
        start.contains(x)
    } else {
        exists|a: ObjectId| reach_in(edge, start, (n - 1) as nat, a) && #[trigger] edge(a, x)
    }
}

/// Whether a chain of references leads from one of `start` to `x`.
pub open spec fn reachable(
    edge: spec_fn(ObjectId, ObjectId) -> bool,
    start: Seq<ObjectId>,
    x: ObjectId,
) -> bool {
    exists|n: nat| reach_in(edge, start, n, x)
}

/// Whether `x` is one reference away from something reachable.
pub open spec fn reachable_by_edge(
    edge: spec_fn(ObjectId, ObjectId) -> bool,
    start: Seq<ObjectId>,
    x: ObjectId,
) -> bool {
    exists|a: ObjectId| #[trigger] reachable(edge, start, a) && edge(a, x)
}

/// `edge` without the references into `avoid`.
pub open spec fn avoiding(
    edge: spec_fn(ObjectId, ObjectId) -> bool,
    avoid: spec_fn(ObjectId) -> bool,
) -> spec_fn(ObjectId, ObjectId) -> bool {
    |a: ObjectId, b: ObjectId| edge(a, b) && !avoid(b)
}

/// What the search starts from is reachable.
pub proof fn lemma_reach_start(
    edge: spec_fn(ObjectId, ObjectId) -> bool,
    start: Seq<ObjectId>,
    x: ObjectId,
)
    requires
        start.contains(x),
    ensures
        reachable(edge, start, x),
{
    assert(reach_in(edge, start, 0, x));
}

/// A reference from something reachable leads to something reachable.
pub proof fn lemma_reach_step(
    edge: spec_fn(ObjectId, ObjectId) -> bool,
    start: Seq<ObjectId>,
    a: ObjectId,
    x: ObjectId,
)
    requires
        reachable(edge, start, a),
        edge(a, x),
    ensures
        reachable(edge, start, x),
{
    let n = choose|n: nat| reach_in(edge, start, n, a);
    assert(reach_in(edge, start, n + 1, x));
}

/// A set that holds what the search starts from and is closed under references holds everything
/// reachable.
pub proof fn lemma_reach_closed(
    edge: spec_fn(ObjectId, ObjectId) -> bool,
    start: Seq<ObjectId>,
    inside: spec_fn(ObjectId) -> bool,
)
    requires
        forall|x: ObjectId| start.contains(x) ==> inside(x),
        forall|a: ObjectId, b: ObjectId| inside(a) && #[trigger] edge(a, b) ==> inside(b),
    ensures
        forall|x: ObjectId| #[trigger] reachable(edge, start, x) ==> inside(x),
{
    assert forall|x: ObjectId| #[trigger] reachable(edge, start, x) implies inside(x) by {
        let n = choose|n: nat| reach_in(edge, start, n, x);
        lemma_reach_in_closed(edge, start, inside, n, x);
    }
}

proof fn lemma_reach_in_closed(
    edge: spec_fn(ObjectId, ObjectId) -> bool,
    start: Seq<ObjectId>,
    inside: spec_fn(ObjectId) -> bool,
    n: nat,
    x: ObjectId,
)
    requires
        forall|x: ObjectId| start.contains(x) ==> inside(x),
        forall|a: ObjectId, b: ObjectId| inside(a) && #[trigger] edge(a, b) ==> inside(b),
        reach_in(edge, start, n, x),
    ensures
        inside(x),
    decreases n,
{
    if n > 0 {
        let a = choose|a: ObjectId|
            reach_in(edge, start, (n - 1) as nat, a) && #[trigger] edge(a, x);
        lemma_reach_in_closed(edge, start, inside, (n - 1) as nat, a);
    }
}

/// How many of the first `n` offsets are not in `inside`.
pub open spec fn count_outside(inside: spec_fn(ObjectId) -> bool, n: nat) -> nat
    decreases n,
{
    if n == 0 {
        0
    } else {
        count_outside(inside, (n - 1) as nat) + if inside(ObjectId((n - 1) as usize)) {
            0nat
        } else {
            1nat
        }
    }
}

/// Taking one more offset into the set leaves one fewer outside.
pub proof fn lemma_count_outside_insert(
    before: spec_fn(ObjectId) -> bool,
    after: spec_fn(ObjectId) -> bool,
    x: ObjectId,
    n: nat,
)
    requires
        n <= usize::MAX,
        x.0 < n,
        !before(x),
        forall|y: ObjectId| #[trigger] after(y) == (before(y) || y == x),
    ensures
        count_outside(before, n) == count_outside(after, n) + 1,
    decreases n,
{
    if x.0 < n - 1 {
        lemma_count_outside_insert(before, after, x, (n - 1) as nat);
    } else {
        lemma_count_outside_same(before, after, (n - 1) as nat);
    }
    assert(after(ObjectId((n - 1) as usize)) == (before(ObjectId((n - 1) as usize)) || ObjectId(
        (n - 1) as usize,
    ) == x));
}

/// Sets that agree on the first `n` offsets leave equally many of them outside.
pub proof fn lemma_count_outside_same(
    before: spec_fn(ObjectId) -> bool,
    after: spec_fn(ObjectId) -> bool,
    n: nat,
)
    requires
        n <= usize::MAX + 1,
        forall|y: ObjectId| y.0 < n ==> #[trigger] after(y) == before(y),
    ensures
        count_outside(before, n) == count_outside(after, n),
    decreases n,
{
    if n > 0 {
        lemma_count_outside_same(before, after, (n - 1) as nat);
        assert(after(ObjectId((n - 1) as usize)) == before(ObjectId((n - 1) as usize)));
    }
}

} // verus!
