//! What holds of runs of requests.

use crate::datastruct::{ManagedObject, ObjectId, TypePtr};
use crate::laws_allocation::{
    law_served_keeps_other_blocks, law_served_object_is_read_back,
    law_served_takes_one_free_block,
};
use crate::laws_pool::{law_request_is_usable, law_runtime_kept_by_served, runtime_wf};
use crate::laws_reuse::{law_served_loses_no_span, nothing_lost};
use crate::managed_heap::{HeapState, SpanId};
use crate::mcache::served;
use crate::memory::lemma_same_word;
use crate::mspan::MSpanSizeClass;
use crate::workload::{
    class_heap_bytes, is_filled, owned_pages, pause_heap_bytes, run, step, types_ok, Snapshot,
    Workload,
};
use vstd::prelude::*;

verus! {

/// The bytes of the block at `id`.
pub open spec fn block_bytes(h: HeapState, id: ObjectId) -> Seq<u8> {
    h.memory.subrange(id.0 as int, id.0 + h.size_of_block(id))
}

/// What one more request does.
pub proof fn lemma_step(
    before: Snapshot,
    size_class: MSpanSizeClass,
    ty: TypePtr,
    fill: u8,
    id: ObjectId,
    after: Snapshot,
)
    requires
        runtime_wf(before.0, before.2, seq![before.1]),
        step(before, size_class, ty, fill, id, after),
    ensures
        runtime_wf(after.0, after.2, seq![after.1]),
        nothing_lost(before.0, before.2, seq![before.1]) ==> nothing_lost(
            after.0,
            after.2,
            seq![after.1],
        ),
        after.0.order == before.0.order,
        after.0.memory.len() == before.0.memory.len(),
        after.0.types == before.0.types,
        after.0.is_block(id),
        after.0.home(id).size_class == size_class,
        !before.0.allocated(id),
        after.0.slot_type(id) == ty,
        block_bytes(after.0, id).len() == size_class.block_size(),
        forall|j: int|
            8 <= j < size_class.block_size() ==> #[trigger] block_bytes(after.0, id)[j] == fill,
        forall|x: ObjectId| #[trigger]
            after.0.allocated(x) == (before.0.allocated(x) || x == id),
        forall|x: ObjectId| #[trigger] after.0.marked(x) == before.0.marked(x),
        forall|x: ObjectId| before.0.is_block(x) ==> #[trigger] after.0.is_block(x),
        forall|x: ObjectId|
            before.0.allocated(x) ==> #[trigger] block_bytes(after.0, x) == block_bytes(
                before.0,
                x,
            ),
        forall|x: ObjectId|
            before.0.allocated(x) ==> #[trigger] after.0.slot_type(x) == before.0.slot_type(x),
{
    let obj = choose|obj: ManagedObject|
        is_filled(obj, size_class, ty, fill) && #[trigger] served(
            before,
            size_class,
            obj,
            id,
            after,
        );
    law_request_is_usable(before.0, before.2, seq![before.1], 0, size_class);
    law_runtime_kept_by_served(before, size_class, obj, id, after, seq![before.1], 0);
    assert(seq![before.1].update(0, after.1) =~= seq![after.1]);
    if nothing_lost(before.0, before.2, seq![before.1]) {
        law_served_loses_no_span(before, size_class, obj, id, after, seq![before.1], 0);
    }
    law_served_takes_one_free_block(before, size_class, obj, id, after);
    after.0.lemma_block_bounds(id);
    law_served_object_is_read_back(before, size_class, obj, id, after);
    assert forall|j: int| 8 <= j < size_class.block_size() implies #[trigger] block_bytes(
        after.0,
        id,
    )[j] == fill by {
        assert(obj.payload@[j - 8] == fill);
        assert(after.0.memory.subrange(id.0 + 8, id.0 + 8 + obj.payload.len())[j - 8]
            == after.0.memory[id.0 + j]);
    }
    assert forall|x: ObjectId|
        #![trigger block_bytes(after.0, x)]
        #![trigger after.0.slot_type(x)]
        before.0.allocated(x) implies block_bytes(after.0, x) == block_bytes(before.0, x)
        && after.0.slot_type(x) == before.0.slot_type(x) by {
        assert(after.0.is_block(x));
        assert(after.0.size_of_block(x) == before.0.size_of_block(x));
        law_served_keeps_other_blocks(before, size_class, obj, id, after, x);
        after.0.lemma_block_bounds(x);
        assert(block_bytes(after.0, x) =~= block_bytes(before.0, x));
        lemma_same_word(before.0.order, after.0.memory, before.0.memory, x.0 as int);
    }
}

/// A run is served with different blocks that were all free; they are taken afterwards, and so are the
/// blocks that were taken before, and no others. Each holds an object of the type that was asked for.
/// No mark changes, and the objects that were there before stay as they were. The invariant of the
/// runtime is kept, and no span is lost.
pub proof fn law_run(
    before: Snapshot,
    workload: Workload,
    types: Seq<TypePtr>,
    fill: u8,
    ids: Seq<ObjectId>,
    after: Snapshot,
)
    requires
        runtime_wf(before.0, before.2, seq![before.1]),
        run(before, workload, types, fill, ids, after),
    ensures
        runtime_wf(after.0, after.2, seq![after.1]),
        nothing_lost(before.0, before.2, seq![before.1]) ==> nothing_lost(
            after.0,
            after.2,
            seq![after.1],
        ),
        after.0.order == before.0.order,
        after.0.memory.len() == before.0.memory.len(),
        after.0.types == before.0.types,
        ids.no_duplicates(),
        forall|x: ObjectId| #[trigger]
            after.0.allocated(x) == (before.0.allocated(x) || ids.contains(x)),
        forall|x: ObjectId| ids.contains(x) ==> !#[trigger] before.0.allocated(x),
        forall|x: ObjectId| #[trigger] after.0.marked(x) == before.0.marked(x),
        forall|x: ObjectId| before.0.is_block(x) ==> #[trigger] after.0.is_block(x),
        forall|k: int|
            0 <= k < ids.len() ==> after.0.slot_type(#[trigger] ids[k]) == types[workload.class(
                k,
            ).to_index() as int],
        forall|x: ObjectId|
            before.0.allocated(x) ==> #[trigger] block_bytes(after.0, x) == block_bytes(
                before.0,
                x,
            ),
        forall|x: ObjectId|
            before.0.allocated(x) ==> #[trigger] after.0.slot_type(x) == before.0.slot_type(x),
    decreases ids.len(),
{
    if ids.len() > 0 {
        let n = ids.len() - 1;
        let size_class = workload.class(n);
        let ty = types[size_class.to_index() as int];
        let rest = ids.drop_last();
        let id = ids.last();
        let mid = choose|mid: Snapshot|
            run(before, workload, types, fill, rest, mid) && #[trigger] step(
                mid,
                size_class,
                ty,
                fill,
                id,
                after,
            );
        law_run(before, workload, types, fill, rest, mid);
        lemma_step(mid, size_class, ty, fill, id, after);
        assert forall|x: ObjectId| #[trigger] ids.contains(x) <==> rest.contains(x) || x == id by {
            crate::garbage_collector::lemma_contains_push(rest, id, x);
            assert(rest.push(id) =~= ids);
        }
        assert(mid.0.allocated(id) == (before.0.allocated(id) || rest.contains(id)));
        assert forall|a: int, b: int|
            0 <= a < ids.len() && 0 <= b < ids.len() && a != b implies ids[a] != ids[b] by {
            if a < n {
                assert(rest[a] == ids[a]);
                assert(rest.contains(rest[a]));
            }
            if b < n {
                assert(rest[b] == ids[b]);
                assert(rest.contains(rest[b]));
            }
        }
        assert forall|x: ObjectId| #[trigger]
            after.0.allocated(x) == (before.0.allocated(x) || ids.contains(x)) by {
            assert(mid.0.allocated(x) == (before.0.allocated(x) || rest.contains(x)));
        }
        assert forall|x: ObjectId| #[trigger] after.0.marked(x) == before.0.marked(x) by {
            assert(mid.0.marked(x) == before.0.marked(x));
        }
        assert forall|x: ObjectId| before.0.is_block(x) implies #[trigger] after.0.is_block(x) by {
            assert(mid.0.is_block(x));
        }
        assert forall|k: int| 0 <= k < ids.len() implies after.0.slot_type(#[trigger] ids[k])
            == types[workload.class(k).to_index() as int] by {
            if k < n {
                assert(rest[k] == ids[k]);
                assert(rest.contains(rest[k]));
                assert(mid.0.allocated(rest[k]));
            }
        }
        assert forall|x: ObjectId|
            #![trigger block_bytes(after.0, x)]
            #![trigger after.0.slot_type(x)]
            before.0.allocated(x) implies block_bytes(after.0, x) == block_bytes(before.0, x)
            && after.0.slot_type(x) == before.0.slot_type(x) by {
            assert(mid.0.allocated(x));
            assert(block_bytes(mid.0, x) == block_bytes(before.0, x));
            assert(mid.0.slot_type(x) == before.0.slot_type(x));
        }
    }
}

/// Every block of a run is as large as its class says, and holds the given byte everywhere behind the
/// type word.
pub proof fn law_run_fills_blocks(
    before: Snapshot,
    workload: Workload,
    types: Seq<TypePtr>,
    fill: u8,
    ids: Seq<ObjectId>,
    after: Snapshot,
    k: int,
    j: int,
)
    requires
        runtime_wf(before.0, before.2, seq![before.1]),
        run(before, workload, types, fill, ids, after),
        0 <= k < ids.len(),
    ensures
        after.0.allocated(ids[k]),
        block_bytes(after.0, ids[k]).len() == workload.class(k).block_size(),
        8 <= j < workload.class(k).block_size() ==> block_bytes(after.0, ids[k])[j] == fill,
    decreases ids.len(),
{
    let n = ids.len() - 1;
    let size_class = workload.class(n);
    let ty = types[size_class.to_index() as int];
    let rest = ids.drop_last();
    let mid = choose|mid: Snapshot|
        run(before, workload, types, fill, rest, mid) && #[trigger] step(
            mid,
            size_class,
            ty,
            fill,
            ids.last(),
            after,
        );
    law_run(before, workload, types, fill, rest, mid);
    lemma_step(mid, size_class, ty, fill, ids.last(), after);
    if k < n {
        law_run_fills_blocks(before, workload, types, fill, rest, mid, k, j);
        assert(rest[k] == ids[k]);
        assert(block_bytes(after.0, ids[k]) == block_bytes(mid.0, ids[k]));
    }
}

/// Two runs for one class in a row are one run.
pub proof fn law_runs_join(
    before: Snapshot,
    size_class: MSpanSizeClass,
    types: Seq<TypePtr>,
    fill: u8,
    first: Seq<ObjectId>,
    mid: Snapshot,
    second: Seq<ObjectId>,
    after: Snapshot,
)
    requires
        run(before, Workload::Uniform(size_class), types, fill, first, mid),
        run(mid, Workload::Uniform(size_class), types, fill, second, after),
    ensures
        run(before, Workload::Uniform(size_class), types, fill, first + second, after),
    decreases second.len(),
{
    let w = Workload::Uniform(size_class);
    if second.len() == 0 {
        assert(first + second =~= first);
    } else {
        let ty = types[size_class.to_index() as int];
        let rest = second.drop_last();
        let last = choose|last: Snapshot|
            run(mid, w, types, fill, rest, last) && #[trigger] step(
                last,
                size_class,
                ty,
                fill,
                second.last(),
                after,
            );
        law_runs_join(before, size_class, types, fill, first, mid, rest, last);
        assert((first + second).drop_last() =~= first + rest);
        assert((first + second).last() == second.last());
    }
}

/// A run of no requests changes nothing; the last request of a longer one is served for an object of the
/// type and the class that are due, which the given byte fills.
pub proof fn law_run_is_made_of_requests(
    before: Snapshot,
    workload: Workload,
    types: Seq<TypePtr>,
    fill: u8,
    ids: Seq<ObjectId>,
    after: Snapshot,
    c: MSpanSizeClass,
)
    requires
        run(before, workload, types, fill, ids, after),
        c == workload.class(ids.len() - 1),
    ensures
        ids.len() == 0 ==> after == before,
        ids.len() > 0 ==> exists|mid: Snapshot, obj: ManagedObject|
            {
                &&& run(before, workload, types, fill, ids.drop_last(), mid)
                &&& #[trigger] served(mid, c, obj, ids.last(), after)
                &&& obj.type_desc_ptr == types[c.to_index() as int]
                &&& obj.payload@.len() + 8 == c.block_size()
                &&& forall|j: int| 0 <= j < obj.payload@.len() ==> obj.payload@[j] == fill
            },
{
    if ids.len() > 0 {
        let ty = types[c.to_index() as int];
        let mid = choose|mid: Snapshot|
            run(before, workload, types, fill, ids.drop_last(), mid) && #[trigger] step(
                mid,
                c,
                ty,
                fill,
                ids.last(),
                after,
            );
        let obj = choose|obj: ManagedObject|
            is_filled(obj, c, ty, fill) && #[trigger] served(mid, c, obj, ids.last(), after);
        assert(served(mid, c, obj, ids.last(), after));
    }
}

/// Among mixed requests, those whose number is a multiple of ten are for the largest class, other
/// multiples of three for blocks of 512 bytes, and the rest for the smallest class.
pub proof fn law_mixed_class(i: int, q: int, r: int)
    ensures
        i == 10 * q ==> Workload::Mixed.class(i).block_size() == 3072,
        i == 3 * q && i == 10 * r + 1 ==> Workload::Mixed.class(i).block_size() == 512,
        i == 10 * q + r && 0 < r < 10 ==> Workload::Mixed.class(i) != MSpanSizeClass::B3072,
        i == 3 * q && Workload::Mixed.class(i) != MSpanSizeClass::B3072 ==> Workload::Mixed.class(
            i,
        ).block_size() == 512,
        i == 3 * q + r && 0 < r < 3 && Workload::Mixed.class(i) != MSpanSizeClass::B3072
            ==> Workload::Mixed.class(i).block_size() == 64,
{
}

/// All requests for one class are for that class.
pub proof fn law_uniform_class(size_class: MSpanSizeClass, i: int)
    ensures
        Workload::Uniform(size_class).class(i) == size_class,
{
}

/// The table of plain types holds, for every class, a type as large as its blocks and without
/// references.
pub proof fn law_plain_types(h: HeapState, types: Seq<TypePtr>, size_class: MSpanSizeClass)
    requires
        types_ok(h, types),
    ensures
        ({
            let p = types[size_class.to_index() as int];
            &&& 1 <= p.0 <= h.types.len()
            &&& h.types[p.0 - 1].total_size == size_class.block_size()
            &&& h.types[p.0 - 1].refs_count == 0
        }),
{
    assert(h.is_type(types[size_class.to_index() as int]));
}

/// Counting pages goes page by page: a page counts one if it belongs to a span, and nothing otherwise.
pub proof fn law_owned_pages(a: Seq<Option<SpanId>>, b: Seq<Option<SpanId>>, s: SpanId)
    ensures
        owned_pages(a + b) == owned_pages(a) + owned_pages(b),
        owned_pages(seq![Some(s)]) == 1,
        owned_pages(seq![None]) == 0,
        owned_pages(Seq::empty()) == 0,
    decreases b.len(),
{
    reveal_with_fuel(owned_pages, 2);
    assert(seq![Some(s)].drop_last() =~= Seq::empty());
    assert(seq![None::<SpanId>].drop_last() =~= Seq::empty());
    if b.len() == 0 {
        assert(a + b =~= a);
    } else {
        law_owned_pages(a, b.drop_last(), s);
        assert((a + b).drop_last() =~= a + b.drop_last());
        assert((a + b).last() == b.last());
    }
}

/// The heap for the measurement of pauses has two small blocks and a page for every object, and eight
/// mebibytes, and is no larger than one of these asks for. The heap for the measurement of one class has
/// a block for every object and sixteen mebibytes.
pub proof fn law_heap_sizes(n: int, size_class: MSpanSizeClass)
    ensures
        pause_heap_bytes(n) >= 2 * (64 * n) + 4096,
        pause_heap_bytes(n) >= 8 * 1024 * 1024,
        pause_heap_bytes(n) == 2 * (64 * n) + 4096 || pause_heap_bytes(n) == 8 * 1024 * 1024,
        class_heap_bytes(n, size_class) - 16 * 1024 * 1024 == n * size_class.block_size(),
{
}

/// How many of the `n` requests from number `from` on ask for the class.
pub open spec fn class_count(
    workload: Workload,
    from: int,
    n: nat,
    size_class: MSpanSizeClass,
) -> nat
    decreases n,
{
    if n == 0 {
        0
    } else {
        class_count(workload, from, (n - 1) as nat, size_class) + if workload.class(from + n - 1)
            == size_class {
            1nat
        } else {
            0nat
        }
    }
}

/// The first request of a run counts as well as the last one.
proof fn lemma_class_count_first(workload: Workload, from: int, n: nat, size_class: MSpanSizeClass)
    requires
        n > 0,
    ensures
        class_count(workload, from, n, size_class) == class_count(
            workload,
            from + 1,
            (n - 1) as nat,
            size_class,
        ) + if workload.class(from) == size_class {
            1nat
        } else {
            0nat
        },
    decreases n,
{
    if n > 1 {
        lemma_class_count_first(workload, from, (n - 1) as nat, size_class);
        assert(from + 1 + (n - 1) - 1 == from + n - 1);
    } else {
        assert(class_count(workload, from, 0, size_class) == 0);
    }
}

/// Of any thirty mixed requests in a row, three ask for a block of the largest class, nine for one of
/// 512 bytes and eighteen for a small one: ten, thirty and sixty percent.
pub proof fn law_mixed_distribution(from: int)
    requires
        0 <= from,
    ensures
        class_count(Workload::Mixed, from, 30, MSpanSizeClass::B3072) == 3,
        class_count(Workload::Mixed, from, 30, MSpanSizeClass::B512) == 9,
        class_count(Workload::Mixed, from, 30, MSpanSizeClass::B64) == 18,
    decreases from,
{
    if from == 0 {
        reveal_with_fuel(class_count, 31);
    } else {
        law_mixed_distribution(from - 1);
        lemma_window_moves(from - 1, MSpanSizeClass::B3072);
        lemma_window_moves(from - 1, MSpanSizeClass::B512);
        lemma_window_moves(from - 1, MSpanSizeClass::B64);
    }
}

/// Thirty requests on, the classes repeat.
proof fn lemma_window_moves(from: int, size_class: MSpanSizeClass)
    requires
        0 <= from,
    ensures
        class_count(Workload::Mixed, from + 1, 30, size_class) == class_count(
            Workload::Mixed,
            from,
            30,
            size_class,
        ),
{
    lemma_class_count_first(Workload::Mixed, from, 31, size_class);
    assert((from + 30) % 10 == from % 10);
    assert((from + 30) % 3 == from % 3);
    assert(Workload::Mixed.class(from + 30) == Workload::Mixed.class(from));
}

} // verus!
