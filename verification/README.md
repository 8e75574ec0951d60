# managed_gc

A managed heap with two allocators and a tri-colour mark-and-sweep collector, written and verified in
Verus.

- The paged heap (`managed_heap`) is cut into spans of fixed-size blocks (`mspan`). A cache
  (`mcache`) allocates from one span per size class and exchanges spans with a central pool
  (`mcentral`).
- The bump-allocated heap (`bump_allocator`, `bump_heap`) places objects one behind the other, each
  with a header that carries its colour.
- The collector (`garbage_collector`, `bump_collector`) works on both.
- `workload` and `uniform_heap` make the runs of requests that the benchmarks measure.

What holds of the parts together is proved in the `laws_*` modules: blocks do not overlap, what was
written is read back, a collection frees exactly what no root leads to, no span is lost, and the heap
grows only when no free block of the class is left.

Words lie in memory in the byte order of the machine. The call of std that tells this order
(`memory::native_bytes`) is the only thing taken on trust, and everything is proved for both orders.

`app/` is the stress test and the benchmarks; it shares a runtime between threads behind a lock.
