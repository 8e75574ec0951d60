use managed_gc::datastruct::{AllocError, ObjectId, TypeDescriptor, TypePtr};
use managed_gc::managed_heap::{is_allocated, ManagedHeap};
use managed_gc::mcache::MCache;
use managed_gc::mcentral::MCentral;
use managed_gc::mspan::MSpanSizeClass;
use managed_gc::uniform_heap::{fragmentation_recovery, pause_runtime, UniformHeap};
use managed_gc::workload::{
    all_allocated, allocate_run, class_heap_size, filled_object, growth, none_allocated,
    occupied_pages, pause_heap_size, payload_size, plain_type, register_plain_types,
    split_alternating, Workload,
};

#[test]
fn mixed_requests() {
    let sizes: Vec<usize> = (0..13).map(|i| Workload::Mixed.class_at(i).block_size()).collect();
    assert_eq!(sizes, vec![3072, 64, 64, 512, 64, 64, 512, 64, 64, 512, 3072, 64, 512]);
    assert_eq!(Workload::Mixed.class_at(30), MSpanSizeClass::B3072);
    assert_eq!(Workload::Mixed.class_at(33), MSpanSizeClass::B512);
    let large = (0..1000).filter(|i| Workload::Mixed.class_at(*i) == MSpanSizeClass::B3072).count();
    let medium = (0..1000).filter(|i| Workload::Mixed.class_at(*i) == MSpanSizeClass::B512).count();
    assert_eq!(large, 100);
    assert_eq!(medium, 300);
}

#[test]
fn any_thirty_mixed_requests_are_distributed_alike() {
    for from in [0, 1, 7, 29, 1000] {
        let count = |c: MSpanSizeClass| {
            (from..from + 30).filter(|i| Workload::Mixed.class_at(*i) == c).count()
        };
        assert_eq!(count(MSpanSizeClass::B3072), 3);
        assert_eq!(count(MSpanSizeClass::B512), 9);
        assert_eq!(count(MSpanSizeClass::B64), 18);
    }
}

#[test]
fn uniform_requests() {
    for i in 0..20 {
        assert_eq!(
            Workload::Uniform(MSpanSizeClass::B128).class_at(i),
            MSpanSizeClass::B128
        );
    }
}

#[test]
fn payload_sizes_and_types() {
    assert_eq!(payload_size(MSpanSizeClass::B64), 56);
    assert_eq!(payload_size(MSpanSizeClass::B512), 504);
    assert_eq!(payload_size(MSpanSizeClass::B3072), 3064);
    assert_eq!(
        plain_type(MSpanSizeClass::B512),
        TypeDescriptor { total_size: 512, refs_count: 0 }
    );
    let obj = filled_object(MSpanSizeClass::B64, TypePtr(3), 9);
    assert_eq!(obj.type_desc_ptr, TypePtr(3));
    assert_eq!(obj.payload, vec![9; 56]);
}

#[test]
fn plain_types_are_registered_by_class() {
    let mut heap = ManagedHeap::new(8192);
    let types = register_plain_types(&mut heap);
    assert_eq!(heap.type_descriptor(types[MSpanSizeClass::B64.to_index()]).total_size, 64);
    assert_eq!(heap.type_descriptor(types[MSpanSizeClass::B128.to_index()]).total_size, 128);
    assert_eq!(heap.type_descriptor(types[MSpanSizeClass::B256.to_index()]).total_size, 256);
    assert_eq!(heap.type_descriptor(types[MSpanSizeClass::B512.to_index()]).total_size, 512);
    assert_eq!(heap.type_descriptor(types[MSpanSizeClass::B3072.to_index()]).total_size, 3072);
}

#[test]
fn mixed_run_fills_blocks_of_every_class() {
    let mut heap = ManagedHeap::new(1024 * 1024);
    let mut central = MCentral::new();
    let mut cache = MCache::new();
    let types = register_plain_types(&mut heap);
    let ids =
        allocate_run(&mut cache, &mut central, &mut heap, Workload::Mixed, &types, 7, 100).unwrap();
    assert_eq!(ids.len(), 100);
    for i in 0..100 {
        let size_class = Workload::Mixed.class_at(i);
        let (ty, data) = heap.read_from_slot(ids[i], size_class);
        assert_eq!(ty, types[size_class.to_index()]);
        assert!(data.iter().all(|b| *b == 7));
        assert!(is_allocated(ids[i], &heap));
        for j in 0..i {
            assert_ne!(ids[i], ids[j]);
        }
    }
}

#[test]
fn mixed_run_stops_when_memory_ends() {
    let mut heap = ManagedHeap::new(6 * 4096);
    let mut central = MCentral::new();
    let mut cache = MCache::new();
    let types = register_plain_types(&mut heap);
    // Three pages for the large class, one for each of the others; the heap has just these.
    assert!(
        allocate_run(&mut cache, &mut central, &mut heap, Workload::Mixed, &types, 7, 25).is_ok()
    );
    assert_eq!(occupied_pages(&heap), 5);
    let r = allocate_run(&mut cache, &mut central, &mut heap, Workload::Mixed, &types, 7, 25);
    assert_eq!(r, Err(AllocError::OutOfMemory));
    assert_eq!(occupied_pages(&heap), 5);
}

#[test]
fn mixed_runs_take_only_the_spans_they_need() {
    let fill = |heap_size: usize, n: usize| {
        let mut heap = ManagedHeap::new(heap_size);
        let mut central = MCentral::new();
        let mut cache = MCache::new();
        let types = register_plain_types(&mut heap);
        allocate_run(&mut cache, &mut central, &mut heap, Workload::Mixed, &types, 1, n)
            .map(|_| occupied_pages(&heap))
    };
    // Three large blocks take three pages, nine medium ones two, eighteen small ones one.
    assert_eq!(fill(7 * 4096, 30), Ok(6));
    assert_eq!(fill(7 * 4096 - 1, 30), Err(AllocError::OutOfMemory));
    for k in [1, 2, 5, 40, 100] {
        assert!(fill(14976 * k + 24576, 30 * k).is_ok());
    }
}

#[test]
fn pages_are_counted() {
    let mut heap = ManagedHeap::new(10 * 4096 + 5);
    assert_eq!(occupied_pages(&heap), 0);
    heap.grow_span(MSpanSizeClass::B64).unwrap();
    assert_eq!(occupied_pages(&heap), 1);
    heap.grow_span(MSpanSizeClass::B3072).unwrap();
    assert_eq!(occupied_pages(&heap), 4);
}

#[test]
fn growth_is_never_negative() {
    assert_eq!(growth(3, 10), 7);
    assert_eq!(growth(10, 10), 0);
    assert_eq!(growth(10, 3), 0);
}

#[test]
fn heap_sizes_of_the_measurements() {
    assert_eq!(pause_heap_size(10_000), 8 * 1024 * 1024);
    assert_eq!(pause_heap_size(100_000), 12_804_096);
    assert_eq!(pause_heap_size(500_000), 64_004_096);
    assert_eq!(class_heap_size(1_000_000, MSpanSizeClass::B64), 64_000_000 + 16 * 1024 * 1024);
    assert_eq!(
        class_heap_size(1_000_000, MSpanSizeClass::B3072),
        3_072_000_000 + 16 * 1024 * 1024
    );
}

#[test]
fn lists_are_split_by_position() {
    let ids: Vec<ObjectId> = (0..5).map(|i| ObjectId(i * 10)).collect();
    let (even, odd) = split_alternating(&ids);
    assert_eq!(even, vec![ObjectId(0), ObjectId(20), ObjectId(40)]);
    assert_eq!(odd, vec![ObjectId(10), ObjectId(30)]);
    let (even, odd) = split_alternating(&[]);
    assert_eq!(even, vec![]);
    assert_eq!(odd, vec![]);
}

#[test]
fn blocks_are_asked_in_groups() {
    let mut rt = UniformHeap::new(MSpanSizeClass::B64, 64 * 1024);
    let ids = rt.wave(10, 1).unwrap();
    assert!(all_allocated(&ids, &rt.heap));
    assert!(!none_allocated(&ids, &rt.heap));
    rt.collect(&ids[0..4]);
    assert!(all_allocated(&ids[0..4], &rt.heap));
    assert!(none_allocated(&ids[4..10], &rt.heap));
    assert!(!all_allocated(&ids, &rt.heap));
    assert!(!none_allocated(&ids, &rt.heap));
    assert!(all_allocated(&[], &rt.heap));
    assert!(none_allocated(&[], &rt.heap));
}

#[test]
fn waves_take_only_the_spans_they_need() {
    let mut rt = UniformHeap::new(MSpanSizeClass::B512, 1024 * 1024);
    rt.wave(8, 1).unwrap();
    assert_eq!(occupied_pages(&rt.heap), 1);
    let more = rt.wave(1, 2).unwrap();
    assert_eq!(occupied_pages(&rt.heap), 2);
    rt.collect(&more);
    rt.wave(15, 3).unwrap();
    assert_eq!(occupied_pages(&rt.heap), 2);
    rt.wave(1, 4).unwrap();
    assert_eq!(occupied_pages(&rt.heap), 3);
}

#[test]
fn waves_fail_exactly_when_memory_ends() {
    let mut rt = UniformHeap::new(MSpanSizeClass::B64, 3 * 4096);
    assert_eq!(rt.wave(129, 1), Err(AllocError::OutOfMemory));
    let mut rt = UniformHeap::new(MSpanSizeClass::B64, 3 * 4096);
    let ids = rt.wave(128, 1).unwrap();
    assert_eq!(ids[127], ObjectId(4096 + 127 * 64));
    assert_eq!(rt.wave(1, 1), Err(AllocError::OutOfMemory));
    rt.collect(&ids[1..]);
    assert_eq!(rt.wave(1, 1), Ok(vec![ObjectId(4096)]));
}

#[test]
fn measured_heaps_have_room() {
    let n = 10_000;
    let (mut rt, roots) = pause_runtime(n, 0xCC);
    assert_eq!(roots.len(), n);
    assert_eq!(occupied_pages(&rt.heap), 157);
    rt.mark_roots(&roots);
    rt.trace();
    rt.sweep();
    assert!(all_allocated(&roots, &rt.heap));
    let n = 500;
    let size = class_heap_size(n, MSpanSizeClass::B3072);
    let mut rt = UniformHeap::new(MSpanSizeClass::B3072, size);
    assert_eq!(rt.wave(n, 0).unwrap().len(), n);
}

#[test]
fn freed_memory_is_used_again() {
    let report = fragmentation_recovery(64 * 1024 * 1024, 20_000).unwrap();
    assert_eq!(report.page_map_len, 16385);
    assert!(report.garbage_freed);
    assert!(report.roots_alive);
    assert_eq!(report.occupied_after_wave1, 313);
    assert_eq!(report.occupied_after_wave2, 469);
    assert_eq!(report.growth, 156);
}

#[test]
fn small_recoveries() {
    let report = fragmentation_recovery(8192, 0).unwrap();
    assert_eq!(report.occupied_after_wave1, 0);
    assert_eq!(report.growth, 0);
    // 32 objects, 16 kept, 32 more: one page holds them all.
    let report = fragmentation_recovery(8192, 32).unwrap();
    assert_eq!(report.occupied_after_wave1, 1);
    assert_eq!(report.occupied_after_wave2, 1);
    assert_eq!(report.growth, 0);
    assert_eq!(fragmentation_recovery(8192, 43), Err(AllocError::OutOfMemory));
    assert_eq!(fragmentation_recovery(8192, 42).unwrap().growth, 0);
}
