use managed_gc::datastruct::{
    AllocError, ManagedObject, ObjectId, TypeDescriptor, TypePtr, OBJECT_HEADER_SIZE,
    OBJECT_ID_SIZE, OBJ_HEADER_SIZE, PAGE_SIZE,
};
use managed_gc::garbage_collector::GarbageCollector;
use managed_gc::managed_heap::{is_allocated, ManagedHeap};
use managed_gc::mcache::{fitting_class, MCache};
use managed_gc::mcentral::MCentral;
use managed_gc::memory::{order_of_one, ByteOrder};
use managed_gc::mspan::MSpanSizeClass;

struct Runtime {
    heap: ManagedHeap,
    central: MCentral,
    cache: MCache,
    gc: GarbageCollector,
    leaf: TypePtr,
    node: TypePtr,
    large: TypePtr,
}

impl Runtime {
    fn new(heap_size: usize) -> Runtime {
        let mut heap = ManagedHeap::new(heap_size);
        let leaf = heap.register_type(TypeDescriptor { total_size: 64, refs_count: 0 });
        let node = heap.register_type(TypeDescriptor { total_size: 64, refs_count: 1 });
        let large = heap.register_type(TypeDescriptor { total_size: 3072, refs_count: 0 });
        Runtime {
            heap,
            central: MCentral::new(),
            cache: MCache::new(),
            gc: GarbageCollector::new(),
            leaf,
            node,
            large,
        }
    }

    fn put(
        &mut self,
        size_class: MSpanSizeClass,
        type_desc_ptr: TypePtr,
        payload: Vec<u8>,
    ) -> Result<ObjectId, AllocError> {
        let obj = ManagedObject { type_desc_ptr, payload };
        self.cache.allocate(&mut self.central, &mut self.heap, size_class, &obj)
    }

    fn put_leaf(&mut self) -> ObjectId {
        self.put(MSpanSizeClass::B64, self.leaf, vec![0xAB; 56]).unwrap()
    }

    fn put_node(&mut self, child: ObjectId) -> ObjectId {
        let mut payload = vec![0x00; 56];
        payload[0..8].copy_from_slice(&(child.0 as u64).to_ne_bytes());
        self.put(MSpanSizeClass::B64, self.node, payload).unwrap()
    }

    fn cycle(&mut self, roots: &[ObjectId]) {
        self.gc.initialize(roots, &mut self.heap);
        self.gc.trace(&mut self.heap);
        self.gc.sweep(&mut self.heap, &mut self.central);
    }

    fn alive(&self, id: ObjectId) -> bool {
        is_allocated(id, &self.heap)
    }
}

#[test]
fn constants() {
    assert_eq!(PAGE_SIZE, 4096);
    assert_eq!(OBJ_HEADER_SIZE, 8);
    assert_eq!(OBJECT_HEADER_SIZE, 40);
    assert_eq!(OBJECT_ID_SIZE, 8);
}

#[test]
fn objects_of_different_classes_are_read_back() {
    let mut rt = Runtime::new(1024 * 1024);
    let small = rt.put(MSpanSizeClass::B64, rt.leaf, vec![0xAA, 0xBB, 0xCC, 0xDD]).unwrap();
    let medium =
        rt.put(MSpanSizeClass::B512, rt.node, vec![0x11, 0x22, 0x33, 0x44, 0x55]).unwrap();
    let large = rt.put(MSpanSizeClass::B3072, rt.large, vec![0x99, 0x88, 0x77]).unwrap();
    assert_eq!(small, ObjectId(4096));
    assert_eq!(medium, ObjectId(8192));
    assert_eq!(large, ObjectId(12288));

    let (ty, data) = rt.heap.read_from_slot(small, MSpanSizeClass::B64);
    assert_eq!(ty, rt.leaf);
    assert_eq!(data.len(), 56);
    assert_eq!(&data[0..4], &[0xAA, 0xBB, 0xCC, 0xDD]);
    let (ty, data) = rt.heap.read_from_slot(medium, MSpanSizeClass::B512);
    assert_eq!(ty, rt.node);
    assert_eq!(data.len(), 504);
    assert_eq!(&data[0..5], &[0x11, 0x22, 0x33, 0x44, 0x55]);
    let (ty, data) = rt.heap.read_from_slot(large, MSpanSizeClass::B3072);
    assert_eq!(ty, rt.large);
    assert_eq!(data.len(), 3064);
    assert_eq!(&data[0..3], &[0x99, 0x88, 0x77]);
}

#[test]
fn an_exhausted_span_is_followed_by_a_new_one() {
    let mut rt = Runtime::new(1024 * 1024);
    rt.put_leaf();
    let first = rt.put(MSpanSizeClass::B3072, rt.large, vec![0x99; 3]).unwrap();
    for i in 1..4 {
        let id = rt.put(MSpanSizeClass::B3072, rt.large, vec![i as u8; 4]).unwrap();
        assert_eq!(id.0, first.0 + i * 3072);
    }
    let fifth = rt.put(MSpanSizeClass::B3072, rt.large, vec![0xFF; 4]).unwrap();
    assert_eq!(fifth.0, first.0 + 12288);
}

#[test]
fn full_spans_go_to_the_pool() {
    let mut rt = Runtime::new(1024 * 1024);
    for _ in 0..3 {
        rt.put(MSpanSizeClass::B3072, rt.large, vec![]).unwrap();
    }
    assert!(rt.cache.alloc_spans[4].is_some());
    assert_eq!(rt.central.bins[4].full.len(), 0);
    rt.put(MSpanSizeClass::B3072, rt.large, vec![]).unwrap();
    assert!(rt.cache.alloc_spans[4].is_none());
    assert_eq!(rt.central.bins[4].full.len(), 1);
    assert_eq!(rt.central.bins[4].partial.len(), 0);
}

#[test]
fn requests_fail_when_the_heap_is_exhausted() {
    let mut rt = Runtime::new(2 * 4096);
    for _ in 0..64 {
        rt.put_leaf();
    }
    let payload = vec![0; 56];
    assert_eq!(rt.put(MSpanSizeClass::B64, rt.leaf, payload), Err(AllocError::OutOfMemory));
    assert_eq!(rt.put(MSpanSizeClass::B3072, rt.large, vec![]), Err(AllocError::OutOfMemory));
    assert!(rt.alive(ObjectId(4096)));
}

#[test]
fn objects_too_large_for_their_class_get_a_larger_one() {
    assert_eq!(fitting_class(MSpanSizeClass::B64, 56), MSpanSizeClass::B64);
    assert_eq!(fitting_class(MSpanSizeClass::B64, 57), MSpanSizeClass::B128);
    assert_eq!(fitting_class(MSpanSizeClass::B64, 121), MSpanSizeClass::B256);
    assert_eq!(fitting_class(MSpanSizeClass::B128, 249), MSpanSizeClass::B512);
    assert_eq!(fitting_class(MSpanSizeClass::B512, 505), MSpanSizeClass::B3072);
    assert_eq!(fitting_class(MSpanSizeClass::B64, 3064), MSpanSizeClass::B3072);
    // A class that is larger than it has to be stays.
    assert_eq!(fitting_class(MSpanSizeClass::B512, 1), MSpanSizeClass::B512);
    // No class holds these.
    assert_eq!(fitting_class(MSpanSizeClass::B64, 3065), MSpanSizeClass::B64);
    assert_eq!(fitting_class(MSpanSizeClass::B256, usize::MAX), MSpanSizeClass::B256);
}

#[test]
fn large_objects_do_not_run_over_their_block() {
    let mut rt = Runtime::new(1024 * 1024);
    let small = rt.put_leaf();
    let large = rt.put(MSpanSizeClass::B64, rt.leaf, vec![0x55; 100]).unwrap();
    let s = rt.heap.get_span_for_page(large.0 / 4096).unwrap();
    assert_eq!(rt.heap.span(s).size_class, MSpanSizeClass::B128);
    for _ in 0..100 {
        rt.put_leaf();
        rt.put(MSpanSizeClass::B128, rt.leaf, vec![0x11; 120]).unwrap();
    }
    let (ty, data) = rt.heap.read_from_slot(large, MSpanSizeClass::B128);
    assert_eq!(ty, rt.leaf);
    assert_eq!(&data[0..100], &[0x55; 100]);
    let (_, data) = rt.heap.read_from_slot(small, MSpanSizeClass::B64);
    assert_eq!(data, &[0xAB; 56]);
}

#[test]
fn large_objects_are_refused_by_a_heap_without_room() {
    let mut rt = Runtime::new(4097);
    for len in [0, 56, 100, 3064, 3065, 5000] {
        let r = rt.put(MSpanSizeClass::B64, rt.leaf, vec![0; len]);
        assert_eq!(r, Err(AllocError::OutOfMemory));
    }
    assert_eq!(rt.cache.alloc_spans, [None; 5]);
    assert_eq!(rt.heap.get_span_for_page(1), None);
}

#[test]
fn caches_hold_spans_of_their_class_with_room() {
    let mut rt = Runtime::new(64 * 4096);
    for k in 0..40 {
        let id = rt.put(MSpanSizeClass::B512, rt.leaf, vec![k as u8; 300]).unwrap();
        let owner = rt.heap.get_span_for_page(id.0 / 4096).unwrap();
        if rt.heap.span(owner).is_full() {
            assert_eq!(rt.cache.alloc_spans[3], None);
            assert!(rt.central.bins[3].full.contains(&owner));
        } else {
            assert_eq!(rt.cache.alloc_spans[3], Some(owner));
        }
        assert_eq!(rt.heap.span(owner).is_full(), k % 8 == 7);
        assert_eq!(rt.heap.span(owner).size_class, MSpanSizeClass::B512);
    }
}

#[test]
fn collection_frees_what_no_root_leads_to() {
    let mut rt = Runtime::new(1024 * 1024);
    let trash1 = rt.put_leaf();
    let leaf = rt.put_leaf();
    let root = rt.put_node(leaf);
    let trash2 = rt.put_leaf();
    rt.cycle(&[root]);
    assert!(!rt.alive(trash1));
    assert!(!rt.alive(trash2));
    assert!(rt.alive(root));
    assert!(rt.alive(leaf));
    // The freed blocks are used again, lowest first.
    assert_eq!(rt.put_leaf(), trash1);
    assert_eq!(rt.put_leaf(), trash2);
}

#[test]
fn unreachable_cycles_are_freed_and_reachable_ones_kept() {
    let mut rt = Runtime::new(1024 * 1024);
    let a = rt.put_node(ObjectId(4096 + 64));
    let b = rt.put_node(a);
    let c = rt.put_node(ObjectId(4096 + 3 * 64));
    let d = rt.put_node(c);
    assert_eq!(rt.heap.read_references(a), vec![b.0 as u64]);
    assert_eq!(rt.heap.read_references(c), vec![d.0 as u64]);
    rt.cycle(&[b]);
    assert!(rt.alive(a));
    assert!(rt.alive(b));
    assert!(!rt.alive(c));
    assert!(!rt.alive(d));
    rt.cycle(&[]);
    assert!(!rt.alive(a));
    assert!(!rt.alive(b));
}

#[test]
fn marks_do_not_outlive_a_cycle() {
    let mut rt = Runtime::new(1024 * 1024);
    let a = rt.put_leaf();
    rt.cycle(&[a]);
    assert!(rt.alive(a));
    let s = rt.heap.get_span_for_page(1).unwrap();
    assert_eq!(rt.heap.span(s).marked_bits, [0; 4]);
    rt.cycle(&[]);
    assert!(!rt.alive(a));
}

#[test]
fn a_second_cycle_frees_nothing_more() {
    let mut rt = Runtime::new(1024 * 1024);
    let leaf = rt.put_leaf();
    let root = rt.put_node(leaf);
    let trash = rt.put_node(root);
    rt.cycle(&[root]);
    let s = rt.heap.get_span_for_page(1).unwrap();
    let bits = rt.heap.span(s).alloc_bits;
    assert_eq!(bits, [0b11, 0, 0, 0]);
    rt.cycle(&[root]);
    assert_eq!(rt.heap.span(s).alloc_bits, bits);
    assert!(rt.alive(leaf));
    assert!(!rt.alive(trash));
    assert_eq!(rt.heap.read_references(root), vec![leaf.0 as u64]);
}

#[test]
fn bad_pointers_are_not_marked() {
    let mut rt = Runtime::new(64 * 1024);
    let id = rt.put_leaf();
    let last = rt.put(MSpanSizeClass::B3072, rt.large, vec![]).unwrap();
    let gc = GarbageCollector::new();
    // The first page, a page that no span owns, past the heap, inside a block.
    for bad in [0, 64, 4095, 6 * 4096, 64 * 1024, usize::MAX, id.0 + 8, last.0 + 64] {
        assert!(!gc.mark_object(ObjectId(bad), &mut rt.heap));
    }
    assert!(gc.mark_object(id, &mut rt.heap));
    assert!(!gc.mark_object(id, &mut rt.heap));
    // A free block is a block.
    assert!(gc.mark_object(ObjectId(last.0 + 3 * 3072), &mut rt.heap));
}

#[test]
fn null_and_bad_references_are_ignored() {
    let mut rt = Runtime::new(64 * 1024);
    let null = rt.put_node(ObjectId(0));
    let inner = rt.put_node(ObjectId(null.0 + 8));
    let far = rt.put_node(ObjectId(1 << 40));
    rt.cycle(&[null, inner, far]);
    assert!(rt.alive(null));
    assert!(rt.alive(inner));
    assert!(rt.alive(far));
}

#[test]
fn written_references_are_read_back_and_followed() {
    let mut rt = Runtime::new(64 * 1024);
    let old_child = rt.put_leaf();
    let new_child = rt.put_leaf();
    let root = rt.put_node(old_child);
    assert_eq!(rt.heap.read_refs_count(root), 1);
    assert_eq!(rt.heap.read_refs_count(old_child), 0);
    rt.heap.write_reference(root, 0, new_child);
    assert_eq!(rt.heap.read_references(root), vec![new_child.0 as u64]);
    assert_eq!(rt.heap.read_from_slot(root, MSpanSizeClass::B64).0, rt.node);
    rt.cycle(&[root]);
    assert!(rt.alive(new_child));
    assert!(!rt.alive(old_child));
}

#[test]
fn words_are_laid_out_as_on_this_machine() {
    let mut rt = Runtime::new(64 * 1024);
    let child = rt.put_leaf();
    let root = rt.put_node(ObjectId(0));
    rt.heap.write_reference(root, 0, child);
    let bytes = rt.heap.read_from_slot(root, MSpanSizeClass::B64).1[0..8].to_vec();
    assert_eq!(bytes, (child.0 as u64).to_ne_bytes().to_vec());
    let little = 1u64.to_ne_bytes() == 1u64.to_le_bytes();
    assert_eq!(rt.heap.byte_order() == ByteOrder::Little, little);
    assert_eq!(order_of_one(&1u64.to_le_bytes()), ByteOrder::Little);
    assert_eq!(order_of_one(&1u64.to_be_bytes()), ByteOrder::Big);
}

#[test]
fn words_are_read_back_in_both_orders() {
    for order in [ByteOrder::Little, ByteOrder::Big] {
        let mut heap = ManagedHeap::with_order(8192, order);
        assert_eq!(heap.byte_order(), order);
        let ty = heap.register_type(TypeDescriptor { total_size: 64, refs_count: 2 });
        let obj = ManagedObject { type_desc_ptr: ty, payload: vec![0; 16] };
        heap.write_to_slot(ObjectId(4096), &obj);
        heap.write_reference(ObjectId(4096), 1, ObjectId(0x1234));
        assert_eq!(heap.read_references(ObjectId(4096)), vec![0, 0x1234]);
        let (read, data) = heap.read_from_slot(ObjectId(4096), MSpanSizeClass::B64);
        assert_eq!(read, ty);
        let expected = match order {
            ByteOrder::Little => 0x1234u64.to_le_bytes(),
            ByteOrder::Big => 0x1234u64.to_be_bytes(),
        };
        assert_eq!(&data[8..16], &expected);
    }
}

#[test]
fn references_of_several_fields() {
    let mut rt = Runtime::new(64 * 1024);
    let pair = rt.heap.register_type(TypeDescriptor { total_size: 64, refs_count: 2 });
    let a = rt.put_leaf();
    let b = rt.put_leaf();
    let root = rt.put(MSpanSizeClass::B64, pair, vec![0; 56]).unwrap();
    rt.heap.write_reference(root, 0, a);
    rt.heap.write_reference(root, 1, b);
    assert_eq!(rt.heap.read_references(root), vec![a.0 as u64, b.0 as u64]);
    rt.heap.write_reference(root, 0, ObjectId(0));
    assert_eq!(rt.heap.read_references(root), vec![0, b.0 as u64]);
    rt.cycle(&[root, root]);
    assert!(!rt.alive(a));
    assert!(rt.alive(b));
}

#[test]
fn registered_types_keep_their_addresses() {
    let mut heap = ManagedHeap::new(8192);
    let a = heap.register_type(TypeDescriptor { total_size: 64, refs_count: 3 });
    let b = heap.register_type(TypeDescriptor { total_size: 128, refs_count: 0 });
    assert_ne!(a, b);
    assert_ne!(a, TypePtr(0));
    assert_eq!(heap.type_descriptor(a), TypeDescriptor { total_size: 64, refs_count: 3 });
    assert_eq!(heap.type_descriptor(b), TypeDescriptor { total_size: 128, refs_count: 0 });
}

#[test]
fn slots_are_written_and_read_without_a_span() {
    let mut heap = ManagedHeap::new(8192);
    let obj = ManagedObject { type_desc_ptr: TypePtr(7), payload: vec![1, 2, 3] };
    heap.write_to_slot(ObjectId(5000), &obj);
    let (ty, data) = heap.read_from_slot(ObjectId(5000), MSpanSizeClass::B128);
    assert_eq!(ty, TypePtr(7));
    assert_eq!(&data[0..4], &[1, 2, 3, 0]);
    assert_eq!(data.len(), 120);
}

#[test]
fn freed_spans_of_the_pool_are_used_before_the_heap_grows() {
    let mut rt = Runtime::new(1024 * 1024);
    let ids: Vec<ObjectId> = (0..128).map(|_| rt.put_leaf()).collect();
    assert_eq!(rt.central.bins[0].full.len(), 2);
    let roots: Vec<ObjectId> = ids[0..64].to_vec();
    rt.cycle(&roots);
    assert_eq!(rt.central.bins[0].full.len(), 1);
    assert_eq!(rt.central.bins[0].partial.len(), 1);
    for k in 64..128 {
        assert_eq!(rt.put_leaf(), ids[k]);
    }
    assert_eq!(rt.put_leaf(), ObjectId(3 * 4096));
}

#[test]
fn two_caches_share_a_heap_without_sharing_spans() {
    let mut rt = Runtime::new(1024 * 1024);
    let mut other = MCache::new();
    let obj = ManagedObject { type_desc_ptr: rt.leaf, payload: vec![3; 56] };
    let mut ids: Vec<ObjectId> = Vec::new();
    for _ in 0..100 {
        ids.push(rt.put_leaf());
        ids.push(
            other.allocate(&mut rt.central, &mut rt.heap, MSpanSizeClass::B64, &obj).unwrap(),
        );
    }
    for a in 0..ids.len() {
        for b in 0..a {
            assert_ne!(ids[a], ids[b]);
        }
    }
    assert_eq!(ids[0], ObjectId(4096));
    assert_eq!(ids[1], ObjectId(8192));
    assert_ne!(rt.cache.alloc_spans[0], other.alloc_spans[0]);
}

#[test]
fn collector_flags_and_barrier_list() {
    let mut gc = GarbageCollector::new();
    gc.start_marking();
    gc.stop_marking();
    assert_eq!(gc.drain_barrier_worklist(), vec![]);
    assert_eq!(gc.drain_barrier_worklist(), vec![]);
}
