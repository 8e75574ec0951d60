use managed_gc::bump_allocator::BumpAllocator;
use managed_gc::bump_heap::{ManagedHeap, ManagedObject};
use managed_gc::datastruct::{AllocError, GcColor, ObjectHeader, ObjectId};
use managed_gc::garbage_collector::GarbageCollector;
use managed_gc::memory::ByteOrder;

fn object(references: Vec<ObjectId>, payload: Vec<u8>) -> ManagedObject {
    ManagedObject { id: ObjectId(0), references, payload }
}

#[test]
fn test_heap_serialization_and_alignment() {
    // A modest heap of 256 bytes.
    let mut heap = ManagedHeap::new(256);

    // A plain object whose payload is aligned already: 40 + 16 + 8 = 64 bytes.
    let obj1 = ManagedObject {
        id: ObjectId(0),
        references: vec![ObjectId(10), ObjectId(20)],
        payload: vec![1, 2, 3, 4, 5, 6, 7, 8],
    };

    let id1 = heap.write_object(&obj1).expect("Failed to write obj1");
    assert_eq!(id1.0, 0, "Первый объект должен начинаться с начала кучи (смещение 0)");

    let read_obj1 = heap.read_object(id1).expect("Failed to read obj1");
    assert_eq!(read_obj1.references, obj1.references);
    assert_eq!(read_obj1.payload, obj1.payload);

    // A payload of three bytes is padded to eight: 40 + 0 + 8 = 48 bytes.
    let obj2 = ManagedObject {
        id: ObjectId(0),
        references: vec![],
        payload: vec![0xAA, 0xBB, 0xCC],
    };

    let id2 = heap.write_object(&obj2).expect("Failed to write obj2");
    assert_eq!(id2.0, 64, "Второй объект должен лечь сразу за первым");

    let read_obj2 = heap.read_object(id2).expect("Failed to read obj2");
    assert_eq!(read_obj2.references, obj2.references);
    assert_eq!(read_obj2.payload, obj2.payload);

    // The third object shows whether the second one was padded: 64 + 48 = 112.
    let obj3 = ManagedObject {
        id: ObjectId(0),
        references: vec![id1, id2],
        payload: vec![42],
    };
    let id3 = heap.write_object(&obj3).expect("Failed to write obj3");
    assert_eq!(id3.0, 112, "Третий объект сместился неверно. Проблема с выравниванием payload у obj2!");

    let read_obj3 = heap.read_object(id3).expect("Failed to read obj3");
    assert_eq!(read_obj3.references, vec![id1, id2]);
    assert_eq!(read_obj3.payload, vec![42]);

    // The next object would begin at 176, so 80 bytes are free; this one takes 40 + 104.
    let big_obj = ManagedObject {
        id: ObjectId(0),
        references: vec![],
        payload: vec![0; 100],
    };

    let oom_result = heap.write_object(&big_obj);
    assert!(oom_result.is_err(), "Аллокатор должен был вернуть ошибку OutOfMemory");
}

#[test]
fn test_garbage_collector_lifecycle() {
    let mut heap = ManagedHeap::new(256);
    let mut gc = GarbageCollector::new();

    // The live object, a root: 40 + 0 + 8 = 48 bytes.
    let root_obj = ManagedObject {
        id: ObjectId(0),
        references: vec![],
        payload: vec![1, 2, 3, 4],
    };
    let root_id = heap.write_object(&root_obj).expect("Failed to write root_obj");

    // Two objects that refer to each other, 48 bytes each.
    let cyclic1_id = ObjectId(48);
    let cyclic2_id = ObjectId(96);

    let cyclic1_obj = ManagedObject {
        id: ObjectId(0),
        references: vec![cyclic2_id],
        payload: vec![],
    };
    let id_c1 = heap.write_object(&cyclic1_obj).expect("Failed to write cyclic1");
    assert_eq!(id_c1, cyclic1_id, "Проверка топологии: cyclic1 лег не на свое расчетное смещение");

    let cyclic2_obj = ManagedObject {
        id: ObjectId(0),
        references: vec![cyclic1_id],
        payload: vec![],
    };
    let id_c2 = heap.write_object(&cyclic2_obj).expect("Failed to write cyclic2");
    assert_eq!(id_c2, cyclic2_id, "Проверка топологии: cyclic2 лег не на свое расчетное смещение");

    // All three are white before the collection.
    assert_eq!(heap.read_header(root_id).unwrap().color, GcColor::White);
    assert_eq!(heap.read_header(cyclic1_id).unwrap().color, GcColor::White);
    assert_eq!(heap.read_header(cyclic2_id).unwrap().color, GcColor::White);
    assert_eq!(heap.read_header(cyclic1_id).unwrap().refs_count, 1);

    // The cycle cannot be reached from the root.
    let roots = vec![root_id];
    gc.collect(&mut heap, &roots).expect("GC collection failed");

    let root_header = heap.read_header(root_id).unwrap();
    let c1_header = heap.read_header(cyclic1_id).unwrap();
    let c2_header = heap.read_header(cyclic2_id).unwrap();

    assert_eq!(root_header.color, GcColor::White, "Живой объект потерял маркер доступности");

    assert_eq!(c1_header.color, GcColor::White);
    assert_eq!(c2_header.color, GcColor::White);

    assert_eq!(c1_header.refs_count, 0, "GC не очистил связи у мертвого объекта cyclic1");
    assert_eq!(c2_header.refs_count, 0, "GC не очистил связи у мертвого объекта cyclic2");
}

#[test]
fn written_objects_get_their_own_identifier() {
    let mut heap = ManagedHeap::new(256);
    let a = heap.write_object(&object(vec![], vec![1; 8])).unwrap();
    let b = heap.write_object(&object(vec![a], vec![])).unwrap();
    assert_eq!(heap.read_object(b).unwrap().id, b);
    assert_eq!(heap.read_header(b).unwrap().id, ObjectId(48));
}

#[test]
fn later_objects_leave_earlier_ones_alone() {
    let mut heap = ManagedHeap::new(1024);
    let a = heap.write_object(&object(vec![ObjectId(7)], vec![1, 2, 3])).unwrap();
    let header = heap.read_header(a).unwrap();
    for i in 0..5u8 {
        heap.write_object(&object(vec![a; 3], vec![i; 17])).unwrap();
    }
    let read = heap.read_object(a).unwrap();
    assert_eq!(read.references, vec![ObjectId(7)]);
    assert_eq!(read.payload, vec![1, 2, 3]);
    assert_eq!(heap.read_header(a).unwrap(), header);
}

#[test]
fn heap_is_filled_to_the_last_byte() {
    let mut heap = ManagedHeap::new(96);
    assert_eq!(heap.write_object(&object(vec![], vec![0; 8])), Ok(ObjectId(0)));
    assert_eq!(heap.write_object(&object(vec![], vec![0; 9])), Err(AllocError::OutOfMemory));
    assert_eq!(heap.write_object(&object(vec![], vec![0; 1])), Ok(ObjectId(48)));
    assert_eq!(heap.write_object(&object(vec![], vec![])), Err(AllocError::OutOfMemory));
}

#[test]
fn reading_past_the_objects_fails() {
    let mut heap = ManagedHeap::new(256);
    assert_eq!(heap.read_header(ObjectId(0)), Err(AllocError::InvalidPointer));
    heap.write_object(&object(vec![], vec![])).unwrap();
    assert!(heap.read_header(ObjectId(0)).is_ok());
    assert_eq!(heap.read_header(ObjectId(40)), Err(AllocError::InvalidPointer));
    assert_eq!(heap.read_header(ObjectId(usize::MAX)), Err(AllocError::InvalidPointer));
    assert!(matches!(heap.read_object(ObjectId(40)), Err(AllocError::InvalidPointer)));
}

#[test]
fn objects_are_found_at_their_offsets_only() {
    let mut heap = ManagedHeap::new(512);
    let a = heap.write_object(&object(vec![], vec![1; 10])).unwrap();
    let b = heap.write_object(&object(vec![a, a], vec![])).unwrap();
    assert!(heap.contains(a));
    assert!(heap.contains(b));
    assert!(!heap.contains(ObjectId(8)));
    assert!(!heap.contains(ObjectId(b.0 + 56)));
    assert!(!heap.contains(ObjectId(511)));
}

#[test]
fn collection_follows_chains_of_references() {
    let mut heap = ManagedHeap::new(1024);
    let mut gc = GarbageCollector::new();
    let leaf = heap.write_object(&object(vec![], vec![5])).unwrap();
    let mid = heap.write_object(&object(vec![leaf], vec![6])).unwrap();
    let root = heap.write_object(&object(vec![mid, mid], vec![7])).unwrap();
    let dead = heap.write_object(&object(vec![root, leaf], vec![8])).unwrap();
    assert_eq!(gc.collect(&mut heap, &[root]), Ok(()));
    assert_eq!(heap.read_object(root).unwrap().references, vec![mid, mid]);
    assert_eq!(heap.read_object(mid).unwrap().references, vec![leaf]);
    assert_eq!(heap.read_object(leaf).unwrap().payload, vec![5]);
    assert_eq!(heap.read_object(root).unwrap().payload, vec![7]);
    let header = heap.read_header(dead).unwrap();
    assert_eq!(header.refs_count, 0);
    assert_eq!(header.payload_size, 1);
    assert_eq!(header.size, 64);
    assert_eq!(heap.read_object(dead).unwrap().references, vec![]);
}

#[test]
fn live_cycles_survive() {
    let mut heap = ManagedHeap::new(512);
    let mut gc = GarbageCollector::new();
    let a = heap.write_object(&object(vec![ObjectId(48)], vec![])).unwrap();
    let b = heap.write_object(&object(vec![a], vec![])).unwrap();
    assert_eq!(b, ObjectId(48));
    assert_eq!(gc.collect(&mut heap, &[b]), Ok(()));
    assert_eq!(heap.read_object(a).unwrap().references, vec![b]);
    assert_eq!(heap.read_object(b).unwrap().references, vec![a]);
    assert_eq!(heap.read_header(a).unwrap().color, GcColor::White);
}

#[test]
fn collecting_again_changes_nothing() {
    let mut heap = ManagedHeap::new(512);
    let mut gc = GarbageCollector::new();
    let a = heap.write_object(&object(vec![], vec![1])).unwrap();
    let b = heap.write_object(&object(vec![a], vec![2])).unwrap();
    let c = heap.write_object(&object(vec![b], vec![3])).unwrap();
    gc.collect(&mut heap, &[b]).unwrap();
    let before = [heap.read_header(a), heap.read_header(b), heap.read_header(c)];
    assert_eq!(gc.collect(&mut heap, &[b]), Ok(()));
    assert_eq!(before, [heap.read_header(a), heap.read_header(b), heap.read_header(c)]);
}

#[test]
fn without_roots_everything_is_garbage() {
    let mut heap = ManagedHeap::new(512);
    let mut gc = GarbageCollector::new();
    let a = heap.write_object(&object(vec![], vec![1])).unwrap();
    let b = heap.write_object(&object(vec![a, a, a], vec![2])).unwrap();
    assert_eq!(gc.collect(&mut heap, &[]), Ok(()));
    assert_eq!(heap.read_header(b).unwrap().refs_count, 0);
    assert_eq!(heap.write_object(&object(vec![], vec![])), Ok(ObjectId(48 + 72)));
}

#[test]
fn dangling_references_fail_the_collection_and_change_nothing() {
    let mut heap = ManagedHeap::new(512);
    let mut gc = GarbageCollector::new();
    let a = heap.write_object(&object(vec![], vec![1])).unwrap();
    let b = heap.write_object(&object(vec![a, ObjectId(12)], vec![2])).unwrap();
    let dead = heap.write_object(&object(vec![a], vec![3])).unwrap();
    let before = [heap.read_header(a), heap.read_header(b), heap.read_header(dead)];
    assert_eq!(gc.collect(&mut heap, &[b]), Err(AllocError::InvalidPointer));
    assert_eq!(before, [heap.read_header(a), heap.read_header(b), heap.read_header(dead)]);
    assert_eq!(gc.collect(&mut heap, &[ObjectId(500)]), Err(AllocError::InvalidPointer));
    // The bad reference does no harm where it cannot be reached.
    assert_eq!(gc.collect(&mut heap, &[dead]), Ok(()));
    assert_eq!(heap.read_object(dead).unwrap().references, vec![a]);
    assert_eq!(heap.read_header(b).unwrap().refs_count, 0);
}

#[test]
fn thousand_dead_objects_are_walked() {
    let mut heap = ManagedHeap::new(128 * 1024);
    let mut gc = GarbageCollector::new();
    let root = heap.write_object(&object(vec![], vec![1, 2, 3, 4])).unwrap();
    for _ in 0..1000 {
        heap.write_object(&object(vec![], vec![0; 16])).unwrap();
    }
    assert_eq!(gc.collect(&mut heap, &[root]), Ok(()));
    assert_eq!(heap.read_object(root).unwrap().payload, vec![1, 2, 3, 4]);
}

#[test]
fn unreachable_bad_references_do_no_harm() {
    let mut heap = ManagedHeap::new(65536);
    let mut gc = GarbageCollector::new();
    let root = heap.write_object(&object(vec![], vec![1, 2, 3, 4, 5, 6, 7, 8])).unwrap();
    // Neither 112 nor 64 is the offset of an object.
    let c1 = heap.write_object(&object(vec![ObjectId(112)], vec![])).unwrap();
    let c2 = heap.write_object(&object(vec![ObjectId(64)], vec![])).unwrap();
    assert_eq!((root, c1, c2), (ObjectId(0), ObjectId(48), ObjectId(96)));
    gc.collect(&mut heap, &[root]).unwrap();
    assert_eq!(heap.read_object(root).unwrap().payload, vec![1, 2, 3, 4, 5, 6, 7, 8]);
    assert_eq!(heap.read_header(c1).unwrap().refs_count, 0);
    assert_eq!(heap.read_header(c2).unwrap().refs_count, 0);
}

#[test]
fn allocator_writes_headers() {
    let mut a = BumpAllocator::new(128);
    assert_eq!(a.capacity(), 128);
    assert_eq!(a.allocate(2, 3), Ok(ObjectId(0)));
    assert_eq!(
        a.read_header(ObjectId(0)),
        Ok(ObjectHeader {
            id: ObjectId(0),
            color: GcColor::White,
            size: 64,
            refs_count: 2,
            payload_size: 3,
        })
    );
    assert!(!a.over_next(ObjectId(63)));
    assert!(a.over_next(ObjectId(64)));
    assert_eq!(a.allocate(0, 25), Err(AllocError::OutOfMemory));
    assert_eq!(a.allocate(3, 0), Ok(ObjectId(64)));
    assert_eq!(a.allocate(0, 0), Err(AllocError::OutOfMemory));
}

#[test]
fn allocator_refuses_sizes_that_do_not_fit_a_word() {
    let mut a = BumpAllocator::new(4096);
    assert_eq!(a.allocate(0, usize::MAX), Err(AllocError::OutOfMemory));
    assert_eq!(a.allocate(usize::MAX, 0), Err(AllocError::OutOfMemory));
    assert_eq!(a.allocate(usize::MAX / 8 + 1, 8), Err(AllocError::OutOfMemory));
    assert_eq!(a.allocate(0, 4056), Ok(ObjectId(0)));
}

#[test]
fn updated_headers_are_read_back() {
    let mut a = BumpAllocator::new(128);
    let id = a.allocate(0, 8).unwrap();
    let header = ObjectHeader { color: GcColor::Grey, ..a.read_header(id).unwrap() };
    assert_eq!(a.update_header(id, header), Ok(()));
    assert_eq!(a.read_header(id), Ok(header));
    let header = ObjectHeader { color: GcColor::Black, ..header };
    assert_eq!(a.update_header(id, header), Ok(()));
    assert_eq!(a.read_header(id).unwrap().color, GcColor::Black);
    // The next object begins where it would have begun.
    assert_eq!(a.allocate(0, 0), Ok(ObjectId(48)));
    assert_eq!(a.update_header(ObjectId(89), header), Err(AllocError::InvalidPointer));
    assert_eq!(a.update_header(ObjectId(88), header), Ok(()));
    assert_eq!(a.update_header(ObjectId(usize::MAX), header), Err(AllocError::InvalidPointer));
}

#[test]
fn headers_lie_below_the_next_object() {
    let mut a = BumpAllocator::with_order(256, ByteOrder::Little);
    a.allocate(0, 0).unwrap();
    assert!(a.read_header(ObjectId(0)).is_ok());
    // The last bytes of these would belong to no object.
    for at in [1, 8, 16, 24, 39, 40, 216, 256] {
        assert_eq!(a.read_header(ObjectId(at)), Err(AllocError::InvalidPointer));
        assert_eq!(a.read_references(ObjectId(at)), Err(AllocError::InvalidPointer));
    }
    // More memory has been handed out, so 40 bytes lie there now, and they are read as they are.
    a.allocate(0, 8).unwrap();
    assert_eq!(a.read_header(ObjectId(16)).unwrap().id, ObjectId(40));
    // The size is where the colour would be, and stands for none.
    assert_eq!(a.read_header(ObjectId(8)), Err(AllocError::InvalidPointer));
}

#[test]
fn headers_are_laid_out_as_on_this_machine() {
    let mut a = BumpAllocator::new(256);
    let id = a.allocate(2, 3).unwrap();
    assert_eq!(a.read_bytes(24, 8), 2u64.to_ne_bytes().to_vec());
    assert_eq!(a.read_bytes(32, 8), 3u64.to_ne_bytes().to_vec());
    a.write_reference(40, ObjectId(0x0102));
    assert_eq!(a.read_bytes(40, 8), 0x0102u64.to_ne_bytes().to_vec());
    assert_eq!(a.read_references(id), Ok(vec![ObjectId(0x0102), ObjectId(0)]));
    let little = 1u64.to_ne_bytes() == 1u64.to_le_bytes();
    assert_eq!(a.byte_order() == ByteOrder::Little, little);
}

#[test]
fn objects_are_read_back_in_both_orders() {
    for order in [ByteOrder::Little, ByteOrder::Big] {
        let mut heap = ManagedHeap::with_order(512, order);
        let mut gc = GarbageCollector::new();
        let a = heap.write_object(&object(vec![], vec![1, 2, 3])).unwrap();
        let b = heap.write_object(&object(vec![a, a], vec![4])).unwrap();
        let dead = heap.write_object(&object(vec![b], vec![])).unwrap();
        assert_eq!(b, ObjectId(48));
        assert_eq!(gc.collect(&mut heap, &[b]), Ok(()));
        assert_eq!(heap.read_object(b).unwrap().references, vec![a, a]);
        assert_eq!(heap.read_object(a).unwrap().payload, vec![1, 2, 3]);
        assert_eq!(heap.read_header(dead).unwrap().refs_count, 0);
    }
}

#[test]
fn allocations_stay_aligned() {
    let mut a = BumpAllocator::new(4096);
    for payload in 0..20 {
        let id = a.allocate(payload % 3, payload).unwrap();
        assert_eq!(id.0 % 8, 0);
        assert_eq!(a.read_header(id).unwrap().size % 8, 0);
    }
}

#[test]
fn object_positions() {
    let a = BumpAllocator::new(100);
    assert_eq!(a.get_object_ptr(ObjectId(0)), Ok(0));
    assert_eq!(a.get_object_ptr(ObjectId(60)), Ok(60));
    assert_eq!(a.get_object_ptr(ObjectId(61)), Err(AllocError::InvalidPointer));
}

#[test]
fn references_are_read_from_behind_the_header() {
    let mut a = BumpAllocator::with_order(128, ByteOrder::Little);
    let id = a.allocate(2, 0).unwrap();
    assert_eq!(a.read_references(id), Ok(vec![ObjectId(0), ObjectId(0)]));
    a.write_bytes(40, &[5, 1, 0, 0, 0, 0, 0, 0]);
    a.write_bytes(48, &[48, 0, 0, 0, 0, 0, 0, 0]);
    assert_eq!(a.read_references(id), Ok(vec![ObjectId(261), ObjectId(48)]));
    assert_eq!(a.read_bytes(40, 2), vec![5, 1]);
    assert_eq!(a.read_references(ObjectId(56)), Err(AllocError::InvalidPointer));
    let header = ObjectHeader { refs_count: 12, ..a.read_header(id).unwrap() };
    a.update_header(id, header).unwrap();
    assert_eq!(a.read_references(id), Err(AllocError::InvalidPointer));
    let header = ObjectHeader { refs_count: 11, ..header };
    a.update_header(id, header).unwrap();
    assert_eq!(a.read_references(id).unwrap().len(), 11);
}
