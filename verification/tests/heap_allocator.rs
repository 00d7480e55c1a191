use kilojoule::heap_allocator::HeapAllocator;

#[test]
fn heap_allocator_test_basic() {
    let mut alloc = HeapAllocator::<String>::new();
    let i0 = alloc.push("v0".to_string());
    assert_eq!(i0, 0);
    let i1 = alloc.push("v1".to_string());
    assert_eq!(i1, 1);
    let i2 = alloc.push("v2".to_string());
    assert_eq!(i2, 2);

    assert_eq!(alloc.get(i0), "v0");
    assert_eq!(alloc.get(i1), "v1");
    assert_eq!(alloc.get(i2), "v2");

    alloc.free(i0);
    let i3 = alloc.push("v3".to_string());
    assert_eq!(i3, 0);
    assert_eq!(alloc.get(i3), "v3");

    alloc.free(i3);
    alloc.free(i1);

    let i4 = alloc.push("v4".to_string());
    let i5 = alloc.push("v5".to_string());
    assert_eq!(i4, 0);
    assert_eq!(i5, 1);

    assert_eq!(alloc.get(i4), "v4");
    assert_eq!(alloc.get(i5), "v5");
}

#[test]
fn heap_allocator_reuses_smallest_freed_slot() {
    let mut alloc = HeapAllocator::<u32>::new();
    for v in 0..6u32 {
        alloc.push(v);
    }
    alloc.free(4);
    alloc.free(1);
    alloc.free(3);
    assert_eq!(alloc.push(10), 1);
    assert_eq!(alloc.push(11), 3);
    assert_eq!(alloc.push(12), 4);
    assert_eq!(alloc.push(13), 6);
    *alloc.get_mut(3) = 33;
    assert_eq!(*alloc.get(3), 33);
}

#[test]
fn heap_allocator_free_list_pops_smallest() {
    let mut alloc = HeapAllocator::<u8>::new();
    for v in 0..5u8 {
        alloc.push(v);
    }
    alloc.free(2);
    alloc.free(0);
    alloc.free(4);
    assert_eq!(alloc.pop_max_idx(), Some(0));
    assert_eq!(alloc.pop_max_idx(), Some(2));
    assert_eq!(alloc.pop_max_idx(), Some(4));
    assert_eq!(alloc.pop_max_idx(), None);
}
