use stacker::heap::{BytesRef, Heap, HeapAllocable};

struct Counter {
    count: u32,
    addr: u32,
}

impl HeapAllocable for Counter {
    fn with_addr(addr: u32) -> Counter {
        Counter { count: 0, addr }
    }
}

#[test]
fn test_bytes_ref_null() {
    assert!(BytesRef::null().is_null());
    assert!(BytesRef::default().is_null());
    assert_eq!(BytesRef::null().addr(), u32::MAX);
    assert!(!BytesRef(0).is_null());
    assert_eq!(BytesRef(17).addr(), 17);
}

#[test]
fn test_heap_stores_slices_one_after_another() {
    let mut heap: Heap<Counter> = Heap::with_capacity(1000);
    let first = heap.allocate_and_set("hello".as_bytes());
    let second = heap.allocate_and_set("".as_bytes());
    let third = heap.allocate_and_set("wor".as_bytes());
    assert_eq!(first.addr(), 0);
    assert_eq!(second.addr(), 7);
    assert_eq!(third.addr(), 9);
    assert_eq!(heap.get_slice(first), "hello".as_bytes());
    assert_eq!(heap.get_slice(second).len(), 0);
    assert_eq!(heap.get_slice(third), "wor".as_bytes());
}

#[test]
fn test_heap_long_slice_keeps_its_length() {
    let mut heap: Heap<Counter> = Heap::with_capacity(200_000);
    let data: Vec<u8> = (0..65535u32).map(|i| (i % 251) as u8).collect();
    let short = heap.allocate_and_set(&data[..300]);
    let long = heap.allocate_and_set(&data);
    assert_eq!(long.addr(), 302);
    assert_eq!(heap.get_slice(short), &data[..300]);
    assert_eq!(heap.get_slice(long), &data[..]);
}

#[test]
fn test_heap_objects_know_their_address() {
    let mut heap: Heap<Counter> = Heap::with_capacity(1000);
    let key = heap.allocate_and_set("ab".as_bytes());
    let first_addr = {
        let (addr, object) = heap.allocate_object();
        assert_eq!(addr, 4);
        assert_eq!(object.addr, 4);
        assert_eq!(object.count, 0);
        object.count = 11;
        addr
    };
    let second_addr = {
        let (addr, object) = heap.allocate_object();
        assert_eq!(addr, 8);
        assert_eq!(object.addr, 8);
        object.count = 22;
        addr
    };
    assert_eq!(heap.get_ref(first_addr).count, 11);
    assert_eq!(heap.get_ref(second_addr).count, 22);
    heap.get_mut_ref(first_addr).count += 1;
    assert_eq!(heap.get_ref(first_addr).count, 12);
    assert_eq!(heap.get_ref(second_addr).count, 22);
    assert_eq!(heap.get_slice(key), "ab".as_bytes());
}

#[test]
fn test_heap_many_objects() {
    let mut heap: Heap<Counter> = Heap::with_capacity(100_000);
    let mut addrs: Vec<u32> = Vec::new();
    for i in 0..1000u32 {
        let key = format!("{}", i);
        heap.allocate_and_set(key.as_bytes());
        let (addr, object) = heap.allocate_object();
        object.count = i;
        addrs.push(addr);
    }
    for (i, addr) in addrs.iter().enumerate() {
        assert_eq!(heap.get_ref(*addr).count, i as u32);
        assert_eq!(heap.get_ref(*addr).addr, *addr);
    }
}

#[test]
fn test_heap_has_room() {
    let mut heap: Heap<Counter> = Heap::with_capacity(10);
    assert!(heap.has_room(10));
    assert!(!heap.has_room(11));
    heap.allocate_and_set("abcd".as_bytes());
    assert!(heap.has_room(4));
    assert!(!heap.has_room(5));
    heap.allocate_object();
    assert!(heap.has_room(0));
    assert!(!heap.has_room(1));
}

#[test]
fn test_heap_of_no_bytes() {
    let heap: Heap<Counter> = Heap::with_capacity(0);
    assert!(heap.has_room(0));
    assert!(!heap.has_room(1));
}
