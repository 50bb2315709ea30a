use stacker::hashmap::{split_memory, TermHashMap, UnorderedTermId};
use stacker::heap::{Heap, HeapAllocable};
use stacker::murmurhash2::murmurhash2;
use stacker::table_view::InsertError;
use std::collections::HashSet;

struct TestValue {
    val: u32,
    _addr: u32,
}

impl HeapAllocable for TestValue {
    fn with_addr(addr: u32) -> TestValue {
        TestValue {
            val: 0u32,
            _addr: addr,
        }
    }
}

#[test]
fn test_hashmap_size() {
    assert_eq!(split_memory(100_000), (67232, 12));
    assert_eq!(split_memory(1_000_000), (737856, 15));
    assert_eq!(split_memory(10_000_000), (7902848, 18));
}

#[test]
fn test_hash_map() {
    let heap: Heap<TestValue> = Heap::with_capacity(2_000_000);
    let mut hash_map: TermHashMap<TestValue> = TermHashMap::new(18, heap);
    {
        let v: &mut TestValue = hash_map.get_or_create("abc".as_bytes()).unwrap().1;
        assert_eq!(v.val, 0u32);
        v.val = 3u32;
    }
    {
        let v: &mut TestValue = hash_map.get_or_create("abcd".as_bytes()).unwrap().1;
        assert_eq!(v.val, 0u32);
        v.val = 4u32;
    }
    {
        let v: &mut TestValue = hash_map.get_or_create("abc".as_bytes()).unwrap().1;
        assert_eq!(v.val, 3u32);
    }
    {
        let v: &mut TestValue = hash_map.get_or_create("abcd".as_bytes()).unwrap().1;
        assert_eq!(v.val, 4u32);
    }
    let mut iter_values = hash_map.iter();
    {
        let (_, addr, _) = iter_values.next().unwrap();
        let val: &TestValue = hash_map.heap().get_ref(addr);
        assert_eq!(val.val, 3u32);
    }
    {
        let (_, addr, _) = iter_values.next().unwrap();
        let val: &TestValue = hash_map.heap().get_ref(addr);
        assert_eq!(val.val, 4u32);
    }
    assert!(iter_values.next().is_none());
}

#[test]
fn test_murmur() {
    let s1 = "abcdef";
    let s2 = "abcdeg";
    for i in 0..5 {
        assert_eq!(
            murmurhash2(&s1[i..5].as_bytes()),
            murmurhash2(&s2[i..5].as_bytes())
        );
    }
}

#[test]
fn test_murmur_against_reference_impl() {
    assert_eq!(murmurhash2("".as_bytes()), 3632506080);
    assert_eq!(murmurhash2("a".as_bytes()), 455683869);
    assert_eq!(murmurhash2("ab".as_bytes()), 2448092234);
    assert_eq!(murmurhash2("abc".as_bytes()), 2066295634);
    assert_eq!(murmurhash2("abcd".as_bytes()), 2588571162);
    assert_eq!(murmurhash2("abcde".as_bytes()), 2988696942);
    assert_eq!(murmurhash2("abcdefghijklmnop".as_bytes()), 2350868870);
}

#[test]
fn test_murmur_collisions() {
    let mut set: HashSet<u32> = HashSet::default();
    for i in 0..10_000 {
        let s = format!("hash{}", i);
        let hash = murmurhash2(s.as_bytes());
        set.insert(hash);
    }
    assert_eq!(set.len(), 10_000);
}

#[test]
fn test_murmur_is_constant_across_calls() {
    let key = "the same string".as_bytes();
    let first = murmurhash2(key);
    for _ in 0..10 {
        assert_eq!(murmurhash2(key), first);
    }
    let copy: Vec<u8> = key.to_vec();
    assert_eq!(murmurhash2(&copy), first);
}

#[test]
fn test_murmur_reads_the_slice_only() {
    let long = "abcdefgh".as_bytes();
    for len in 0..long.len() {
        let exact: Vec<u8> = long[..len].to_vec();
        assert_eq!(murmurhash2(&long[..len]), murmurhash2(&exact));
    }
}

#[test]
fn test_split_memory_keeps_the_table_under_a_third() {
    for &budget in [51usize, 52, 100, 4096, 100_000, 123_456_789].iter() {
        let (heap_size, bits) = split_memory(budget);
        let table_size = 8usize << bits;
        assert!(bits >= 1);
        assert!(table_size < budget / 3);
        assert!(table_size * 2 >= budget / 3);
        assert_eq!(heap_size + table_size, budget);
    }
}

#[test]
fn test_split_memory_smallest_budget() {
    assert_eq!(split_memory(51), (35, 1));
}

#[test]
fn test_get_or_create_is_idempotent() {
    let heap: Heap<TestValue> = Heap::with_capacity(10_000);
    let mut hash_map: TermHashMap<TestValue> = TermHashMap::new(6, heap);
    let first_id: UnorderedTermId = {
        let (id, v) = hash_map.get_or_create("term".as_bytes()).unwrap();
        v.val = 17;
        id
    };
    for _ in 0..5 {
        let (id, v) = hash_map.get_or_create("term".as_bytes()).unwrap();
        assert_eq!(id, first_id);
        assert_eq!(v.val, 17);
    }
    let mut iter = hash_map.iter();
    let (key, _, id) = iter.next().unwrap();
    assert_eq!(key, "term".as_bytes());
    assert_eq!(id, first_id);
    assert!(iter.next().is_none());
}

#[test]
fn test_new_value_is_built_from_its_address() {
    let heap: Heap<TestValue> = Heap::with_capacity(10_000);
    let mut hash_map: TermHashMap<TestValue> = TermHashMap::new(6, heap);
    {
        let (_, v) = hash_map.get_or_create("abc".as_bytes()).unwrap();
        assert_eq!(v.val, 0);
        assert_eq!(v._addr, 5);
    }
    {
        let (_, v) = hash_map.get_or_create("wxyz".as_bytes()).unwrap();
        assert_eq!(v.val, 0);
        assert_eq!(v._addr, 9 + 2 + 4);
    }
    let mut iter = hash_map.iter();
    assert_eq!(iter.next().unwrap().1, 5);
    assert_eq!(iter.next().unwrap().1, 15);
}

#[test]
fn test_term_id_is_the_probed_bucket() {
    let heap: Heap<TestValue> = Heap::with_capacity(10_000);
    let mut hash_map: TermHashMap<TestValue> = TermHashMap::new(10, heap);
    let key = "abc".as_bytes();
    let (id, _) = hash_map.get_or_create(key).unwrap();
    let expected = (u64::from(murmurhash2(key)) + 1) & 1023;
    assert_eq!(id, expected);
}

#[test]
fn test_iter_follows_insertion_order() {
    let heap: Heap<TestValue> = Heap::with_capacity(1_000_000);
    let mut hash_map: TermHashMap<TestValue> = TermHashMap::new(12, heap);
    let mut keys: Vec<String> = Vec::new();
    for i in 0..1000u32 {
        keys.push(format!("term-{}", (i * 7919) % 1000));
    }
    let mut ids: Vec<UnorderedTermId> = Vec::new();
    for (i, key) in keys.iter().enumerate() {
        let (id, v) = hash_map.get_or_create(key.as_bytes()).unwrap();
        v.val = i as u32;
        ids.push(id);
    }
    for key in keys.iter().rev() {
        assert!(hash_map.get_or_create(key.as_bytes()).is_ok());
    }
    let mut iter = hash_map.iter();
    for (i, key) in keys.iter().enumerate() {
        let (stored, addr, id) = iter.next().unwrap();
        assert_eq!(stored, key.as_bytes());
        assert_eq!(id, ids[i]);
        assert_eq!(hash_map.heap().get_ref(addr).val, i as u32);
    }
    assert!(iter.next().is_none());
    let distinct: HashSet<UnorderedTermId> = ids.iter().cloned().collect();
    assert_eq!(distinct.len(), 1000);
}

#[test]
fn test_iter_can_be_started_again() {
    let heap: Heap<TestValue> = Heap::with_capacity(10_000);
    let mut hash_map: TermHashMap<TestValue> = TermHashMap::new(4, heap);
    assert!(hash_map.get_or_create("k1".as_bytes()).is_ok());
    assert!(hash_map.get_or_create("k2".as_bytes()).is_ok());
    let mut first = hash_map.iter();
    assert_eq!(first.next().unwrap().0, "k1".as_bytes());
    let mut second = hash_map.iter();
    assert_eq!(second.next().unwrap().0, "k1".as_bytes());
    assert_eq!(second.next().unwrap().0, "k2".as_bytes());
    assert!(second.next().is_none());
    assert!(second.next().is_none());
    assert_eq!(first.next().unwrap().0, "k2".as_bytes());
}

#[test]
fn test_empty_table() {
    let heap: Heap<TestValue> = Heap::with_capacity(100);
    let hash_map: TermHashMap<TestValue> = TermHashMap::new(3, heap);
    assert!(!hash_map.is_saturated());
    assert!(hash_map.iter().next().is_none());
}

#[test]
fn test_saturation_threshold() {
    let heap: Heap<TestValue> = Heap::with_capacity(100_000);
    let mut hash_map: TermHashMap<TestValue> = TermHashMap::new(6, heap);
    let mut inserted = 0usize;
    for i in 0..30u32 {
        assert_eq!(hash_map.is_saturated(), 64 < inserted * 3);
        let key = format!("key{}", i);
        assert!(hash_map.get_or_create(key.as_bytes()).is_ok());
        inserted += 1;
        assert_eq!(hash_map.is_saturated(), inserted >= 22);
        assert!(hash_map.get_or_create(key.as_bytes()).is_ok());
        assert_eq!(hash_map.is_saturated(), inserted >= 22);
    }
    assert!(hash_map.is_saturated());
}

#[test]
fn test_table_full() {
    let heap: Heap<TestValue> = Heap::with_capacity(10_000);
    let mut hash_map: TermHashMap<TestValue> = TermHashMap::new(1, heap);
    assert!(hash_map.get_or_create("one".as_bytes()).is_ok());
    assert!(hash_map.get_or_create("two".as_bytes()).is_ok());
    assert!(hash_map.is_saturated());
    match hash_map.get_or_create("three".as_bytes()) {
        Err(error) => assert_eq!(error, InsertError::TableFull),
        Ok(_) => panic!("a full table took a new key"),
    }
    let one = hash_map.get_or_create("one".as_bytes()).unwrap().0;
    let two = hash_map.get_or_create("two".as_bytes()).unwrap().0;
    assert_eq!(one + two, 1);
    let mut iter = hash_map.iter();
    assert_eq!(iter.next().unwrap().0, "one".as_bytes());
    assert_eq!(iter.next().unwrap().0, "two".as_bytes());
    assert!(iter.next().is_none());
}

#[test]
fn test_key_too_long() {
    let heap: Heap<TestValue> = Heap::with_capacity(1_000_000);
    let mut hash_map: TermHashMap<TestValue> = TermHashMap::new(4, heap);
    let longest: Vec<u8> = vec![7u8; 65535];
    let too_long: Vec<u8> = vec![7u8; 65536];
    match hash_map.get_or_create(&too_long) {
        Err(error) => assert_eq!(error, InsertError::KeyTooLong),
        Ok(_) => panic!("a key too long was taken"),
    }
    assert!(hash_map.iter().next().is_none());
    assert!(hash_map.get_or_create(&longest).is_ok());
    let mut iter = hash_map.iter();
    let (key, addr, _) = iter.next().unwrap();
    assert_eq!(key, &longest[..]);
    assert_eq!(addr, 65537);
}

#[test]
fn test_heap_full() {
    let heap: Heap<TestValue> = Heap::with_capacity(20);
    let mut hash_map: TermHashMap<TestValue> = TermHashMap::new(4, heap);
    assert!(hash_map.get_or_create("abcd".as_bytes()).is_ok());
    match hash_map.get_or_create("efghi".as_bytes()) {
        Err(error) => assert_eq!(error, InsertError::HeapFull),
        Ok(_) => panic!("a full arena took a new key"),
    }
    assert!(hash_map.get_or_create("abcd".as_bytes()).is_ok());
    assert!(hash_map.get_or_create("efgh".as_bytes()).is_ok());
    match hash_map.get_or_create("".as_bytes()) {
        Err(error) => assert_eq!(error, InsertError::HeapFull),
        Ok(_) => panic!("a full arena took a new key"),
    }
    let mut iter = hash_map.iter();
    assert_eq!(iter.next().unwrap().0, "abcd".as_bytes());
    assert_eq!(iter.next().unwrap().0, "efgh".as_bytes());
    assert!(iter.next().is_none());
}

#[test]
fn test_empty_key() {
    let heap: Heap<TestValue> = Heap::with_capacity(100);
    let mut hash_map: TermHashMap<TestValue> = TermHashMap::new(4, heap);
    {
        let (_, v) = hash_map.get_or_create("".as_bytes()).unwrap();
        assert_eq!(v._addr, 2);
        v.val = 9;
    }
    assert_eq!(hash_map.get_or_create("".as_bytes()).unwrap().1.val, 9);
    let mut iter = hash_map.iter();
    let (key, addr, _) = iter.next().unwrap();
    assert_eq!(key.len(), 0);
    assert_eq!(addr, 2);
    assert!(iter.next().is_none());
}

#[test]
fn test_colliding_buckets_keep_their_keys() {
    let heap: Heap<TestValue> = Heap::with_capacity(100_000);
    let mut hash_map: TermHashMap<TestValue> = TermHashMap::new(2, heap);
    let mut taken: Vec<(String, UnorderedTermId)> = Vec::new();
    for i in 0..50u32 {
        let key = format!("c{}", i);
        if let Ok((id, v)) = hash_map.get_or_create(key.as_bytes()) {
            v.val = i;
            assert!(id < 4);
            taken.push((key, id));
        }
    }
    assert!(taken.len() >= 3);
    assert!(taken.len() <= 4);
    for (key, id) in taken.iter() {
        let (found, _) = hash_map.get_or_create(key.as_bytes()).unwrap();
        assert_eq!(found, *id);
    }
    let ids: HashSet<UnorderedTermId> = taken.iter().map(|pair| pair.1).collect();
    assert_eq!(ids.len(), taken.len());
}
