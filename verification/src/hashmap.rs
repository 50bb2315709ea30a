//! The term table and the policy that sizes it.

use crate::heap::{
    BytesRef, Heap, HeapAllocable, MAX_SLICE_LEN, NULL_ADDR, OBJECT_LEN, SLICE_HEADER_LEN,
};
use crate::murmurhash2::{hash_of, murmurhash2};
use crate::probing::{lemma_probe_in_range, QuadraticProbing};
use crate::table_view::{InsertError, TableView};
use vstd::arithmetic::power2::{
    lemma2_to64, lemma2_to64_rest, lemma_pow2_strictly_increases, lemma_pow2_unfold, pow2,
};
use vstd::bits::{lemma_usize_pow2_no_overflow, lemma_usize_shl_is_mul};
use vstd::prelude::*;

verus! {

/// Bytes taken by one slot of the table: a 32-bit arena offset and a 32-bit hash.
pub const SLOT_SIZE: usize = 8;

/// Bytes taken by a table of `2^num_bits` slots.
pub open spec fn table_bytes(num_bits: nat) -> nat {
    SLOT_SIZE as nat * pow2(num_bits)
}

/// A table with more slots takes more bytes.
pub proof fn lemma_table_bytes_increases(a: nat, b: nat)
    requires
        a < b,
    ensures
        table_bytes(a) < table_bytes(b),
{
    lemma_pow2_strictly_increases(a, b);
}

/// Only one size of table lies under a limit while the next size does
/// not: a budget has one split.
pub proof fn lemma_split_unique(limit: nat, a: nat, b: nat)
    requires
        table_bytes(a) < limit <= table_bytes(a + 1),
        table_bytes(b) < limit <= table_bytes(b + 1),
    ensures
        a == b,
{
    if a < b {
        if a + 1 < b {
            lemma_table_bytes_increases(a + 1, b);
        }
    } else if b < a {
        if b + 1 < a {
            lemma_table_bytes_increases(b + 1, a);
        }
    }
}

/// A table whose bytes fit in a `usize` has fewer bits than a `usize`.
pub proof fn lemma_table_bits_bounded(num_bits: nat)
    requires
        table_bytes(num_bits) <= usize::MAX,
    ensures
        num_bits + 3 < usize::BITS,
{
    lemma2_to64();
    lemma2_to64_rest();
    if num_bits + 3 >= usize::BITS {
        if usize::BITS == 32 {
            if num_bits > 29 {
                lemma_pow2_strictly_increases(29, num_bits);
            }
        } else {
            if num_bits > 61 {
                lemma_pow2_strictly_increases(61, num_bits);
            }
        }
    }
}

/// Splits the memory budget of one indexing thread between the arena and the
/// table. Returns the arena's size in bytes and the table's size in bits.
///
/// The table gets the largest power of two of slots, two at least, whose
/// bytes stay under a third of the budget; the arena gets the rest. A budget
/// too small for a table of two slots is not accepted.
pub fn split_memory(per_thread_memory_budget: usize) -> (split: (usize, usize))
    requires
        table_bytes(1) < per_thread_memory_budget / 3,
    ensures
        1 <= split.1,
        split.1 + 3 < usize::BITS,
        table_bytes(split.1 as nat) < per_thread_memory_budget / 3,
        table_bytes((split.1 + 1) as nat) >= per_thread_memory_budget / 3,
        split.0 == per_thread_memory_budget - table_bytes(split.1 as nat),
{
    let table_size_limit: usize = per_thread_memory_budget / 3;
    let mut table_num_bits: usize = 1;
    let mut table_size: usize = 2 * SLOT_SIZE;
    proof {
        lemma2_to64();
    }
    while table_size < table_size_limit - table_size
        invariant
            table_size_limit == per_thread_memory_budget / 3,
            1 <= table_num_bits,
            0 < table_size,
            table_size == table_bytes(table_num_bits as nat),
            table_size < table_size_limit,
        decreases table_size_limit - table_size,
    {
        proof {
            lemma_table_bits_bounded(table_num_bits as nat);
            lemma_pow2_unfold((table_num_bits + 1) as nat);
        }
        table_size = table_size + table_size;
        table_num_bits = table_num_bits + 1;
    }
    proof {
        lemma_table_bits_bounded(table_num_bits as nat);
        lemma_pow2_unfold((table_num_bits + 1) as nat);
    }
    (per_thread_memory_budget - table_size, table_num_bits)
}

/// Whether two byte strings are the same.
fn bytes_equal(a: &[u8], b: &[u8]) -> (same: bool)
    ensures
        same == (a@ == b@),
{
    if a.len() != b.len() {
        return false;
    }
    let mut at: usize = 0;
    while at < a.len()
        invariant
            a@.len() == b@.len(),
            at <= a@.len(),
            a@.subrange(0, at as int) == b@.subrange(0, at as int),
        decreases a@.len() - at,
    {
        if a[at] != b[at] {
            return false;
        }
        proof {
            assert(a@.subrange(0, at + 1) =~= a@.subrange(0, at as int).push(a@[at as int]));
            assert(b@.subrange(0, at + 1) =~= b@.subrange(0, at as int).push(b@[at as int]));
        }
        at += 1;
    }
    proof {
        assert(a@ =~= a@.subrange(0, at as int));
        assert(b@ =~= b@.subrange(0, at as int));
    }
    true
}

/// The identity of a term while the table lives: the bucket that holds it.
/// It says nothing of the order of the terms.
pub type UnorderedTermId = u64;

/// What a bucket stores: where the key lies in the arena, and the key's
/// hash. The value lies right behind the key.
#[derive(Clone, Copy)]
pub struct KeyValue {
    pub key_value_addr: BytesRef,
    pub hash: u32,
}

impl Default for KeyValue {
    fn default() -> (kv: KeyValue)
        ensures
            kv.key_value_addr.0 == NULL_ADDR,
            kv.hash == 0,
    {
        KeyValue { key_value_addr: BytesRef::null(), hash: 0 }
    }
}

impl KeyValue {
    /// Whether the bucket is free.
    pub fn is_empty(&self) -> (r: bool)
        ensures
            r == (self.key_value_addr.0 == NULL_ADDR),
    {
        self.key_value_addr.is_null()
    }

    /// The arena offset that the bucket holds, if it holds one.
    pub open spec fn view(&self) -> Option<u32> {
        if self.key_value_addr.0 == NULL_ADDR {
            None
        } else {
            Some(self.key_value_addr.0)
        }
    }
}

/// A hash table from byte strings to values, made for terms: nothing is
/// ever removed, and the table never grows. Keys and values are stored in
/// an arena, which the table holds for as long as it lives; a term is
/// known by the bucket that holds it.
pub struct TermHashMap<V> {
    table: Vec<KeyValue>,
    heap: Heap<V>,
    mask: usize,
    occupied: Vec<usize>,
}

impl<V> TermHashMap<V> {
    /// The content of the table.
    pub closed spec fn view(&self) -> TableView<V> {
        TableView {
            buckets: Seq::new(self.table@.len(), |bucket: int| self.table@[bucket]@),
            order: Seq::new(self.occupied@.len(), |at: int| self.occupied@[at] as int),
            heap: self.heap@,
        }
    }

    /// The invariant of the table: its content is well formed, and every
    /// bucket that is taken stores the hash of its key.
    pub closed spec fn wf(&self) -> bool {
        &&& self.heap.wf()
        &&& self@.wf()
        &&& self.mask + 1 == self.table@.len()
        &&& forall|bucket: int| #[trigger]
            self@.occupied(bucket) ==> self.table@[bucket].hash == hash_of(self@.key_at(bucket))
    }

    /// A well-formed table has a well-formed content.
    pub proof fn lemma_view_wf(&self)
        requires
            self.wf(),
        ensures
            self@.wf(),
    {
    }

    /// A table of `2^num_bucket_power_of_2` free buckets over `heap`.
    pub fn new(num_bucket_power_of_2: usize, heap: Heap<V>) -> (map: TermHashMap<V>)
        requires
            num_bucket_power_of_2 < usize::BITS,
            heap.wf(),
        ensures
            map.wf(),
            map@ == TableView::empty(pow2(num_bucket_power_of_2 as nat), heap@),
    {
        proof {
            lemma_usize_pow2_no_overflow(num_bucket_power_of_2 as nat);
            lemma_usize_shl_is_mul(1, num_bucket_power_of_2);
        }
        let table_size: usize = 1usize << num_bucket_power_of_2;
        let mut table: Vec<KeyValue> = Vec::with_capacity(table_size);
        let mut filled: usize = 0;
        while filled < table_size
            invariant
                filled <= table_size,
                table@.len() == filled,
                forall|bucket: int| 0 <= bucket < filled ==> (#[trigger] table@[bucket])@ is None,
            decreases table_size - filled,
        {
            table.push(KeyValue::default());
            filled += 1;
        }
        let map = TermHashMap {
            table,
            heap,
            mask: table_size - 1,
            occupied: Vec::with_capacity(table_size / 2),
        };
        proof {
            heap.lemma_view_wf();
            assert(map@.capacity() == pow2(num_bucket_power_of_2 as nat));
            assert(map@.order =~= Seq::empty());
            assert(map@.buckets =~= Seq::new(
                pow2(num_bucket_power_of_2 as nat),
                |bucket: int| None::<u32>,
            ));
        }
        map
    }

    /// The arena behind the table.
    pub fn heap(&self) -> (heap: &Heap<V>)
        ensures
            heap@ == self@.heap,
            self.wf() ==> heap.wf(),
    {
        &self.heap
    }

    /// The search for a key of the given hash, before its first step.
    fn probe(&self, hash: u32) -> (probing: QuadraticProbing)
        ensures
            probing.hash == hash,
            probing.i == 0,
            probing.mask == self.mask,
    {
        QuadraticProbing::compute(hash as usize, self.mask)
    }

    /// Whether more than a third of the buckets are taken. The caller is
    /// then to stop inserting and flush; nothing in the table enforces it.
    pub fn is_saturated(&self) -> (r: bool)
        ensures
            r == self@.is_saturated(),
    {
        self.occupied.len() > self.table.len() / 3
    }

    /// The key stored at `bytes_ref`, and the arena offset of the value
    /// behind it.
    fn get_key_value(&self, bytes_ref: BytesRef) -> (key_value: (&[u8], u32))
        requires
            self.heap.wf(),
            self.heap@.slices.contains_key(bytes_ref.0),
        ensures
            key_value.0@ == self.heap@.slices[bytes_ref.0],
            key_value.1 == bytes_ref.0 + SLICE_HEADER_LEN + key_value.0@.len(),
    {
        let key_bytes: &[u8] = self.heap.get_slice(bytes_ref);
        proof {
            self.heap.lemma_view_wf();
        }
        let expull_addr: u32 = bytes_ref.addr() + 2 + key_bytes.len() as u32;
        (key_bytes, expull_addr)
    }

    /// Makes the free `bucket` hold the key stored at `key_value_addr`,
    /// whose hash is `hash`, and notes the bucket as the last one filled.
    /// The key and, right behind it, its value are in the arena already,
    /// and `bucket` is where the search for the key ends.
    pub fn set_bucket(&mut self, hash: u32, key_value_addr: BytesRef, bucket: usize)
        requires
            old(self).wf(),
            old(self)@.heap.slices.contains_key(key_value_addr.0),
            old(self)@.heap.objects.contains_key(
                (key_value_addr.0 + SLICE_HEADER_LEN
                    + old(self)@.heap.slices[key_value_addr.0].len()) as u32,
            ),
            hash == hash_of(old(self)@.heap.slices[key_value_addr.0]),
            old(self)@.search(old(self)@.heap.slices[key_value_addr.0]) == Some(bucket as int),
            old(self)@.buckets[bucket as int] is None,
        ensures
            final(self).wf(),
            final(self)@ == old(self)@.placed(bucket as int, key_value_addr.0),
    {
        proof {
            let key = self@.heap.slices[key_value_addr.0];
            self@.lemma_search_result(key);
            self@.lemma_placed_wf(bucket as int, key_value_addr.0);
            self@.lemma_placed_keeps(bucket as int, key_value_addr.0);
        }
        self.occupied.push(bucket);
        self.table[bucket] = KeyValue { key_value_addr, hash };
        proof {
            let before = old(self)@;
            let after = before.placed(bucket as int, key_value_addr.0);
            assert(self@.buckets =~= after.buckets);
            assert(self@.order =~= after.order);
            assert forall|other: int| #[trigger]
                self@.occupied(other) implies self.table@[other].hash == hash_of(
                self@.key_at(other),
            ) by {
                if other != bucket {
                    assert(before.occupied(other));
                }
            }
        }
    }

    /// Whether `after` is this table over another arena.
    spec fn differs_in_heap(&self, after: Self) -> bool {
        &&& after.table == self.table
        &&& after.mask == self.mask
        &&& after.occupied == self.occupied
    }

    /// Changing the value of a key in place changes that and nothing else.
    proof fn lemma_value_changed(&self, after: Self, bucket: int)
        requires
            self.wf(),
            self@.occupied(bucket),
            self.differs_in_heap(after),
            after.heap.wf(),
            after.heap@ == self.heap@.set_object(
                self@.value_addr_at(bucket),
                after.heap@.objects[self@.value_addr_at(bucket)],
            ),
        ensures
            after.wf(),
            after@ == self@.revalued(bucket, after.heap@.objects[self@.value_addr_at(bucket)]),
    {
        let value = after.heap@.objects[self@.value_addr_at(bucket)];
        self@.lemma_revalued_wf(bucket, value);
        assert(after@.buckets =~= self@.buckets);
        assert(after@.order =~= self@.order);
        assert forall|other: int| #[trigger] after@.occupied(other) implies after.table@[other].hash
            == hash_of(after@.key_at(other)) by {
            assert(self@.occupied(other));
        }
    }

    /// Looks `key` up, stores it with a fresh value if it is new, and
    /// returns the term's identity and its value, to be changed in place.
    ///
    /// The search tries one bucket after another, at growing distances
    /// from the one that the hash names, until it meets the key or a free
    /// bucket. It gives up after as many steps as the table has buckets:
    /// the buckets tried repeat from there on. A key that is present is
    /// always found; a new key takes the free bucket at which the search
    /// ends, and its bytes and its value are stored in the arena, one right
    /// behind the other.
    pub fn get_or_create(&mut self, key: &[u8]) -> (found: Result<
        (UnorderedTermId, &mut V),
        InsertError,
    >) where V: HeapAllocable
        requires
            old(self).wf(),
        ensures
            final(self).wf(),
            match found {
                Ok((term_id, value)) => {
                    &&& old(self)@.failure(key@) is None
                    &&& old(self)@.search(key@) == Some(term_id as int)
                    &&& *value == if old(self)@.contains_key(key@) {
                        old(self)@.value_at(term_id as int)
                    } else {
                        V::at_addr(old(self)@.next_value_addr(key@))
                    }
                    &&& final(self)@ == old(self)@.with_term(key@, *final(value))
                },
                Err(error) => {
                    &&& old(self)@.failure(key@) == Some(error)
                    &&& final(self)@ == old(self)@
                },
            },
    {
        let hash: u32 = murmurhash2(key);
        let mut probe: QuadraticProbing = self.probe(hash);
        let capacity: usize = self.table.len();
        let ghost view = self@;
        while probe.i < capacity
            invariant
                *self == *old(self),
                self.wf(),
                view == self@,
                capacity == view.capacity(),
                hash == hash_of(key@),
                probe.hash == hash,
                probe.mask + 1 == capacity,
                probe.i <= capacity,
                forall|step: nat| 1 <= step <= probe.i ==> !view.stops(key@, step),
            decreases capacity - probe.i,
        {
            let bucket: usize = probe.next_probe();
            proof {
                lemma_probe_in_range(hash as nat, probe.i as nat, capacity as nat);
            }
            let kv: KeyValue = self.table[bucket];
            if kv.is_empty() {
                proof {
                    assert(view.stops(key@, probe.i as nat));
                    view.lemma_search_stops_at(key@, 1, probe.i as nat);
                }
                if key.len() > MAX_SLICE_LEN {
                    return Err(InsertError::KeyTooLong);
                }
                if !self.heap.has_room(SLICE_HEADER_LEN + key.len() + OBJECT_LEN) {
                    return Err(InsertError::HeapFull);
                }
                proof {
                    self.heap.lemma_view_wf();
                }
                let key_bytes_ref: BytesRef = self.heap.allocate_and_set(key);
                let (addr, _): (u32, &mut V) = self.heap.allocate_object();
                assert(addr == key_bytes_ref.0 + SLICE_HEADER_LEN + key@.len());
                proof {
                    let fresh = V::at_addr(addr);
                    let heap = view.heap.store_slice(key@).store_object(fresh);
                    view.heap.lemma_store_slice(key@);
                    view.heap.store_slice(key@).lemma_store_object(fresh);
                    view.lemma_with_heap_wf(heap);
                    view.lemma_search_kept(view.with_heap(heap), key@);
                    assert(self@.buckets =~= view.buckets);
                    assert(self@.order =~= view.order);
                    assert(self@ == view.with_heap(heap));
                    assert forall|other: int| #[trigger]
                        self@.occupied(other) implies self.table@[other].hash == hash_of(
                        self@.key_at(other),
                    ) by {
                        assert(view.occupied(other));
                    }
                }
                self.set_bucket(hash, key_bytes_ref, bucket);
                proof {
                    let fresh = V::at_addr(addr);
                    assert(self@ == view.filled(bucket as int, key@, fresh));
                    view.lemma_filled_wf(bucket as int, key@, fresh);
                    let placed = *self;
                    assert forall|after: Self|
                        placed.differs_in_heap(after) && after.heap.wf() && after.heap@
                            == placed.heap@.set_object(
                            addr,
                            after.heap@.objects[addr],
                        ) implies after.wf() && #[trigger] after@ == view.with_term(
                        key@,
                        after.heap@.objects[addr],
                    ) by {
                        placed.lemma_value_changed(after, bucket as int);
                        let value = after.heap@.objects[addr];
                        assert(placed@.revalued(bucket as int, value).heap.objects =~= view.filled(
                            bucket as int,
                            key@,
                            value,
                        ).heap.objects);
                    }
                }
                return Ok((bucket as UnorderedTermId, self.heap.get_mut_ref(addr)));
            } else if kv.hash == hash {
                proof {
                    assert(view.occupied(bucket as int));
                    assert(view.bucket_wf(bucket as int));
                }
                let (stored_key, expull_addr): (&[u8], u32) = self.get_key_value(kv.key_value_addr);
                if bytes_equal(stored_key, key) {
                    proof {
                        assert(view.stops(key@, probe.i as nat));
                        view.lemma_search_stops_at(key@, 1, probe.i as nat);
                        let found = *self;
                        assert forall|after: Self|
                            found.differs_in_heap(after) && after.heap.wf() && after.heap@
                                == found.heap@.set_object(
                                expull_addr,
                                after.heap@.objects[expull_addr],
                            ) implies after.wf() && #[trigger] after@ == view.with_term(
                            key@,
                            after.heap@.objects[expull_addr],
                        ) by {
                            found.lemma_value_changed(after, bucket as int);
                        }
                    }
                    return Ok((bucket as UnorderedTermId, self.heap.get_mut_ref(expull_addr)));
                }
            } else {
                proof {
                    assert(view.occupied(bucket as int));
                }
            }
        }
        proof {
            view.lemma_search_gives_up(key@, 1);
        }
        Err(InsertError::TableFull)
    }

    /// The terms of the table, in the order in which they were first seen.
    pub fn iter(&self) -> (iter: Iter<'_, V>)
        ensures
            iter.table() == self@,
            iter.position() == 0,
            self.wf() ==> iter.wf(),
    {
        Iter { hashmap: self, position: 0 }
    }
}

/// A pass over the terms of a table, in the order in which they were
/// first seen.
pub struct Iter<'a, V> {
    hashmap: &'a TermHashMap<V>,
    position: usize,
}

impl<'a, V> Iter<'a, V> {
    /// The content of the table that is passed over.
    pub closed spec fn table(&self) -> TableView<V> {
        self.hashmap@
    }

    /// The number of terms handed out so far.
    pub closed spec fn position(&self) -> nat {
        self.position as nat
    }

    /// The invariant of the pass: the table is well formed, and no more
    /// terms were handed out than it holds.
    pub closed spec fn wf(&self) -> bool {
        self.hashmap.wf() && self.position <= self.hashmap.occupied@.len()
    }

    /// The next term, if one is left: its key, the arena offset of its
    /// value, and its identity.
    pub fn next(&mut self) -> (item: Option<(&'a [u8], u32, UnorderedTermId)>)
        requires
            old(self).wf(),
        ensures
            final(self).wf(),
            final(self).table() == old(self).table(),
            match item {
                Some((key, value_addr, term_id)) => {
                    let bucket = old(self).table().order[old(self).position() as int];
                    &&& old(self).position() < old(self).table().len()
                    &&& final(self).position() == old(self).position() + 1
                    &&& key@ == old(self).table().key_at(bucket)
                    &&& value_addr == old(self).table().value_addr_at(bucket)
                    &&& term_id == bucket
                },
                None => {
                    &&& old(self).position() == old(self).table().len()
                    &&& final(self).position() == old(self).position()
                },
            },
    {
        if self.position < self.hashmap.occupied.len() {
            let bucket: usize = self.hashmap.occupied[self.position];
            proof {
                let view = self.hashmap@;
                assert(view.order[self.position as int] == bucket);
                assert(view.occupied(bucket as int));
                assert(view.bucket_wf(bucket as int));
            }
            let kv: KeyValue = self.hashmap.table[bucket];
            let (key, offset): (&'a [u8], u32) = self.hashmap.get_key_value(kv.key_value_addr);
            self.position += 1;
            Some((key, offset, bucket as UnorderedTermId))
        } else {
            None
        }
    }
}

} // verus!
