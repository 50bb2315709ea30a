//! What a term table is, apart from how it is stored: its buckets, the order
//! in which they were filled, and the arena behind them.

use crate::heap::{HeapView, MAX_SLICE_LEN, OBJECT_LEN, SLICE_HEADER_LEN};
use crate::murmurhash2::hash_of;
use crate::probing::{is_capacity, lemma_probe_in_range, lemma_probe_repeats, probe_bucket};
use vstd::arithmetic::power2::{lemma_pow2_pos, pow2};
use vstd::prelude::*;
use vstd::set_lib::{lemma_int_range, lemma_len_subset, set_int_range};

verus! {

/// Why a key could not be taken into the table.
#[derive(Clone, Copy, Debug, PartialEq, Eq, Structural)]
pub enum InsertError {
    /// Every bucket on the key's path holds another key.
    TableFull,
    /// The key is new and longer than the arena's length prefix can say.
    KeyTooLong,
    /// The key is new and the arena has no room left for it and its value.
    HeapFull,
}

/// The content of a term table.
pub struct TableView<V> {
    /// For each bucket, the arena offset of the key it holds, if it holds one.
    pub buckets: Seq<Option<u32>>,
    /// The buckets that hold a key, in the order in which they were filled.
    pub order: Seq<int>,
    /// The arena that holds the keys and their values.
    pub heap: HeapView<V>,
}

impl<V> TableView<V> {
    /// The table of `capacity` free buckets over `heap`.
    pub open spec fn empty(capacity: nat, heap: HeapView<V>) -> Self {
        TableView { buckets: Seq::new(capacity, |bucket: int| None), order: Seq::empty(), heap }
    }

    /// The number of buckets.
    pub open spec fn capacity(self) -> nat {
        self.buckets.len()
    }

    /// The number of keys held.
    pub open spec fn len(self) -> nat {
        self.order.len()
    }

    /// Whether `bucket` is one of the table and holds a key.
    pub open spec fn occupied(self, bucket: int) -> bool {
        0 <= bucket < self.capacity() && self.buckets[bucket] is Some
    }

    /// The key that `bucket` holds.
    pub open spec fn key_at(self, bucket: int) -> Seq<u8>
        recommends
            self.occupied(bucket),
    {
        self.heap.slices[self.buckets[bucket]->0]
    }

    /// The arena offset of the value that goes with the key in `bucket`:
    /// the value lies right behind the key.
    pub open spec fn value_addr_at(self, bucket: int) -> u32
        recommends
            self.occupied(bucket),
    {
        (self.buckets[bucket]->0 + SLICE_HEADER_LEN + self.key_at(bucket).len()) as u32
    }

    /// The value that goes with the key in `bucket`.
    pub open spec fn value_at(self, bucket: int) -> V
        recommends
            self.occupied(bucket),
    {
        self.heap.objects[self.value_addr_at(bucket)]
    }

    /// The bucket tried at `step` of the search for `key`.
    pub open spec fn probe(self, key: Seq<u8>, step: nat) -> int {
        probe_bucket(hash_of(key) as nat, step, self.capacity())
    }

    /// Whether the search for `key` ends at `step`: the bucket tried there
    /// is free, or holds `key`.
    pub open spec fn stops(self, key: Seq<u8>, step: nat) -> bool {
        let bucket = self.probe(key, step);
        self.buckets[bucket] is None || self.key_at(bucket) == key
    }

    /// The bucket at which the search for `key` ends, given that it has not
    /// ended before `step`. The search gives up after as many steps as there
    /// are buckets.
    pub open spec fn search_from(self, key: Seq<u8>, step: nat) -> Option<int>
        decreases self.capacity() + 1 - step,
    {
        if step > self.capacity() {
            None
        } else if self.stops(key, step) {
            Some(self.probe(key, step))
        } else {
            self.search_from(key, step + 1)
        }
    }

    /// The bucket that belongs to `key`: the first on its path that is free
    /// or holds `key`.
    pub open spec fn search(self, key: Seq<u8>) -> Option<int> {
        self.search_from(key, 1)
    }

    /// Whether the table holds `key`.
    pub open spec fn contains_key(self, key: Seq<u8>) -> bool {
        self.search(key) is Some && self.occupied(self.search(key)->0)
    }

    /// Whether so many buckets are taken that the table should be flushed:
    /// more than a third of them.
    pub open spec fn is_saturated(self) -> bool {
        self.capacity() < self.len() * 3
    }

    /// Whether the key in `bucket` and its value are in the arena, and the
    /// search for that key ends at `bucket`.
    pub open spec fn bucket_wf(self, bucket: int) -> bool
        recommends
            self.occupied(bucket),
    {
        &&& self.heap.slices.contains_key(self.buckets[bucket]->0)
        &&& self.heap.objects.contains_key(self.value_addr_at(bucket))
        &&& self.search(self.key_at(bucket)) == Some(bucket)
    }

    /// Whether the order lists the taken buckets, each once.
    pub open spec fn order_wf(self) -> bool {
        &&& self.order.no_duplicates()
        &&& forall|at: int| 0 <= at < self.order.len() ==> self.occupied(#[trigger] self.order[at])
        &&& forall|bucket: int| #[trigger] self.occupied(bucket) ==> self.order.contains(bucket)
    }

    /// The table's invariant.
    pub open spec fn wf(self) -> bool {
        &&& is_capacity(self.capacity())
        &&& self.heap.wf()
        &&& forall|bucket: int| #[trigger] self.occupied(bucket) ==> self.bucket_wf(bucket)
        &&& self.order_wf()
    }

    /// Why `key` cannot be taken into the table, if it cannot.
    pub open spec fn failure(self, key: Seq<u8>) -> Option<InsertError> {
        match self.search(key) {
            None => Some(InsertError::TableFull),
            Some(bucket) => if self.buckets[bucket] is Some {
                None
            } else if key.len() > MAX_SLICE_LEN {
                Some(InsertError::KeyTooLong)
            } else if !self.heap.has_room(SLICE_HEADER_LEN as nat + key.len() + OBJECT_LEN as nat) {
                Some(InsertError::HeapFull)
            } else {
                None
            },
        }
    }

    /// The same buckets over another arena.
    pub open spec fn with_heap(self, heap: HeapView<V>) -> Self {
        TableView { buckets: self.buckets, order: self.order, heap }
    }

    /// The table after the free `bucket` was made to hold the key stored
    /// at `addr`.
    pub open spec fn placed(self, bucket: int, addr: u32) -> Self {
        TableView {
            buckets: self.buckets.update(bucket, Some(addr)),
            order: self.order.push(bucket),
            heap: self.heap,
        }
    }

    /// The table after `key` was stored in the free `bucket`, with `value`
    /// behind it.
    pub open spec fn filled(self, bucket: int, key: Seq<u8>, value: V) -> Self {
        self.with_heap(self.heap.store_slice(key).store_object(value)).placed(
            bucket,
            self.heap.len as u32,
        )
    }

    /// The arena offset at which the value of `key` will lie if `key` is
    /// stored next.
    pub open spec fn next_value_addr(self, key: Seq<u8>) -> u32 {
        (self.heap.len + SLICE_HEADER_LEN + key.len()) as u32
    }

    /// The table after the value of the key in `bucket` has become `value`.
    pub open spec fn revalued(self, bucket: int, value: V) -> Self {
        TableView {
            buckets: self.buckets,
            order: self.order,
            heap: self.heap.set_object(self.value_addr_at(bucket), value),
        }
    }

    /// The table after `key` was looked up, and stored if it was new, and
    /// its value was left as `value`.
    pub open spec fn with_term(self, key: Seq<u8>, value: V) -> Self
        recommends
            self.failure(key) is None,
    {
        let bucket = self.search(key)->0;
        if self.buckets[bucket] is Some {
            self.revalued(bucket, value)
        } else {
            self.filled(bucket, key, value)
        }
    }

    /// Whether `other` has as many buckets and, in every bucket that is
    /// taken here, the same key.
    pub open spec fn kept_by(self, other: Self) -> bool {
        &&& other.capacity() == self.capacity()
        &&& forall|bucket: int| #[trigger]
            self.occupied(bucket) ==> other.occupied(bucket) && other.key_at(bucket)
                == self.key_at(bucket)
    }

    /// A search that meets no stop from `from` up to `to`, and a stop at
    /// `to`, ends at the bucket tried at `to`.
    pub proof fn lemma_search_stops_at(self, key: Seq<u8>, from: nat, to: nat)
        requires
            1 <= from <= to <= self.capacity(),
            forall|step: nat| from <= step < to ==> !self.stops(key, step),
            self.stops(key, to),
        ensures
            self.search_from(key, from) == Some(self.probe(key, to)),
        decreases to - from,
    {
        if from < to {
            self.lemma_search_stops_at(key, from + 1, to);
        }
    }

    /// A search that meets no stop from `from` on gives up.
    pub proof fn lemma_search_gives_up(self, key: Seq<u8>, from: nat)
        requires
            1 <= from,
            forall|step: nat| from <= step <= self.capacity() ==> !self.stops(key, step),
        ensures
            self.search_from(key, from) is None,
        decreases self.capacity() + 1 - from,
    {
        if from <= self.capacity() {
            self.lemma_search_gives_up(key, from + 1);
        }
    }

    /// Where a search ends: at a step that stops it, with no stop before;
    /// or nowhere, and then no step stops it.
    pub proof fn lemma_search_from(self, key: Seq<u8>, from: nat)
        requires
            1 <= from,
        ensures
            match self.search_from(key, from) {
                Some(bucket) => exists|to: nat|
                    {
                        &&& from <= to <= self.capacity()
                        &&& #[trigger] self.probe(key, to) == bucket
                        &&& self.stops(key, to)
                        &&& forall|step: nat| from <= step < to ==> !self.stops(key, step)
                    },
                None => forall|step: nat|
                    from <= step <= self.capacity() ==> !self.stops(key, step),
            },
        decreases self.capacity() + 1 - from,
    {
        if from > self.capacity() {
        } else if self.stops(key, from) {
            assert(self.probe(key, from) == self.search_from(key, from)->0);
        } else {
            self.lemma_search_from(key, from + 1);
            match self.search_from(key, from) {
                Some(bucket) => {
                    let to = choose|to: nat|
                        {
                            &&& from + 1 <= to <= self.capacity()
                            &&& #[trigger] self.probe(key, to) == bucket
                            &&& self.stops(key, to)
                            &&& forall|step: nat| from + 1 <= step < to ==> !self.stops(key, step)
                        };
                    assert(from <= to <= self.capacity() && self.probe(key, to) == bucket);
                },
                None => {},
            }
        }
    }

    /// The bucket at which a search ends is one of the table, and is free
    /// or holds the key.
    pub proof fn lemma_search_result(self, key: Seq<u8>)
        requires
            0 < self.capacity(),
        ensures
            self.search(key) is Some ==> {
                let bucket = self.search(key)->0;
                &&& 0 <= bucket < self.capacity()
                &&& self.buckets[bucket] is None || self.key_at(bucket) == key
            },
    {
        self.lemma_search_from(key, 1);
        if self.search(key) is Some {
            let bucket = self.search(key)->0;
            let to = choose|to: nat|
                {
                    &&& 1 <= to <= self.capacity()
                    &&& #[trigger] self.probe(key, to) == bucket
                    &&& self.stops(key, to)
                    &&& forall|step: nat| 1 <= step < to ==> !self.stops(key, step)
                };
            lemma_probe_in_range(hash_of(key) as nat, to, self.capacity());
        }
    }

    /// A search that ends at a bucket ends there still after other buckets
    /// were filled, as long as that bucket still stops it.
    pub proof fn lemma_search_kept(self, other: Self, key: Seq<u8>)
        requires
            0 < self.capacity(),
            self.kept_by(other),
            self.search(key) is Some,
            other.buckets[self.search(key)->0] is None || other.key_at(self.search(key)->0) == key,
        ensures
            other.search(key) == self.search(key),
    {
        self.lemma_search_from(key, 1);
        let bucket = self.search(key)->0;
        let to = choose|to: nat|
            {
                &&& 1 <= to <= self.capacity()
                &&& #[trigger] self.probe(key, to) == bucket
                &&& self.stops(key, to)
                &&& forall|step: nat| 1 <= step < to ==> !self.stops(key, step)
            };
        assert forall|step: nat| 1 <= step < to implies !other.stops(key, step) by {
            lemma_probe_in_range(hash_of(key) as nat, step, self.capacity());
            assert(!self.stops(key, step));
            assert(self.occupied(self.probe(key, step)));
        }
        other.lemma_search_stops_at(key, 1, to);
    }

    /// A search that gives up gives up still after other buckets were filled.
    pub proof fn lemma_search_given_up_kept(self, other: Self, key: Seq<u8>)
        requires
            0 < self.capacity(),
            self.kept_by(other),
            self.search(key) is None,
        ensures
            other.search(key) is None,
    {
        self.lemma_search_from(key, 1);
        assert forall|step: nat| 1 <= step <= other.capacity() implies !other.stops(key, step) by {
            lemma_probe_in_range(hash_of(key) as nat, step, self.capacity());
            assert(!self.stops(key, step));
            assert(self.occupied(self.probe(key, step)));
        }
        other.lemma_search_gives_up(key, 1);
    }

    /// A table keeps its keys, and stays well formed, when its arena is
    /// replaced by one that holds all that the arena held.
    pub proof fn lemma_with_heap_wf(self, heap: HeapView<V>)
        requires
            self.wf(),
            heap.wf(),
            self.heap.kept_by(heap),
        ensures
            self.with_heap(heap).wf(),
            self.kept_by(self.with_heap(heap)),
            forall|bucket: int| #[trigger]
                self.occupied(bucket) ==> self.with_heap(heap).value_addr_at(bucket)
                    == self.value_addr_at(bucket),
    {
        let after = self.with_heap(heap);
        assert forall|bucket: int| #[trigger] self.occupied(bucket) implies after.occupied(bucket)
            && after.key_at(bucket) == self.key_at(bucket) && after.value_addr_at(bucket)
            == self.value_addr_at(bucket) by {
            assert(self.bucket_wf(bucket));
        }
        assert forall|bucket: int| #[trigger] after.occupied(bucket) implies after.bucket_wf(
            bucket,
        ) by {
            assert(self.occupied(bucket));
            assert(self.bucket_wf(bucket));
            self.lemma_search_kept(after, self.key_at(bucket));
        }
        assert(after.order_wf()) by {
            assert(self.order_wf());
            assert forall|bucket: int| after.occupied(bucket) == self.occupied(bucket) by {}
        }
    }

    /// A table keeps its keys when a free bucket is made to hold a key.
    pub proof fn lemma_placed_keeps(self, bucket: int, addr: u32)
        requires
            0 <= bucket < self.capacity(),
            self.buckets[bucket] is None,
        ensures
            self.kept_by(self.placed(bucket, addr)),
            self.placed(bucket, addr).occupied(bucket),
            self.placed(bucket, addr).key_at(bucket) == self.heap.slices[addr],
            forall|other: int| #[trigger]
                self.placed(bucket, addr).occupied(other) ==> other == bucket || self.occupied(
                    other,
                ),
    {
    }

    /// Making the bucket at which the search for a key ends hold that
    /// key, once the key and its value are in the arena, keeps the table
    /// well formed.
    pub proof fn lemma_placed_wf(self, bucket: int, addr: u32)
        requires
            self.wf(),
            self.heap.slices.contains_key(addr),
            self.heap.objects.contains_key(
                (addr + SLICE_HEADER_LEN + self.heap.slices[addr].len()) as u32,
            ),
            self.search(self.heap.slices[addr]) == Some(bucket),
            self.buckets[bucket] is None,
        ensures
            self.placed(bucket, addr).wf(),
    {
        let after = self.placed(bucket, addr);
        let key = self.heap.slices[addr];
        self.lemma_search_result(key);
        self.lemma_placed_keeps(bucket, addr);
        assert forall|other: int| #[trigger] after.occupied(other) implies after.bucket_wf(
            other,
        ) by {
            if other == bucket {
                self.lemma_search_kept(after, key);
            } else {
                assert(self.occupied(other));
                assert(self.bucket_wf(other));
                self.lemma_search_kept(after, self.key_at(other));
            }
        }
        assert(after.order_wf()) by {
            self.lemma_placed_order(bucket, addr);
        }
    }

    /// Changing the value of a key keeps the table well formed.
    pub proof fn lemma_revalued_wf(self, bucket: int, value: V)
        requires
            self.wf(),
            self.occupied(bucket),
        ensures
            self.revalued(bucket, value).wf(),
            self.kept_by(self.revalued(bucket, value)),
    {
        assert(self.bucket_wf(bucket));
        self.heap.lemma_set_object(self.value_addr_at(bucket), value);
        self.lemma_with_heap_wf(self.heap.set_object(self.value_addr_at(bucket), value));
    }

    /// Storing a new key in the bucket at which the search for it ends
    /// keeps the table well formed.
    pub proof fn lemma_filled_wf(self, bucket: int, key: Seq<u8>, value: V)
        requires
            self.wf(),
            self.search(key) == Some(bucket),
            self.buckets[bucket] is None,
            key.len() <= MAX_SLICE_LEN,
            self.heap.has_room(SLICE_HEADER_LEN as nat + key.len() + OBJECT_LEN as nat),
        ensures
            self.filled(bucket, key, value).wf(),
            self.kept_by(self.filled(bucket, key, value)),
            self.filled(bucket, key, value).occupied(bucket),
            self.filled(bucket, key, value).key_at(bucket) == key,
            self.filled(bucket, key, value).value_addr_at(bucket) == self.next_value_addr(key),
            self.filled(bucket, key, value).value_at(bucket) == value,
    {
        let heap = self.heap.store_slice(key).store_object(value);
        let grown = self.with_heap(heap);
        self.lemma_search_result(key);
        self.heap.lemma_store_slice(key);
        self.heap.store_slice(key).lemma_store_object(value);
        self.lemma_with_heap_wf(heap);
        self.lemma_search_kept(grown, key);
        grown.lemma_placed_wf(bucket, self.heap.len as u32);
        grown.lemma_placed_keeps(bucket, self.heap.len as u32);
        assert forall|other: int| #[trigger] self.occupied(other) implies grown.placed(
            bucket,
            self.heap.len as u32,
        ).occupied(other) && grown.placed(bucket, self.heap.len as u32).key_at(other)
            == self.key_at(other) by {
            assert(grown.occupied(other));
        }
    }

    /// Storing a new key in a free bucket puts that bucket last in the order.
    proof fn lemma_placed_order(self, bucket: int, addr: u32)
        requires
            self.order_wf(),
            0 <= bucket < self.capacity(),
            self.buckets[bucket] is None,
        ensures
            self.placed(bucket, addr).order_wf(),
    {
        let after = self.placed(bucket, addr);
        assert forall|other: int| after.occupied(other) == (other == bucket || self.occupied(
            other,
        )) by {}
        assert(!self.order.contains(bucket)) by {
            if self.order.contains(bucket) {
                let at = choose|at: int| 0 <= at < self.order.len() && self.order[at] == bucket;
                assert(self.occupied(self.order[at]));
            }
        }
        assert forall|other: int| #[trigger] after.occupied(other) implies after.order.contains(
            other,
        ) by {
            if other == bucket {
                assert(after.order[self.order.len() as int] == bucket);
            } else {
                assert(self.order.contains(other));
                let at = choose|at: int| 0 <= at < self.order.len() && self.order[at] == other;
                assert(after.order[at] == other);
            }
        }
    }

    /// Taking a key into the table keeps the table well formed.
    pub proof fn lemma_with_term_wf(self, key: Seq<u8>, value: V)
        requires
            self.wf(),
            self.failure(key) is None,
        ensures
            self.with_term(key, value).wf(),
    {
        let bucket = self.search(key)->0;
        self.lemma_search_result(key);
        if self.buckets[bucket] is Some {
            self.lemma_revalued_wf(bucket, value);
        } else {
            self.lemma_filled_wf(bucket, key, value);
        }
    }

    /// No key is held twice: two buckets that hold the same key are one
    /// bucket.
    pub proof fn lemma_keys_distinct(self, a: int, b: int)
        requires
            self.wf(),
            self.occupied(a),
            self.occupied(b),
            self.key_at(a) == self.key_at(b),
        ensures
            a == b,
    {
        assert(self.bucket_wf(a));
        assert(self.bucket_wf(b));
    }

    /// A key is held exactly if some bucket holds it, and then the search
    /// for it ends at that bucket.
    pub proof fn lemma_contains_key(self, key: Seq<u8>)
        requires
            self.wf(),
        ensures
            self.contains_key(key) <==> exists|bucket: int| #[trigger]
                self.occupied(bucket) && self.key_at(bucket) == key,
            self.contains_key(key) ==> self.key_at(self.search(key)->0) == key,
    {
        if self.contains_key(key) {
            self.lemma_search_result(key);
            assert(self.occupied(self.search(key)->0));
        }
        if exists|bucket: int| #[trigger] self.occupied(bucket) && self.key_at(bucket) == key {
            let bucket = choose|bucket: int| #[trigger]
                self.occupied(bucket) && self.key_at(bucket) == key;
            assert(self.bucket_wf(bucket));
        }
    }

    /// The values of two different terms lie at different offsets.
    pub proof fn lemma_values_apart(self, a: int, b: int)
        requires
            self.wf(),
            self.occupied(a),
            self.occupied(b),
            a != b,
        ensures
            self.value_addr_at(a) != self.value_addr_at(b),
    {
        assert(self.bucket_wf(a));
        assert(self.bucket_wf(b));
        let key_a = self.buckets[a]->0;
        let key_b = self.buckets[b]->0;
        assert(self.heap.slices.contains_key(key_a) && self.heap.slices.contains_key(key_b));
        if key_a == key_b {
            self.lemma_keys_distinct(a, b);
        }
    }

    /// What taking a key into the table does to the other terms: nothing.
    /// Every bucket that held a key holds it still, with the value it had.
    pub proof fn lemma_with_term_keeps_others(self, key: Seq<u8>, value: V, other: int)
        requires
            self.wf(),
            self.failure(key) is None,
            self.occupied(other),
            self.search(key) != Some(other),
        ensures
            self.with_term(key, value).occupied(other),
            self.with_term(key, value).key_at(other) == self.key_at(other),
            self.with_term(key, value).value_addr_at(other) == self.value_addr_at(other),
            self.with_term(key, value).value_at(other) == self.value_at(other),
    {
        let bucket = self.search(key)->0;
        self.lemma_search_result(key);
        assert(self.bucket_wf(other));
        if self.buckets[bucket] is Some {
            self.lemma_revalued_wf(bucket, value);
            self.lemma_values_apart(bucket, other);
        } else {
            self.lemma_filled_wf(bucket, key, value);
            self.heap.lemma_store_slice(key);
            self.heap.store_slice(key).lemma_store_object(value);
        }
    }

    /// Looking a key up once more finds the same term: the same identity,
    /// the value as it was left, and a table in which nothing but that
    /// value can change. Two lookups in a row leave the table as the second
    /// alone would.
    pub proof fn lemma_lookup_again(self, key: Seq<u8>, first: V, second: V)
        requires
            self.wf(),
            self.failure(key) is None,
        ensures
            self.with_term(key, first).wf(),
            self.with_term(key, first).contains_key(key),
            self.with_term(key, first).failure(key) is None,
            self.with_term(key, first).search(key) == self.search(key),
            self.with_term(key, first).value_at(self.search(key)->0) == first,
            self.with_term(key, first).value_addr_at(self.search(key)->0) == if self.contains_key(
                key,
            ) {
                self.value_addr_at(self.search(key)->0)
            } else {
                self.next_value_addr(key)
            },
            self.with_term(key, first).with_term(key, second) == self.with_term(key, second),
            self.with_term(key, first).with_term(key, second).buckets == self.with_term(
                key,
                first,
            ).buckets,
            self.with_term(key, first).with_term(key, second).order == self.with_term(
                key,
                first,
            ).order,
    {
        let bucket = self.search(key)->0;
        let once = self.with_term(key, first);
        self.lemma_search_result(key);
        self.lemma_with_term_wf(key, first);
        if self.buckets[bucket] is Some {
            assert(self.occupied(bucket));
            assert(self.bucket_wf(bucket));
            self.lemma_revalued_wf(bucket, first);
            self.lemma_search_kept(once, key);
            assert(once.with_term(key, second).heap.objects =~= self.with_term(
                key,
                second,
            ).heap.objects);
        } else {
            self.lemma_filled_wf(bucket, key, first);
            self.lemma_search_kept(once, key);
            self.heap.lemma_store_slice(key);
            assert(once.with_term(key, second).heap.objects =~= self.with_term(
                key,
                second,
            ).heap.objects);
        }
    }

    /// Taking a key into the table brings no other key with it: a key that
    /// was not held, and is not the one taken, is not held afterwards.
    pub proof fn lemma_absent_stays_absent(self, key: Seq<u8>, value: V, absent: Seq<u8>)
        requires
            self.wf(),
            self.failure(key) is None,
            !self.contains_key(absent),
            absent != key,
        ensures
            !self.with_term(key, value).contains_key(absent),
    {
        let after = self.with_term(key, value);
        let bucket = self.search(key)->0;
        self.lemma_search_result(key);
        self.lemma_with_term_wf(key, value);
        self.lemma_contains_key(absent);
        after.lemma_contains_key(absent);
        if after.contains_key(absent) {
            let held = choose|held: int| #[trigger]
                after.occupied(held) && after.key_at(held) == absent;
            if self.buckets[bucket] is Some {
                assert(self.occupied(bucket));
                self.lemma_revalued_wf(bucket, value);
                assert(self.occupied(held));
                assert(self.key_at(held) == absent);
            } else {
                self.lemma_filled_wf(bucket, key, value);
                if held != bucket {
                    assert(self.occupied(held));
                    assert(self.key_at(held) == absent);
                }
            }
        }
    }

    /// Terms come in the order in which they were first seen: when a key
    /// is taken in and then another that the table has not held before,
    /// the bucket of the second is the last in the order, and the bucket
    /// of the first stands before it.
    pub proof fn lemma_first_seen_order(
        self,
        first_key: Seq<u8>,
        first_value: V,
        second_key: Seq<u8>,
        second_value: V,
    )
        requires
            self.wf(),
            first_key != second_key,
            !self.contains_key(second_key),
            self.failure(first_key) is None,
            self.with_term(first_key, first_value).failure(second_key) is None,
        ensures
            ({
                let once = self.with_term(first_key, first_value);
                let twice = once.with_term(second_key, second_value);
                let first = self.search(first_key)->0;
                let second = once.search(second_key)->0;
                &&& twice.wf()
                &&& first != second
                &&& twice.key_at(first) == first_key
                &&& twice.key_at(second) == second_key
                &&& twice.order == once.order.push(second)
                &&& once.order.contains(first)
                &&& twice.order.index_of(first) < twice.order.index_of(second)
            }),
    {
        let once = self.with_term(first_key, first_value);
        let twice = once.with_term(second_key, second_value);
        let first = self.search(first_key)->0;
        let second = once.search(second_key)->0;
        self.lemma_lookup_again(first_key, first_value, first_value);
        self.lemma_absent_stays_absent(first_key, first_value, second_key);
        once.lemma_search_result(first_key);
        once.lemma_search_result(second_key);
        once.lemma_contains_key(first_key);
        assert(once.occupied(first));
        assert(once.buckets[second] is None);
        once.lemma_filled_wf(second, second_key, second_value);
        assert(once.order_wf());
        assert(once.order.contains(first));
        let at = choose|at: int| 0 <= at < once.order.len() && once.order[at] == first;
        assert(twice.order[at] == first);
        assert(twice.order[once.order.len() as int] == second);
        assert(twice.order_wf());
        assert(twice.order.contains(first));
        assert(twice.order.contains(second));
        let first_at = twice.order.index_of(first);
        let second_at = twice.order.index_of(second);
        assert(0 <= first_at < twice.order.len() && twice.order[first_at] == first);
        assert(0 <= second_at < twice.order.len() && twice.order[second_at] == second);
        assert(second_at == once.order.len());
        assert(first_at == at);
    }

    /// The table is saturated exactly when the number of its terms exceeds
    /// a third of the number of its buckets. Taking a key in leaves the
    /// number of buckets as it is and adds one term if the key is new, none
    /// if it is not: a saturated table stays saturated.
    pub proof fn lemma_saturation(self, key: Seq<u8>, value: V)
        requires
            self.wf(),
            self.failure(key) is None,
        ensures
            self.is_saturated() <==> self.len() > self.capacity() / 3,
            self.with_term(key, value).capacity() == self.capacity(),
            self.with_term(key, value).len() == if self.contains_key(key) {
                self.len()
            } else {
                self.len() + 1
            },
            self.is_saturated() ==> self.with_term(key, value).is_saturated(),
    {
        self.lemma_search_result(key);
    }

    /// A search that gives up would never have ended: no step, however
    /// late, meets the key or a free bucket.
    pub proof fn lemma_given_up_for_good(self, key: Seq<u8>, step: nat)
        requires
            0 < self.capacity(),
            self.search(key) is None,
            1 <= step,
        ensures
            !self.stops(key, step),
        decreases step,
    {
        self.lemma_search_from(key, 1);
        if step > self.capacity() {
            let earlier = (step - self.capacity()) as nat;
            lemma_probe_repeats(hash_of(key) as nat, earlier, self.capacity());
            self.lemma_given_up_for_good(key, earlier);
        }
    }

    /// A table of free buckets is well formed, holds no key, and is not
    /// saturated; the search for any key ends at the first bucket tried.
    pub proof fn lemma_empty(capacity: nat, heap: HeapView<V>, key: Seq<u8>)
        requires
            is_capacity(capacity),
            heap.wf(),
        ensures
            Self::empty(capacity, heap).wf(),
            Self::empty(capacity, heap).len() == 0,
            !Self::empty(capacity, heap).is_saturated(),
            !Self::empty(capacity, heap).contains_key(key),
            Self::empty(capacity, heap).search(key) == Some(
                Self::empty(capacity, heap).probe(key, 1),
            ),
    {
        let table = Self::empty(capacity, heap);
        let num_bits = choose|num_bits: nat|
            num_bits < usize::BITS && capacity == #[trigger] pow2(num_bits);
        lemma_pow2_pos(num_bits);
        lemma_probe_in_range(hash_of(key) as nat, 1, capacity);
        assert(table.stops(key, 1));
    }

    /// A table holds no more keys than it has buckets.
    pub proof fn lemma_len_bounded(self)
        requires
            self.wf(),
        ensures
            self.len() <= self.capacity(),
    {
        let all = set_int_range(0, self.capacity() as int);
        lemma_int_range(0, self.capacity() as int);
        assert(self.order.to_set().subset_of(all)) by {
            assert forall|bucket: int| self.order.to_set().contains(bucket) implies all.contains(
                bucket,
            ) by {
                let at = choose|at: int| 0 <= at < self.order.len() && self.order[at] == bucket;
                assert(self.occupied(self.order[at]));
            }
        }
        lemma_len_subset(self.order.to_set(), all);
        self.order.unique_seq_to_set();
    }

    /// A key for which the table is full stays out for good: whatever
    /// other key is taken in, the search for it still gives up.
    pub proof fn lemma_full_for_good(self, key: Seq<u8>, taken: Seq<u8>, value: V)
        requires
            self.wf(),
            self.search(key) is None,
            self.failure(taken) is None,
        ensures
            self.with_term(taken, value).search(key) is None,
            self.with_term(taken, value).failure(key) == Some(InsertError::TableFull),
    {
        let bucket = self.search(taken)->0;
        self.lemma_search_result(taken);
        if self.buckets[bucket] is Some {
            assert(self.occupied(bucket));
            self.lemma_revalued_wf(bucket, value);
        } else {
            self.lemma_filled_wf(bucket, taken, value);
        }
        self.lemma_search_given_up_kept(self.with_term(taken, value), key);
    }
}

} // verus!
