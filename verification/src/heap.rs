//! The arena that holds the keys of the table and the values that go with
//! them: an append-only byte store in which offsets stand for pointers.

use vstd::prelude::*;
use vstd::slice::slice_subrange;

verus! {

/// The offset that stands for "no allocation".
pub const NULL_ADDR: u32 = 0xffff_ffffu32;

/// No arena is larger than this, so that no allocation starts at
/// `NULL_ADDR`.
pub const HEAP_LIMIT: usize = 0xffff_ffffusize;

/// Bytes of the length prefix in front of a stored byte string.
pub const SLICE_HEADER_LEN: usize = 2;

/// Longest byte string that the length prefix can describe.
pub const MAX_SLICE_LEN: usize = 0xffffusize;

/// Bytes of arena that one object takes.
pub const OBJECT_LEN: usize = 4;

/// The offset of a byte string stored in the arena.
#[derive(Clone, Copy, Debug)]
pub struct BytesRef(pub u32);

impl BytesRef {
    /// The reference that points at nothing.
    pub fn null() -> (r: BytesRef)
        ensures
            r.0 == NULL_ADDR,
    {
        BytesRef(NULL_ADDR)
    }

    /// Whether this reference points at nothing.
    pub fn is_null(&self) -> (r: bool)
        ensures
            r == (self.0 == NULL_ADDR),
    {
        self.0 == NULL_ADDR
    }

    /// The offset itself.
    pub fn addr(&self) -> (r: u32)
        ensures
            r == self.0,
    {
        self.0
    }
}

impl Default for BytesRef {
    fn default() -> (r: BytesRef)
        ensures
            r.0 == NULL_ADDR,
    {
        BytesRef(NULL_ADDR)
    }
}

/// A value that can be built knowing nothing but the offset at which it will
/// live in the arena.
pub trait HeapAllocable: Sized {
    /// The value that `with_addr` builds for `addr`.
    open spec fn at_addr(addr: u32) -> Self {
        arbitrary()
    }

    /// Builds the value that lives at `addr`.
    fn with_addr(addr: u32) -> (value: Self)
        ensures
            value == Self::at_addr(addr),
    ;
}

/// What an arena holds.
pub struct HeapView<V> {
    /// Bytes that the arena may hand out in all.
    pub limit: nat,
    /// Bytes handed out so far, which is also the offset of the next allocation.
    pub len: nat,
    /// The byte strings stored, by offset.
    pub slices: Map<u32, Seq<u8>>,
    /// The objects stored, by offset.
    pub objects: Map<u32, V>,
}

impl<V> HeapView<V> {
    /// The arena of `limit` bytes in which nothing was allocated yet.
    pub open spec fn empty(limit: nat) -> Self {
        HeapView { limit, len: 0, slices: Map::empty(), objects: Map::empty() }
    }

    /// Every allocation lies within the bytes handed out, those stay within
    /// the arena's limit and below the null offset, and no two byte strings
    /// overlap.
    pub open spec fn wf(self) -> bool {
        &&& self.len <= self.limit <= HEAP_LIMIT
        &&& forall|addr: u32| #[trigger]
            self.slices.contains_key(addr) ==> self.slices[addr].len() <= MAX_SLICE_LEN && addr
                + SLICE_HEADER_LEN + self.slices[addr].len() <= self.len
        &&& forall|addr: u32| #[trigger]
            self.objects.contains_key(addr) ==> addr + OBJECT_LEN <= self.len
        &&& forall|a: u32, b: u32|
            #![trigger self.slices.contains_key(a), self.slices.contains_key(b)]
            self.slices.contains_key(a) && self.slices.contains_key(b) && a < b ==> a
                + SLICE_HEADER_LEN + self.slices[a].len() <= b
    }

    /// Whether `num_bytes` more bytes can be handed out.
    pub open spec fn has_room(self, num_bytes: nat) -> bool {
        self.len + num_bytes <= self.limit
    }

    /// The arena after `data` was stored at its end.
    pub open spec fn store_slice(self, data: Seq<u8>) -> Self {
        HeapView {
            limit: self.limit,
            len: self.len + SLICE_HEADER_LEN as nat + data.len(),
            slices: self.slices.insert(self.len as u32, data),
            objects: self.objects,
        }
    }

    /// The arena after the object `value` was stored at its end.
    pub open spec fn store_object(self, value: V) -> Self {
        HeapView {
            limit: self.limit,
            len: self.len + OBJECT_LEN as nat,
            slices: self.slices,
            objects: self.objects.insert(self.len as u32, value),
        }
    }

    /// The arena in which the object at `addr` has become `value`.
    pub open spec fn set_object(self, addr: u32, value: V) -> Self {
        HeapView {
            limit: self.limit,
            len: self.len,
            slices: self.slices,
            objects: self.objects.insert(addr, value),
        }
    }

    /// Whether `other` holds every byte string of this arena, at the same
    /// offset, and an object wherever this arena holds one.
    pub open spec fn kept_by(self, other: Self) -> bool {
        &&& forall|addr: u32| #[trigger]
            self.slices.contains_key(addr) ==> other.slices.contains_key(addr)
                && other.slices[addr] == self.slices[addr]
        &&& forall|addr: u32| #[trigger]
            self.objects.contains_key(addr) ==> other.objects.contains_key(addr)
    }

    /// Storing a byte string for which there is room keeps the arena well
    /// formed and leaves what it held as it was.
    pub proof fn lemma_store_slice(self, data: Seq<u8>)
        requires
            self.wf(),
            data.len() <= MAX_SLICE_LEN,
            self.has_room(SLICE_HEADER_LEN as nat + data.len()),
        ensures
            self.store_slice(data).wf(),
            self.kept_by(self.store_slice(data)),
            !self.slices.contains_key(self.len as u32),
            self.store_slice(data).slices[self.len as u32] == data,
    {
    }

    /// Storing an object for which there is room keeps the arena well formed
    /// and leaves what it held as it was.
    pub proof fn lemma_store_object(self, value: V)
        requires
            self.wf(),
            self.has_room(OBJECT_LEN as nat),
        ensures
            self.store_object(value).wf(),
            self.kept_by(self.store_object(value)),
            !self.objects.contains_key(self.len as u32),
            forall|addr: u32| #[trigger]
                self.objects.contains_key(addr) ==> self.store_object(value).objects[addr]
                    == self.objects[addr],
            self.store_object(value).objects[self.len as u32] == value,
    {
    }

    /// Changing an object in place keeps the arena well formed.
    pub proof fn lemma_set_object(self, addr: u32, value: V)
        requires
            self.wf(),
            self.objects.contains_key(addr),
        ensures
            self.set_object(addr, value).wf(),
            self.kept_by(self.set_object(addr, value)),
    {
    }
}

/// The 16-bit little-endian number in the two bytes of `buffer` from `at`.
spec fn u16_at(buffer: Seq<u8>, at: int) -> u16 {
    (buffer[at] as u16) | ((buffer[at + 1] as u16) << 8)
}

/// The 32-bit little-endian number in the four bytes of `buffer` from `at`.
spec fn u32_at(buffer: Seq<u8>, at: int) -> u32 {
    (buffer[at] as u32) | ((buffer[at + 1] as u32) << 8) | ((buffer[at + 2] as u32) << 16) | ((
    buffer[at + 3] as u32) << 24)
}

/// The byte string that `buffer` holds behind the length prefix at `at`.
spec fn slice_at(buffer: Seq<u8>, at: int) -> Seq<u8> {
    buffer.subrange(
        at + SLICE_HEADER_LEN as int,
        at + SLICE_HEADER_LEN as int + u16_at(buffer, at) as int,
    )
}

/// Bytes added behind a buffer leave what is read from the buffer as it was.
proof fn lemma_prefix_reads(before: Seq<u8>, after: Seq<u8>)
    requires
        before.len() <= after.len(),
        after.subrange(0, before.len() as int) == before,
    ensures
        forall|at: int|
            0 <= at && at + 2 <= before.len() ==> #[trigger] u16_at(after, at) == u16_at(
                before,
                at,
            ),
        forall|at: int|
            0 <= at && at + 4 <= before.len() ==> #[trigger] u32_at(after, at) == u32_at(
                before,
                at,
            ),
        forall|at: int|
            0 <= at && at + SLICE_HEADER_LEN + u16_at(before, at) <= before.len()
                ==> #[trigger] slice_at(after, at) == slice_at(before, at),
{
    assert forall|at: int| 0 <= at < before.len() implies after[at] == before[at] by {
        assert(after.subrange(0, before.len() as int)[at] == after[at]);
    }
    assert forall|at: int|
        0 <= at && at + SLICE_HEADER_LEN + u16_at(before, at)
            <= before.len() implies #[trigger] slice_at(after, at) == slice_at(before, at) by {
        assert(slice_at(after, at) =~= slice_at(before, at));
    }
}

/// Appends `x` to `buffer` as two little-endian bytes.
fn push_u16(buffer: &mut Vec<u8>, x: u16)
    ensures
        final(buffer)@.len() == old(buffer)@.len() + 2,
        final(buffer)@.subrange(0, old(buffer)@.len() as int) == old(buffer)@,
        u16_at(final(buffer)@, old(buffer)@.len() as int) == x,
{
    let lo: u8 = (x & 0xff) as u8;
    let hi: u8 = (x >> 8) as u8;
    assert((lo as u16) | ((hi as u16) << 8) == x) by (bit_vector)
        requires
            lo == (x & 0xff) as u8,
            hi == (x >> 8) as u8,
    ;
    buffer.push(lo);
    buffer.push(hi);
    assert(buffer@.subrange(0, old(buffer)@.len() as int) =~= old(buffer)@);
}

/// Appends `x` to `buffer` as four little-endian bytes.
fn push_u32(buffer: &mut Vec<u8>, x: u32)
    ensures
        final(buffer)@.len() == old(buffer)@.len() + 4,
        final(buffer)@.subrange(0, old(buffer)@.len() as int) == old(buffer)@,
        u32_at(final(buffer)@, old(buffer)@.len() as int) == x,
{
    let b0: u8 = (x & 0xff) as u8;
    let b1: u8 = ((x >> 8) & 0xff) as u8;
    let b2: u8 = ((x >> 16) & 0xff) as u8;
    let b3: u8 = (x >> 24) as u8;
    assert((b0 as u32) | ((b1 as u32) << 8) | ((b2 as u32) << 16) | ((b3 as u32) << 24) == x)
        by (bit_vector)
        requires
            b0 == (x & 0xff) as u8,
            b1 == ((x >> 8) & 0xff) as u8,
            b2 == ((x >> 16) & 0xff) as u8,
            b3 == (x >> 24) as u8,
    ;
    buffer.push(b0);
    buffer.push(b1);
    buffer.push(b2);
    buffer.push(b3);
    assert(buffer@.subrange(0, old(buffer)@.len() as int) =~= old(buffer)@);
}

/// Reads the 16-bit little-endian number at `at`.
fn read_u16(buffer: &Vec<u8>, at: usize) -> (x: u16)
    requires
        at + 2 <= buffer.len(),
    ensures
        x == u16_at(buffer@, at as int),
{
    (buffer[at] as u16) | ((buffer[at + 1] as u16) << 8)
}

/// Reads the 32-bit little-endian number at `at`.
fn read_u32(buffer: &Vec<u8>, at: usize) -> (x: u32)
    requires
        at + 4 <= buffer.len(),
    ensures
        x == u32_at(buffer@, at as int),
{
    (buffer[at] as u32) | ((buffer[at + 1] as u32) << 8) | ((buffer[at + 2] as u32) << 16) | ((
    buffer[at + 3] as u32) << 24)
}

/// A bump-allocated arena. Byte strings are stored behind a two-byte length
/// prefix; an object takes `OBJECT_LEN` bytes of the arena, which name its
/// place among the objects. Nothing is ever freed or moved.
pub struct Heap<V> {
    limit: usize,
    buffer: Vec<u8>,
    objects: Vec<V>,
    slice_addrs: Ghost<Set<u32>>,
    object_addrs: Ghost<Seq<u32>>,
}

impl<V> Heap<V> {
    /// What the arena holds.
    pub closed spec fn view(&self) -> HeapView<V> {
        HeapView {
            limit: self.limit as nat,
            len: self.buffer@.len(),
            slices: Map::new(
                |addr: u32| self.slice_addrs@.contains(addr),
                |addr: u32| slice_at(self.buffer@, addr as int),
            ),
            objects: Map::new(
                |addr: u32| self.holds_object(addr),
                |addr: u32| self.objects@[u32_at(self.buffer@, addr as int) as int],
            ),
        }
    }

    /// Whether the bytes at `addr` name an object that was allocated there.
    spec fn holds_object(&self, addr: u32) -> bool {
        &&& addr + OBJECT_LEN <= self.buffer@.len()
        &&& u32_at(self.buffer@, addr as int) < self.object_addrs@.len()
        &&& self.object_addrs@[u32_at(self.buffer@, addr as int) as int] == addr
    }

    /// The arena's invariant: the bytes describe the allocations made.
    pub closed spec fn wf(&self) -> bool {
        &&& self.buffer@.len() <= self.limit <= HEAP_LIMIT
        &&& self.object_addrs@.len() == self.objects@.len()
        &&& self.objects@.len() * OBJECT_LEN <= self.buffer@.len()
        &&& forall|addr: u32| #[trigger]
            self.slice_addrs@.contains(addr) ==> addr + SLICE_HEADER_LEN + u16_at(
                self.buffer@,
                addr as int,
            ) <= self.buffer@.len()
        &&& forall|i: int|
            0 <= i < self.object_addrs@.len() ==> self.holds_object(
                #[trigger] self.object_addrs@[i],
            ) && u32_at(self.buffer@, self.object_addrs@[i] as int) == i
        &&& forall|a: u32, b: u32|
            #![trigger self.slice_addrs@.contains(a), self.slice_addrs@.contains(b)]
            self.slice_addrs@.contains(a) && self.slice_addrs@.contains(b) && a < b ==> a
                + SLICE_HEADER_LEN + u16_at(self.buffer@, a as int) <= b
    }

    /// A well-formed arena holds a well-formed content.
    pub proof fn lemma_view_wf(&self)
        requires
            self.wf(),
        ensures
            self@.wf(),
    {
        assert forall|addr: u32| #[trigger]
            self@.slices.contains_key(addr) implies self@.slices[addr].len() <= MAX_SLICE_LEN
            && addr + SLICE_HEADER_LEN + self@.slices[addr].len() <= self@.len by {
            assert(self.slice_addrs@.contains(addr));
        }
        assert forall|a: u32, b: u32|
            #![trigger self@.slices.contains_key(a), self@.slices.contains_key(b)]
            self@.slices.contains_key(a) && self@.slices.contains_key(b) && a < b implies a
                + SLICE_HEADER_LEN + self@.slices[a].len() <= b by {
            assert(self.slice_addrs@.contains(a) && self.slice_addrs@.contains(b));
        }
    }

    /// An empty arena of `num_bytes` bytes, or of `HEAP_LIMIT` bytes if
    /// that is less.
    pub fn with_capacity(num_bytes: usize) -> (heap: Self)
        ensures
            heap.wf(),
            heap@ == HeapView::<V>::empty(
                if num_bytes <= HEAP_LIMIT {
                    num_bytes as nat
                } else {
                    HEAP_LIMIT as nat
                },
            ),
    {
        let limit: usize = if num_bytes <= HEAP_LIMIT {
            num_bytes
        } else {
            HEAP_LIMIT
        };
        let heap = Heap {
            limit,
            buffer: Vec::with_capacity(limit),
            objects: Vec::new(),
            slice_addrs: Ghost(Set::empty()),
            object_addrs: Ghost(Seq::empty()),
        };
        assert(heap@.slices =~= Map::empty());
        assert(heap@.objects =~= Map::empty());
        heap
    }

    /// Whether `num_bytes` more bytes can be handed out.
    pub fn has_room(&self, num_bytes: usize) -> (r: bool)
        requires
            self.wf(),
        ensures
            r == self@.has_room(num_bytes as nat),
    {
        num_bytes <= self.limit - self.buffer.len()
    }

    /// Stores a copy of `data` at the end of the arena, behind its length,
    /// and returns where.
    pub fn allocate_and_set(&mut self, data: &[u8]) -> (bytes_ref: BytesRef)
        requires
            old(self).wf(),
            data@.len() <= MAX_SLICE_LEN,
            old(self)@.has_room(SLICE_HEADER_LEN as nat + data@.len()),
        ensures
            final(self).wf(),
            bytes_ref.0 == old(self)@.len,
            final(self)@ == old(self)@.store_slice(data@),
    {
        let start: usize = self.buffer.len();
        let len: usize = data.len();
        push_u16(&mut self.buffer, len as u16);
        let mut i: usize = 0;
        while i < len
            invariant
                len == data@.len(),
                i <= len,
                self.buffer@.len() == start + SLICE_HEADER_LEN + i,
                self.buffer@.subrange(0, start as int) == old(self).buffer@,
                u16_at(self.buffer@, start as int) == len,
                self.buffer@.subrange(
                    start + SLICE_HEADER_LEN as int,
                    start + SLICE_HEADER_LEN as int + i as int,
                ) == data@.subrange(0, i as int),
                self.limit == old(self).limit,
                self.objects == old(self).objects,
                self.slice_addrs == old(self).slice_addrs,
                self.object_addrs == old(self).object_addrs,
            decreases len - i,
        {
            let ghost before = self.buffer@;
            self.buffer.push(data[i]);
            i += 1;
            proof {
                assert(self.buffer@.subrange(0, start as int) =~= before.subrange(0, start as int));
                assert(self.buffer@.subrange(
                    start + SLICE_HEADER_LEN as int,
                    start + SLICE_HEADER_LEN as int + i as int,
                ) =~= before.subrange(
                    start + SLICE_HEADER_LEN as int,
                    start + SLICE_HEADER_LEN as int + i as int - 1,
                ).push(data@[i as int - 1]));
                assert(data@.subrange(0, i as int) =~= data@.subrange(0, i as int - 1).push(
                    data@[i as int - 1],
                ));
                assert(u16_at(self.buffer@, start as int) == u16_at(before, start as int));
            }
        }
        self.slice_addrs = Ghost(self.slice_addrs@.insert(start as u32));
        proof {
            assert(data@.subrange(0, len as int) =~= data@);
            assert(slice_at(self.buffer@, start as int) == data@);
            old(self).lemma_slice_stored(*self, data@);
        }
        BytesRef(start as u32)
    }

    /// Whether `after` is this arena with one more byte string at its end.
    spec fn slice_stored(&self, after: Self, data: Seq<u8>) -> bool {
        &&& after.buffer@.len() == self.buffer@.len() + SLICE_HEADER_LEN + data.len()
        &&& after.buffer@.subrange(0, self.buffer@.len() as int) == self.buffer@
        &&& u16_at(after.buffer@, self.buffer@.len() as int) == data.len()
        &&& slice_at(after.buffer@, self.buffer@.len() as int) == data
        &&& after.limit == self.limit
        &&& after.objects == self.objects
        &&& after.slice_addrs@ == self.slice_addrs@.insert(self.buffer@.len() as u32)
        &&& after.object_addrs == self.object_addrs
    }

    /// A byte string stored at the end shows in the content at that offset,
    /// and nowhere else.
    proof fn lemma_slice_stored(&self, after: Self, data: Seq<u8>)
        requires
            self.wf(),
            self@.has_room(SLICE_HEADER_LEN as nat + data.len()),
            self.slice_stored(after, data),
        ensures
            after.wf(),
            after@ == self@.store_slice(data),
    {
        lemma_prefix_reads(self.buffer@, after.buffer@);
        assert forall|addr: u32| after.holds_object(addr) == self.holds_object(addr) by {
            if after.holds_object(addr) {
                let index = u32_at(after.buffer@, addr as int) as int;
                assert(self.holds_object(self.object_addrs@[index]));
            }
        }
        assert(after@.slices =~= self@.slices.insert(self.buffer@.len() as u32, data));
        assert(after@.objects =~= self@.objects);
    }

    /// Allocates an object at the end of the arena, built from its own
    /// offset, and returns the offset and the object.
    pub fn allocate_object(&mut self) -> (allocated: (u32, &mut V)) where V: HeapAllocable
        requires
            old(self).wf(),
            old(self)@.has_room(OBJECT_LEN as nat),
        ensures
            allocated.0 == old(self)@.len,
            *allocated.1 == V::at_addr(allocated.0),
            final(self).wf(),
            final(self)@ == old(self)@.store_object(*final(allocated.1)),
    {
        let addr: u32 = self.buffer.len() as u32;
        let index: usize = self.objects.len();
        push_u32(&mut self.buffer, index as u32);
        self.objects.push(V::with_addr(addr));
        self.object_addrs = Ghost(self.object_addrs@.push(addr));
        proof {
            let grown = *self;
            assert(grown.objects@.subrange(0, index as int) =~= old(self).objects@);
            old(self).lemma_object_stored(grown);
            assert forall|after: Self|
                grown.differs_in_object(after, index as int) implies after.wf()
                && #[trigger] after@ == old(self)@.store_object(after.objects@[index as int]) by {
                grown.lemma_object_changed(after, addr);
                assert(grown@.set_object(addr, after.objects@[index as int]).objects =~= old(
                    self,
                )@.store_object(after.objects@[index as int]).objects);
            }
        }
        (addr, &mut self.objects[index])
    }

    /// Whether `after` is this arena with one more object at its end.
    spec fn object_stored(&self, after: Self) -> bool {
        &&& after.limit == self.limit
        &&& after.buffer@.len() == self.buffer@.len() + OBJECT_LEN
        &&& after.buffer@.subrange(0, self.buffer@.len() as int) == self.buffer@
        &&& u32_at(after.buffer@, self.buffer@.len() as int) == self.objects@.len()
        &&& after.objects@.len() == self.objects@.len() + 1
        &&& after.objects@.subrange(0, self.objects@.len() as int) == self.objects@
        &&& after.slice_addrs == self.slice_addrs
        &&& after.object_addrs@ == self.object_addrs@.push(self.buffer@.len() as u32)
    }

    /// An object stored at the end shows in the content at that offset, and
    /// nowhere else.
    proof fn lemma_object_stored(&self, after: Self)
        requires
            self.wf(),
            self@.has_room(OBJECT_LEN as nat),
            self.object_stored(after),
        ensures
            after.wf(),
            after.holds_object(self.buffer@.len() as u32),
            after@ == self@.store_object(after.objects@[self.objects@.len() as int]),
    {
        let addr = self.buffer@.len() as u32;
        let index = self.objects@.len() as int;
        lemma_prefix_reads(self.buffer@, after.buffer@);
        assert forall|a: u32| after.holds_object(a) == (self.holds_object(a) || a == addr) by {
            if after.holds_object(a) && a != addr {
                let i = u32_at(after.buffer@, a as int) as int;
                assert(after.object_addrs@[i] == a);
                assert(i < index);
                assert(self.holds_object(self.object_addrs@[i]));
            }
        }
        assert forall|i: int| 0 <= i < after.object_addrs@.len() implies after.holds_object(
            #[trigger] after.object_addrs@[i],
        ) && u32_at(after.buffer@, after.object_addrs@[i] as int) == i by {
            if i < index {
                assert(self.holds_object(self.object_addrs@[i]));
            }
        }
        assert forall|a: u32| self.holds_object(a) implies after.objects@[u32_at(
            after.buffer@,
            a as int,
        ) as int] == self.objects@[u32_at(self.buffer@, a as int) as int] by {
            let i = u32_at(self.buffer@, a as int) as int;
            assert(after.objects@.subrange(0, index)[i] == after.objects@[i]);
        }
        assert(after@.objects =~= self@.objects.insert(addr, after.objects@[index]));
        assert(after@.slices =~= self@.slices);
    }

    /// The byte string stored at `bytes_ref`.
    pub fn get_slice(&self, bytes_ref: BytesRef) -> (data: &[u8])
        requires
            self.wf(),
            self@.slices.contains_key(bytes_ref.0),
        ensures
            data@ == self@.slices[bytes_ref.0],
    {
        let start: usize = bytes_ref.0 as usize;
        assert(self.slice_addrs@.contains(bytes_ref.0));
        let len: usize = read_u16(&self.buffer, start) as usize;
        slice_subrange(
            self.buffer.as_slice(),
            start + SLICE_HEADER_LEN,
            start + SLICE_HEADER_LEN + len,
        )
    }

    /// The object stored at `addr`.
    pub fn get_ref(&self, addr: u32) -> (value: &V)
        requires
            self.wf(),
            self@.objects.contains_key(addr),
        ensures
            *value == self@.objects[addr],
    {
        assert(self.holds_object(addr));
        let index: usize = read_u32(&self.buffer, addr as usize) as usize;
        &self.objects[index]
    }

    /// The object stored at `addr`, to be changed in place. Nothing else in
    /// the arena changes.
    pub fn get_mut_ref(&mut self, addr: u32) -> (value: &mut V)
        requires
            old(self).wf(),
            old(self)@.objects.contains_key(addr),
        ensures
            *value == old(self)@.objects[addr],
            final(self).wf(),
            final(self)@ == old(self)@.set_object(addr, *final(value)),
    {
        assert(self.holds_object(addr));
        let index: usize = read_u32(&self.buffer, addr as usize) as usize;
        proof {
            let before = *self;
            assert forall|after: Self|
                before.differs_in_object(after, index as int) implies after.wf()
                && #[trigger] after@ == before@.set_object(addr, after.objects@[index as int]) by {
                before.lemma_object_changed(after, addr);
            }
        }
        &mut self.objects[index]
    }

    /// Whether `after` is this arena but for the object in place `index`.
    spec fn differs_in_object(&self, after: Self, index: int) -> bool {
        &&& after.limit == self.limit
        &&& after.buffer == self.buffer
        &&& after.slice_addrs == self.slice_addrs
        &&& after.object_addrs == self.object_addrs
        &&& after.objects@ == self.objects@.update(index, after.objects@[index])
    }

    /// Changing one object changes the content at that object's offset only.
    proof fn lemma_object_changed(&self, after: Self, addr: u32)
        requires
            self.wf(),
            self.holds_object(addr),
            self.differs_in_object(after, u32_at(self.buffer@, addr as int) as int),
        ensures
            after.wf(),
            after@ == self@.set_object(
                addr,
                after.objects@[u32_at(self.buffer@, addr as int) as int],
            ),
    {
        let index = u32_at(self.buffer@, addr as int) as int;
        assert forall|a: u32| after.holds_object(a) == self.holds_object(a) by {}
        assert(after@.objects =~= self@.objects.insert(addr, after.objects@[index]));
        assert(after@.slices =~= self@.slices);
    }
}

} // verus!
