//! How many bytes the parts of an index take.

use std::ops::Add;
use vstd::prelude::*;
use vstd::std_specs::ops::AddSpecImpl;

verus! {

/// A number of bytes.
#[derive(Clone, Copy, Debug)]
pub struct ByteCount(pub usize);

impl Add for ByteCount {
    type Output = ByteCount;

    /// The sum of two numbers of bytes, which has to fit in a `usize`.
    fn add(self, rhs: ByteCount) -> (sum: ByteCount) {
        ByteCount(self.0 + rhs.0)
    }
}

impl AddSpecImpl for ByteCount {
    open spec fn obeys_add_spec() -> bool {
        true
    }

    open spec fn add_req(self, rhs: ByteCount) -> bool {
        self.0 + rhs.0 <= usize::MAX
    }

    open spec fn add_spec(self, rhs: ByteCount) -> ByteCount {
        ByteCount((self.0 + rhs.0) as usize)
    }
}

/// The name of a field of the schema.
#[derive(Clone, Copy, Debug, PartialEq, Eq, Structural)]
pub struct Field(pub u32);

/// The bytes of the document store of a segment: the compressed data, and
/// the offsets by which a block of it is found.
#[derive(Clone, Debug)]
pub struct StoreSpaceUsage {
    data: ByteCount,
    offsets: ByteCount,
}

impl StoreSpaceUsage {
    /// The bytes of the compressed data.
    pub closed spec fn data(&self) -> nat {
        self.data.0 as nat
    }

    /// The bytes of the offsets.
    pub closed spec fn offsets(&self) -> nat {
        self.offsets.0 as nat
    }

    /// The usage of a store from the bytes of its two parts.
    pub fn new(data: ByteCount, offsets: ByteCount) -> (usage: StoreSpaceUsage)
        ensures
            usage.data() == data.0,
            usage.offsets() == offsets.0,
    {
        StoreSpaceUsage { data, offsets }
    }

    /// The bytes of the store in all.
    pub fn total(&self) -> (total: ByteCount)
        requires
            self.data() + self.offsets() <= usize::MAX,
        ensures
            total.0 == self.data() + self.offsets(),
    {
        self.data + self.offsets
    }
}

/// The bytes that one field takes in a file made of one part for each
/// field and index.
#[derive(Clone, Debug)]
pub struct FieldUsage {
    field: Field,
    weight: ByteCount,
    sub_weights: Vec<Option<ByteCount>>,
}

/// The sizes in `sub_weights`, as plain numbers.
pub open spec fn sizes(sub_weights: Seq<Option<ByteCount>>) -> Seq<Option<nat>> {
    Seq::new(
        sub_weights.len(),
        |idx: int|
            match sub_weights[idx] {
                Some(size) => Some(size.0 as nat),
                None => None,
            },
    )
}

impl FieldUsage {
    /// The field.
    pub closed spec fn field(&self) -> Field {
        self.field
    }

    /// The bytes of the field in all.
    pub closed spec fn weight(&self) -> nat {
        self.weight.0 as nat
    }

    /// The bytes of each part of the field, by index, where they are known.
    pub closed spec fn sub_weights(&self) -> Seq<Option<nat>> {
        sizes(self.sub_weights@)
    }

    /// A field of which no part is known yet.
    pub fn empty(field: Field) -> (usage: FieldUsage)
        ensures
            usage.field() == field,
            usage.weight() == 0,
            usage.sub_weights().len() == 0,
    {
        FieldUsage { field, weight: ByteCount(0), sub_weights: Vec::new() }
    }

    /// Notes the bytes of the part of index `idx`, which must be a part
    /// whose bytes are not known yet.
    pub fn add_field_idx(&mut self, idx: usize, size: ByteCount)
        requires
            idx < old(self).sub_weights().len(),
            old(self).sub_weights()[idx as int] is None,
            old(self).weight() + size.0 <= usize::MAX,
        ensures
            final(self).field() == old(self).field(),
            final(self).sub_weights() == old(self).sub_weights().update(
                idx as int,
                Some(size.0 as nat),
            ),
            final(self).weight() == old(self).weight() + size.0,
    {
        self.sub_weights[idx] = Some(size);
        self.weight = self.weight + size;
        assert(self.sub_weights() =~= old(self).sub_weights().update(
            idx as int,
            Some(size.0 as nat),
        ));
    }

    /// The bytes of the field in all.
    pub fn total(&self) -> (total: ByteCount)
        ensures
            total.0 == self.weight(),
    {
        self.weight
    }
}

/// The bytes that the fields in `fields` take together.
pub open spec fn sum_of_fields(fields: Seq<FieldUsage>) -> nat
    decreases fields.len(),
{
    if fields.len() == 0 {
        0
    } else {
        sum_of_fields(fields.drop_last()) + fields.last().weight()
    }
}

/// The first fields of a list take no more bytes than the whole list.
pub proof fn lemma_sum_of_fields_grows(fields: Seq<FieldUsage>, count: int)
    requires
        0 <= count <= fields.len(),
    ensures
        sum_of_fields(fields.take(count)) <= sum_of_fields(fields),
    decreases fields.len(),
{
    if count < fields.len() {
        assert(fields.drop_last().take(count) =~= fields.take(count));
        lemma_sum_of_fields_grows(fields.drop_last(), count);
    } else {
        assert(fields.take(count) =~= fields);
    }
}

/// The bytes of a file made of one part for each field and index: what
/// each field takes, and the sum.
#[derive(Clone, Debug)]
pub struct PerFieldSpaceUsage {
    fields: Vec<FieldUsage>,
    total: ByteCount,
}

impl PerFieldSpaceUsage {
    /// The fields of the file.
    pub closed spec fn fields(&self) -> Seq<FieldUsage> {
        self.fields@
    }

    /// The bytes of the file.
    pub closed spec fn total_bytes(&self) -> nat {
        self.total.0 as nat
    }

    /// The usage of a file from the usage of each of its fields.
    pub fn new(fields: Vec<FieldUsage>) -> (usage: PerFieldSpaceUsage)
        requires
            sum_of_fields(fields@) <= usize::MAX,
        ensures
            usage.fields() == fields@,
            usage.total_bytes() == sum_of_fields(fields@),
    {
        let mut total: ByteCount = ByteCount(0);
        let mut at: usize = 0;
        while at < fields.len()
            invariant
                at <= fields@.len(),
                total.0 == sum_of_fields(fields@.take(at as int)),
                sum_of_fields(fields@) <= usize::MAX,
            decreases fields@.len() - at,
        {
            proof {
                assert(fields@.take(at + 1).drop_last() =~= fields@.take(at as int));
                lemma_sum_of_fields_grows(fields@, at + 1);
            }
            total = total + fields[at].total();
            at += 1;
        }
        proof {
            assert(fields@.take(at as int) =~= fields@);
        }
        PerFieldSpaceUsage { fields, total }
    }

    /// The bytes of the file.
    pub fn total(&self) -> (total: ByteCount)
        ensures
            total.0 == self.total_bytes(),
    {
        self.total
    }
}

/// The bytes of the large parts of a segment, and their sum.
#[derive(Clone, Debug)]
pub struct SegmentSpaceUsage {
    num_docs: u32,
    termdict: PerFieldSpaceUsage,
    postings: PerFieldSpaceUsage,
    positions: PerFieldSpaceUsage,
    fast_fields: PerFieldSpaceUsage,
    fieldnorms: PerFieldSpaceUsage,
    store: StoreSpaceUsage,
    deletes: ByteCount,
    total: ByteCount,
}

impl SegmentSpaceUsage {
    /// The bytes of the segment.
    pub closed spec fn total_bytes(&self) -> nat {
        self.total.0 as nat
    }

    /// The number of documents of the segment.
    pub closed spec fn num_docs(&self) -> u32 {
        self.num_docs
    }

    /// The usage of a segment from the usage of each of its parts.
    pub fn new(
        num_docs: u32,
        termdict: PerFieldSpaceUsage,
        postings: PerFieldSpaceUsage,
        positions: PerFieldSpaceUsage,
        fast_fields: PerFieldSpaceUsage,
        fieldnorms: PerFieldSpaceUsage,
        store: StoreSpaceUsage,
        deletes: ByteCount,
    ) -> (usage: SegmentSpaceUsage)
        requires
            termdict.total_bytes() + postings.total_bytes() + positions.total_bytes()
                + fast_fields.total_bytes() + fieldnorms.total_bytes() + store.data()
                + store.offsets() + deletes.0 <= usize::MAX,
        ensures
            usage.num_docs() == num_docs,
            usage.total_bytes() == termdict.total_bytes() + postings.total_bytes()
                + positions.total_bytes() + fast_fields.total_bytes() + fieldnorms.total_bytes()
                + store.data() + store.offsets() + deletes.0,
    {
        let total = termdict.total() + postings.total() + positions.total() + fast_fields.total()
            + fieldnorms.total() + store.total() + deletes;
        SegmentSpaceUsage {
            num_docs,
            termdict,
            postings,
            positions,
            fast_fields,
            fieldnorms,
            store,
            deletes,
            total,
        }
    }

    /// The bytes of the segment.
    pub fn total(&self) -> (total: ByteCount)
        ensures
            total.0 == self.total_bytes(),
    {
        self.total
    }
}

/// The bytes that the segments in `segments` take together.
pub open spec fn sum_of_segments(segments: Seq<SegmentSpaceUsage>) -> nat
    decreases segments.len(),
{
    if segments.len() == 0 {
        0
    } else {
        sum_of_segments(segments.drop_last()) + segments.last().total_bytes()
    }
}

/// The bytes of a searcher: those of each of its segments, and their sum.
#[derive(Clone, Debug)]
pub struct SearcherSpaceUsage {
    segments: Vec<SegmentSpaceUsage>,
    total: ByteCount,
}

impl SearcherSpaceUsage {
    /// The segments noted so far.
    pub closed spec fn segments(&self) -> Seq<SegmentSpaceUsage> {
        self.segments@
    }

    /// The bytes of the searcher.
    pub closed spec fn total_bytes(&self) -> nat {
        self.total.0 as nat
    }

    /// The invariant of the searcher's usage: the total is the sum of the
    /// segments' totals.
    pub open spec fn wf(&self) -> bool {
        self.total_bytes() == sum_of_segments(self.segments())
    }

    /// The usage of a searcher without segments.
    pub fn new() -> (usage: SearcherSpaceUsage)
        ensures
            usage.wf(),
            usage.segments().len() == 0,
            usage.total_bytes() == 0,
    {
        SearcherSpaceUsage { segments: Vec::new(), total: ByteCount(0) }
    }

    /// Notes one more segment. Whether the segment was noted before is not
    /// looked at.
    pub fn add_segment(&mut self, segment: SegmentSpaceUsage)
        requires
            old(self).total_bytes() + segment.total_bytes() <= usize::MAX,
        ensures
            final(self).segments() == old(self).segments().push(segment),
            final(self).total_bytes() == old(self).total_bytes() + segment.total_bytes(),
            old(self).wf() ==> final(self).wf(),
    {
        self.total = self.total + segment.total();
        self.segments.push(segment);
        proof {
            assert(self.segments().drop_last() =~= old(self).segments());
        }
    }

    /// The bytes of the searcher.
    pub fn total(&self) -> (total: ByteCount)
        ensures
            total.0 == self.total_bytes(),
    {
        self.total
    }
}

} // verus!
