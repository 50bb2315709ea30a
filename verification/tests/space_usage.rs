use stacker::space_usage::{
    ByteCount, Field, FieldUsage, PerFieldSpaceUsage, SearcherSpaceUsage, SegmentSpaceUsage,
    StoreSpaceUsage,
};

fn field_usage(field: u32) -> FieldUsage {
    FieldUsage::empty(Field(field))
}

#[test]
fn test_byte_count_adds() {
    let sum = ByteCount(3) + ByteCount(4);
    assert_eq!(sum.0, 7);
    assert_eq!((ByteCount(0) + ByteCount(0)).0, 0);
    assert_eq!((ByteCount(usize::MAX - 1) + ByteCount(1)).0, usize::MAX);
}

#[test]
fn test_store_total() {
    let store = StoreSpaceUsage::new(ByteCount(1000), ByteCount(24));
    assert_eq!(store.total().0, 1024);
    let empty = StoreSpaceUsage::new(ByteCount(0), ByteCount(0));
    assert_eq!(empty.total().0, 0);
}

#[test]
fn test_field_usage_starts_empty() {
    let usage = field_usage(3);
    assert_eq!(usage.total().0, 0);
}

#[test]
fn test_per_field_total() {
    let no_fields = PerFieldSpaceUsage::new(Vec::new());
    assert_eq!(no_fields.total().0, 0);
    let fields = PerFieldSpaceUsage::new(vec![field_usage(0), field_usage(1), field_usage(2)]);
    assert_eq!(fields.total().0, 0);
}

#[test]
fn test_segment_total() {
    let segment = SegmentSpaceUsage::new(
        10,
        PerFieldSpaceUsage::new(vec![field_usage(0)]),
        PerFieldSpaceUsage::new(vec![field_usage(0)]),
        PerFieldSpaceUsage::new(Vec::new()),
        PerFieldSpaceUsage::new(Vec::new()),
        PerFieldSpaceUsage::new(Vec::new()),
        StoreSpaceUsage::new(ByteCount(500), ByteCount(20)),
        ByteCount(7),
    );
    assert_eq!(segment.total().0, 527);
}

#[test]
fn test_searcher_total() {
    let mut searcher = SearcherSpaceUsage::new();
    assert_eq!(searcher.total().0, 0);
    for docs in 1..4u32 {
        let segment = SegmentSpaceUsage::new(
            docs,
            PerFieldSpaceUsage::new(Vec::new()),
            PerFieldSpaceUsage::new(Vec::new()),
            PerFieldSpaceUsage::new(Vec::new()),
            PerFieldSpaceUsage::new(Vec::new()),
            PerFieldSpaceUsage::new(Vec::new()),
            StoreSpaceUsage::new(ByteCount(100 * docs as usize), ByteCount(1)),
            ByteCount(0),
        );
        searcher.add_segment(segment);
    }
    assert_eq!(searcher.total().0, 603);
}
