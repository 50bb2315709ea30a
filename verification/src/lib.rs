//! Term interning for one indexing thread: a hash table of fixed capacity,
//! probed quadratically, whose keys and per-term values live in a
//! bump-allocated arena; the hash function and the memory split that size
//! it; and, beside them, the bookkeeping of index sizes and the shape of
//! boolean queries.

pub mod boolean_weight;
pub mod hashmap;
pub mod heap;
pub mod murmurhash2;
pub mod probing;
pub mod space_usage;
pub mod table_view;
