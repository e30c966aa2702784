//! Read-only, memory-mapped access to a sorted array of 32-bit keys, with a
//! partition-based bulk loader and an order validator sharing the same file
//! format: a raw concatenation of little-endian 4-byte unsigned integers in
//! non-decreasing order, with no header or footer.

mod error;
mod keys;
mod loader;
mod table;
mod validate;

pub use error::TableError;
pub use keys::{
    key_seq, lemma_adjacent_implies_sorted, lemma_key_seq_of_table_bytes, order_breaks_at,
    ordered_up_to, sorted, table_bytes, RECORD_WIDTH,
};
pub use loader::{
    domain_size, encode_keys, generate_keys, generate_partition, partition_bounds, partition_hi,
    partition_lo, partition_width, sort_keys,
};
pub use table::{key_at, Entry, SST};
pub use validate::{
    check_chunk, chunk_ok, chunk_result, combine, combine_spec, lemma_combine_assoc,
    lemma_combine_sound, validate_bytes, ChunkCheck,
};
