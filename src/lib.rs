//! A deduplicating map keyed by byte strings, which hands back its distinct
//! keys in first-seen order in the offsets-and-buffer layout of a columnar
//! byte array.
//!
//! Each distinct key (and null) is stored once and carries one payload that
//! the caller defines. Keys arrive in batches; the map hashes each batch once,
//! probes its index, and appends keys it has not seen to an append-only arena.
//! Keys of at most [`SHORT_VALUE_LEN`] bytes are compared by a word packed
//! from their bytes, longer keys by their bytes in the arena.
pub mod binary_map;
pub mod index;
pub mod inline;
pub mod model;
pub mod output;

pub use binary_map::{
    capped, is_update_trace, law_counting, made_by, occurrences, update_step, ArrowBytesMap,
};
pub use inline::SHORT_VALUE_LEN;
pub use model::{
    batch_keys, bytes_len, concat_batches, insert_batches, insert_keys, key_len,
    law_batches_compose, law_dedup, law_first_seen_order, law_inline_boundary, law_many_batches,
    law_round_trip_distinct, lemma_insert_keys_bytes_bound, Key,
};
pub use output::{single_null_buffer, BytesArray, OffsetWidth, OutputType};
