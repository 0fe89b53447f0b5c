//! A small embeddable vector database: documents are stored beside quantized
//! embedding vectors in tag-partitioned binary shards, and retrieved by
//! nearest-neighbour search with tag filtering.
//!
//! This crate holds the verified core: the storage abstraction with its
//! in-memory backend, the byte formats of every persisted file, tag-set
//! canonicalization and shard routing, and the top-K selection that orders
//! search results. Floating-point kernels (quantization of raw floats,
//! similarity scoring, the PCA projection) live outside the core; the core
//! exchanges packed vectors and integer score keys with them.
use vstd::prelude::*;

pub mod bytes;
pub mod content;
pub mod db;
pub mod filesystem;
pub mod index;
pub mod packed_vector;
pub mod ranking;
pub mod shard;
pub mod tags;

verus! {

/// Relies on String::from_utf8: returns the string whose UTF-8 encoding is
/// the input, and fails exactly on input that is not valid UTF-8.
#[verifier::external_body]
pub(crate) fn bytes_to_string(v: Vec<u8>) -> (r: Option<String>)
    ensures
        match r {
            Some(s) => vstd::utf8::encode_utf8(s@) == v@,
            None => !vstd::utf8::valid_utf8(v@),
        },
{
    match String::from_utf8(v) {
        Ok(s) => Some(s),
        Err(_) => None,
    }
}

/// The errors the database distinguishes.
///
/// `NotFound` reports a lookup of an absent directory entry, `Storage` a
/// failure of the backing store, `Corruption` a persisted file that does not
/// decode, and `RecordSizeMismatch` an attempt to mix record sizes (and so
/// vector dimensionalities) within one shard.
#[derive(Clone, Copy, Debug, PartialEq, Eq, Structural)]
pub enum DbError {
    NotFound,
    Storage,
    Corruption,
    RecordSizeMismatch,
}

} // verus!
