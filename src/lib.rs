//! Cached binary Merkle tree hashing.
//!
//! A `TreeHashCache` keeps every node of an object's Merkle tree in one flat buffer of
//! 32-byte chunks, together with a dirty flag for each chunk, so that after a partial change
//! only the paths above changed leaves are hashed again.

pub mod buffers;
pub mod chunks;
pub mod hashing;
pub mod int_bytes;
pub mod laws;
pub mod merkleize;
pub mod protocol;
pub mod resize;
pub mod schema;
pub mod tree_hash_cache;

use vstd::prelude::*;

verus! {

/// The size of a digest, in bytes.
pub const HASHSIZE: usize = 32;

/// The size of one node of the tree, in bytes.
pub const BYTES_PER_CHUNK: usize = 32;

/// The ways in which an operation on a cache can fail.
#[derive(Debug, Clone, Copy, PartialEq, Eq, Structural)]
pub enum Error {
    /// The cache was never built.
    CacheNotInitialized,
    /// No schema is stored at this index.
    NoSchemaForIndex(usize),
    /// The cache holds no chunk for the root.
    NoBytesForRoot,
    /// No chunk has this index.
    NoBytesForChunk(usize),
    /// No dirty flag has this index.
    NoModifiedFieldForChunk(usize),
    /// A buffer of this many bytes is not made of whole chunks.
    BytesAreNotEvenChunks(usize),
    /// The internal nodes of a subtree lie outside the cache.
    UnableToObtainSlices,
    /// The internal nodes of a subtree could not be grown.
    UnableToGrowMerkleTree,
    /// The internal nodes of a subtree could not be shrunk.
    UnableToShrinkMerkleTree,
}

} // verus!
