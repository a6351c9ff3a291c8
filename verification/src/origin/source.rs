//! Where chunks can be read from.
use vstd::prelude::*;

verus! {

/// Why a chunk could not be read.
#[derive(Debug, Clone, PartialEq, Eq)]
pub struct SourceError {
    pub message: String,
}

/// A place that chunks can be read from: a chunk store, or the files of an
/// internet cafe.
pub trait ChunkSource {
    /// The bytes of a chunk; `None` where the source lacks it.
    fn read_chunk(&self, hash: &[u8; 32]) -> (data: Result<Option<Vec<u8>>, SourceError>);

    /// Whether the source has a chunk.
    fn contains(&self, hash: &[u8; 32]) -> (found: Result<bool, SourceError>);
}

/// The chunk source of a node.
pub enum NodeStore<P: ChunkSource, C: ChunkSource> {
    /// A chunk store.
    Pack(P),
    /// The files of an internet cafe.
    Cafe(C),
}

impl<P: ChunkSource, C: ChunkSource> NodeStore<P, C> {
    /// The bytes of a chunk, as the source of this node gives them.
    pub fn read_chunk(&self, hash: &[u8; 32]) -> (data: Result<Option<Vec<u8>>, SourceError>)
        ensures
            match self {
                NodeStore::Pack(p) => call_ensures(P::read_chunk, (p, hash), data),
                NodeStore::Cafe(c) => call_ensures(C::read_chunk, (c, hash), data),
            },
    {
        match self {
            NodeStore::Pack(p) => p.read_chunk(hash),
            NodeStore::Cafe(c) => c.read_chunk(hash),
        }
    }

    /// Whether the source of this node has a chunk.
    pub fn contains(&self, hash: &[u8; 32]) -> (found: Result<bool, SourceError>)
        ensures
            match self {
                NodeStore::Pack(p) => call_ensures(P::contains, (p, hash), found),
                NodeStore::Cafe(c) => call_ensures(C::contains, (c, hash), found),
            },
    {
        match self {
            NodeStore::Pack(p) => p.contains(hash),
            NodeStore::Cafe(c) => c.contains(hash),
        }
    }
}

} // verus!
