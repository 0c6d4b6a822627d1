use crate::chunk::{chunk_wf, chunks_overlap, chunks_touch, Chunk, ChunkError};
use vstd::prelude::*;

verus! {

/// One node of the forward-linked interval list, owning one chunk.
#[derive(Debug)]
pub struct ChunkNode {
    pub chunk: Chunk,
    pub next_chunk: Option<Box<ChunkNode>>,
}

/// The chunks hanging off an optional node, in list order.
pub open spec fn node_seq(node: Option<Box<ChunkNode>>) -> Seq<Chunk>
    decreases node,
{
    match node {
        Option::None => Seq::empty(),
        Option::Some(n) => seq![n.chunk] + node_seq(n.next_chunk),
    }
}

impl From<Chunk> for ChunkNode {
    fn from(value: Chunk) -> Self {
        Self { chunk: value, next_chunk: None }
    }
}

impl vstd::std_specs::convert::FromSpecImpl<Chunk> for ChunkNode {
    open spec fn obeys_from_spec() -> bool {
        true
    }

    open spec fn from_spec(v: Chunk) -> Self {
        ChunkNode { chunk: v, next_chunk: None }
    }
}

impl ChunkNode {
    /// Merges a touching chunk into this node, or hangs a disjoint one
    /// behind it in place of whatever followed; an overlapping chunk is
    /// rejected.
    pub fn set_next_chunk(&mut self, chunk: Chunk) -> (r: Result<(), ChunkError>)
        ensures
            chunks_touch(old(self).chunk, chunk) && !chunks_overlap(old(self).chunk, chunk)
                ==> r == Ok::<(), ChunkError>(()) && final(self).chunk == (Chunk {
                begin: if old(self).chunk.begin <= chunk.begin {
                    old(self).chunk.begin
                } else {
                    chunk.begin
                },
                end: if old(self).chunk.end >= chunk.end {
                    old(self).chunk.end
                } else {
                    chunk.end
                },
            }) && final(self).next_chunk == old(self).next_chunk,
            chunks_overlap(old(self).chunk, chunk) ==> r == Err::<(), ChunkError>(
                ChunkError::ChunksOverlaps(old(self).chunk, chunk),
            ) && *final(self) == *old(self),
            !chunks_touch(old(self).chunk, chunk) && !chunks_overlap(old(self).chunk, chunk)
                ==> r == Ok::<(), ChunkError>(()) && final(self).chunk == old(self).chunk
                && final(self).next_chunk == Some(
                Box::new(ChunkNode { chunk, next_chunk: None }),
            ),
    {
        match Chunk::try_combine(self.chunk, chunk) {
            Ok(new_chunk) => {
                self.chunk = new_chunk;
                Ok(())
            },
            Err(err) => match err {
                ChunkError::ChunksOverlaps(a, b) => Err(ChunkError::ChunksOverlaps(a, b)),
                ChunkError::ChunksDoNotOverlaps(_, _) => {
                    self.next_chunk = Some(Box::new(ChunkNode { chunk, next_chunk: None }));
                    Ok(())
                },
                ChunkError::IncorrectChunksOrder(a, b) => Err(
                    ChunkError::IncorrectChunksOrder(a, b),
                ),
                ChunkError::InvalidChunk(c) => Err(ChunkError::InvalidChunk(c)),
            },
        }
    }
}

} // verus!
