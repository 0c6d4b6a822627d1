use vstd::prelude::*;

verus! {

/// How two intervals relate: interiors intersect, they touch end to begin
/// (so a merge is exact), or neither.
#[derive(Clone, Copy, Debug)]
pub enum Overlaps {
    Overlaps,
    CanBeOptimized,
    DoNotOverlaps,
}

/// Which way a second interval grows a first one whose interior it intersects.
#[derive(Clone, Copy, Debug)]
pub enum OverlapType {
    Left,
    Right,
    Inside,
}

/// A half-open range `[begin, end)` of byte offsets; it is well formed only
/// when `begin < end`.
#[derive(Clone, Copy, Debug, PartialEq, Eq, Structural)]
pub struct Chunk {
    pub begin: usize,
    pub end: usize,
}

#[derive(Clone, Debug, PartialEq, Eq, Structural)]
pub enum ChunkError {
    InvalidChunk(Chunk),
    ChunksOverlaps(Chunk, Chunk),
    ChunksDoNotOverlaps(Chunk, Chunk),
    IncorrectChunksOrder(Chunk, Chunk),
}

/// A chunk is well formed when it holds at least one point.
pub open spec fn chunk_wf(c: Chunk) -> bool {
    c.begin < c.end
}

/// Membership in the half-open range.
pub open spec fn chunk_has(c: Chunk, x: int) -> bool {
    c.begin <= x < c.end
}

/// `a` and `b` are adjacent, one ending exactly where the other begins,
/// so a merge is exact.
pub open spec fn chunks_touch(a: Chunk, b: Chunk) -> bool {
    a.end == b.begin || b.end == a.begin
}

/// The interiors of `a` and `b` intersect; touching is excluded.
pub open spec fn chunks_overlap(a: Chunk, b: Chunk) -> bool {
    a.begin < b.end && b.begin < a.end && !chunks_touch(a, b)
}

/// How `b` grows `a`, given that their interiors intersect; a `b` contained
/// in `a` counts as `Right` with no growth.
pub open spec fn overlap_type_of(a: Chunk, b: Chunk) -> OverlapType {
    if b.begin < a.begin && b.end <= a.end {
        OverlapType::Left
    } else if b.begin < a.begin && b.end > a.end {
        OverlapType::Inside
    } else {
        OverlapType::Right
    }
}

impl Chunk {
    pub fn new(begin: usize, end: usize) -> (r: Result<Self, ChunkError>)
        ensures
            begin < end ==> r == Ok::<Chunk, ChunkError>(Chunk { begin, end }),
            begin >= end ==> r == Err::<Chunk, ChunkError>(ChunkError::InvalidChunk(Chunk { begin, end })),
    {
        if begin >= end {
            return Err(ChunkError::InvalidChunk(Chunk { begin, end }));
        }
        Ok(Self { begin, end })
    }

    /// The other chunk may stand after this one in a sorted list.
    pub fn can_be_followed(&self, chunk: &Self) -> (r: bool)
        ensures
            r == (self.end <= chunk.begin),
    {
        if self.end <= chunk.begin {
            return true;
        }
        false
    }

    pub fn overlaps(chunk1: &Self, chunk2: &Self) -> (r: Overlaps)
        ensures
            r == Overlaps::Overlaps <==> chunks_overlap(*chunk1, *chunk2),
            r == Overlaps::CanBeOptimized <==> !chunks_overlap(*chunk1, *chunk2)
                && chunks_touch(*chunk1, *chunk2),
            r == Overlaps::DoNotOverlaps <==> !chunks_overlap(*chunk1, *chunk2)
                && !chunks_touch(*chunk1, *chunk2),
    {
        if chunk1.end == chunk2.begin || chunk2.end == chunk1.begin {
            return Overlaps::CanBeOptimized;
        }
        if chunk1.begin < chunk2.end && chunk2.begin < chunk1.end {
            return Overlaps::Overlaps;
        }
        Overlaps::DoNotOverlaps
    }

    pub fn get_overlap_type(chunk1: &Self, chunk2: &Self) -> (r: Result<OverlapType, ChunkError>)
        ensures
            chunks_overlap(*chunk1, *chunk2) ==> r == Ok::<OverlapType, ChunkError>(overlap_type_of(*chunk1, *chunk2)),
            !chunks_overlap(*chunk1, *chunk2) ==> r == Err::<OverlapType, ChunkError>(
                ChunkError::ChunksDoNotOverlaps(*chunk1, *chunk2),
            ),
    {
        match Self::overlaps(chunk1, chunk2) {
            Overlaps::Overlaps => Ok(
                if chunk2.begin < chunk1.begin && chunk2.end <= chunk1.end {
                    OverlapType::Left
                } else if chunk2.begin < chunk1.begin && chunk2.end > chunk1.end {
                    OverlapType::Inside
                } else {
                    OverlapType::Right
                },
            ),
            _ => Err(ChunkError::ChunksDoNotOverlaps(*chunk1, *chunk2)),
        }
    }

    /// Exact merge of two touching chunks into `[min(begins), max(ends))`.
    pub fn try_combine(chunk1: Self, chunk2: Self) -> (r: Result<Self, ChunkError>)
        ensures
            !chunks_overlap(chunk1, chunk2) && chunks_touch(chunk1, chunk2) ==> r == Ok::<
                Chunk,
                ChunkError,
            >(
                Chunk {
                    begin: if chunk1.begin <= chunk2.begin { chunk1.begin } else { chunk2.begin },
                    end: if chunk1.end >= chunk2.end { chunk1.end } else { chunk2.end },
                },
            ),
            chunks_overlap(chunk1, chunk2) ==> r == Err::<Chunk, ChunkError>(
                ChunkError::ChunksOverlaps(chunk1, chunk2),
            ),
            !chunks_overlap(chunk1, chunk2) && !chunks_touch(chunk1, chunk2) ==> r == Err::<
                Chunk,
                ChunkError,
            >(ChunkError::ChunksDoNotOverlaps(chunk1, chunk2)),
    {
        match Self::overlaps(&chunk1, &chunk2) {
            Overlaps::Overlaps => Err(ChunkError::ChunksOverlaps(chunk1, chunk2)),
            Overlaps::CanBeOptimized => {
                let begin = if chunk1.begin <= chunk2.begin { chunk1.begin } else { chunk2.begin };
                let end = if chunk1.end >= chunk2.end { chunk1.end } else { chunk2.end };
                Ok(Chunk { begin, end })
            },
            Overlaps::DoNotOverlaps => Err(ChunkError::ChunksDoNotOverlaps(chunk1, chunk2)),
        }
    }

    /// The bounds as a plain pair.
    pub fn convert(self) -> (r: (usize, usize))
        ensures
            r == (self.begin, self.end),
    {
        (self.begin, self.end)
    }

    /// Builds a chunk from a pair of bounds, rejecting an empty range.
    pub fn from_pair(value: (usize, usize)) -> (r: Result<Self, ChunkError>)
        ensures
            value.0 < value.1 ==> r == Ok::<Chunk, ChunkError>(
                Chunk { begin: value.0, end: value.1 },
            ),
            value.0 >= value.1 ==> r == Err::<Chunk, ChunkError>(
                ChunkError::InvalidChunk(Chunk { begin: value.0, end: value.1 }),
            ),
    {
        Chunk::new(value.0, value.1)
    }
}

} // verus!
