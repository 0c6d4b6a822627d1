use range_downloader::chunk::{Chunk, ChunkError, Overlaps};
use range_downloader::chunk_node::ChunkNode;

#[test]
fn test_chunk_creation() {
    // Valid chunks
    let chunk = Chunk::new(10, 20);
    assert!(chunk.is_ok());

    // Invalid chunk (begin >= end)
    let invalid_chunk = Chunk::new(30, 30);
    assert!(invalid_chunk.is_err());
    let invalid_chunk = Chunk::new(40, 30);
    assert!(invalid_chunk.is_err());
}

#[test]
fn test_chunk_overlaps() {
    // Non-overlapping chunks
    let chunk1 = Chunk::new(10, 20).unwrap();
    let chunk2 = Chunk::new(30, 40).unwrap();
    assert!(matches!(
        Chunk::overlaps(&chunk1, &chunk2),
        Overlaps::DoNotOverlaps
    ));

    // Chunks that can be optimized (touching)
    let chunk1 = Chunk::new(10, 20).unwrap();
    let chunk2 = Chunk::new(20, 30).unwrap();
    assert!(matches!(
        Chunk::overlaps(&chunk1, &chunk2),
        Overlaps::CanBeOptimized
    ));

    // Overlapping chunks
    let chunk1 = Chunk::new(10, 25).unwrap();
    let chunk2 = Chunk::new(20, 30).unwrap();
    assert!(matches!(
        Chunk::overlaps(&chunk1, &chunk2),
        Overlaps::Overlaps
    ));
}

#[test]
fn test_try_combine() {
    // Chunks that can be optimized
    let chunk1 = Chunk::new(10, 20).unwrap();
    let chunk2 = Chunk::new(20, 30).unwrap();
    let combined = Chunk::try_combine(chunk1, chunk2);
    assert!(combined.is_ok());
    let combined_chunk = combined.unwrap();
    assert_eq!(combined_chunk.begin, 10);
    assert_eq!(combined_chunk.end, 30);

    // Non-overlapping chunks - should fail
    let chunk1 = Chunk::new(10, 20).unwrap();
    let chunk2 = Chunk::new(30, 40).unwrap();
    let combined = Chunk::try_combine(chunk1, chunk2);
    assert!(combined.is_err());

    // Overlapping chunks - should fail
    let chunk1 = Chunk::new(10, 25).unwrap();
    let chunk2 = Chunk::new(20, 30).unwrap();
    let combined = Chunk::try_combine(chunk1, chunk2);
    assert!(combined.is_err());
}

#[test]
fn test_from_tuple() {
    assert_eq!(Chunk::from_pair((10, 29)), Chunk::new(10, 29));
}

#[test]
fn test_convert_to_pair() {
    let chunk = Chunk::new(3, 9).unwrap();
    assert_eq!(chunk.convert(), (3, 9));
}

#[test]
fn test_combine_reversed_touch() {
    // The later chunk first: the merge still spans both.
    let chunk1 = Chunk::new(20, 30).unwrap();
    let chunk2 = Chunk::new(10, 20).unwrap();
    let combined = Chunk::try_combine(chunk1, chunk2).unwrap();
    assert_eq!((combined.begin, combined.end), (10, 30));
}

#[test]
fn test_set_next_chunk() {
    let mut node = ChunkNode {
        chunk: Chunk::new(10, 20).unwrap(),
        next_chunk: None,
    };

    // Touching chunk merges in place.
    assert!(node.set_next_chunk(Chunk::new(20, 30).unwrap()).is_ok());
    assert_eq!((node.chunk.begin, node.chunk.end), (10, 30));
    assert!(node.next_chunk.is_none());

    // Disjoint chunk hangs behind the node.
    assert!(node.set_next_chunk(Chunk::new(40, 50).unwrap()).is_ok());
    assert!(node.next_chunk.is_some());

    // Overlapping chunk is refused.
    let outcome = node.set_next_chunk(Chunk::new(15, 25).unwrap());
    assert!(matches!(outcome, Err(ChunkError::ChunksOverlaps(_, _))));
}
