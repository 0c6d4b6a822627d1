use range_downloader::chunk::{Chunk, ChunkError};
use range_downloader::interval_list::{IntervalList, ListError};

fn chunks_of(list: &IntervalList) -> Vec<(usize, usize)> {
    let mut out = Vec::new();
    let mut iter = list.iter();
    while let Some(chunk) = iter.next() {
        out.push((chunk.begin, chunk.end));
    }
    out
}

#[test]
fn test_empty_list() {
    let list = IntervalList::new();
    assert!(list.is_empty());
    assert_eq!(list.len(), 0);
    assert_eq!(list.total_range(), None);
}

#[test]
fn test_add_single_chunk() {
    let mut list = IntervalList::new();
    let chunk = Chunk::new(10, 20).unwrap();

    assert!(list.add_chunk(chunk).is_ok());
    assert!(!list.is_empty());
    assert_eq!(list.len(), 1);
    assert_eq!(list.total_range(), Some((10, 20)));
}

#[test]
fn test_near() {
    let mut list = IntervalList::new();
    list.add_chunk(Chunk::new(0, 11).unwrap()).unwrap();
    list.add_chunk(Chunk::new(11, 20).unwrap()).unwrap();

    assert_eq!(list.len(), 1);
}

#[test]
fn test_add_non_overlapping_chunks() {
    let mut list = IntervalList::new();

    assert!(list.add_chunk(Chunk::new(10, 20).unwrap()).is_ok());
    assert!(list.add_chunk(Chunk::new(30, 40).unwrap()).is_ok());
    assert!(list.add_chunk(Chunk::new(50, 60).unwrap()).is_ok());

    assert_eq!(list.len(), 3);
    assert_eq!(list.total_range(), Some((10, 60)));
}

#[test]
fn test_add_optimizable_chunks() {
    let mut list = IntervalList::new();

    assert!(list.add_chunk(Chunk::new(10, 20).unwrap()).is_ok());
    assert!(list.add_chunk(Chunk::new(20, 30).unwrap()).is_ok()); // Should optimize with previous

    assert_eq!(list.len(), 1);
    assert_eq!(list.total_range(), Some((10, 30)));
}

#[test]
fn test_contains() {
    let mut list = IntervalList::new();

    assert!(list.add_chunk(Chunk::new(10, 20).unwrap()).is_ok());
    assert!(list.add_chunk(Chunk::new(30, 40).unwrap()).is_ok());

    assert!(list.contains(15));
    assert!(list.contains(35));
    assert!(!list.contains(25));
    assert!(!list.contains(5));
    assert!(!list.contains(45));
}

#[test]
fn test_hard_merge() {
    let mut list = IntervalList::new();

    assert!(list.add_chunk(Chunk::new(0, 20).unwrap()).is_ok());
    assert!(list.add_chunk(Chunk::new(40, 50).unwrap()).is_ok());

    assert_eq!(list.len(), 2);

    assert!(list.add_chunk(Chunk::new(20, 40).unwrap()).is_ok());

    assert_eq!(list.len(), 1);

    assert_eq!(list.total_range(), Some((0, 50)));
}

#[test]
fn test_clear() {
    let mut list = IntervalList::new();

    assert!(list.add_chunk(Chunk::new(10, 20).unwrap()).is_ok());
    assert!(list.add_chunk(Chunk::new(30, 40).unwrap()).is_ok());

    assert_eq!(list.len(), 2);

    list.clear();

    assert!(list.is_empty());
    assert_eq!(list.len(), 0);
}

#[test]
fn test_add_in_middle() {
    let mut list = IntervalList::new();

    assert!(list.add_chunk(Chunk::new(10, 20).unwrap()).is_ok());
    assert!(list.add_chunk(Chunk::new(40, 50).unwrap()).is_ok());
    assert!(list.add_chunk(Chunk::new(25, 35).unwrap()).is_ok()); // Add in the middle

    assert_eq!(list.len(), 3);
    assert!(list.contains(15));
    assert!(list.contains(30));
    assert!(list.contains(45));
    assert!(!list.contains(22));
    assert!(!list.contains(38));
}

#[test]
fn test_tobeggining() {
    let mut list = IntervalList::new();

    assert!(list.add_chunk(Chunk::new(20, 40).unwrap()).is_ok());
    assert!(list.add_chunk(Chunk::new(10, 14).unwrap()).is_ok());
    assert!(list.add_chunk(Chunk::new(50, 55).unwrap()).is_ok());

    assert!(list.contains(10));
    assert!(!list.contains(5));

    let mut len = 0;
    let mut iter = list.iter();
    while let Some(chunk) = iter.next() {
        println!("{:?}", chunk);
        len += 1;
    }

    assert_eq!(len, 3);
}

#[test]
fn test_adding_overlaping_chunks() {
    let mut list = IntervalList::new();

    assert!(list.add_chunk(Chunk::new(10, 80).unwrap()).is_ok());
    assert!(list.add_chunk(Chunk::new(90, 110).unwrap()).is_ok());
    assert!(list.add_chunk(Chunk::new(140, 150).unwrap()).is_ok());
    assert!(list.add_chunk(Chunk::new(60, 120).unwrap()).is_ok());

    assert!(list.contains(85));
    assert_eq!(list.len(), 2);

    assert!(list.add_chunk(Chunk::new(160, 180).unwrap()).is_ok());
    assert!(list.add_chunk(Chunk::new(40, 155).unwrap()).is_ok());

    assert!(list.contains(130));
    assert_eq!(list.len(), 2);
    assert_eq!(chunks_of(&list), vec![(10, 155), (160, 180)]);
}

#[test]
fn tests_test_empty_list() {
    let list = IntervalList::new();
    assert!(list.is_empty());
    assert_eq!(list.len(), 0);
    assert_eq!(list.total_range(), None);
}

#[test]
fn tests_test_add_single_chunk() {
    let mut list = IntervalList::new();
    let chunk = Chunk::new(10, 20).unwrap();

    assert!(list.add_chunk(chunk).is_ok());
    assert!(!list.is_empty());
    assert_eq!(list.len(), 1);
    assert_eq!(list.total_range(), Some((10, 20)));
}

#[test]
fn tests_test_near() {
    let mut list = IntervalList::new();
    list.add_chunk(Chunk::new(0, 11).unwrap()).unwrap();
    list.add_chunk(Chunk::new(11, 20).unwrap()).unwrap();

    assert_eq!(list.len(), 1);
}

#[test]
fn tests_test_add_non_overlapping_chunks() {
    let mut list = IntervalList::new();

    assert!(list.add_chunk(Chunk::new(10, 20).unwrap()).is_ok());
    assert!(list.add_chunk(Chunk::new(30, 40).unwrap()).is_ok());
    assert!(list.add_chunk(Chunk::new(50, 60).unwrap()).is_ok());

    assert_eq!(list.len(), 3);
    assert_eq!(list.total_range(), Some((10, 60)));
}

#[test]
fn tests_test_add_optimizable_chunks() {
    let mut list = IntervalList::new();

    assert!(list.add_chunk(Chunk::new(10, 20).unwrap()).is_ok());
    assert!(list.add_chunk(Chunk::new(20, 30).unwrap()).is_ok());

    assert_eq!(list.len(), 1);
    assert_eq!(list.total_range(), Some((10, 30)));
}

#[test]
fn tests_test_contains() {
    let mut list = IntervalList::new();

    assert!(list.add_chunk(Chunk::new(10, 20).unwrap()).is_ok());
    assert!(list.add_chunk(Chunk::new(30, 40).unwrap()).is_ok());

    assert!(list.contains(15));
    assert!(list.contains(35));
    assert!(!list.contains(25));
    assert!(!list.contains(5));
    assert!(!list.contains(45));
}

#[test]
fn tests_test_hard_merge() {
    let mut list = IntervalList::new();

    assert!(list.add_chunk(Chunk::new(0, 20).unwrap()).is_ok());
    assert!(list.add_chunk(Chunk::new(40, 50).unwrap()).is_ok());

    assert_eq!(list.len(), 2);

    assert!(list.add_chunk(Chunk::new(20, 40).unwrap()).is_ok());

    assert_eq!(list.len(), 1);

    assert_eq!(list.total_range(), Some((0, 50)));
}

#[test]
fn tests_test_clear() {
    let mut list = IntervalList::new();

    assert!(list.add_chunk(Chunk::new(10, 20).unwrap()).is_ok());
    assert!(list.add_chunk(Chunk::new(30, 40).unwrap()).is_ok());

    assert_eq!(list.len(), 2);

    list.clear();

    assert!(list.is_empty());
    assert_eq!(list.len(), 0);
}

#[test]
fn tests_test_add_in_middle() {
    let mut list = IntervalList::new();

    assert!(list.add_chunk(Chunk::new(10, 20).unwrap()).is_ok());
    assert!(list.add_chunk(Chunk::new(40, 50).unwrap()).is_ok());
    assert!(list.add_chunk(Chunk::new(25, 35).unwrap()).is_ok());

    assert_eq!(list.len(), 3);
    assert!(list.contains(15));
    assert!(list.contains(30));
    assert!(list.contains(45));
    assert!(!list.contains(22));
    assert!(!list.contains(38));
}

#[test]
fn tests_test_tobeggining() {
    let mut list = IntervalList::new();

    assert!(list.add_chunk(Chunk::new(20, 40).unwrap()).is_ok());
    assert!(list.add_chunk(Chunk::new(10, 14).unwrap()).is_ok());
    assert!(list.add_chunk(Chunk::new(50, 55).unwrap()).is_ok());

    assert!(list.contains(10));
    assert!(!list.contains(5));

    let mut len = 0;
    let mut iter = list.iter();
    while let Some(_chunk) = iter.next() {
        len += 1;
    }

    assert_eq!(len, 3);
}

#[test]
fn tests_test_adding_overlaping_chunks() {
    let mut list = IntervalList::new();

    assert!(list.add_chunk(Chunk::new(10, 80).unwrap()).is_ok());
    assert!(list.add_chunk(Chunk::new(90, 110).unwrap()).is_ok());
    assert!(list.add_chunk(Chunk::new(140, 150).unwrap()).is_ok());
    assert!(list.add_chunk(Chunk::new(60, 120).unwrap()).is_ok());

    assert!(list.contains(85));
    assert_eq!(list.len(), 2);

    assert!(list.add_chunk(Chunk::new(160, 180).unwrap()).is_ok());
    assert!(list.add_chunk(Chunk::new(40, 155).unwrap()).is_ok());

    assert!(list.contains(130));
    assert_eq!(list.len(), 2);
}

#[test]
fn test_get_interval_by_index() {
    let mut list = IntervalList::new();
    list.add_chunk(Chunk::new(10, 20).unwrap()).unwrap();
    list.add_chunk(Chunk::new(30, 40).unwrap()).unwrap();

    let first = list.get_interval_by_index(0).unwrap();
    assert_eq!((first.begin, first.end), (10, 20));
    let second = list.get_interval_by_index(1).unwrap();
    assert_eq!((second.begin, second.end), (30, 40));
    assert_eq!(list.get_interval_by_index(2), Err(ListError::IndexOutOfRange));
}

#[test]
fn test_from_intervals_round_trip() {
    let mut list = IntervalList::new();
    list.add_chunk(Chunk::new(10, 20).unwrap()).unwrap();
    list.add_chunk(Chunk::new(30, 40).unwrap()).unwrap();
    list.add_chunk(Chunk::new(50, 60).unwrap()).unwrap();

    let mut collected = Vec::new();
    let mut iter = list.iter();
    while let Some(chunk) = iter.next() {
        collected.push(*chunk);
    }

    let rebuilt = IntervalList::from_intervals(collected).unwrap();
    assert_eq!(rebuilt, list);
}

#[test]
fn test_from_intervals_invalid() {
    let intervals = vec![Chunk::new(10, 20).unwrap(), Chunk { begin: 9, end: 9 }];
    assert_eq!(
        IntervalList::from_intervals(intervals).unwrap_err(),
        ChunkError::InvalidChunk(Chunk { begin: 9, end: 9 })
    );
}
