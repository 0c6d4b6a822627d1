use range_downloader::chunk::Chunk;
use range_downloader::interval_list::IntervalList;

fn list_of(pairs: &[(usize, usize)]) -> IntervalList {
    let mut list = IntervalList::new();
    for &(a, b) in pairs {
        list.add_chunk(Chunk::new(a, b).unwrap()).unwrap();
    }
    list
}

#[test]
fn test_complement_intervals() {
    let mut list = IntervalList::new();

    list.add_chunk(Chunk::new(10, 20).unwrap()).unwrap();
    list.add_chunk(Chunk::new(40, 50).unwrap()).unwrap();

    let comp_list = list
        .get_complement_intervals(Chunk::new(0, 100).unwrap())
        .unwrap();

    println!("{:?}", comp_list);
}

#[test]
fn test_empty_interval_list() {
    let list = IntervalList::new();
    let range = Chunk::new(0, 100).unwrap();

    let comp_list = list.get_complement_intervals(range).unwrap();

    let expected = IntervalList::from_intervals(vec![Chunk::new(0, 100).unwrap()]).unwrap();
    assert_eq!(
        comp_list, expected,
        "Empty interval list should return the full range"
    );
}

#[test]
fn test_single_interval() {
    let list = list_of(&[(10, 20)]);

    let comp_list = list
        .get_complement_intervals(Chunk::new(0, 30).unwrap())
        .unwrap();

    let expected = list_of(&[(0, 10), (20, 30)]);
    assert_eq!(
        comp_list, expected,
        "Complement should include ranges before and after interval"
    );
}

#[test]
fn test_multiple_intervals() {
    let list = list_of(&[(10, 20), (40, 50)]);

    let comp_list = list
        .get_complement_intervals(Chunk::new(0, 100).unwrap())
        .unwrap();

    let expected = list_of(&[(0, 10), (20, 40), (50, 100)]);
    assert_eq!(
        comp_list, expected,
        "Complement should include all gaps between intervals"
    );
}

#[test]
fn test_interval_at_start() {
    let list = list_of(&[(0, 10)]);

    let comp_list = list
        .get_complement_intervals(Chunk::new(0, 20).unwrap())
        .unwrap();

    let expected = list_of(&[(10, 20)]);
    assert_eq!(
        comp_list, expected,
        "Complement should handle interval at start of range"
    );
}

#[test]
fn test_interval_at_end() {
    let list = list_of(&[(90, 100)]);

    let comp_list = list
        .get_complement_intervals(Chunk::new(0, 100).unwrap())
        .unwrap();

    let expected = list_of(&[(0, 90)]);
    assert_eq!(
        comp_list, expected,
        "Complement should handle interval at end of range"
    );
}

#[test]
fn test_adjacent_intervals() {
    let list = list_of(&[(10, 20), (20, 30)]);

    let comp_list = list
        .get_complement_intervals(Chunk::new(0, 40).unwrap())
        .unwrap();

    let expected = list_of(&[(0, 10), (30, 40)]);
    assert_eq!(
        comp_list, expected,
        "Complement should handle adjacent intervals"
    );
}

#[test]
fn test_interval_covering_full_range() {
    let list = list_of(&[(0, 100)]);

    let comp_list = list
        .get_complement_intervals(Chunk::new(0, 100).unwrap())
        .unwrap();

    let expected = IntervalList::new();
    assert_eq!(
        comp_list, expected,
        "Complement should be empty when interval covers full range"
    );
}

#[test]
fn test_interval_exceeding_range() {
    let list = list_of(&[(0, 110)]);

    let comp_list = list
        .get_complement_intervals(Chunk::new(0, 100).unwrap())
        .unwrap();

    let expected = IntervalList::new();
    assert_eq!(
        comp_list, expected,
        "Complement should be empty when interval exceeds range"
    );
}

#[test]
fn test_exact_interval_bounds() {
    let list = list_of(&[(10, 20)]);

    let comp_list = list
        .get_complement_intervals(Chunk::new(10, 20).unwrap())
        .unwrap();

    let expected = IntervalList::new();
    assert_eq!(
        comp_list, expected,
        "Complement should be empty when interval exactly matches range"
    );
}

#[test]
fn test_overlapping_intervals() {
    let list = list_of(&[(10, 30), (20, 40)]);

    let comp_list = list
        .get_complement_intervals(Chunk::new(0, 50).unwrap())
        .unwrap();

    let expected = list_of(&[(0, 10), (40, 50)]);
    assert_eq!(
        comp_list, expected,
        "Complement should handle overlapping intervals correctly"
    );
}

#[test]
fn last_test() {
    let list = list_of(&[(10, 27)]);

    let comp_list = list
        .get_complement_intervals(Chunk::new(0, 100).unwrap())
        .unwrap();

    let expected = list_of(&[(0, 10), (27, 100)]);

    assert_eq!(comp_list, expected);
}

#[test]
fn test_bug() {
    let mut list = IntervalList::new();
    list.add_chunk(Chunk::new(10, 20).unwrap()).unwrap();

    list.add_chunk(Chunk::new(0, 10).unwrap()).unwrap();

    assert_eq!(list.len(), 1);
}
