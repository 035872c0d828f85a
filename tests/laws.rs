use kv_join::{KVAJoin, KVOJoin, Stream};

fn keyed(keys: &[u64]) -> Vec<(u64, u64)> {
    keys.iter().map(|k| (*k, *k * 10)).collect()
}

#[test]
fn intersection_rows_count_common_keys() {
    let mut join = KVAJoin::of_three(
        Stream::new(keyed(&[1, 2, 4, 6, 8, 9])),
        Stream::new(keyed(&[2, 3, 4, 8, 9])),
        Stream::new(keyed(&[0, 2, 8, 9, 11])),
    );
    let rows = join.rows();
    let keys: Vec<u64> = rows.iter().map(|r| r.0).collect();
    assert_eq!(keys, vec![2, 8, 9]);
    assert_eq!(rows[1].1, (80, 80, 80));
    assert!(join.next().is_none());
}

#[test]
fn intersection_with_no_common_key_is_empty() {
    let mut join = KVAJoin::of_two(Stream::new(keyed(&[1, 3, 5])), Stream::new(keyed(&[2, 4, 6])));
    assert!(join.next().is_none());
    let mut empty = KVAJoin::of_two(Stream::new(keyed(&[])), Stream::new(keyed(&[1, 2])));
    assert_eq!(empty.rows().len(), 0);
}

#[test]
fn intersection_of_ten_streams() {
    let mut join = KVAJoin::of_ten(
        Stream::new(keyed(&[1, 5, 7])),
        Stream::new(keyed(&[0, 5, 7])),
        Stream::new(keyed(&[5, 7])),
        Stream::new(keyed(&[2, 5, 7, 9])),
        Stream::new(keyed(&[5, 6, 7])),
        Stream::new(keyed(&[3, 4, 5, 7])),
        Stream::new(keyed(&[5, 7, 8])),
        Stream::new(keyed(&[5, 7])),
        Stream::new(keyed(&[4, 5, 7])),
        Stream::new(keyed(&[5, 7, u64::MAX])),
    );
    let rows = join.rows();
    let keys: Vec<u64> = rows.iter().map(|r| r.0).collect();
    assert_eq!(keys, vec![5, 7]);
    assert_eq!((rows[0].1).9, 50);
}

#[test]
fn union_stops_at_first_exhausted_stream() {
    let mut join = KVOJoin::of_two(Stream::new(keyed(&[1, 2])), Stream::new(keyed(&[0, 3, 4, 5])));
    let rows = join.rows();
    assert_eq!(rows, vec![
        (0, (None, Some(0))),
        (1, (Some(10), None)),
        (2, (Some(20), None)),
    ]);
    assert!(join.next().is_none());
}

#[test]
fn union_slots_follow_membership() {
    let mut join = KVOJoin::of_three(
        Stream::new(keyed(&[1, 3, 9])),
        Stream::new(keyed(&[2, 3, 9])),
        Stream::new(keyed(&[1, 2, 9])),
    );
    let rows = join.rows();
    assert_eq!(rows, vec![
        (1, (Some(10), None, Some(10))),
        (2, (None, Some(20), Some(20))),
        (3, (Some(30), Some(30), None)),
        (9, (Some(90), Some(90), Some(90))),
    ]);
}

#[test]
fn union_with_an_empty_stream_yields_nothing() {
    let mut join = KVOJoin::of_two(Stream::new(keyed(&[])), Stream::new(keyed(&[1, 2])));
    assert!(join.next().is_none());
}

#[test]
fn union_of_ten_streams() {
    let mut join = KVOJoin::of_ten(
        Stream::new(keyed(&[0, 9])),
        Stream::new(keyed(&[1, 9])),
        Stream::new(keyed(&[2, 9])),
        Stream::new(keyed(&[3, 9])),
        Stream::new(keyed(&[4, 9])),
        Stream::new(keyed(&[5, 9])),
        Stream::new(keyed(&[6, 9])),
        Stream::new(keyed(&[7, 9])),
        Stream::new(keyed(&[8, 9])),
        Stream::new(keyed(&[9])),
    );
    let rows = join.rows();
    let keys: Vec<u64> = rows.iter().map(|r| r.0).collect();
    assert_eq!(keys, vec![0, 1, 2, 3, 4, 5, 6, 7, 8, 9]);
    assert_eq!((rows[3].1).3, Some(30));
    assert_eq!((rows[3].1).4, None);
    assert_eq!((rows[9].1).9, Some(90));
}

#[test]
fn stream_pull_and_take() {
    let mut s = Stream::new(keyed(&[2, 4]));
    assert_eq!(s.head_key(), Some(2));
    assert_eq!(s.take_if_key(3), None);
    assert_eq!(s.take_if_key(2), Some(20));
    s.skip_below(4);
    assert_eq!(s.pull(), Some((4, 40)));
    assert!(s.is_empty());
    assert_eq!(s.pull(), None);
}

#[test]
fn nested_intersection_join() {
    let mut inner = KVAJoin::of_two(Stream::new(keyed(&[1, 2, 3, 4])), Stream::new(keyed(&[2, 3, 4])));
    let mut outer = KVAJoin::of_two(Stream::new(inner.rows()), Stream::new(keyed(&[0, 3, 4, 5])));
    assert_eq!(outer.rows(), vec![(3, ((30, 30), 30)), (4, ((40, 40), 40))]);
}
