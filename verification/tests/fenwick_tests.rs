use fenwick::Fenwick;

#[test]
fn add() {
    let mut fw = Fenwick::new(8);
    fw.add(1, 1);
    fw.add(2, 1);
    fw.add(1, 1);
    assert_eq!(fw.prefix_sum(2), 3); // Range is inclusive.

    assert_eq!(fw.total(), 3);
    fw.add(fw.len() - 1, 3);
    assert_eq!(fw.total(), 6);
    assert_eq!(fw.prefix_sum(fw.len() - 2), 3);
}

#[test]
fn sub() {
    let mut fw = Fenwick::new(8);
    fw.add(1, 1);
    fw.add(2, 1);
    fw.add(2, 1);
    fw.sub(2, 1);
    assert_eq!(fw.prefix_sum(2), 2);
}

#[test]
fn prefix_sum() {
    let mut fw = Fenwick::new(8);
    fw.add(1, 1); // sum = 2
    fw.add(0, 1); // sum = 1
    fw.add(3, 1); // sum = 3
    assert_eq!(fw.prefix_sum(3), 3);

    fw.sub(0, 1);
    assert_eq!(fw.prefix_sum(3), 2);
}

#[test]
fn get() {
    let mut fw = Fenwick::new(8);
    fw.add(0, 5);
    fw.add(1, 4);
    assert_eq!(fw.get(1), 4);
    assert_eq!(fw.get(0), 5);
    assert_eq!(fw.get(fw.len() - 1), 0);
}

#[test]
fn set() {
    let mut fw = Fenwick::new(8);
    fw.add(0, 5);
    fw.add(1, 4);
    assert_eq!(fw.get(1), 4);
    assert_eq!(fw.get(0), 5);

    fw.set(1, 0);
    assert_eq!(fw.get(1), 0);
    assert_eq!(fw.prefix_sum(7), 5);

    assert_eq!(fw.get(0), 5);
    fw.set(0, 4);
    assert_eq!(fw.get(0), 4);

    fw.set(fw.len() - 1, 3);
    assert_eq!(fw.get(fw.len() - 1), 3);
    assert_eq!(fw.prefix_sum(fw.len() - 1), 7);
    assert_eq!(fw.total(), 7);

    fw.set(0, 8);
    assert_eq!(fw.get(0), 8);
    fw.set(0, 0);
    assert_eq!(fw.get(0), 0);
}

#[test]
fn range_sum() {
    let mut fw = Fenwick::new(8);
    fw.add(0, 1); // sum = 1
    fw.add(1, 1); // sum = 2
    fw.add(2, 3); // sum = 5
    fw.add(3, 1); // sum = 6
    fw.add(4, 1); // sum = 7

    assert_eq!(fw.total(), 7);

    assert_eq!(fw.range_sum(1, 3), 5);
    assert_eq!(fw.range_sum(0, 3), 6);

    assert_eq!(fw.range_sum(2, 4), 5);
    assert_eq!(fw.range_sum(0, 0), 1);
    assert_eq!(fw.range_sum(2, 2), 3);
}

#[test]
fn rank_query() {
    let mut fw = Fenwick::new(8);
    fw.add(0, 1); // sum = 1
    fw.add(1, 1); // sum = 2
    fw.add(2, 3); // sum = 5
    fw.add(3, 1); // sum = 6
    fw.add(4, 1); // sum = 7

    assert_eq!(fw.rank_query(0), None);
    assert_eq!(fw.rank_query(1), Some(0));
    assert_eq!(fw.rank_query(2), Some(1));
    assert_eq!(fw.rank_query(7), Some(4));

    assert_eq!(fw.rank_query(5), Some(2));
    assert_eq!(fw.rank_query(6), Some(3));

    fw.set(0, 0);
    assert_eq!(fw.rank_query(5), Some(3));
}

#[test]
fn min_rank_query() {
    let mut fw = Fenwick::new(8);
    fw.add(0, 1); // sum = 1
    fw.add(1, 1); // sum = 2
    fw.add(2, 3); // sum = 5
    fw.add(3, 1); // sum = 6
    fw.add(4, 1); // sum = 7

    assert_eq!(fw.min_rank_query(1), Some(0));

    assert_eq!(fw.min_rank_query(3), Some(2)); // Check basic.
    assert_eq!(fw.min_rank_query(8), None); // Check that it falls on min.

    fw.add(7, 3); // sum = 10

    assert_eq!(fw.min_rank_query(7), Some(4)); // Should fall to 4.
    assert_eq!(fw.min_rank_query(8), Some(7)); // Should advance to 7.

    assert_eq!(fw.min_rank_query(10), Some(7));
    assert_eq!(fw.min_rank_query(11), None);
}

#[test]
fn total() {
    let mut fw = Fenwick::new(7);
    fw.add(0, 1); // sum = 1
    fw.add(1, 1); // sum = 2
    fw.add(2, 3); // sum = 5
    fw.add(3, 1); // sum = 6
    fw.add(4, 1); // sum = 7

    assert_eq!(fw.total(), 7);

    fw.set(0, 0); // Should reduce total to 6.
    assert_eq!(fw.total(), 6);
}

#[test]
fn iterators() {
    let mut fw = Fenwick::new(8);
    fw.add(0, 1); // sum = 1
    fw.add(1, 1); // sum = 2
    fw.add(2, 3); // sum = 5
    fw.add(3, 1); // sum = 6
    fw.add(4, 1); // sum = 7

    let mut iter = fw.iter();
    assert_eq!(iter.next(), Some(1));
    assert_eq!(iter.next(), Some(2));
    assert_eq!(iter.next(), Some(5));
    assert_eq!(iter.next(), Some(6));
    assert_eq!(iter.next(), Some(7));
    assert_eq!(iter.next(), Some(7));
    assert_eq!(iter.next(), Some(7));
    assert_eq!(iter.next(), Some(7));
    assert_eq!(iter.next(), None);

    let mut iter = fw.into_iter();
    assert_eq!(iter.next(), Some(1));
    assert_eq!(iter.next(), Some(2));
    assert_eq!(iter.next(), Some(5));
    assert_eq!(iter.next(), Some(6));
    assert_eq!(iter.next(), Some(7));
    assert_eq!(iter.next(), Some(7));
    assert_eq!(iter.next(), Some(7));
    assert_eq!(iter.next(), Some(7));
    assert_eq!(iter.next(), None);
}

#[test]
fn from_iterator() {
    let fw = Fenwick::from_iter(vec![1, 1, 3, 1, 1, 0, 0, 0]);
    assert_eq!(fw.prefix_sum(3), 6);
    assert_eq!(fw.prefix_sum(4), 7);
    assert_eq!(fw.prefix_sum(5), 7);
    assert_eq!(fw.prefix_sum(6), 7);
    assert_eq!(fw.prefix_sum(7), 7);

    let fw = Fenwick::from_vec(vec![1, 1, 3, 1, 1, 0, 0, 0, 0]);
    assert_eq!(fw.prefix_sum(3), 6);
    assert_eq!(fw.prefix_sum(4), 7);
    assert_eq!(fw.prefix_sum(5), 7);
    assert_eq!(fw.prefix_sum(6), 7);
    assert_eq!(fw.prefix_sum(7), 7);

    let fw = Fenwick::from_slice(&[1, 1, 3, 1, 1, 0, 0, 0, 0]);
    assert_eq!(fw.prefix_sum(3), 6);
    assert_eq!(fw.prefix_sum(4), 7);
    assert_eq!(fw.prefix_sum(5), 7);
    assert_eq!(fw.prefix_sum(6), 7);
    assert_eq!(fw.prefix_sum(7), 7);
}
