use fenwick::Fenwick;

#[test]
fn add_then_get_increases_by_delta() {
    let mut fw = Fenwick::new(8);
    fw.add(3, 10);
    let before = fw.get(3);
    fw.add(3, 7);
    assert_eq!(fw.get(3), before + 7);
    fw.sub(3, 5);
    assert_eq!(fw.get(3), before + 2);
}

#[test]
fn prefix_equals_range_from_zero() {
    let mut fw = Fenwick::new(8);
    fw.add(0, 1);
    fw.add(1, 1);
    fw.add(2, 3);
    fw.add(3, 1);
    fw.add(4, 1);
    for idx in 0..8 {
        assert_eq!(fw.prefix_sum(idx), fw.range_sum(0, idx));
    }
}

#[test]
fn range_equals_prefix_difference() {
    let mut fw = Fenwick::new(8);
    fw.add(0, 1);
    fw.add(1, 1);
    fw.add(2, 3);
    fw.add(3, 1);
    fw.add(4, 1);
    for a in 0..8 {
        for b in a..8 {
            let low = if a > 0 { fw.prefix_sum(a - 1) } else { 0 };
            assert_eq!(fw.range_sum(a, b), fw.prefix_sum(b) - low);
        }
    }
}

#[test]
fn total_equals_last_prefix() {
    let mut fw = Fenwick::new(6);
    fw.add(0, 4);
    fw.add(5, 9);
    assert_eq!(fw.total(), fw.prefix_sum(fw.len() - 1));
    assert_eq!(fw.total(), 13);
}

#[test]
fn build_recovers_values_and_running_sums() {
    let values: Vec<u64> = vec![1, 1, 3, 1, 1, 0, 0, 0];
    let fw = Fenwick::from_vec(values.clone());
    let mut running: u64 = 0;
    for i in 0..values.len() {
        assert_eq!(fw.get(i), values[i]);
        running += values[i];
        assert_eq!(fw.prefix_sum(i), running);
    }
}

#[test]
fn set_is_idempotent() {
    let mut fw = Fenwick::new(8);
    fw.add(2, 9);
    fw.set(2, 4);
    assert_eq!(fw.get(2), 4);
    let once: Vec<u64> = (0..8).map(|i| fw.get(i)).collect();
    fw.set(2, 4);
    let twice: Vec<u64> = (0..8).map(|i| fw.get(i)).collect();
    assert_eq!(once, twice);
    assert_eq!(fw.get(2), 4);
}

#[test]
fn scenario_prefix_sequence() {
    let mut fw = Fenwick::new(8);
    fw.add(0, 1);
    fw.add(1, 1);
    fw.add(2, 3);
    fw.add(3, 1);
    fw.add(4, 1);
    assert_eq!(fw.total(), 7);
    assert_eq!(fw.range_sum(1, 3), 5);
    assert_eq!(fw.range_sum(0, 3), 6);
    let prefixes: Vec<u64> = (0..8).map(|i| fw.prefix_sum(i)).collect();
    assert_eq!(prefixes, vec![1, 2, 5, 6, 7, 7, 7, 7]);
}

#[test]
fn borrowing_iteration_restarts() {
    let mut fw = Fenwick::new(4);
    fw.add(0, 2);
    fw.add(2, 3);
    let mut first: Vec<u64> = Vec::new();
    let mut walker = fw.iter();
    while let Some(t) = walker.next() {
        first.push(t);
    }
    assert_eq!(walker.next(), None);
    let mut second: Vec<u64> = Vec::new();
    let mut walker = fw.iter();
    while let Some(t) = walker.next() {
        second.push(t);
    }
    assert_eq!(first, vec![2, 2, 5, 5]);
    assert_eq!(first, second);
}

#[test]
fn empty_accumulator() {
    let fw = Fenwick::new(0);
    assert_eq!(fw.len(), 0);
    assert_eq!(fw.min_rank_query(0), None);
    assert_eq!(fw.min_rank_query(5), None);
    let fw = Fenwick::from_vec(Vec::new());
    assert_eq!(fw.len(), 0);
    let mut walker = fw.into_iter();
    assert_eq!(walker.next(), None);
}

#[test]
fn single_element_boundaries() {
    let mut fw = Fenwick::new(1);
    fw.add(0, 5);
    assert_eq!(fw.total(), 5);
    assert_eq!(fw.rank_query(4), None);
    assert_eq!(fw.rank_query(5), Some(0));
    assert_eq!(fw.rank_query(6), Some(1));
    assert_eq!(fw.min_rank_query(0), Some(0));
    assert_eq!(fw.min_rank_query(5), Some(0));
    assert_eq!(fw.min_rank_query(6), None);
}

#[test]
fn large_values_fill_a_slot() {
    let fw = Fenwick::from_vec(vec![u64::MAX]);
    assert_eq!(fw.total(), u64::MAX);
    assert_eq!(fw.get(0), u64::MAX);
    let mut fw = Fenwick::new(2);
    fw.add(1, u64::MAX - 1);
    fw.add(0, 1);
    assert_eq!(fw.total(), u64::MAX);
    assert_eq!(fw.prefix_sum(0), 1);
}

#[test]
fn sizes_off_powers_of_two() {
    for n in [1usize, 2, 3, 5, 7, 9, 15, 16, 17, 33] {
        let values: Vec<u64> = (0..n as u64).map(|x| (x * 7 + 3) % 11).collect();
        let fw = Fenwick::from_slice(&values);
        let mut running: u64 = 0;
        for i in 0..n {
            assert_eq!(fw.get(i), values[i]);
            running += values[i];
            assert_eq!(fw.prefix_sum(i), running);
        }
        for a in 0..n {
            for b in a..n {
                let low = if a > 0 { fw.prefix_sum(a - 1) } else { 0 };
                assert_eq!(fw.range_sum(a, b), fw.prefix_sum(b) - low);
            }
        }
    }
}
