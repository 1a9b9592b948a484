use split_work::collector::collect;

#[test]
fn collect_orders_by_index() {
    let mail = vec![(2, 'c'), (0, 'a'), (3, 'd'), (1, 'b')];
    assert_eq!(collect(mail), vec!['a', 'b', 'c', 'd']);
}

#[test]
fn collect_of_nothing_is_nothing() {
    let none: Vec<(usize, u8)> = Vec::new();
    assert_eq!(collect(none), Vec::<u8>::new());
}

#[test]
fn collect_of_one() {
    assert_eq!(collect(vec![(0, "only")]), vec!["only"]);
}

#[test]
fn collect_keeps_what_is_sorted() {
    let mail: Vec<(usize, usize)> = (0..100).map(|i| (i, i * i)).collect();
    let expected: Vec<usize> = (0..100).map(|i| i * i).collect();
    assert_eq!(collect(mail), expected);
}

#[test]
fn collect_undoes_any_order_of_arrival() {
    let values: Vec<u64> = (0..50).map(|i| 7 * i + 3).collect();
    for stride in [1usize, 3, 7, 9, 11, 13, 17, 49] {
        let mut mail = Vec::new();
        let mut at = 0usize;
        for _ in 0..50 {
            mail.push((at, values[at]));
            at = (at + stride) % 50;
        }
        assert_eq!(collect(mail), values);
    }
    let reversed: Vec<(usize, u64)> = (0..50).rev().map(|i| (i, values[i])).collect();
    assert_eq!(collect(reversed), values);
}

#[test]
fn collect_is_stable_for_equal_indices() {
    let mail = vec![(1, "first"), (0, "zero"), (1, "second"), (1, "third"), (0, "nought")];
    assert_eq!(collect(mail), vec!["zero", "nought", "first", "second", "third"]);
}

#[test]
fn collect_leaves_no_gap_for_a_missing_index() {
    let mail = vec![(9, 'z'), (4, 'm'), (usize::MAX, '!'), (0, 'a')];
    assert_eq!(collect(mail), vec!['a', 'm', 'z', '!']);
}
