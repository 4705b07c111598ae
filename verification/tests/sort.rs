use perple::utils::sort::group_sort;
use perple::utils::sort::group_sort_by;
use perple::utils::sort::quick_sort;

#[test]
fn quick_sort_orders_ascending() {
    let mut v: Vec<i32> = vec![5, 3, 8, 1, 3, -2];
    quick_sort(&mut v);
    assert_eq!(v, vec![-2, 1, 3, 3, 5, 8]);
}

#[test]
fn quick_sort_handles_tiny_inputs() {
    let mut empty: Vec<i32> = vec![];
    quick_sort(&mut empty);
    assert_eq!(empty, Vec::<i32>::new());
    let mut one: Vec<i32> = vec![9];
    quick_sort(&mut one);
    assert_eq!(one, vec![9]);
}

#[test]
fn group_sort_orders_records_by_key() {
    // Three records of two values each; key is the first column.
    let mut v: Vec<i64> = vec![3, 30, 1, 10, 2, 20];
    group_sort(&mut v, 2, 0);
    assert_eq!(v, vec![1, 10, 2, 20, 3, 30]);
}

#[test]
fn group_sort_keeps_records_together() {
    // Key is the second column; the companion value must travel with it.
    let mut v: Vec<i64> = vec![100, 9, 200, 4, 300, 7];
    group_sort(&mut v, 2, 1);
    assert_eq!(v, vec![200, 4, 300, 7, 100, 9]);
}

#[test]
fn group_sort_leaves_degenerate_inputs_untouched() {
    let mut short: Vec<i64> = vec![5];
    group_sort(&mut short, 2, 0);
    assert_eq!(short, vec![5]);

    let mut bad_offset: Vec<i64> = vec![2, 20, 1, 10];
    group_sort(&mut bad_offset, 2, 2);
    assert_eq!(bad_offset, vec![2, 20, 1, 10]);

    let mut ragged: Vec<i64> = vec![2, 20, 1, 10, 5];
    group_sort(&mut ragged, 2, 0);
    assert_eq!(ragged, vec![2, 20, 1, 10, 5]);
}

#[test]
fn group_sort_by_reorders_with_the_comparator() {
    let mut v: Vec<i64> = vec![1, 10, 3, 30, 2, 20];
    group_sort_by(&mut v, 2, 0, |a: &i64, b: &i64| b.cmp(a));
    assert_eq!(v, vec![3, 30, 2, 20, 1, 10]);
}

#[test]
fn group_sort_by_keeps_every_record() {
    let mut v: Vec<i64> = vec![4, 44, 2, 22, 9, 99, 2, 23];
    group_sort_by(&mut v, 2, 0, |a: &i64, b: &i64| a.cmp(b));
    // Same records, ascending by key; the two key-2 records both survive.
    let mut records: Vec<(i64, i64)> = v.chunks(2).map(|c| (c[0], c[1])).collect();
    let mut expected: Vec<(i64, i64)> = vec![(4, 44), (2, 22), (9, 99), (2, 23)];
    records.sort();
    expected.sort();
    assert_eq!(records, expected);
    assert_eq!(v[0], 2);
    assert_eq!(v[6], 9);
}
