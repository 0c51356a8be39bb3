use copartition::cosort::{co_sort, sort_by_indexes};

fn scenario() -> Vec<Vec<i32>> {
    vec![
        vec![1, 2, 3, 4, 4, 3, 2, 1],
        vec![5, 4, 3, 2, 2, 3, 4, 5],
        vec![9, 3, 2, 8, 5, 7, 1, 0],
    ]
}

fn rows(df: &Vec<Vec<i32>>) -> Vec<Vec<i32>> {
    let n = df[0].len();
    let mut out: Vec<Vec<i32>> = (0..n).map(|i| df.iter().map(|c| c[i]).collect()).collect();
    out.sort();
    out
}

#[test]
fn test_arr_sort() {
    let mut in_array = vec![1, 2, 3, 4, 4, 3, 2, 1];
    let sort_indexes: Vec<usize> = vec![0, 7, 1, 6, 2, 5, 3, 4];

    let mut buffer: Vec<i32> = in_array.iter().map(|_| 0).collect();
    sort_by_indexes(&sort_indexes, &mut in_array, &mut buffer);
    assert_eq!(in_array, vec![1, 1, 2, 2, 3, 3, 4, 4]);
}

#[test]
fn test_co_sort() {
    let mut df = scenario();
    co_sort(&mut df, 0);
    assert_eq!(df[1], vec![5, 5, 4, 4, 3, 3, 2, 2]);
}

#[test]
fn co_sort_scenario_key_column() {
    let mut df = scenario();
    co_sort(&mut df, 0);
    assert_eq!(df[0], vec![1, 1, 2, 2, 3, 3, 4, 4]);
    assert_eq!(df[1], vec![5, 5, 4, 4, 3, 3, 2, 2]);
}

#[test]
fn co_sort_keeps_rows_together() {
    let before = scenario();
    let mut df = scenario();
    co_sort(&mut df, 2);
    assert_eq!(df[2], vec![0, 1, 2, 3, 5, 7, 8, 9]);
    assert_eq!(df[0], vec![1, 2, 3, 2, 4, 3, 4, 1]);
    assert_eq!(rows(&df), rows(&before));
}

#[test]
fn co_sort_twice_changes_nothing() {
    let mut df = scenario();
    co_sort(&mut df, 0);
    let once = df.clone();
    co_sort(&mut df, 0);
    assert_eq!(df, once);
}

#[test]
fn co_sort_is_stable_on_ties() {
    let mut df = vec![vec![2, 1, 2, 1], vec![10, 20, 30, 40]];
    co_sort(&mut df, 0);
    assert_eq!(df, vec![vec![1, 1, 2, 2], vec![20, 40, 10, 30]]);
}

#[test]
fn co_sort_empty_and_single_row() {
    let mut empty: Vec<Vec<i32>> = vec![vec![], vec![]];
    co_sort(&mut empty, 1);
    assert_eq!(empty, vec![Vec::<i32>::new(), Vec::new()]);
    let mut one = vec![vec![7], vec![-3]];
    co_sort(&mut one, 1);
    assert_eq!(one, vec![vec![7], vec![-3]]);
}

#[test]
fn sort_by_indexes_reverse_and_extremes() {
    let mut a = vec![i32::MIN, 0, i32::MAX];
    let mut buffer = vec![0; 3];
    sort_by_indexes(&[2, 1, 0], &mut a, &mut buffer);
    assert_eq!(a, vec![i32::MAX, 0, i32::MIN]);
}

#[test]
fn sort_by_indexes_prefix_leaves_tail() {
    let mut a = vec![10, 20, 30, 40, 50];
    let mut buffer = vec![-1; 6];
    sort_by_indexes(&[4, 0, 1], &mut a, &mut buffer);
    assert_eq!(a, vec![50, 10, 20, 40, 50]);
    assert_eq!(buffer, vec![10, 20, 30, -1, -1, -1]);
}
