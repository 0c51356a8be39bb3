use copartition::schedule::{
    check_input, handle, is_rectangular, last_outstanding, partition, place_leaf, InputError, Leaf,
    Outcome,
};
use copartition::split::{multi_sort_and_split, WorkUnit};

fn scenario() -> Vec<Vec<i32>> {
    vec![
        vec![1, 2, 3, 4, 4, 3, 2, 1],
        vec![5, 4, 3, 2, 2, 3, 4, 5],
        vec![9, 3, 2, 8, 5, 7, 1, 0],
    ]
}

fn rows(df: &Vec<Vec<i32>>) -> Vec<Vec<i32>> {
    let n = df[0].len();
    let mut out: Vec<Vec<i32>> = (0..n).map(|i| df.iter().map(|c| c[i]).collect()).collect();
    out.sort();
    out
}

fn assert_tiles(leaves: &[Leaf], n: usize) {
    let mut next = 0;
    for l in leaves {
        assert_eq!(l.start, next);
        next += l.len;
    }
    assert_eq!(next, n);
}

#[test]
fn partition_scenario_threshold_three() {
    let before = scenario();
    let mut df = scenario();
    let leaves = partition(&mut df, 3).unwrap();
    assert_eq!(leaves.iter().map(|l| l.len).sum::<usize>(), 8);
    assert_tiles(&leaves, 8);
    for l in &leaves {
        assert!(l.len < 3 || l.len <= 1);
    }
    assert_eq!(leaves.len(), 4);
    assert_eq!(rows(&df), rows(&before));
}

#[test]
fn partition_scenario_exact_order() {
    let mut df = scenario();
    let leaves = partition(&mut df, 3).unwrap();
    assert_eq!(
        leaves,
        vec![
            Leaf { start: 0, len: 2 },
            Leaf { start: 2, len: 2 },
            Leaf { start: 4, len: 2 },
            Leaf { start: 6, len: 2 },
        ]
    );
    assert_eq!(
        df,
        vec![
            vec![2, 2, 1, 1, 4, 4, 3, 3],
            vec![4, 4, 5, 5, 2, 2, 3, 3],
            vec![3, 1, 9, 0, 8, 5, 2, 7],
        ]
    );
}

#[test]
fn partition_threshold_one_ends_in_single_rows() {
    let before = vec![vec![3, 1, 2, 5, 4], vec![30, 10, 20, 50, 40]];
    let mut df = before.clone();
    let leaves = partition(&mut df, 1).unwrap();
    assert_eq!(leaves.len(), 5);
    assert!(leaves.iter().all(|l| l.len == 1));
    assert_tiles(&leaves, 5);
    assert_eq!(rows(&df), rows(&before));
}

#[test]
fn partition_small_input_is_one_leaf() {
    let mut df = vec![vec![2, 1], vec![0, 9]];
    let leaves = partition(&mut df, 3).unwrap();
    assert_eq!(leaves, vec![Leaf { start: 0, len: 2 }]);
    assert_eq!(df, vec![vec![2, 1], vec![0, 9]]);
}

#[test]
fn partition_empty_rows() {
    let mut df: Vec<Vec<i32>> = vec![vec![]];
    let leaves = partition(&mut df, 2).unwrap();
    assert_eq!(leaves, vec![Leaf { start: 0, len: 0 }]);
}

#[test]
fn partition_rejects_bad_input() {
    let mut none: Vec<Vec<i32>> = vec![];
    assert_eq!(partition(&mut none, 3), Err(InputError::NoColumns));
    let mut ragged = vec![vec![1, 2, 3], vec![1, 2]];
    assert_eq!(partition(&mut ragged, 3), Err(InputError::RaggedColumns));
    assert_eq!(ragged, vec![vec![1, 2, 3], vec![1, 2]]);
    let mut zero = vec![vec![3, 2, 1]];
    assert_eq!(partition(&mut zero, 0), Err(InputError::ZeroThreshold));
    assert_eq!(zero, vec![vec![3, 2, 1]]);
}

#[test]
fn check_input_cases() {
    assert_eq!(check_input(&vec![vec![1], vec![2]], 1), Ok(()));
    assert_eq!(check_input(&vec![], 1), Err(InputError::NoColumns));
    assert_eq!(check_input(&vec![vec![1], vec![]], 1), Err(InputError::RaggedColumns));
    assert_eq!(check_input(&vec![vec![1]], 0), Err(InputError::ZeroThreshold));
    assert!(is_rectangular(&vec![]));
    assert!(!is_rectangular(&vec![vec![1, 2], vec![3, 4], vec![5]]));
}

#[test]
fn split_dimension_round_robin() {
    let mut u = WorkUnit { df: scenario(), split_dim: usize::MAX, offset: 0 };
    assert_eq!(u.new_split_dim(), 0);
    u.split_dim = 0;
    assert_eq!(u.new_split_dim(), 1);
    u.split_dim = 1;
    assert_eq!(u.new_split_dim(), 2);
    u.split_dim = 2;
    assert_eq!(u.new_split_dim(), 0);
}

#[test]
fn split_halves_on_next_dimension() {
    let u = WorkUnit { df: scenario(), split_dim: 2, offset: 10 };
    let (a, b) = u.split();
    assert_eq!(a.split_dim, 0);
    assert_eq!(b.split_dim, 0);
    assert_eq!(a.offset, 10);
    assert_eq!(b.offset, 14);
    assert_eq!(a.df[0], vec![1, 1, 2, 2]);
    assert_eq!(b.df[0], vec![3, 3, 4, 4]);
    assert_eq!(a.df[1], vec![5, 5, 4, 4]);
    assert_eq!(a.len() + b.len(), 8);
}

#[test]
fn multi_sort_and_split_odd_rows() {
    let df = vec![vec![5, 3, 1, 4, 2], vec![50, 30, 10, 40, 20]];
    let (a, b) = multi_sort_and_split(df, 1);
    assert_eq!(a, vec![vec![1, 2], vec![10, 20]]);
    assert_eq!(b, vec![vec![3, 4, 5], vec![30, 40, 50]]);
}

#[test]
fn worker_step_leaf_or_split() {
    let small = WorkUnit { df: vec![vec![1, 2]], split_dim: usize::MAX, offset: 4 };
    assert!(small.is_leaf(3));
    match handle(small, 3) {
        Outcome::Leaf(u) => {
            assert_eq!(u.offset, 4);
            assert_eq!(u.df, vec![vec![1, 2]]);
        }
        Outcome::Split(..) => panic!("a unit under the threshold is a leaf"),
    }
    let big = WorkUnit { df: vec![vec![3, 1, 2]], split_dim: usize::MAX, offset: 0 };
    assert!(!big.is_leaf(3));
    match handle(big, 3) {
        Outcome::Split(a, b) => {
            assert_eq!(a.df, vec![vec![1]]);
            assert_eq!(b.df, vec![vec![2, 3]]);
        }
        Outcome::Leaf(_) => panic!("a unit at the threshold is split"),
    }
    let one = WorkUnit { df: vec![vec![7]], split_dim: 0, offset: 0 };
    assert!(one.is_leaf(1));
}

#[test]
fn pending_counter_decision() {
    assert!(last_outstanding(1));
    assert!(last_outstanding(0));
    assert!(!last_outstanding(2));
}

#[test]
fn place_leaf_writes_at_offset() {
    let mut cols = vec![vec![0; 5], vec![0; 5]];
    let leaf = WorkUnit { df: vec![vec![7, 8], vec![-7, -8]], split_dim: 0, offset: 2 };
    place_leaf(&mut cols, &leaf);
    assert_eq!(cols, vec![vec![0, 0, 7, 8, 0], vec![0, 0, -7, -8, 0]]);
}

#[test]
fn test_multi() {
    let mut df = vec![
        vec![1, 2, 3, 4, 4, 3, 2, 1, 99],
        vec![5, 4, 3, 2, 2, 3, 4, 5, -1],
        vec![9, 3, 2, 8, 5, 7, 1, 0, 99],
    ];
    partition(&mut df, 3).unwrap();
    assert_eq!(
        df,
        vec![
            vec![2, 2, 1, 1, 99, 4, 3, 4, 3],
            vec![4, 4, 5, 5, -1, 2, 3, 2, 3],
            vec![3, 1, 9, 0, 99, 8, 2, 5, 7]
        ]
    );
}

#[test]
fn partition_nine_rows_leaves() {
    let mut df = vec![
        vec![1, 2, 3, 4, 4, 3, 2, 1, 99],
        vec![5, 4, 3, 2, 2, 3, 4, 5, -1],
        vec![9, 3, 2, 8, 5, 7, 1, 0, 99],
    ];
    let leaves = partition(&mut df, 3).unwrap();
    assert_eq!(
        leaves,
        vec![
            Leaf { start: 0, len: 2 },
            Leaf { start: 2, len: 2 },
            Leaf { start: 4, len: 2 },
            Leaf { start: 6, len: 1 },
            Leaf { start: 7, len: 2 },
        ]
    );
    // the first split is on column 0: its first half holds the smaller keys
    assert!(df[0][..4].iter().all(|x| df[0][4..].iter().all(|y| x <= y)));
}
