use btree_cost::MinCostB3Tree;
use btree_cost::TreeError;

/// Walks the recorded split pairs down from `[n, m]` (with `n <= m`),
/// pushing every key index placed in a node and summing each visited
/// interval's weight.
fn expand(t: &MinCostB3Tree, n: usize, m: usize, visited: &mut Vec<u64>) -> u64 {
    if n == m {
        visited.push(n as u64);
        return t.interval_weight(n, n);
    }
    let (first, second) = t.root_at(n, m);
    let i = first.unwrap() as usize;
    let j = second.unwrap() as usize;
    assert!(n <= i && i <= j && j <= m);
    visited.push(i as u64);
    if j != i {
        visited.push(j as u64);
    }
    let mut total: u64 = t.interval_weight(n, m);
    if i > n {
        total += expand(t, n, i - 1, visited);
    }
    if j >= i + 2 {
        total += expand(t, i + 1, j - 1, visited);
    }
    if j < m {
        total += expand(t, j + 1, m, visited);
    }
    total
}

#[test]
fn ten_elements() {
    let keys: Vec<u64> = vec![0, 1, 2, 3, 4];
    let values: Vec<i64> = vec![2, 4, 6, 8, 100];
    let mut b_tree = MinCostB3Tree::new(keys, values).unwrap();
    println!("Min Cost B3Tree: {:?}", b_tree.calculate());
    let n: usize = b_tree.size();
    let mut table: Vec<Vec<u64>> = Vec::new();
    for a in 0..n {
        let mut row: Vec<u64> = Vec::new();
        for b in a..n {
            row.push(b_tree.cost_at(a, b));
        }
        table.push(row);
    }
    println!("table: {:?}", table);
}

#[test]
fn lib_ten_elements() {
    let keys: Vec<u64> = vec![0, 1, 2, 3, 4, 5];
    let values: Vec<i64> = vec![1, 4, 6, 8, 10, 100];
    let mut b_tree = MinCostB3Tree::new(keys, values).unwrap();
    println!("Min Cost B3Tree: {:?}", b_tree.calculate());
    let n: usize = b_tree.size();
    let mut sum: Vec<Vec<u64>> = Vec::new();
    let mut table: Vec<Vec<u64>> = Vec::new();
    let mut root: Vec<Vec<(Option<u64>, Option<u64>)>> = Vec::new();
    for a in 0..n {
        let mut sum_row: Vec<u64> = Vec::new();
        let mut cost_row: Vec<u64> = Vec::new();
        let mut root_row: Vec<(Option<u64>, Option<u64>)> = Vec::new();
        for b in a..n {
            sum_row.push(b_tree.interval_weight(a, b));
            cost_row.push(b_tree.cost_at(a, b));
            root_row.push(b_tree.root_at(a, b));
        }
        sum.push(sum_row);
        table.push(cost_row);
        root.push(root_row);
    }
    println!("sum: {:?}", sum);
    println!("table: {:?}", table);
    println!("root: {:?}", root);
}

#[test]
fn single_key_cost() {
    let mut t = MinCostB3Tree::new(vec![7], vec![5]).unwrap();
    assert_eq!(t.calculate(), Ok(5));
}

#[test]
fn uniform_weights_depend_on_count_and_weight_alone() {
    let mut small_keys = MinCostB3Tree::new(vec![1, 2, 3], vec![4, 4, 4]).unwrap();
    let mut large_keys = MinCostB3Tree::new(vec![10, 20, 30], vec![4, 4, 4]).unwrap();
    let a = small_keys.calculate().unwrap();
    let b = large_keys.calculate().unwrap();
    assert_eq!(a, b);
    assert_eq!(a, 16);
    // several splits tie at the minimum; the first in ascending (j, i)
    // order wins
    assert_eq!(small_keys.root_at(0, 2), (Some(0), Some(1)));
    assert_eq!(large_keys.root_at(0, 2), (Some(0), Some(1)));
}

#[test]
fn scenario_five_keys() {
    let mut t = MinCostB3Tree::new(vec![0, 1, 2, 3, 4], vec![2, 4, 6, 8, 100]).unwrap();
    assert_eq!(t.calculate(), Ok(134));
}

#[test]
fn scenario_six_keys_with_reconstruction() {
    let mut t = MinCostB3Tree::new(vec![0, 1, 2, 3, 4, 5], vec![1, 4, 6, 8, 10, 100]).unwrap();
    assert_eq!(t.calculate(), Ok(151));
    assert_eq!(t.root_at(0, 5), (Some(3), Some(5)));
    let mut visited: Vec<u64> = Vec::new();
    let total: u64 = expand(&t, 0, 5, &mut visited);
    assert_eq!(total, 151);
    visited.sort();
    assert_eq!(visited, vec![0, 1, 2, 3, 4, 5]);
}

#[test]
fn five_key_reconstruction_covers_each_key_once() {
    let mut t = MinCostB3Tree::new(vec![0, 1, 2, 3, 4], vec![2, 4, 6, 8, 100]).unwrap();
    let total = t.calculate().unwrap();
    let mut visited: Vec<u64> = Vec::new();
    let rebuilt: u64 = expand(&t, 0, 4, &mut visited);
    assert_eq!(rebuilt, total);
    visited.sort();
    assert_eq!(visited, vec![0, 1, 2, 3, 4]);
}

#[test]
fn singleton_intervals_record_their_own_key() {
    let mut t = MinCostB3Tree::new(vec![0, 1, 2, 3, 4], vec![2, 4, 6, 8, 100]).unwrap();
    t.calculate().unwrap();
    for a in 0..5usize {
        assert_eq!(t.root_at(a, a), (Some(a as u64), Some(a as u64)));
        assert_eq!(t.cost_at(a, a), t.interval_weight(a, a));
    }
}

#[test]
fn cost_dominates_interval_weight() {
    let mut t = MinCostB3Tree::new(vec![0, 1, 2, 3, 4, 5], vec![1, 4, 6, 8, 10, 100]).unwrap();
    t.calculate().unwrap();
    for a in 0..6usize {
        for b in a..6usize {
            assert!(t.cost_at(a, b) >= t.interval_weight(a, b));
        }
    }
}

#[test]
fn raising_one_weight_never_lowers_the_cost() {
    let mut base = MinCostB3Tree::new(vec![0, 1, 2, 3, 4], vec![2, 4, 6, 8, 100]).unwrap();
    let low = base.calculate().unwrap();
    let mut raised = MinCostB3Tree::new(vec![0, 1, 2, 3, 4], vec![2, 50, 6, 8, 100]).unwrap();
    let high = raised.calculate().unwrap();
    assert!(high >= low);
}

#[test]
fn calculate_is_idempotent() {
    let mut t = MinCostB3Tree::new(vec![0, 1, 2, 3, 4, 5], vec![1, 4, 6, 8, 10, 100]).unwrap();
    let first = t.calculate();
    let second = t.calculate();
    assert_eq!(first, second);
    assert_eq!(first, Ok(151));
}

#[test]
fn negative_weight_rejected() {
    let r = MinCostB3Tree::new(vec![1, 2], vec![3, -1]);
    assert_eq!(r.err(), Some(TreeError::InvalidInput));
}

#[test]
fn length_mismatch_rejected() {
    let r = MinCostB3Tree::new(vec![1, 2], vec![3]);
    assert_eq!(r.err(), Some(TreeError::InvalidInput));
}

#[test]
fn empty_input_rejected() {
    let r = MinCostB3Tree::new(vec![], vec![]);
    assert_eq!(r.err(), Some(TreeError::InvalidInput));
}

#[test]
fn unsorted_keys_rejected() {
    let r = MinCostB3Tree::new(vec![2, 1], vec![1, 1]);
    assert_eq!(r.err(), Some(TreeError::InvalidInput));
}

#[test]
fn duplicate_keys_rejected() {
    let r = MinCostB3Tree::new(vec![1, 1], vec![1, 1]);
    assert_eq!(r.err(), Some(TreeError::InvalidInput));
}

#[test]
fn total_weight_overflow_rejected_at_construction() {
    let r = MinCostB3Tree::new(vec![1, 2, 3], vec![i64::MAX, i64::MAX, i64::MAX]);
    assert_eq!(r.err(), Some(TreeError::Overflow));
}

#[test]
fn split_cost_overflow_reported_by_calculate() {
    let mut t = MinCostB3Tree::new(vec![1, 2, 3], vec![i64::MAX, i64::MAX, 1]).unwrap();
    assert_eq!(t.calculate(), Err(TreeError::Overflow));
}
