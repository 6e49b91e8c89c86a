use async_bench::workloads::ArrayList;
use async_bench::workloads::Cell;

#[test]
fn cell_holds_next_index() {
    let mut c = Cell::new(5);
    assert_eq!(c.get(), 5);
    c.set(9);
    assert_eq!(c.get(), 9);
}

#[test]
fn ground_truth_sum_closed_form() {
    assert_eq!(ArrayList::new(0).ground_truth_sum(), 0);
    assert_eq!(ArrayList::new(1).ground_truth_sum(), 0);
    assert_eq!(ArrayList::new(2).ground_truth_sum(), 1);
    assert_eq!(ArrayList::new(5).ground_truth_sum(), 10);
    assert_eq!(ArrayList::new(1_000_000).ground_truth_sum(), 499_999_500_000);
}

#[test]
fn from_permutation_chains_in_visit_order() {
    // visit order 0 -> 2 -> 3 -> 1 -> back to 0
    let list = ArrayList::from_permutation(4, vec![2, 3, 1]);
    assert_eq!(list.lookup(0), 2);
    assert_eq!(list.lookup(2), 3);
    assert_eq!(list.lookup(3), 1);
    assert_eq!(list.lookup(1), 0);
}

#[test]
fn size_one_structure_points_at_itself() {
    let list = ArrayList::new(1);
    assert_eq!(list.lookup(0), 0);
    assert_eq!(list.ground_truth_sum(), 0);
}

#[test]
fn traversal_visits_every_index_once() {
    for n in [1usize, 2, 3, 7, 50, 1000] {
        let list = ArrayList::new(n);
        let mut seen = vec![false; n];
        let mut idx: usize = 0;
        for _ in 0..n {
            assert!(!seen[idx], "index {} visited twice (n = {})", idx, n);
            seen[idx] = true;
            idx = list.lookup(idx) as usize;
        }
        assert!(seen.iter().all(|&s| s), "some index missed (n = {})", n);
        assert_eq!(idx, 0, "cycle did not close (n = {})", n);
    }
}

#[test]
fn traversal_sum_matches_ground_truth() {
    for n in [1usize, 2, 3, 7, 50, 1000] {
        let list = ArrayList::new(n);
        let mut idx: usize = 0;
        let mut sum: u64 = 0;
        for _ in 0..n {
            let value = list.lookup(idx);
            sum += value;
            idx = value as usize;
        }
        assert_eq!(sum, list.ground_truth_sum(), "checksum mismatch (n = {})", n);
    }
}
