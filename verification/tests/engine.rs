//! Generation-step behaviour: the standard patterns, determinism, and an
//! independent neighbour-count oracle.

use game_of_life::cell_system::CellPosition;
use game_of_life::cell_system::LiveSet;
use game_of_life::engine::advance;

fn pos(x: isize, y: isize) -> CellPosition {
    CellPosition { x, y }
}

fn live_set(cells: &[(isize, isize)]) -> LiveSet {
    let mut v: Vec<CellPosition> = Vec::new();
    for &(x, y) in cells {
        v.push(pos(x, y));
    }
    LiveSet::from_vec(&v)
}

fn pairs(s: &LiveSet) -> Vec<(isize, isize)> {
    let mut out: Vec<(isize, isize)> = Vec::new();
    for c in s.as_vec() {
        out.push((c.x, c.y));
    }
    out
}

fn sorted_pairs(cells: &[(isize, isize)]) -> Vec<(isize, isize)> {
    let mut v = cells.to_vec();
    v.sort();
    v.dedup();
    v
}

#[test]
fn advance_empty_is_empty() {
    let empty = LiveSet::new();
    let next = advance(&empty);
    assert!(next.is_empty());
    assert_eq!(next.len(), 0);
}

#[test]
fn lone_cell_dies() {
    for &(x, y) in &[(0isize, 0isize), (-5, 7), (1_000_000, -1_000_000), (-1, -1)] {
        let one = live_set(&[(x, y)]);
        assert_eq!(one.len(), 1);
        let next = advance(&one);
        assert!(next.is_empty());
    }
}

#[test]
fn block_is_stable() {
    let block = live_set(&[(0, 0), (1, 0), (0, 1), (1, 1)]);
    let next = advance(&block);
    assert_eq!(pairs(&next), sorted_pairs(&[(0, 0), (1, 0), (0, 1), (1, 1)]));
    let again = advance(&next);
    assert_eq!(pairs(&again), pairs(&next));
}

#[test]
fn blinker_oscillates_with_period_two() {
    let horizontal = live_set(&[(-1, 0), (0, 0), (1, 0)]);
    let vertical = advance(&horizontal);
    assert_eq!(pairs(&vertical), sorted_pairs(&[(0, -1), (0, 0), (0, 1)]));
    let back = advance(&vertical);
    assert_eq!(pairs(&back), sorted_pairs(&[(-1, 0), (0, 0), (1, 0)]));
}

#[test]
fn glider_translates_by_one_one_in_four_generations() {
    let start = [(1isize, 0isize), (2, 1), (0, 2), (1, 2), (2, 2)];
    let mut current = live_set(&start);
    for _ in 0..4 {
        current = advance(&current);
    }
    let expected: Vec<(isize, isize)> =
        start.iter().map(|&(x, y)| (x + 1, y + 1)).collect();
    assert_eq!(pairs(&current), sorted_pairs(&expected));
}

#[test]
fn advance_is_deterministic_across_input_orderings() {
    let order_a = [(3isize, -2isize), (0, 0), (-1, 5), (2, 2), (3, -1), (2, 1), (-1, 4)];
    let order_b = [(-1isize, 4isize), (2, 1), (3, -1), (2, 2), (-1, 5), (0, 0), (3, -2)];
    let a = live_set(&order_a);
    let b = live_set(&order_b);
    // logically identical inputs have one canonical representation
    assert_eq!(pairs(&a), pairs(&b));
    let next_a = advance(&a);
    let next_b = advance(&b);
    assert_eq!(pairs(&next_a), pairs(&next_b));
    // repeated calls on the same input emit the same sequence
    let next_a2 = advance(&a);
    assert_eq!(pairs(&next_a), pairs(&next_a2));
}

#[test]
fn advance_result_has_no_duplicates_and_is_sorted() {
    let input = live_set(&[(0, 0), (1, 0), (2, 0), (0, 1), (1, 1), (5, 5), (6, 5), (5, 6)]);
    let next = advance(&input);
    let got = pairs(&next);
    let mut canon = got.clone();
    canon.sort();
    canon.dedup();
    assert_eq!(got, canon);
}

/// Count the live neighbours of `(x, y)` in `cells` by brute force.
fn reference_neighbor_count(cells: &[(isize, isize)], x: isize, y: isize) -> usize {
    let mut n = 0;
    for &(cx, cy) in cells {
        let dx = cx - x;
        let dy = cy - y;
        if dx.abs() <= 1 && dy.abs() <= 1 && !(dx == 0 && dy == 0) {
            n += 1;
        }
    }
    n
}

/// Recompute the rule from scratch and compare with `advance`.
fn oracle_check(cells: &[(isize, isize)]) {
    let input = live_set(cells);
    let in_pairs = pairs(&input);
    let next = advance(&input);
    let out_pairs = pairs(&next);
    // every output cell obeys the rule
    for &(x, y) in &out_pairs {
        let n = reference_neighbor_count(&in_pairs, x, y);
        if in_pairs.contains(&(x, y)) {
            assert!(n == 2 || n == 3, "survivor ({x}, {y}) has {n} neighbours");
        } else {
            assert!(n == 3, "birth ({x}, {y}) has {n} neighbours");
        }
    }
    // every cell owed by the rule is in the output
    for &(x, y) in &in_pairs {
        let n = reference_neighbor_count(&in_pairs, x, y);
        if n == 2 || n == 3 {
            assert!(out_pairs.contains(&(x, y)));
        } else {
            assert!(!out_pairs.contains(&(x, y)));
        }
    }
    for &(x, y) in &in_pairs {
        for dx in -1isize..=1 {
            for dy in -1isize..=1 {
                let (bx, by) = (x + dx, y + dy);
                if !in_pairs.contains(&(bx, by)) {
                    let n = reference_neighbor_count(&in_pairs, bx, by);
                    assert_eq!(n == 3, out_pairs.contains(&(bx, by)));
                }
            }
        }
    }
}

#[test]
fn advance_matches_reference_oracle_on_random_patterns() {
    // deterministic linear congruential generator
    let mut state: u64 = 0x2545_f491_4f6c_dd1d;
    for round in 0..8 {
        let mut cells: Vec<(isize, isize)> = Vec::new();
        for _ in 0..(20 + round * 10) {
            state = state.wrapping_mul(6364136223846793005).wrapping_add(1442695040888963407);
            let x = ((state >> 33) % 17) as isize - 8;
            let y = ((state >> 13) % 17) as isize - 8;
            cells.push((x, y));
        }
        oracle_check(&cells);
    }
}

#[test]
fn oracle_check_on_named_patterns() {
    oracle_check(&[]);
    oracle_check(&[(4, 4)]);
    oracle_check(&[(0, 0), (1, 0), (0, 1), (1, 1)]);
    oracle_check(&[(-1, 0), (0, 0), (1, 0)]);
    oracle_check(&[(1, 0), (2, 1), (0, 2), (1, 2), (2, 2)]);
}
