//! Behaviour of the live-cell set itself: construction, editing, diffing.

use game_of_life::cell_system::CellPosition;
use game_of_life::cell_system::LiveSet;

fn pos(x: isize, y: isize) -> CellPosition {
    CellPosition { x, y }
}

fn pairs(s: &LiveSet) -> Vec<(isize, isize)> {
    let mut out: Vec<(isize, isize)> = Vec::new();
    for c in s.as_vec() {
        out.push((c.x, c.y));
    }
    out
}

#[test]
fn new_set_is_empty() {
    let s = LiveSet::new();
    assert!(s.is_empty());
    assert_eq!(s.len(), 0);
    assert!(!s.contains(&pos(0, 0)));
}

#[test]
fn from_vec_sorts_and_collapses_duplicates() {
    let input = vec![pos(5, 5), pos(-1, 2), pos(5, 5), pos(0, 0), pos(-1, 2), pos(-1, -7)];
    let s = LiveSet::from_vec(&input);
    assert_eq!(pairs(&s), vec![(-1, -7), (-1, 2), (0, 0), (5, 5)]);
    assert_eq!(s.len(), 4);
}

#[test]
fn contains_insert_remove() {
    let mut s = LiveSet::new();
    s.insert(pos(2, 3));
    s.insert(pos(-4, 1));
    s.insert(pos(2, 3));
    assert_eq!(s.len(), 2);
    assert!(s.contains(&pos(2, 3)));
    assert!(s.contains(&pos(-4, 1)));
    assert!(!s.contains(&pos(3, 2)));
    s.remove(pos(2, 3));
    assert!(!s.contains(&pos(2, 3)));
    assert_eq!(s.len(), 1);
    s.remove(pos(9, 9));
    assert_eq!(s.len(), 1);
}

#[test]
fn toggle_flips_membership() {
    let mut s = LiveSet::new();
    s.toggle(pos(7, -7));
    assert!(s.contains(&pos(7, -7)));
    s.toggle(pos(7, -7));
    assert!(!s.contains(&pos(7, -7)));
    assert!(s.is_empty());
}

#[test]
fn clear_empties_the_set() {
    let mut s = LiveSet::from_vec(&vec![pos(1, 1), pos(2, 2)]);
    assert_eq!(s.len(), 2);
    s.clear();
    assert!(s.is_empty());
}

#[test]
fn to_vec_matches_as_vec() {
    let s = LiveSet::from_vec(&vec![pos(3, 1), pos(-2, 0)]);
    let copied = s.to_vec();
    assert_eq!(copied, s.as_vec().clone());
}

#[test]
fn in_bounds_spots_the_representable_edge() {
    let fine = LiveSet::from_vec(&vec![pos(0, 0), pos(isize::MAX - 1, isize::MIN + 1)]);
    assert!(fine.in_bounds());
    let edge = LiveSet::from_vec(&vec![pos(isize::MAX, 0)]);
    assert!(!edge.in_bounds());
    let low_edge = LiveSet::from_vec(&vec![pos(0, isize::MIN)]);
    assert!(!low_edge.in_bounds());
}

#[test]
fn difference_reports_added_and_removed_cells() {
    let before = LiveSet::from_vec(&vec![pos(0, 0), pos(1, 0), pos(2, 0)]);
    let after = LiveSet::from_vec(&vec![pos(1, 0), pos(1, 1), pos(1, -1)]);
    let died = before.difference(&after);
    let born = after.difference(&before);
    let died_pairs: Vec<(isize, isize)> = died.iter().map(|c| (c.x, c.y)).collect();
    let born_pairs: Vec<(isize, isize)> = born.iter().map(|c| (c.x, c.y)).collect();
    assert_eq!(died_pairs, vec![(0, 0), (2, 0)]);
    assert_eq!(born_pairs, vec![(1, -1), (1, 1)]);
}
