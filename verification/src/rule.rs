//! The Game of Life transition rule, as a mathematical specification.
//!
//! A generation is a set of live coordinates (integer pairs). [`step`] maps
//! one generation to the next: a live cell survives with 2 or 3 live
//! neighbours, a dead cell is born with exactly 3, everything else is dead.
//! The executable engine is proved against [`step`].

use vstd::prelude::*;

verus! {

/// 1 for `true`, 0 for `false`; used to count neighbours.
pub open spec fn ind(b: bool) -> int {
    if b {
        1
    } else {
        0
    }
}

/// Whether `(ax, ay)` and `(bx, by)` are distinct cells at Chebyshev
/// distance 1 (the 8 compass directions).
pub open spec fn is_neighbor(ax: int, ay: int, bx: int, by: int) -> bool {
    -1 <= ax - bx <= 1 && -1 <= ay - by <= 1 && !(ax == bx && ay == by)
}

/// How many of the 8 neighbours of `(x, y)` are live in `s`.
pub open spec fn neighbor_count(s: Set<(int, int)>, x: int, y: int) -> int {
    ind(s.contains((x - 1, y - 1))) + ind(s.contains((x, y - 1))) + ind(
        s.contains((x + 1, y - 1)),
    ) + ind(s.contains((x - 1, y))) + ind(s.contains((x + 1, y))) + ind(
        s.contains((x - 1, y + 1)),
    ) + ind(s.contains((x, y + 1))) + ind(s.contains((x + 1, y + 1)))
}

/// The standard rule: survival on 2 or 3 live neighbours, birth on exactly 3.
pub open spec fn alive_next(s: Set<(int, int)>, x: int, y: int) -> bool {
    if s.contains((x, y)) {
        neighbor_count(s, x, y) == 2 || neighbor_count(s, x, y) == 3
    } else {
        neighbor_count(s, x, y) == 3
    }
}

/// The next generation of the live set `s`.
pub open spec fn step(s: Set<(int, int)>) -> Set<(int, int)> {
    Set::new(|p: (int, int)| alive_next(s, p.0, p.1))
}

/// A neighbour count lies between 0 and 8.
pub proof fn lemma_neighbor_count_bounds(s: Set<(int, int)>, x: int, y: int)
    ensures
        0 <= neighbor_count(s, x, y) <= 8,
{
}

/// Adding a new live cell raises each neighbour count by 1 exactly around
/// the added cell and leaves every other count unchanged.
pub proof fn lemma_neighbor_count_insert(s: Set<(int, int)>, cx: int, cy: int, x: int, y: int)
    requires
        !s.contains((cx, cy)),
    ensures
        neighbor_count(s.insert((cx, cy)), x, y) == neighbor_count(s, x, y) + ind(
            is_neighbor(cx, cy, x, y),
        ),
{
}

/// A coordinate is in the next generation exactly when the rule says so:
/// it was live with 2 or 3 live neighbours, or dead with exactly 3. In
/// particular a dead cell with 0, 1, 2 or 4-or-more live neighbours stays
/// dead, and a live cell with 0, 1 or 4-or-more dies.
pub proof fn lemma_step_membership(s: Set<(int, int)>, x: int, y: int)
    ensures
        step(s).contains((x, y)) <==> ((s.contains((x, y)) && (neighbor_count(s, x, y) == 2
            || neighbor_count(s, x, y) == 3)) || (!s.contains((x, y)) && neighbor_count(s, x, y)
            == 3)),
{
}

/// The empty generation stays empty.
pub proof fn lemma_step_empty()
    ensures
        step(Set::<(int, int)>::empty()) == Set::<(int, int)>::empty(),
{
    assert(step(Set::<(int, int)>::empty()) =~= Set::<(int, int)>::empty());
}

/// A lone live cell dies and nothing is born: one generation after any
/// single cell, the plane is empty.
pub proof fn lemma_lone_cell_dies(cx: int, cy: int)
    ensures
        step(Set::<(int, int)>::empty().insert((cx, cy))) == Set::<(int, int)>::empty(),
{
    let s = Set::<(int, int)>::empty().insert((cx, cy));
    assert forall|p: (int, int)| !step(s).contains(p) by {
        assert(neighbor_count(s, p.0, p.1) <= 1);
    }
    assert(step(s) =~= Set::<(int, int)>::empty());
}

} // verus!
