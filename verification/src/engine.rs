//! The generation engine.
//!
//! [`advance`] computes the next generation of a [`LiveSet`] without ever
//! materialising a dense grid. A first pass visits the 8 neighbours of every
//! live cell, counting visits per coordinate in a tally and tracking the
//! coordinates whose count passes exactly 3 as birth candidates (a count of 4
//! disqualifies). A second pass keeps the live cells whose count is 2 or 3
//! and strikes surviving cells from the candidates. The survivors and the
//! remaining candidates, merged in lexicographic order, are the next
//! generation, proved equal to [`crate::rule::step`] of the input.

use vstd::prelude::*;

use crate::cell_system::CellPosition;
use crate::cell_system::LiveSet;
use crate::cell_system::all_in_bounds;
use crate::cell_system::coord_set;
use crate::cell_system::lemma_sorted_push_helper;
use crate::cell_system::lemma_take_snoc_has_xy;
use crate::cell_system::pos_before;
use crate::cell_system::pos_in_bounds;
use crate::cell_system::pos_lt;
use crate::cell_system::seq_has_xy;
use crate::cell_system::sorted_insert;
use crate::cell_system::sorted_remove;
use crate::cell_system::strictly_sorted;
use crate::rule::alive_next;
use crate::rule::ind;
use crate::rule::is_neighbor;
use crate::rule::lemma_neighbor_count_bounds;
use crate::rule::lemma_neighbor_count_insert;
use crate::rule::neighbor_count;
use crate::rule::step;

verus! {

/// One entry of the neighbour tally: a coordinate and how many of its
/// neighbours have been visited so far.
#[derive(Clone, Copy)]
struct TallyEntry {
    pos: CellPosition,
    count: u8,
}

/// The count the tally holds for `(x, y)`; a coordinate without an entry
/// counts as 0. The first matching entry decides (the tally never holds two
/// entries for one coordinate, but the specification does not need that).
spec fn tally_lookup(t: Seq<TallyEntry>, x: int, y: int) -> int
    decreases t.len(),
{
    if t.len() == 0 {
        0
    } else if t[0].pos.x as int == x && t[0].pos.y as int == y {
        t[0].count as int
    } else {
        tally_lookup(t.skip(1), x, y)
    }
}

/// Whether the tally has an entry for `(x, y)`.
spec fn tally_has(t: Seq<TallyEntry>, x: int, y: int) -> bool {
    exists|i: int|
        0 <= i < t.len() && (#[trigger] t[i]).pos.x as int == x && t[i].pos.y as int == y
}

/// A coordinate without an entry looks up to 0.
proof fn lemma_tally_absent(t: Seq<TallyEntry>, x: int, y: int)
    requires
        !tally_has(t, x, y),
    ensures
        tally_lookup(t, x, y) == 0,
    decreases t.len(),
{
    if t.len() > 0 {
        assert(!(t[0].pos.x as int == x && t[0].pos.y as int == y));
        assert forall|k: int|
            0 <= k < t.skip(1).len() implies !((#[trigger] t.skip(1)[k]).pos.x as int == x && t.skip(
            1,
        )[k].pos.y as int == y) by {
            assert(t.skip(1)[k] == t[k + 1]);
        }
        lemma_tally_absent(t.skip(1), x, y);
    }
}

/// What a pushed entry does to each lookup.
proof fn lemma_tally_push(t: Seq<TallyEntry>, e: TallyEntry, x: int, y: int)
    ensures
        tally_lookup(t.push(e), x, y) == if tally_has(t, x, y) {
            tally_lookup(t, x, y)
        } else if e.pos.x as int == x && e.pos.y as int == y {
            e.count as int
        } else {
            0
        },
    decreases t.len(),
{
    let u = t.push(e);
    if t.len() == 0 {
        assert(!tally_has(t, x, y));
        assert(u[0] == e);
        if !(e.pos.x as int == x && e.pos.y as int == y) {
            assert(u.skip(1) =~= Seq::<TallyEntry>::empty());
            assert(tally_lookup(u.skip(1), x, y) == 0);
        }
    } else {
        assert(u[0] == t[0]);
        assert(u.skip(1) =~= t.skip(1).push(e));
        lemma_tally_push(t.skip(1), e, x, y);
        if t[0].pos.x as int == x && t[0].pos.y as int == y {
            assert(tally_has(t, x, y));
        } else {
            assert(tally_has(t, x, y) == tally_has(t.skip(1), x, y)) by {
                if tally_has(t, x, y) {
                    let k = choose|k: int|
                        0 <= k < t.len() && (#[trigger] t[k]).pos.x as int == x && t[k].pos.y
                            as int == y;
                    assert(t.skip(1)[k - 1] == t[k]);
                }
                if tally_has(t.skip(1), x, y) {
                    let k = choose|k: int|
                        0 <= k < t.skip(1).len() && (#[trigger] t.skip(1)[k]).pos.x as int == x
                            && t.skip(1)[k].pos.y as int == y;
                    assert(t.skip(1)[k] == t[k + 1]);
                }
            }
        }
    }
}

/// What updating the first entry of a coordinate does to each lookup.
proof fn lemma_tally_update(t: Seq<TallyEntry>, i: int, e: TallyEntry, x: int, y: int)
    requires
        0 <= i < t.len(),
        e.pos == t[i].pos,
        forall|k: int|
            0 <= k < i ==> !((#[trigger] t[k]).pos.x == t[i].pos.x && t[k].pos.y == t[i].pos.y),
    ensures
        tally_lookup(t.update(i, e), x, y) == if t[i].pos.x as int == x && t[i].pos.y as int == y {
            e.count as int
        } else {
            tally_lookup(t, x, y)
        },
    decreases t.len(),
{
    let u = t.update(i, e);
    if i == 0 {
        assert(u[0] == e);
        assert(u.skip(1) =~= t.skip(1));
    } else {
        assert(u[0] == t[0]);
        assert(u.skip(1) =~= t.skip(1).update(i - 1, e));
        assert forall|k: int|
            0 <= k < i - 1 implies !((#[trigger] t.skip(1)[k]).pos.x == t.skip(1)[i - 1].pos.x
            && t.skip(1)[k].pos.y == t.skip(1)[i - 1].pos.y) by {
            assert(t.skip(1)[k] == t[k + 1]);
            assert(t.skip(1)[i - 1] == t[i]);
        }
        assert(t.skip(1)[i - 1] == t[i]);
        lemma_tally_update(t.skip(1), i - 1, e, x, y);
    }
}

/// The count the tally holds for the coordinate of `p`.
fn tally_get(t: &Vec<TallyEntry>, p: &CellPosition) -> (c: u8)
    ensures
        c as int == tally_lookup(t@, p.x as int, p.y as int),
{
    proof {
        assert(t@.skip(0) =~= t@);
    }
    let mut i: usize = 0;
    while i < t.len()
        invariant
            i <= t@.len(),
            tally_lookup(t@, p.x as int, p.y as int) == tally_lookup(
                t@.skip(i as int),
                p.x as int,
                p.y as int,
            ),
            forall|k: int|
                0 <= k < i ==> !((#[trigger] t@[k]).pos.x == p.x && t@[k].pos.y == p.y),
        decreases t@.len() - i,
    {
        let e = t[i];
        proof {
            assert(t@.skip(i as int)[0] == t@[i as int]);
            assert(t@.skip(i as int).skip(1) =~= t@.skip(i + 1));
        }
        if e.pos.x == p.x && e.pos.y == p.y {
            return e.count;
        }
        i = i + 1;
    }
    proof {
        assert(t@.skip(t@.len() as int) =~= Seq::<TallyEntry>::empty());
    }
    0
}

/// Add one visit for the coordinate of `p`, returning the new count; every
/// other coordinate's count is unchanged.
fn tally_bump(t: &mut Vec<TallyEntry>, p: CellPosition) -> (c: u8)
    requires
        tally_lookup(old(t)@, p.x as int, p.y as int) <= 7,
    ensures
        c as int == tally_lookup(old(t)@, p.x as int, p.y as int) + 1,
        tally_lookup(final(t)@, p.x as int, p.y as int) == c as int,
        forall|x: int, y: int|
            !(x == p.x as int && y == p.y as int) ==> tally_lookup(final(t)@, x, y) == tally_lookup(
                old(t)@,
                x,
                y,
            ),
{
    proof {
        assert(t@.skip(0) =~= t@);
    }
    let mut i: usize = 0;
    while i < t.len()
        invariant
            i <= t@.len(),
            t@ == old(t)@,
            tally_lookup(t@, p.x as int, p.y as int) <= 7,
            tally_lookup(t@, p.x as int, p.y as int) == tally_lookup(
                t@.skip(i as int),
                p.x as int,
                p.y as int,
            ),
            forall|k: int|
                0 <= k < i ==> !((#[trigger] t@[k]).pos.x == p.x && t@[k].pos.y == p.y),
        decreases t@.len() - i,
    {
        let e = t[i];
        proof {
            assert(t@.skip(i as int)[0] == t@[i as int]);
            assert(t@.skip(i as int).skip(1) =~= t@.skip(i + 1));
        }
        if e.pos.x == p.x && e.pos.y == p.y {
            proof {
                assert(tally_lookup(t@.skip(i as int), p.x as int, p.y as int) == e.count as int);
            }
            let c = e.count + 1;
            let ghost pre = t@;
            t[i] = TallyEntry { pos: e.pos, count: c };
            proof {
                assert forall|x: int, y: int| tally_lookup(t@, x, y) == if pre[i as int].pos.x
                    as int == x && pre[i as int].pos.y as int == y {
                    c as int
                } else {
                    tally_lookup(pre, x, y)
                } by {
                    lemma_tally_update(
                        pre,
                        i as int,
                        TallyEntry { pos: e.pos, count: c },
                        x,
                        y,
                    );
                }
            }
            return c;
        }
        i = i + 1;
    }
    proof {
        assert(t@.skip(t@.len() as int) =~= Seq::<TallyEntry>::empty());
        assert(tally_lookup(t@, p.x as int, p.y as int) == 0);
    }
    let ghost pre = t@;
    t.push(TallyEntry { pos: p, count: 1 });
    proof {
        assert forall|x: int, y: int| tally_lookup(t@, x, y) == if x == p.x as int && y == p.y
            as int {
            1int
        } else {
            tally_lookup(pre, x, y)
        } by {
            lemma_tally_push(pre, TallyEntry { pos: p, count: 1 }, x, y);
            if x == p.x as int && y == p.y as int {
                assert(!tally_has(pre, x, y));
            } else {
                if !tally_has(pre, x, y) {
                    lemma_tally_absent(pre, x, y);
                }
            }
        }
    }
    1
}

/// The `d`-th of the 8 neighbour offsets, `x` component.
spec fn delta_x(d: int) -> int {
    if d == 0 {
        -1
    } else if d == 1 {
        0
    } else if d == 2 {
        1
    } else if d == 3 {
        -1
    } else if d == 4 {
        1
    } else if d == 5 {
        -1
    } else if d == 6 {
        0
    } else {
        1
    }
}

/// The `d`-th of the 8 neighbour offsets, `y` component.
spec fn delta_y(d: int) -> int {
    if d <= 2 {
        -1
    } else if d <= 4 {
        0
    } else {
        1
    }
}

/// The `d`-th neighbour offset as a value pair.
fn delta_at(d: usize) -> (r: (isize, isize))
    requires
        d < 8,
    ensures
        r.0 as int == delta_x(d as int),
        r.1 as int == delta_y(d as int),
        -1 <= r.0 as int <= 1,
        -1 <= r.1 as int <= 1,
{
    if d == 0 {
        (-1, -1)
    } else if d == 1 {
        (0, -1)
    } else if d == 2 {
        (1, -1)
    } else if d == 3 {
        (-1, 0)
    } else if d == 4 {
        (1, 0)
    } else if d == 5 {
        (-1, 1)
    } else if d == 6 {
        (0, 1)
    } else {
        (1, 1)
    }
}

/// How many of the first `i` live cells are neighbours of `(x, y)`: the
/// number of visits `(x, y)` has received after `i` cells of the first pass.
spec fn visits(live: Seq<CellPosition>, i: int, x: int, y: int) -> int
    decreases i,
{
    if i <= 0 {
        0
    } else {
        visits(live, i - 1, x, y) + ind(
            is_neighbor(live[i - 1].x as int, live[i - 1].y as int, x, y),
        )
    }
}

/// How many of the first `j` offsets of the cell `(cx, cy)` land on `(x, y)`.
spec fn cell_partial(cx: int, cy: int, j: int, x: int, y: int) -> int
    decreases j,
{
    if j <= 0 {
        0
    } else {
        cell_partial(cx, cy, j - 1, x, y) + ind(
            cx + delta_x(j - 1) == x && cy + delta_y(j - 1) == y,
        )
    }
}

/// All 8 offsets of a cell together land on `(x, y)` exactly once if the
/// cell is a neighbour of `(x, y)`, else never.
proof fn lemma_cell_partial_full(cx: int, cy: int, x: int, y: int)
    ensures
        cell_partial(cx, cy, 8, x, y) == ind(is_neighbor(cx, cy, x, y)),
{
    reveal_with_fuel(cell_partial, 9);
}

/// The per-cell visit count grows with the number of offsets taken.
proof fn lemma_cell_partial_mono(cx: int, cy: int, j1: int, j2: int, x: int, y: int)
    requires
        j1 <= j2,
    ensures
        cell_partial(cx, cy, j1, x, y) <= cell_partial(cx, cy, j2, x, y),
    decreases j2 - j1,
{
    if j1 < j2 {
        lemma_cell_partial_mono(cx, cy, j1, j2 - 1, x, y);
    }
}

/// The visit count grows with the number of cells processed.
proof fn lemma_visits_mono(live: Seq<CellPosition>, i1: int, i2: int, x: int, y: int)
    requires
        i1 <= i2,
    ensures
        visits(live, i1, x, y) <= visits(live, i2, x, y),
    decreases i2 - i1,
{
    if i1 < i2 {
        lemma_visits_mono(live, i1, i2 - 1, x, y);
    }
}

/// The coordinates of a one-longer prefix are the previous ones plus the
/// coordinate of the next cell.
proof fn lemma_coord_take_snoc(live: Seq<CellPosition>, i: int)
    requires
        0 < i <= live.len(),
    ensures
        coord_set(live.take(i)) == coord_set(live.take(i - 1)).insert(
            (live[i - 1].x as int, live[i - 1].y as int),
        ),
{
    let t = live.take(i);
    let s = live.take(i - 1);
    assert forall|p: (int, int)|
        coord_set(t).contains(p) == coord_set(s).insert(
        (live[i - 1].x as int, live[i - 1].y as int),
    ).contains(p) by {
        if seq_has_xy(t, p.0, p.1) {
            let k = choose|k: int|
                0 <= k < t.len() && (#[trigger] t[k]).x as int == p.0 && t[k].y as int == p.1;
            if k < i - 1 {
                assert(s[k] == t[k]);
            } else {
                assert(t[k] == live[i - 1]);
            }
        }
        if seq_has_xy(s, p.0, p.1) {
            let k = choose|k: int|
                0 <= k < s.len() && (#[trigger] s[k]).x as int == p.0 && s[k].y as int == p.1;
            assert(t[k] == s[k]);
        }
        if p.0 == live[i - 1].x as int && p.1 == live[i - 1].y as int {
            assert(t[i - 1] == live[i - 1]);
        }
    }
    assert(coord_set(t) =~= coord_set(s).insert((live[i - 1].x as int, live[i - 1].y as int)));
}

/// After the whole first pass the visit count of every coordinate is its
/// live-neighbour count: the cells are distinct, and each neighbour among
/// them contributed exactly one visit.
proof fn lemma_visits_full(live: Seq<CellPosition>, i: int, x: int, y: int)
    requires
        strictly_sorted(live),
        0 <= i <= live.len(),
    ensures
        visits(live, i, x, y) == neighbor_count(coord_set(live.take(i)), x, y),
    decreases i,
{
    if i == 0 {
        assert(live.take(0) =~= Seq::<CellPosition>::empty());
        assert forall|p: (int, int)| !coord_set(live.take(0)).contains(p) by {
            assert(!seq_has_xy(live.take(0), p.0, p.1));
        }
        assert(coord_set(live.take(0)) =~= Set::<(int, int)>::empty());
    } else {
        lemma_visits_full(live, i - 1, x, y);
        let c = live[i - 1];
        let s = coord_set(live.take(i - 1));
        assert(!s.contains((c.x as int, c.y as int))) by {
            if seq_has_xy(live.take(i - 1), c.x as int, c.y as int) {
                let k = choose|k: int|
                    0 <= k < live.take(i - 1).len() && (#[trigger] live.take(i - 1)[k]).x
                        as int == c.x as int && live.take(i - 1)[k].y as int == c.y as int;
                assert(live.take(i - 1)[k] == live[k]);
                assert(pos_lt(live[k], live[i - 1]));
            }
        }
        lemma_coord_take_snoc(live, i);
        lemma_neighbor_count_insert(s, c.x as int, c.y as int, x, y);
    }
}

/// Merge two strictly sorted vectors into one strictly sorted vector
/// holding the union of their coordinates.
fn merge_sorted(a: &Vec<CellPosition>, b: &Vec<CellPosition>) -> (r: Vec<CellPosition>)
    requires
        strictly_sorted(a@),
        strictly_sorted(b@),
    ensures
        strictly_sorted(r@),
        forall|x: int, y: int|
            #![trigger seq_has_xy(r@, x, y)]
            seq_has_xy(r@, x, y) <==> seq_has_xy(a@, x, y) || seq_has_xy(b@, x, y),
{
    let mut out: Vec<CellPosition> = Vec::new();
    let mut ia: usize = 0;
    let mut ib: usize = 0;
    while ia < a.len() || ib < b.len()
        invariant
            ia <= a@.len(),
            ib <= b@.len(),
            strictly_sorted(a@),
            strictly_sorted(b@),
            strictly_sorted(out@),
            forall|x: int, y: int|
                #![trigger seq_has_xy(out@, x, y)]
                seq_has_xy(out@, x, y) <==> seq_has_xy(a@.take(ia as int), x, y) || seq_has_xy(
                    b@.take(ib as int),
                    x,
                    y,
                ),
            forall|t: int| 0 <= t < out@.len() && ia < a@.len() ==> pos_lt(
                #[trigger] out@[t],
                a@[ia as int],
            ),
            forall|t: int| 0 <= t < out@.len() && ib < b@.len() ==> pos_lt(
                #[trigger] out@[t],
                b@[ib as int],
            ),
        decreases a@.len() + b@.len() - ia - ib,
    {
        let ghost pre = out@;
        let ghost pa = ia as int;
        let ghost pb = ib as int;
        let take_a: bool;
        let take_b: bool;
        if ib >= b.len() {
            take_a = true;
            take_b = false;
        } else if ia >= a.len() {
            take_a = false;
            take_b = true;
        } else if a[ia].x == b[ib].x && a[ia].y == b[ib].y {
            take_a = true;
            take_b = true;
        } else if pos_before(&a[ia], &b[ib]) {
            take_a = true;
            take_b = false;
        } else {
            take_a = false;
            take_b = true;
        }
        let c: CellPosition = if take_a {
            a[ia]
        } else {
            b[ib]
        };
        proof {
            lemma_merge_push_helper(out@, a@, b@, pa, pb, c);
        }
        out.push(c);
        if take_a {
            ia = ia + 1;
        }
        if take_b {
            ib = ib + 1;
        }
        proof {
            assert(out@[pre.len() as int] == c);
            if ia as int != pa {
                assert(a@.take(pa + 1) =~= a@.take(pa).push(a@[pa]));
                assert(a@.take(ia as int)[pa] == c);
            }
            if ib as int != pb {
                assert(b@.take(pb + 1) =~= b@.take(pb).push(b@[pb]));
                assert(b@.take(ib as int)[pb] == c);
            }
            assert forall|x: int, y: int| #![trigger seq_has_xy(out@, x, y)] seq_has_xy(out@, x, y)
                <==> seq_has_xy(a@.take(ia as int), x, y) || seq_has_xy(
                b@.take(ib as int),
                x,
                y,
            ) by {
                if seq_has_xy(out@, x, y) {
                    let k = choose|k: int|
                        0 <= k < out@.len() && (#[trigger] out@[k]).x as int == x && out@[k].y
                            as int == y;
                    if k < pre.len() {
                        assert(out@[k] == pre[k]);
                        assert(seq_has_xy(pre, x, y));
                    }
                }
                if seq_has_xy(a@.take(ia as int), x, y) {
                    let k = choose|k: int|
                        0 <= k < a@.take(ia as int).len() && (#[trigger] a@.take(ia as int)[k]).x
                            as int == x && a@.take(ia as int)[k].y as int == y;
                    if k < pa {
                        assert(a@.take(pa)[k] == a@.take(ia as int)[k]);
                        assert(seq_has_xy(a@.take(pa), x, y));
                        assert(seq_has_xy(pre, x, y));
                        let m = choose|m: int|
                            0 <= m < pre.len() && (#[trigger] pre[m]).x as int == x && pre[m].y
                                as int == y;
                        assert(out@[m] == pre[m]);
                    } else {
                        assert(a@.take(ia as int)[k] == a@[pa]);
                    }
                }
                if seq_has_xy(b@.take(ib as int), x, y) {
                    let k = choose|k: int|
                        0 <= k < b@.take(ib as int).len() && (#[trigger] b@.take(ib as int)[k]).x
                            as int == x && b@.take(ib as int)[k].y as int == y;
                    if k < pb {
                        assert(b@.take(pb)[k] == b@.take(ib as int)[k]);
                        assert(seq_has_xy(b@.take(pb), x, y));
                        assert(seq_has_xy(pre, x, y));
                        let m = choose|m: int|
                            0 <= m < pre.len() && (#[trigger] pre[m]).x as int == x && pre[m].y
                                as int == y;
                        assert(out@[m] == pre[m]);
                    } else {
                        assert(b@.take(ib as int)[k] == b@[pb]);
                    }
                }
            }
        }
    }
    proof {
        assert(a@.take(a@.len() as int) =~= a@);
        assert(b@.take(b@.len() as int) =~= b@);
    }
    out
}

/// Pushing the smaller head during the merge keeps the output strictly
/// sorted and strictly below both remaining heads.
proof fn lemma_merge_push_helper(
    out: Seq<CellPosition>,
    a: Seq<CellPosition>,
    b: Seq<CellPosition>,
    pa: int,
    pb: int,
    c: CellPosition,
)
    requires
        strictly_sorted(a),
        strictly_sorted(b),
        strictly_sorted(out),
        0 <= pa <= a.len(),
        0 <= pb <= b.len(),
        forall|t: int| 0 <= t < out.len() && pa < a.len() ==> pos_lt(#[trigger] out[t], a[pa]),
        forall|t: int| 0 <= t < out.len() && pb < b.len() ==> pos_lt(#[trigger] out[t], b[pb]),
        (pa < a.len() && c == a[pa] && (pb < b.len() ==> !pos_lt(b[pb], c))) || (pb < b.len() && c
            == b[pb] && (pa < a.len() ==> !pos_lt(a[pa], c))),
    ensures
        strictly_sorted(out.push(c)),
        forall|t: int| 0 <= t < out.push(c).len() && pa + 1 < a.len() ==> pos_lt(
            #[trigger] out.push(c)[t],
            a[pa + 1],
        ),
        forall|t: int| 0 <= t < out.push(c).len() && pb + 1 < b.len() ==> pos_lt(
            #[trigger] out.push(c)[t],
            b[pb + 1],
        ),
        forall|t: int| 0 <= t < out.push(c).len() && pa < a.len() && c != a[pa] ==> pos_lt(
            #[trigger] out.push(c)[t],
            a[pa],
        ),
        forall|t: int| 0 <= t < out.push(c).len() && pb < b.len() && c != b[pb] ==> pos_lt(
            #[trigger] out.push(c)[t],
            b[pb],
        ),
{
    let u = out.push(c);
    assert forall|a1: int, b1: int| #![trigger u[a1], u[b1]] 0 <= a1 < b1 < u.len() implies pos_lt(
        u[a1],
        u[b1],
    ) by {
        if b1 < out.len() {
            assert(u[a1] == out[a1] && u[b1] == out[b1]);
        } else {
            assert(u[a1] == out[a1] && u[b1] == c);
        }
    }
    assert forall|t: int| 0 <= t < u.len() && pa + 1 < a.len() implies pos_lt(
        #[trigger] u[t],
        a[pa + 1],
    ) by {
        if t < out.len() {
            assert(u[t] == out[t]);
        } else {
            assert(u[t] == c);
        }
    }
    assert forall|t: int| 0 <= t < u.len() && pb + 1 < b.len() implies pos_lt(
        #[trigger] u[t],
        b[pb + 1],
    ) by {
        if t < out.len() {
            assert(u[t] == out[t]);
        } else {
            assert(u[t] == c);
        }
    }
    assert forall|t: int| 0 <= t < u.len() && pa < a.len() && c != a[pa] implies pos_lt(
        #[trigger] u[t],
        a[pa],
    ) by {
        if t < out.len() {
            assert(u[t] == out[t]);
        } else {
            assert(u[t] == c);
        }
    }
    assert forall|t: int| 0 <= t < u.len() && pb < b.len() && c != b[pb] implies pos_lt(
        #[trigger] u[t],
        b[pb],
    ) by {
        if t < out.len() {
            assert(u[t] == out[t]);
        } else {
            assert(u[t] == c);
        }
    }
}

/// Compute the next generation of `live`.
///
/// The result is a brand-new [`LiveSet`], never aliased with the input, and
/// its coordinates are exactly [`step`] of the input's coordinates. The
/// result is strictly sorted, so the same input set always produces the
/// same output sequence.
pub fn advance(live: &LiveSet) -> (next: LiveSet)
    requires
        live.wf(),
        all_in_bounds(live@),
    ensures
        next.wf(),
        next.live_coords() == step(live.live_coords()),
{
    let cells = live.as_vec();
    let ghost lv = live@;
    let ghost ls = coord_set(lv);
    let n = cells.len();
    let mut tally: Vec<TallyEntry> = Vec::new();
    let mut cands: Vec<CellPosition> = Vec::new();
    // First pass: visit the 8 neighbours of every live cell, counting visits
    // per coordinate and tracking the coordinates whose count passes exactly
    // 3 as birth candidates; a fourth visit disqualifies a candidate.
    let mut i: usize = 0;
    while i < n
        invariant
            i <= n,
            n == lv.len(),
            cells@ == lv,
            strictly_sorted(lv),
            all_in_bounds(lv),
            ls == coord_set(lv),
            forall|x: int, y: int|
                #[trigger] tally_lookup(tally@, x, y) == visits(lv, i as int, x, y),
            strictly_sorted(cands@),
            forall|x: int, y: int|
                #![trigger seq_has_xy(cands@, x, y)]
                seq_has_xy(cands@, x, y) <==> tally_lookup(tally@, x, y) == 3,
        decreases n - i,
    {
        let c = cells[i];
        let ghost cx = c.x as int;
        let ghost cy = c.y as int;
        let mut j: usize = 0;
        while j < 8
            invariant
                j <= 8,
                i < n,
                n == lv.len(),
                cells@ == lv,
                strictly_sorted(lv),
                all_in_bounds(lv),
                ls == coord_set(lv),
                c == lv[i as int],
                cx == c.x as int,
                cy == c.y as int,
                forall|x: int, y: int|
                    #[trigger] tally_lookup(tally@, x, y) == visits(lv, i as int, x, y)
                        + cell_partial(cx, cy, j as int, x, y),
                strictly_sorted(cands@),
                forall|x: int, y: int|
                    #![trigger seq_has_xy(cands@, x, y)]
                    seq_has_xy(cands@, x, y) <==> tally_lookup(tally@, x, y) == 3,
            decreases 8 - j,
        {
            let (dx, dy) = delta_at(j);
            proof {
                assert(pos_in_bounds(lv[i as int]));
            }
            let nx = c.x + dx;
            let ny = c.y + dy;
            let p = CellPosition { x: nx, y: ny };
            let ghost px = nx as int;
            let ghost py = ny as int;
            proof {
                assert(px == cx + delta_x(j as int) && py == cy + delta_y(j as int));
                assert(cell_partial(cx, cy, j + 1, px, py) == cell_partial(cx, cy, j as int, px, py)
                    + 1);
                lemma_cell_partial_mono(cx, cy, j + 1, 8, px, py);
                lemma_cell_partial_full(cx, cy, px, py);
                assert(visits(lv, i + 1, px, py) == visits(lv, i as int, px, py) + ind(
                    is_neighbor(cx, cy, px, py),
                ));
                lemma_visits_mono(lv, i + 1, n as int, px, py);
                lemma_visits_full(lv, n as int, px, py);
                assert(lv.take(n as int) =~= lv);
                lemma_neighbor_count_bounds(ls, px, py);
                assert(tally_lookup(tally@, px, py) <= 7);
            }
            let ghost pre_tally = tally@;
            let ghost pre_cands = cands@;
            let cnew = tally_bump(&mut tally, p);
            if cnew == 3 {
                sorted_insert(&mut cands, p);
            } else if cnew == 4 {
                sorted_remove(&mut cands, p);
            }
            proof {
                assert forall|x: int, y: int| #[trigger] tally_lookup(tally@, x, y) == visits(
                    lv,
                    i as int,
                    x,
                    y,
                ) + cell_partial(cx, cy, j + 1, x, y) by {
                    if x == px && y == py {
                    } else {
                        assert(cell_partial(cx, cy, j + 1, x, y) == cell_partial(
                            cx,
                            cy,
                            j as int,
                            x,
                            y,
                        ));
                    }
                }
                assert forall|x: int, y: int| #![trigger seq_has_xy(cands@, x, y)] seq_has_xy(
                    cands@,
                    x,
                    y,
                ) <==> tally_lookup(tally@, x, y) == 3 by {
                    if x == px && y == py {
                        assert(tally_lookup(tally@, x, y) == cnew as int);
                    } else {
                        assert(tally_lookup(tally@, x, y) == tally_lookup(pre_tally, x, y));
                        assert(seq_has_xy(cands@, x, y) == seq_has_xy(pre_cands, x, y));
                    }
                }
            }
            j = j + 1;
        }
        proof {
            assert forall|x: int, y: int| #[trigger] tally_lookup(tally@, x, y) == visits(
                lv,
                i + 1,
                x,
                y,
            ) by {
                lemma_cell_partial_full(cx, cy, x, y);
                assert(visits(lv, i + 1, x, y) == visits(lv, i as int, x, y) + ind(
                    is_neighbor(cx, cy, x, y),
                ));
            }
        }
        i = i + 1;
    }
    // The tally now holds every coordinate's live-neighbour count.
    proof {
        assert(lv.take(n as int) =~= lv);
        assert forall|x: int, y: int| #[trigger] tally_lookup(tally@, x, y) == neighbor_count(
            ls,
            x,
            y,
        ) by {
            lemma_visits_full(lv, n as int, x, y);
        }
    }
    // Second pass: a live cell survives on a count of 2 or 3 and dies
    // otherwise; a surviving cell is struck from the birth candidates.
    let mut survivors: Vec<CellPosition> = Vec::new();
    let mut k: usize = 0;
    while k < n
        invariant
            k <= n,
            n == lv.len(),
            cells@ == lv,
            strictly_sorted(lv),
            ls == coord_set(lv),
            forall|x: int, y: int|
                #[trigger] tally_lookup(tally@, x, y) == neighbor_count(ls, x, y),
            strictly_sorted(survivors@),
            forall|x: int, y: int|
                #![trigger seq_has_xy(survivors@, x, y)]
                seq_has_xy(survivors@, x, y) <==> (seq_has_xy(lv.take(k as int), x, y) && (
                neighbor_count(ls, x, y) == 2 || neighbor_count(ls, x, y) == 3)),
            forall|t: int| 0 <= t < survivors@.len() && k < n ==> pos_lt(
                #[trigger] survivors@[t],
                lv[k as int],
            ),
            strictly_sorted(cands@),
            forall|x: int, y: int|
                #![trigger seq_has_xy(cands@, x, y)]
                seq_has_xy(cands@, x, y) <==> (neighbor_count(ls, x, y) == 3 && !seq_has_xy(
                    lv.take(k as int),
                    x,
                    y,
                )),
        decreases n - k,
    {
        let c = cells[k];
        let ghost px = c.x as int;
        let ghost py = c.y as int;
        let cnt = tally_get(&tally, &c);
        let ghost pre_surv = survivors@;
        let ghost pre_cands = cands@;
        if cnt == 2 {
            proof {
                lemma_sorted_push_helper(survivors@, lv, k as int);
            }
            survivors.push(c);
        } else if cnt == 3 {
            proof {
                lemma_sorted_push_helper(survivors@, lv, k as int);
            }
            survivors.push(c);
            sorted_remove(&mut cands, c);
        }
        proof {
            lemma_take_snoc_has_xy(lv, k as int);
            if survivors@.len() > pre_surv.len() {
                assert(survivors@ == pre_surv.push(c));
                assert(survivors@[pre_surv.len() as int] == c);
            }
            assert forall|x: int, y: int| #![trigger seq_has_xy(survivors@, x, y)] seq_has_xy(
                survivors@,
                x,
                y,
            ) <==> (seq_has_xy(lv.take(k + 1), x, y) && (neighbor_count(ls, x, y) == 2
                || neighbor_count(ls, x, y) == 3)) by {
                if x == px && y == py {
                    assert(neighbor_count(ls, x, y) == cnt as int);
                    if cnt == 2 || cnt == 3 {
                        assert(seq_has_xy(survivors@, x, y));
                    } else {
                        assert(!seq_has_xy(pre_surv, x, y));
                        if seq_has_xy(survivors@, x, y) {
                            assert(seq_has_xy(pre_surv, x, y));
                        }
                    }
                } else {
                    if seq_has_xy(survivors@, x, y) {
                        let m = choose|m: int|
                            0 <= m < survivors@.len() && (#[trigger] survivors@[m]).x as int == x
                                && survivors@[m].y as int == y;
                        if m < pre_surv.len() {
                            assert(survivors@[m] == pre_surv[m]);
                        } else {
                            assert(survivors@[m] == c);
                        }
                    }
                    if seq_has_xy(pre_surv, x, y) {
                        let m = choose|m: int|
                            0 <= m < pre_surv.len() && (#[trigger] pre_surv[m]).x as int == x
                                && pre_surv[m].y as int == y;
                        assert(survivors@[m] == pre_surv[m]);
                    }
                }
            }
            assert forall|x: int, y: int| #![trigger seq_has_xy(cands@, x, y)] seq_has_xy(
                cands@,
                x,
                y,
            ) <==> (neighbor_count(ls, x, y) == 3 && !seq_has_xy(lv.take(k + 1), x, y)) by {
                if x == px && y == py {
                    assert(neighbor_count(ls, x, y) == cnt as int);
                    assert(seq_has_xy(lv.take(k + 1), x, y));
                    if cnt == 3 {
                        assert(!seq_has_xy(cands@, x, y));
                    } else {
                        assert(!seq_has_xy(pre_cands, x, y));
                    }
                } else {
                    assert(seq_has_xy(cands@, x, y) == seq_has_xy(pre_cands, x, y));
                }
            }
            if k + 1 < n {
                assert forall|t: int| 0 <= t < survivors@.len() implies pos_lt(
                    #[trigger] survivors@[t],
                    lv[k + 1],
                ) by {
                    assert(pos_lt(lv[k as int], lv[k + 1]));
                    if t < pre_surv.len() {
                        assert(survivors@[t] == pre_surv[t]);
                        assert(pos_lt(pre_surv[t], lv[k as int]));
                    } else {
                        assert(survivors@[t] == c);
                    }
                }
            }
        }
        k = k + 1;
    }
    // Births: every remaining candidate was dead and ends with exactly 3
    // live neighbours. The next generation is survivors plus births.
    proof {
        assert(lv.take(n as int) =~= lv);
    }
    let next_cells = merge_sorted(&survivors, &cands);
    proof {
        assert forall|p: (int, int)|
            coord_set(next_cells@).contains(p) == step(ls).contains(p) by {
            assert(seq_has_xy(next_cells@, p.0, p.1) <==> seq_has_xy(survivors@, p.0, p.1)
                || seq_has_xy(cands@, p.0, p.1));
            assert(ls.contains(p) == seq_has_xy(lv, p.0, p.1));
            assert(step(ls).contains(p) == alive_next(ls, p.0, p.1));
        }
        assert(coord_set(next_cells@) =~= step(ls));
    }
    LiveSet::from_sorted(next_cells)
}

} // verus!
