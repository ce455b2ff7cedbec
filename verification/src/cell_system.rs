//! Cell coordinates and the live-cell set.
//!
//! A [`CellPosition`] is a pair of signed integers on the unbounded plane.
//! A [`LiveSet`] holds the coordinates of the currently live cells, kept
//! strictly sorted in lexicographic `(x, y)` order, so that membership is
//! well defined, no coordinate appears twice, and iteration order is
//! reproducible.

use vstd::prelude::*;

verus! {

/// A cell coordinate on the unbounded plane.
#[derive(Clone, Copy, Debug, PartialEq, Eq, Hash, PartialOrd, Ord, Structural)]
pub struct CellPosition {
    pub x: isize,
    pub y: isize,
}

/// Strict lexicographic order on coordinates: first by `x`, then by `y`.
pub open spec fn pos_lt(a: CellPosition, b: CellPosition) -> bool {
    a.x < b.x || (a.x == b.x && a.y < b.y)
}

/// A sequence of coordinates in strictly increasing lexicographic order
/// (hence without duplicates).
pub open spec fn strictly_sorted(s: Seq<CellPosition>) -> bool {
    forall|i: int, j: int| #![trigger s[i], s[j]] 0 <= i < j < s.len() ==> pos_lt(s[i], s[j])
}

/// Whether the sequence holds the coordinate `(x, y)`.
pub open spec fn seq_has_xy(s: Seq<CellPosition>, x: int, y: int) -> bool {
    exists|i: int| 0 <= i < s.len() && (#[trigger] s[i]).x as int == x && s[i].y as int == y
}

/// The set of coordinates held by the sequence, as mathematical integer pairs.
pub open spec fn coord_set(s: Seq<CellPosition>) -> Set<(int, int)> {
    Set::new(|p: (int, int)| seq_has_xy(s, p.0, p.1))
}

/// A coordinate whose neighbours on all sides are still representable.
pub open spec fn pos_in_bounds(c: CellPosition) -> bool {
    isize::MIN < c.x < isize::MAX && isize::MIN < c.y < isize::MAX
}

/// Every coordinate of the sequence is in bounds.
pub open spec fn all_in_bounds(s: Seq<CellPosition>) -> bool {
    forall|i: int| 0 <= i < s.len() ==> pos_in_bounds(#[trigger] s[i])
}

/// In a strictly sorted sequence no coordinate appears twice.
pub proof fn lemma_sorted_no_duplicates(s: Seq<CellPosition>)
    requires
        strictly_sorted(s),
    ensures
        forall|i: int, j: int|
            #![trigger s[i], s[j]]
            0 <= i < j < s.len() ==> !(s[i].x == s[j].x && s[i].y == s[j].y),
{
}

/// Exec comparison deciding [`pos_lt`].
pub fn pos_before(a: &CellPosition, b: &CellPosition) -> (r: bool)
    ensures
        r == pos_lt(*a, *b),
{
    a.x < b.x || (a.x == b.x && a.y < b.y)
}

/// Inserting an element adds exactly its coordinate to the ones held.
proof fn lemma_insert_has_xy(s: Seq<CellPosition>, i: int, p: CellPosition)
    requires
        0 <= i <= s.len(),
    ensures
        forall|x: int, y: int|
            #![trigger seq_has_xy(s.insert(i, p), x, y)]
            seq_has_xy(s.insert(i, p), x, y) <==> seq_has_xy(s, x, y) || (x == p.x as int && y
                == p.y as int),
{
    let t = s.insert(i, p);
    s.insert_ensures(i, p);
    assert forall|x: int, y: int| seq_has_xy(t, x, y) implies seq_has_xy(s, x, y) || (x == p.x
        as int && y == p.y as int) by {
        let k = choose|k: int| 0 <= k < t.len() && (#[trigger] t[k]).x as int == x && t[k].y
            as int == y;
        if k < i {
            assert(t[k] == s[k]);
        } else if k == i {
            assert(t[k] == p);
        } else {
            assert(t[(k - 1) + 1] == s[k - 1]);
        }
    }
    assert forall|x: int, y: int| seq_has_xy(s, x, y) || (x == p.x as int && y == p.y
        as int) implies seq_has_xy(t, x, y) by {
        if x == p.x as int && y == p.y as int {
            assert(t[i] == p);
        } else {
            let k = choose|k: int| 0 <= k < s.len() && (#[trigger] s[k]).x as int == x && s[k].y
                as int == y;
            if k < i {
                assert(t[k] == s[k]);
            } else {
                assert(t[k + 1] == s[k]);
            }
        }
    }
}

/// Removing the only element with a coordinate takes exactly that coordinate
/// away.
proof fn lemma_remove_has_xy(s: Seq<CellPosition>, i: int)
    requires
        strictly_sorted(s),
        0 <= i < s.len(),
    ensures
        forall|x: int, y: int|
            #![trigger seq_has_xy(s.remove(i), x, y)]
            seq_has_xy(s.remove(i), x, y) <==> seq_has_xy(s, x, y) && !(x == s[i].x as int && y
                == s[i].y as int),
{
    let t = s.remove(i);
    s.remove_ensures(i);
    assert forall|x: int, y: int| seq_has_xy(t, x, y) implies seq_has_xy(s, x, y) && !(x == s[i].x
        as int && y == s[i].y as int) by {
        let k = choose|k: int| 0 <= k < t.len() && (#[trigger] t[k]).x as int == x && t[k].y
            as int == y;
        if k < i {
            assert(t[k] == s[k]);
            assert(pos_lt(s[k], s[i]));
        } else {
            assert(t[k] == s[k + 1]);
            assert(pos_lt(s[i], s[k + 1]));
        }
    }
    assert forall|x: int, y: int| seq_has_xy(s, x, y) && !(x == s[i].x as int && y == s[i].y
        as int) implies seq_has_xy(t, x, y) by {
        let k = choose|k: int| 0 <= k < s.len() && (#[trigger] s[k]).x as int == x && s[k].y
            as int == y;
        if k < i {
            assert(t[k] == s[k]);
        } else {
            assert(k != i);
            assert(t[k - 1] == s[(k - 1) + 1]);
        }
    }
}

/// Insert `p` into the sorted vector, keeping it strictly sorted; a
/// coordinate already present is left alone.
pub fn sorted_insert(v: &mut Vec<CellPosition>, p: CellPosition)
    requires
        strictly_sorted(old(v)@),
    ensures
        strictly_sorted(final(v)@),
        final(v)@.len() <= old(v)@.len() + 1,
        forall|x: int, y: int|
            #![trigger seq_has_xy(final(v)@, x, y)]
            seq_has_xy(final(v)@, x, y) <==> seq_has_xy(old(v)@, x, y) || (x == p.x as int && y
                == p.y as int),
{
    let mut i: usize = 0;
    while i < v.len() && pos_before(&v[i], &p)
        invariant
            i <= v@.len(),
            strictly_sorted(v@),
            v@ == old(v)@,
            forall|k: int| 0 <= k < i ==> pos_lt(#[trigger] v@[k], p),
        decreases v@.len() - i,
    {
        i = i + 1;
    }
    if i < v.len() && v[i].x == p.x && v[i].y == p.y {
        // already present
        assert(seq_has_xy(v@, p.x as int, p.y as int));
        return ;
    }
    proof {
        lemma_insert_has_xy(v@, i as int, p);
        s_insert_sorted_helper(v@, i as int, p);
    }
    v.insert(i, p);
}

/// Sortedness is preserved by inserting at the found position.
proof fn s_insert_sorted_helper(s: Seq<CellPosition>, i: int, p: CellPosition)
    requires
        strictly_sorted(s),
        0 <= i <= s.len(),
        forall|k: int| 0 <= k < i ==> pos_lt(#[trigger] s[k], p),
        i < s.len() ==> !pos_lt(s[i], p) && !(s[i].x == p.x && s[i].y == p.y),
    ensures
        strictly_sorted(s.insert(i, p)),
{
    let t = s.insert(i, p);
    s.insert_ensures(i, p);
    assert forall|a: int, b: int| #![trigger t[a], t[b]] 0 <= a < b < t.len() implies pos_lt(
        t[a],
        t[b],
    ) by {
        if a < i {
            assert(t[a] == s[a]);
        } else if a == i {
            assert(t[a] == p);
        } else {
            assert(t[(a - 1) + 1] == s[a - 1]);
        }
        if b < i {
            assert(t[b] == s[b]);
        } else if b == i {
            assert(t[b] == p);
        } else {
            assert(t[(b - 1) + 1] == s[b - 1]);
        }
    }
}

/// Remove the coordinate of `p` from the sorted vector, if present.
pub fn sorted_remove(v: &mut Vec<CellPosition>, p: CellPosition)
    requires
        strictly_sorted(old(v)@),
    ensures
        strictly_sorted(final(v)@),
        final(v)@.len() <= old(v)@.len(),
        forall|x: int, y: int|
            #![trigger seq_has_xy(final(v)@, x, y)]
            seq_has_xy(final(v)@, x, y) <==> seq_has_xy(old(v)@, x, y) && !(x == p.x as int && y
                == p.y as int),
{
    let mut i: usize = 0;
    while i < v.len()
        invariant
            i <= v@.len(),
            strictly_sorted(v@),
            v@ == old(v)@,
            forall|k: int| 0 <= k < i ==> !((#[trigger] v@[k]).x == p.x && v@[k].y == p.y),
        decreases v@.len() - i,
    {
        if v[i].x == p.x && v[i].y == p.y {
            proof {
                lemma_remove_has_xy(v@, i as int);
                s_remove_sorted_helper(v@, i as int);
            }
            v.remove(i);
            return ;
        }
        i = i + 1;
    }
}

/// Sortedness is preserved by removal.
proof fn s_remove_sorted_helper(s: Seq<CellPosition>, i: int)
    requires
        strictly_sorted(s),
        0 <= i < s.len(),
    ensures
        strictly_sorted(s.remove(i)),
{
    let t = s.remove(i);
    s.remove_ensures(i);
    assert forall|a: int, b: int| #![trigger t[a], t[b]] 0 <= a < b < t.len() implies pos_lt(
        t[a],
        t[b],
    ) by {
        if a < i {
            assert(t[a] == s[a]);
        } else {
            assert(t[a] == s[a + 1]);
        }
        if b < i {
            assert(t[b] == s[b]);
        } else {
            assert(t[b] == s[b + 1]);
        }
    }
}

/// Whether the sorted vector holds the coordinate of `p` (linear scan).
pub fn vec_has_pos(v: &Vec<CellPosition>, p: &CellPosition) -> (r: bool)
    ensures
        r == seq_has_xy(v@, p.x as int, p.y as int),
{
    let mut i: usize = 0;
    while i < v.len()
        invariant
            i <= v@.len(),
            forall|k: int| 0 <= k < i ==> !((#[trigger] v@[k]).x == p.x && v@[k].y == p.y),
        decreases v@.len() - i,
    {
        if v[i].x == p.x && v[i].y == p.y {
            return true;
        }
        i = i + 1;
    }
    false
}

/// The set of live cells, stored strictly sorted in lexicographic order.
#[derive(Debug)]
pub struct LiveSet {
    cells: Vec<CellPosition>,
}

impl View for LiveSet {
    type V = Seq<CellPosition>;

    closed spec fn view(&self) -> Seq<CellPosition> {
        self.cells@
    }
}

impl LiveSet {
    /// Representation invariant: the cells are strictly sorted.
    pub open spec fn wf(&self) -> bool {
        strictly_sorted(self@)
    }

    /// The coordinates held, as a mathematical set of integer pairs.
    pub open spec fn live_coords(&self) -> Set<(int, int)> {
        coord_set(self@)
    }

    /// The empty live set.
    pub fn new() -> (r: LiveSet)
        ensures
            r.wf(),
            r@ == Seq::<CellPosition>::empty(),
            r.live_coords() == Set::<(int, int)>::empty(),
    {
        let r = LiveSet { cells: Vec::new() };
        proof {
            assert(r.live_coords() =~= Set::<(int, int)>::empty());
        }
        r
    }

    /// Build a live set from any list of coordinates; duplicates collapse and
    /// the order of the input does not matter.
    pub fn from_vec(cells: &Vec<CellPosition>) -> (r: LiveSet)
        ensures
            r.wf(),
            forall|x: int, y: int|
                #![trigger seq_has_xy(r@, x, y)]
                seq_has_xy(r@, x, y) <==> seq_has_xy(cells@, x, y),
    {
        let mut sorted: Vec<CellPosition> = Vec::new();
        let mut i: usize = 0;
        while i < cells.len()
            invariant
                i <= cells@.len(),
                strictly_sorted(sorted@),
                forall|x: int, y: int|
                    #![trigger seq_has_xy(sorted@, x, y)]
                    seq_has_xy(sorted@, x, y) <==> seq_has_xy(cells@.take(i as int), x, y),
            decreases cells@.len() - i,
        {
            let p = cells[i];
            sorted_insert(&mut sorted, p);
            proof {
                assert(cells@.take(i + 1) =~= cells@.take(i as int).push(p));
                assert forall|x: int, y: int| #![trigger seq_has_xy(sorted@, x, y)] seq_has_xy(
                    sorted@,
                    x,
                    y,
                ) <==> seq_has_xy(cells@.take(i + 1), x, y) by {
                    let t = cells@.take(i + 1);
                    if seq_has_xy(t, x, y) {
                        let k = choose|k: int|
                            0 <= k < t.len() && (#[trigger] t[k]).x as int == x && t[k].y
                                as int == y;
                        if k < i {
                            assert(t[k] == cells@.take(i as int)[k]);
                            assert(seq_has_xy(cells@.take(i as int), x, y));
                        }
                    }
                    if seq_has_xy(cells@.take(i as int), x, y) {
                        let k = choose|k: int|
                            0 <= k < cells@.take(i as int).len() && (#[trigger] cells@.take(
                                i as int,
                            )[k]).x as int == x && cells@.take(i as int)[k].y as int == y;
                        assert(t[k] == cells@.take(i as int)[k]);
                    }
                    if x == p.x as int && y == p.y as int {
                        assert(t[i as int] == p);
                    }
                }
            }
            i = i + 1;
        }
        proof {
            assert(cells@.take(cells@.len() as int) =~= cells@);
        }
        LiveSet { cells: sorted }
    }

    /// Wrap an already sorted vector of coordinates.
    pub fn from_sorted(cells: Vec<CellPosition>) -> (r: LiveSet)
        requires
            strictly_sorted(cells@),
        ensures
            r.wf(),
            r@ == cells@,
    {
        LiveSet { cells }
    }

    /// The cells in their sorted order, for iteration and rendering.
    pub fn as_vec(&self) -> (r: &Vec<CellPosition>)
        ensures
            r@ == self@,
    {
        &self.cells
    }

    /// A copy of the cells in their sorted order.
    pub fn to_vec(&self) -> (r: Vec<CellPosition>)
        ensures
            r@ == self@,
    {
        let mut out: Vec<CellPosition> = Vec::new();
        let mut i: usize = 0;
        while i < self.cells.len()
            invariant
                i <= self@.len(),
                out@ == self@.take(i as int),
            decreases self@.len() - i,
        {
            out.push(self.cells[i]);
            proof {
                assert(self@.take(i + 1) =~= self@.take(i as int).push(self@[i as int]));
            }
            i = i + 1;
        }
        proof {
            assert(self@.take(self@.len() as int) =~= self@);
        }
        out
    }

    /// Number of live cells.
    pub fn len(&self) -> (r: usize)
        ensures
            r == self@.len(),
    {
        self.cells.len()
    }

    /// Whether no cell is live.
    pub fn is_empty(&self) -> (r: bool)
        ensures
            r == (self@.len() == 0),
    {
        self.cells.len() == 0
    }

    /// Whether the coordinate of `p` is live.
    pub fn contains(&self, p: &CellPosition) -> (r: bool)
        ensures
            r == self.live_coords().contains((p.x as int, p.y as int)),
    {
        vec_has_pos(&self.cells, p)
    }

    /// Make the coordinate of `p` live.
    pub fn insert(&mut self, p: CellPosition)
        requires
            old(self).wf(),
        ensures
            final(self).wf(),
            final(self).live_coords() == old(self).live_coords().insert((p.x as int, p.y as int)),
    {
        sorted_insert(&mut self.cells, p);
        proof {
            assert(self.live_coords() =~= old(self).live_coords().insert(
                (p.x as int, p.y as int),
            ));
        }
    }

    /// Make the coordinate of `p` dead.
    pub fn remove(&mut self, p: CellPosition)
        requires
            old(self).wf(),
        ensures
            final(self).wf(),
            final(self).live_coords() == old(self).live_coords().remove((p.x as int, p.y as int)),
    {
        sorted_remove(&mut self.cells, p);
        proof {
            assert(self.live_coords() =~= old(self).live_coords().remove(
                (p.x as int, p.y as int),
            ));
        }
    }

    /// Flip the coordinate of `p`: a live cell dies, a dead one is born.
    pub fn toggle(&mut self, p: CellPosition)
        requires
            old(self).wf(),
        ensures
            final(self).wf(),
            old(self).live_coords().contains((p.x as int, p.y as int)) ==> final(self).live_coords()
                == old(self).live_coords().remove((p.x as int, p.y as int)),
            !old(self).live_coords().contains((p.x as int, p.y as int)) ==> final(self)
                .live_coords() == old(self).live_coords().insert((p.x as int, p.y as int)),
    {
        if self.contains(&p) {
            self.remove(p);
        } else {
            self.insert(p);
        }
    }

    /// Remove every live cell.
    pub fn clear(&mut self)
        ensures
            final(self).wf(),
            final(self)@ == Seq::<CellPosition>::empty(),
            final(self).live_coords() == Set::<(int, int)>::empty(),
    {
        self.cells.clear();
        proof {
            assert(self.live_coords() =~= Set::<(int, int)>::empty());
        }
    }

    /// Whether every live cell is far enough from the representable edge for
    /// a generation step.
    pub fn in_bounds(&self) -> (r: bool)
        ensures
            r == all_in_bounds(self@),
    {
        let mut i: usize = 0;
        while i < self.cells.len()
            invariant
                i <= self@.len(),
                forall|k: int| 0 <= k < i ==> pos_in_bounds(#[trigger] self@[k]),
            decreases self@.len() - i,
        {
            let c = self.cells[i];
            if !(isize::MIN < c.x && c.x < isize::MAX && isize::MIN < c.y && c.y < isize::MAX) {
                return false;
            }
            i = i + 1;
        }
        true
    }

    /// The cells live in `self` but not in `other`, in sorted order: the
    /// set-difference a caller needs to report changes between generations.
    pub fn difference(&self, other: &LiveSet) -> (r: Vec<CellPosition>)
        requires
            self.wf(),
        ensures
            strictly_sorted(r@),
            forall|x: int, y: int|
                #![trigger seq_has_xy(r@, x, y)]
                seq_has_xy(r@, x, y) <==> self.live_coords().contains((x, y))
                    && !other.live_coords().contains((x, y)),
    {
        let mut out: Vec<CellPosition> = Vec::new();
        let mut i: usize = 0;
        while i < self.cells.len()
            invariant
                i <= self@.len(),
                self.wf(),
                strictly_sorted(out@),
                forall|x: int, y: int|
                    #![trigger seq_has_xy(out@, x, y)]
                    seq_has_xy(out@, x, y) <==> seq_has_xy(self@.take(i as int), x, y)
                        && !seq_has_xy(other@, x, y),
                forall|t: int| 0 <= t < out@.len() && i < self@.len() ==> pos_lt(
                    #[trigger] out@[t],
                    self@[i as int],
                ),
            decreases self@.len() - i,
        {
            let c = self.cells[i];
            let ghost pre = out@;
            if !vec_has_pos(&other.cells, &c) {
                proof {
                    lemma_sorted_push_helper(out@, self@, i as int);
                }
                out.push(c);
            }
            proof {
                assert(self@.take(i + 1) =~= self@.take(i as int).push(self@[i as int]));
                assert forall|x: int, y: int| #![trigger seq_has_xy(out@, x, y)] seq_has_xy(
                    out@,
                    x,
                    y,
                ) <==> seq_has_xy(self@.take(i + 1), x, y) && !seq_has_xy(other@, x, y) by {
                    let t = self@.take(i + 1);
                    if seq_has_xy(out@, x, y) {
                        let k = choose|k: int|
                            0 <= k < out@.len() && (#[trigger] out@[k]).x as int == x && out@[k].y
                                as int == y;
                        if k < pre.len() {
                            assert(out@[k] == pre[k]);
                            assert(seq_has_xy(pre, x, y));
                            let m = choose|m: int|
                                0 <= m < self@.take(i as int).len() && (#[trigger] self@.take(
                                    i as int,
                                )[m]).x as int == x && self@.take(i as int)[m].y as int == y;
                                assert(t[m] == self@.take(i as int)[m]);
                        } else {
                            assert(out@[k] == self@[i as int]);
                            assert(t[i as int] == self@[i as int]);
                        }
                    }
                    if seq_has_xy(t, x, y) && !seq_has_xy(other@, x, y) {
                        let k = choose|k: int|
                            0 <= k < t.len() && (#[trigger] t[k]).x as int == x && t[k].y
                                as int == y;
                        if k < i {
                            assert(t[k] == self@.take(i as int)[k]);
                            assert(seq_has_xy(self@.take(i as int), x, y));
                            assert(seq_has_xy(pre, x, y));
                            let m = choose|m: int|
                                0 <= m < pre.len() && (#[trigger] pre[m]).x as int == x && pre[m].y
                                    as int == y;
                            if pre.len() < out@.len() {
                                assert(out@[m] == pre[m]);
                            }
                        } else {
                            assert(t[k] == self@[i as int]);
                            assert(out@[out@.len() - 1] == self@[i as int]);
                        }
                    }
                }
            }
            i = i + 1;
        }
        proof {
            assert(self@.take(self@.len() as int) =~= self@);
        }
        out
    }

    /// Two well-formed live sets holding the same coordinates are identical,
    /// however their cells were fed in. Since one generation step yields a
    /// well-formed set whose coordinates depend only on the input's
    /// coordinates, repeated steps from logically equal inputs emit the very
    /// same cell sequence.
    pub proof fn lemma_canonical(&self, other: &LiveSet)
        requires
            self.wf(),
            other.wf(),
            self.live_coords() == other.live_coords(),
        ensures
            self@ == other@,
    {
        lemma_sorted_coords_unique(self@, other@);
    }
}

/// Dropping the head of a sorted sequence drops exactly its coordinate.
proof fn lemma_sorted_skip_has_xy(s: Seq<CellPosition>)
    requires
        strictly_sorted(s),
        s.len() > 0,
    ensures
        strictly_sorted(s.skip(1)),
        forall|x: int, y: int|
            #![trigger seq_has_xy(s.skip(1), x, y)]
            seq_has_xy(s.skip(1), x, y) <==> seq_has_xy(s, x, y) && !(x == s[0].x as int && y
                == s[0].y as int),
{
    let t = s.skip(1);
    assert forall|a: int, b: int| #![trigger t[a], t[b]] 0 <= a < b < t.len() implies pos_lt(
        t[a],
        t[b],
    ) by {
        assert(t[a] == s[a + 1] && t[b] == s[b + 1]);
    }
    assert forall|x: int, y: int| #![trigger seq_has_xy(s.skip(1), x, y)] seq_has_xy(t, x, y)
        <==> seq_has_xy(s, x, y) && !(x == s[0].x as int && y == s[0].y as int) by {
        if seq_has_xy(t, x, y) {
            let k = choose|k: int|
                0 <= k < t.len() && (#[trigger] t[k]).x as int == x && t[k].y as int == y;
            assert(t[k] == s[k + 1]);
            assert(pos_lt(s[0], s[k + 1]));
        }
        if seq_has_xy(s, x, y) && !(x == s[0].x as int && y == s[0].y as int) {
            let k = choose|k: int|
                0 <= k < s.len() && (#[trigger] s[k]).x as int == x && s[k].y as int == y;
            assert(k != 0);
            assert(t[k - 1] == s[k]);
        }
    }
}

/// A set of coordinates has exactly one strictly sorted listing: two sorted
/// sequences holding the same coordinates are equal element for element.
/// Together with the engine's contract this makes one generation fully
/// deterministic, including its emission order.
pub proof fn lemma_sorted_coords_unique(s1: Seq<CellPosition>, s2: Seq<CellPosition>)
    requires
        strictly_sorted(s1),
        strictly_sorted(s2),
        coord_set(s1) == coord_set(s2),
    ensures
        s1 == s2,
    decreases s1.len(),
{
    if s1.len() == 0 {
        if s2.len() > 0 {
            assert(seq_has_xy(s2, s2[0].x as int, s2[0].y as int));
            assert(coord_set(s2).contains((s2[0].x as int, s2[0].y as int)));
            assert(seq_has_xy(s1, s2[0].x as int, s2[0].y as int));
        }
        assert(s1 =~= s2);
    } else {
        assert(seq_has_xy(s1, s1[0].x as int, s1[0].y as int));
        assert(coord_set(s2).contains((s1[0].x as int, s1[0].y as int)));
        if s2.len() == 0 {
            assert(seq_has_xy(s2, s1[0].x as int, s1[0].y as int));
            assert(false);
        }
        assert(seq_has_xy(s2, s2[0].x as int, s2[0].y as int));
        assert(coord_set(s1).contains((s2[0].x as int, s2[0].y as int)));
        let j = choose|j: int|
            0 <= j < s2.len() && (#[trigger] s2[j]).x as int == s1[0].x as int && s2[j].y
                as int == s1[0].y as int;
        let i = choose|i: int|
            0 <= i < s1.len() && (#[trigger] s1[i]).x as int == s2[0].x as int && s1[i].y
                as int == s2[0].y as int;
        if j > 0 {
            assert(pos_lt(s2[0], s2[j]));
            if i > 0 {
                assert(pos_lt(s1[0], s1[i]));
            }
            assert(false);
        }
        assert(s1[0] == s2[0]);
        lemma_sorted_skip_has_xy(s1);
        lemma_sorted_skip_has_xy(s2);
        assert forall|p: (int, int)|
            coord_set(s1.skip(1)).contains(p) == coord_set(s2.skip(1)).contains(p) by {
            assert(coord_set(s1.skip(1)).contains(p) == seq_has_xy(s1.skip(1), p.0, p.1));
            assert(coord_set(s2.skip(1)).contains(p) == seq_has_xy(s2.skip(1), p.0, p.1));
            assert(seq_has_xy(s1.skip(1), p.0, p.1) <==> seq_has_xy(s1, p.0, p.1) && !(p.0 == s1[0].x
                as int && p.1 == s1[0].y as int));
            assert(seq_has_xy(s2.skip(1), p.0, p.1) <==> seq_has_xy(s2, p.0, p.1) && !(p.0 == s2[0].x
                as int && p.1 == s2[0].y as int));
            assert(coord_set(s1).contains(p) == seq_has_xy(s1, p.0, p.1));
            assert(coord_set(s2).contains(p) == seq_has_xy(s2, p.0, p.1));
            assert(coord_set(s1).contains(p) == coord_set(s2).contains(p));
        }
        assert(coord_set(s1.skip(1)) =~= coord_set(s2.skip(1)));
        lemma_sorted_coords_unique(s1.skip(1), s2.skip(1));
        assert forall|m: int| 0 <= m < s1.len() implies s1[m] == s2[m] by {
            if m > 0 {
                assert(s1[m] == s1.skip(1)[m - 1]);
                assert(s2[m] == s2.skip(1)[m - 1]);
            }
        }
        assert(s1 =~= s2);
    }
}

/// The coordinates of a one-longer prefix are the previous ones plus the
/// coordinate of the next cell.
pub(crate) proof fn lemma_take_snoc_has_xy(s: Seq<CellPosition>, k: int)
    requires
        0 <= k < s.len(),
    ensures
        forall|x: int, y: int|
            #![trigger seq_has_xy(s.take(k + 1), x, y)]
            seq_has_xy(s.take(k + 1), x, y) <==> seq_has_xy(s.take(k), x, y) || (x == s[k].x
                as int && y == s[k].y as int),
{
    let t = s.take(k + 1);
    assert(t =~= s.take(k).push(s[k]));
    assert forall|x: int, y: int| #![trigger seq_has_xy(s.take(k + 1), x, y)] seq_has_xy(t, x, y)
        <==> seq_has_xy(s.take(k), x, y) || (x == s[k].x as int && y == s[k].y as int) by {
        if seq_has_xy(t, x, y) {
            let m = choose|m: int|
                0 <= m < t.len() && (#[trigger] t[m]).x as int == x && t[m].y as int == y;
            if m < k {
                assert(s.take(k)[m] == t[m]);
            } else {
                assert(t[m] == s[k]);
            }
        }
        if seq_has_xy(s.take(k), x, y) {
            let m = choose|m: int|
                0 <= m < s.take(k).len() && (#[trigger] s.take(k)[m]).x as int == x && s.take(
                    k,
                )[m].y as int == y;
            assert(t[m] == s.take(k)[m]);
        }
        if x == s[k].x as int && y == s[k].y as int {
            assert(t[k] == s[k]);
        }
    }
}

/// Pushing the next cell of a sorted source onto an output that is below it
/// keeps the output strictly sorted and below the following cells.
pub(crate) proof fn lemma_sorted_push_helper(out: Seq<CellPosition>, src: Seq<CellPosition>, i: int)
    requires
        strictly_sorted(out),
        strictly_sorted(src),
        0 <= i < src.len(),
        forall|t: int| 0 <= t < out.len() ==> pos_lt(#[trigger] out[t], src[i]),
    ensures
        strictly_sorted(out.push(src[i])),
        forall|t: int| 0 <= t < out.push(src[i]).len() && i + 1 < src.len() ==> pos_lt(
            #[trigger] out.push(src[i])[t],
            src[i + 1],
        ),
{
    let t = out.push(src[i]);
    assert forall|a: int, b: int| #![trigger t[a], t[b]] 0 <= a < b < t.len() implies pos_lt(
        t[a],
        t[b],
    ) by {
        if b < out.len() {
            assert(t[a] == out[a] && t[b] == out[b]);
        } else {
            assert(t[a] == out[a] && t[b] == src[i]);
        }
    }
}

} // verus!
