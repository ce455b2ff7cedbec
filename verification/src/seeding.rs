//! Random board seeding.
//!
//! [`random_cells`] fills a rectangle of the plane with cells, each alive
//! with a fair coin flip, as the "random board" control does. Which cells
//! come out is random; that every cell lies inside the rectangle, and that
//! the result is a well-formed live set, is proved.

use vstd::prelude::*;

use crate::cell_system::CellPosition;
use crate::cell_system::LiveSet;
use crate::cell_system::pos_lt;
use crate::cell_system::strictly_sorted;

verus! {

/// Controls of the board-reset panel: the width (and height) of the square
/// that a random fill covers.
#[derive(Clone, Copy, Debug, PartialEq, Eq, Structural)]
pub struct GuiParams {
    pub random_drag_value: u16,
}

impl Default for GuiParams {
    /// The random fill starts at a 50-cell square.
    fn default() -> (r: Self)
        ensures
            r.random_drag_value == 50,
    {
        GuiParams { random_drag_value: 50 }
    }
}

/// Relies on rand::random::<bool>: draws one boolean from the thread-local
/// generator. Nothing is promised of the outcome.
#[verifier::external_body]
fn random_bool() -> bool {
    rand::random::<bool>()
}

/// Whether the coordinate of `c` lies in the `w` x `h` rectangle whose
/// lowest corner is `(x, y)`.
pub open spec fn in_rect(c: CellPosition, x: int, y: int, w: int, h: int) -> bool {
    x <= c.x as int && c.x as int <= x + w - 1 && y <= c.y as int && c.y as int <= y + h - 1
}

/// Fill the `width` x `height` rectangle whose lowest corner is `(x, y)`
/// with random cells: each coordinate of the rectangle is alive with a coin
/// flip. Whatever the flips, the result is well formed and stays inside the
/// rectangle.
pub fn random_cells(x: isize, y: isize, width: usize, height: usize) -> (r: LiveSet)
    requires
        width <= isize::MAX,
        height <= isize::MAX,
        x + width <= isize::MAX,
        y + height <= isize::MAX,
    ensures
        r.wf(),
        forall|px: int, py: int|
            #[trigger] r.live_coords().contains((px, py)) ==> x <= px && px < x + width && y <= py
                && py < y + height,
{
    let mut out: Vec<CellPosition> = Vec::new();
    let mut i: usize = 0;
    while i < width
        invariant
            i <= width,
            width <= isize::MAX,
            height <= isize::MAX,
            x + width <= isize::MAX,
            y + height <= isize::MAX,
            strictly_sorted(out@),
            forall|t: int| 0 <= t < out@.len() ==> in_rect(#[trigger] out@[t], x as int, y as int, i as int, height as int),
        decreases width - i,
    {
        let cx = x + (i as isize);
        let mut j: usize = 0;
        while j < height
            invariant
                j <= height,
                i < width,
                width <= isize::MAX,
                height <= isize::MAX,
                x + width <= isize::MAX,
                y + height <= isize::MAX,
                cx as int == x + i,
                strictly_sorted(out@),
                forall|t: int| 0 <= t < out@.len() ==> in_rect(#[trigger] out@[t], x as int, y as int, i + 1, height as int),
                forall|t: int| 0 <= t < out@.len() && (#[trigger] out@[t]).x as int == x + i
                    ==> out@[t].y as int <= y + j - 1,
            decreases height - j,
        {
            let cy = y + (j as isize);
            if random_bool() {
                let p = CellPosition { x: cx, y: cy };
                let ghost pre = out@;
                proof {
                    assert forall|a: int, b: int| #![trigger pre.push(p)[a], pre.push(p)[b]] 0 <= a
                        < b < pre.push(p).len() implies pos_lt(pre.push(p)[a], pre.push(p)[b]) by {
                        if b < pre.len() {
                            assert(pre.push(p)[a] == pre[a] && pre.push(p)[b] == pre[b]);
                        } else {
                            assert(pre.push(p)[a] == pre[a] && pre.push(p)[b] == p);
                        }
                    }
                }
                out.push(p);
            }
            j = j + 1;
        }
        i = i + 1;
    }
    let r = LiveSet::from_sorted(out);
    proof {
        assert forall|px: int, py: int| #[trigger] r.live_coords().contains((px, py)) implies x
            <= px && px < x + width && y <= py && py < y + height by {
            let t = choose|t: int|
                0 <= t < r@.len() && (#[trigger] r@[t]).x as int == px && r@[t].y as int == py;
        }
    }
    r
}

} // verus!
