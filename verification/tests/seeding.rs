//! Random board seeding stays inside its rectangle and yields a
//! well-formed set.

use game_of_life::seeding::random_cells;
use game_of_life::seeding::GuiParams;

#[test]
fn gui_params_default_width_is_fifty() {
    let p = GuiParams::default();
    assert_eq!(p.random_drag_value, 50);
}

#[test]
fn random_cells_stay_inside_the_rectangle() {
    let s = random_cells(-10, -20, 20, 40);
    assert!(s.len() <= 20 * 40);
    for c in s.as_vec() {
        assert!(-10 <= c.x && c.x < 10, "x out of rectangle: {}", c.x);
        assert!(-20 <= c.y && c.y < 20, "y out of rectangle: {}", c.y);
    }
}

#[test]
fn random_cells_are_sorted_and_distinct() {
    let s = random_cells(0, 0, 30, 30);
    let cells = s.as_vec();
    for w in cells.windows(2) {
        assert!(w[0].x < w[1].x || (w[0].x == w[1].x && w[0].y < w[1].y));
    }
}

#[test]
fn random_cells_of_an_empty_rectangle_is_empty() {
    let s = random_cells(5, 5, 0, 10);
    assert!(s.is_empty());
    let t = random_cells(5, 5, 10, 0);
    assert!(t.is_empty());
}
