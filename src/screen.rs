use crate::geom::Vec2;
use vstd::prelude::*;

verus! {

/// Width of the visible screen in chart columns.
pub const SCREEN_W: i32 = 39;

/// Height of the visible screen in chart rows.
pub const SCREEN_H: i32 = 22;

/// Whether chart point `(x, y)` is on the visible screen, with chart point
/// `(0, 0)` at its center.
pub open spec fn on_screen_spec(x: int, y: int) -> bool {
    &&& x <= y + 20
    &&& x >= y - 19
    &&& x >= -22 - y
    &&& x <= 21 - y
}

/// Whether the given chart point is on the currently visible screen.
///
/// Chart point `(0, 0)` is at the center of the screen. Game rules are tied
/// to the screen's edges, so its size is fixed.
pub fn on_screen(chart_pos: Vec2) -> (r: bool)
    ensures
        r == on_screen_spec(chart_pos.x as int, chart_pos.y as int),
{
    let x = chart_pos.x as i64;
    let y = chart_pos.y as i64;
    let w = SCREEN_W as i64;
    let h = SCREEN_H as i64;
    x <= y + (w + 1) / 2 && x >= y - (w - 1) / 2 && x >= -h - y && x <= h - 1 - y
}

/// The chart points of the visible screen, row by row.
///
/// Every point of the screen lies within 20 steps of the center in both
/// coordinates.
pub fn onscreen_locations() -> (r: Vec<Vec2>)
    ensures
        forall|p: Vec2|
            r@.contains(p) <==> (-20 <= p.x <= 20 && -20 <= p.y <= 20 && on_screen_spec(
                p.x as int,
                p.y as int,
            )),
        forall|i: int, j: int| 0 <= i < j < r@.len() ==> r@[i] != r@[j],
{
    let mut r: Vec<Vec2> = Vec::new();
    let mut y: i32 = -20;
    while y < 21
        invariant
            -20 <= y <= 21,
            forall|p: Vec2|
                r@.contains(p) <==> (-20 <= p.x <= 20 && -20 <= p.y < y && on_screen_spec(
                    p.x as int,
                    p.y as int,
                )),
            forall|i: int, j: int| 0 <= i < j < r@.len() ==> r@[i] != r@[j],
            forall|i: int| 0 <= i < r@.len() ==> r@[i].y < y,
        decreases 21 - y,
    {
        let mut x: i32 = -20;
        while x < 21
            invariant
                -20 <= y < 21,
                -20 <= x <= 21,
                forall|p: Vec2|
                    r@.contains(p) <==> (-20 <= p.x <= 20 && on_screen_spec(p.x as int, p.y as int) && (
                    -20 <= p.y < y || (p.y == y && -20 <= p.x < x))),
                forall|i: int, j: int| 0 <= i < j < r@.len() ==> r@[i] != r@[j],
                forall|i: int| 0 <= i < r@.len() ==> r@[i].y < y || (r@[i].y == y && r@[i].x < x),
            decreases 21 - x,
        {
            let point = Vec2 { x, y };
            if on_screen(point) {
                let ghost before = r@;
                r.push(point);
                assert forall|p: Vec2|
                    r@.contains(p) <==> (-20 <= p.x <= 20 && on_screen_spec(p.x as int, p.y as int) && (
                    -20 <= p.y < y || (p.y == y && -20 <= p.x < x + 1))) by {
                    if r@.contains(p) && p != point {
                        let k = choose|k: int| 0 <= k < r@.len() && r@[k] == p;
                        assert(before[k] == p);
                        assert(before.contains(p));
                    }
                    if before.contains(p) {
                        let k = choose|k: int| 0 <= k < before.len() && before[k] == p;
                        assert(r@[k] == p);
                    }
                    if p == point {
                        assert(r@[before.len() as int] == p);
                    }
                }
            }
            x = x + 1;
        }
        y = y + 1;
    }
    r
}

} // verus!
