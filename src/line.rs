use vstd::prelude::*;

verus! {

/// Grid walks count their steps in `f32`, exact for coordinate spans below
/// this bound; keeping the coordinates themselves within it also keeps the
/// walk's step past its end within `i32`.
pub const MAX_SPAN: i32 = 0x40_0000;

pub open spec fn abs_int(v: int) -> int {
    if v < 0 {
        -v
    } else {
        v
    }
}

pub open spec fn between(v: int, a: int, b: int) -> bool {
    (a <= v && v <= b) || (b <= v && v <= a)
}

/// The points of `line_drawing::WalkGrid` from `(x0, y0)` to `(x1, y1)`.
pub uninterp spec fn walk_grid_points(x0: int, y0: int, x1: int, y1: int) -> Seq<(i32, i32)>;

/// A walk of orthogonal unit steps from `(x0, y0)` to `(x1, y1)` that never
/// leaves the box the two points span: the `i`-th point is `i` steps from
/// the start.
pub open spec fn is_grid_walk(pts: Seq<(i32, i32)>, x0: int, y0: int, x1: int, y1: int) -> bool {
    &&& pts.len() == abs_int(x1 - x0) + abs_int(y1 - y0) + 1
    &&& forall|i: int|
        #![trigger pts[i]]
        0 <= i < pts.len() ==> between(pts[i].0 as int, x0, x1) && between(pts[i].1 as int, y0, y1)
            && abs_int(pts[i].0 - x0) + abs_int(pts[i].1 - y0) == i
}

/// Relies on line_drawing::WalkGrid: it yields the start, then takes one
/// orthogonal step towards the end per point, and stops after yielding the
/// end.
#[verifier::external_body]
pub(crate) fn walk_grid(x0: i32, y0: i32, x1: i32, y1: i32) -> (r: Vec<(i32, i32)>)
    requires
        -MAX_SPAN < x0 < MAX_SPAN,
        -MAX_SPAN < y0 < MAX_SPAN,
        -MAX_SPAN < x1 < MAX_SPAN,
        -MAX_SPAN < y1 < MAX_SPAN,
        abs_int(x1 - x0) < MAX_SPAN,
        abs_int(y1 - y0) < MAX_SPAN,
    ensures
        r@ == walk_grid_points(x0 as int, y0 as int, x1 as int, y1 as int),
        is_grid_walk(r@, x0 as int, y0 as int, x1 as int, y1 as int),
{
    line_drawing::WalkGrid::new((x0, y0), (x1, y1)).collect()
}

/// Endpoints of a rasterised line stay within this bound, so that the
/// rasteriser's error terms fit a 32-bit `isize`.
pub const MAX_LINE_COORD: isize = 0x400_0000;

/// The points of `line_drawing::Bresenham` from `(x0, y0)` to `(x1, y1)`.
pub uninterp spec fn bresenham_points(x0: int, y0: int, x1: int, y1: int) -> Seq<(isize, isize)>;

/// Relies on line_drawing::Bresenham: the line starts at its start point,
/// and its `i`-th point lies `i` steps from the start along the major axis
/// (each point advances the major coordinate by one, the minor by at most
/// one). At most `limit` points are taken, from the front.
#[verifier::external_body]
pub(crate) fn bresenham(x0: isize, y0: isize, x1: isize, y1: isize, limit: usize) -> (r: Vec<(isize, isize)>)
    requires
        -MAX_LINE_COORD <= x0 <= MAX_LINE_COORD,
        -MAX_LINE_COORD <= y0 <= MAX_LINE_COORD,
        -MAX_LINE_COORD <= x1 <= MAX_LINE_COORD,
        -MAX_LINE_COORD <= y1 <= MAX_LINE_COORD,
    ensures
        r@.len() == (if bresenham_points(x0 as int, y0 as int, x1 as int, y1 as int).len() < limit {
            bresenham_points(x0 as int, y0 as int, x1 as int, y1 as int).len() as int
        } else {
            limit as int
        }),
        r@ == bresenham_points(x0 as int, y0 as int, x1 as int, y1 as int).take(r@.len() as int),
        limit > 0 ==> r@.len() >= 1 && r@[0] == (x0, y0),
        forall|i: int| 0 <= i < r@.len() ==> #[trigger] chebyshev(r@[i].0 as int - x0, r@[i].1 as int - y0) == i,
{
    line_drawing::Bresenham::new((x0, y0), (x1, y1)).take(limit).collect()
}

/// The larger of the absolute values of `dx` and `dy`.
pub open spec fn chebyshev(dx: int, dy: int) -> int {
    if abs_int(dx) >= abs_int(dy) {
        abs_int(dx)
    } else {
        abs_int(dy)
    }
}

} // verus!
