//! Points and sizes on the integer pixel grid.

use vstd::prelude::*;

verus! {

/// A position on the pixel grid.
#[derive(Clone, Copy, Debug, PartialEq, Eq, Structural)]
pub struct Point {
    pub x: i32,
    pub y: i32,
}

/// The extent of a rectangle, measured from its origin.
#[derive(Clone, Copy, Debug, PartialEq, Eq, Structural)]
pub struct Size {
    pub w: i32,
    pub h: i32,
}

impl Size {
    /// A size is valid when neither extent is negative.
    pub open spec fn is_valid(&self) -> bool {
        self.w >= 0 && self.h >= 0
    }

    /// The size `w` by `h`, or `None` when either extent is negative.
    pub fn new(w: i32, h: i32) -> (r: Option<Size>)
        ensures
            r == if w >= 0 && h >= 0 {
                Some(Size { w, h })
            } else {
                None
            },
            r matches Some(s) ==> s.is_valid(),
    {
        if w >= 0 && h >= 0 {
            Some(Size { w, h })
        } else {
            None
        }
    }
}

/// The point `(0, 0)`.
pub fn make_origin_point() -> (p: Point)
    ensures
        p == (Point { x: 0, y: 0 }),
{
    Point { x: 0, y: 0 }
}

/// The point `(x, y)`.
pub fn make_point_i32(x: i32, y: i32) -> (p: Point)
    ensures
        p == (Point { x, y }),
{
    Point { x, y }
}

/// Whether `p` lies in the rectangle that starts at `origin` and extends by
/// `size`, both edges included. The bounds are taken as mathematical integers,
/// so a rectangle near the edge of the grid does not wrap around.
pub open spec fn covers(origin: Point, size: Size, p: Point) -> bool {
    &&& origin.x <= p.x
    &&& p.x <= origin.x + size.w
    &&& origin.y <= p.y
    &&& p.y <= origin.y + size.h
}

/// Decides `covers` without overflow.
pub fn region_contains(origin: Point, size: Size, p: Point) -> (r: bool)
    ensures
        r == covers(origin, size, p),
{
    let right: i64 = origin.x as i64 + size.w as i64;
    let bottom: i64 = origin.y as i64 + size.h as i64;
    p.x >= origin.x && p.x as i64 <= right && p.y >= origin.y && p.y as i64 <= bottom
}

/// A rectangle of valid size holds its own origin and its far corner; the
/// cells just left of the origin and just right of the far edge are outside.
pub proof fn lemma_region_edges(origin: Point, size: Size)
    requires
        size.is_valid(),
    ensures
        covers(origin, size, origin),
        forall|p: Point|
            p.x == origin.x + size.w && p.y == origin.y + size.h ==> #[trigger] covers(
                origin,
                size,
                p,
            ),
        forall|p: Point| p.x == origin.x - 1 ==> !#[trigger] covers(origin, size, p),
        forall|p: Point| p.x == origin.x + size.w + 1 ==> !#[trigger] covers(origin, size, p),
{
}

} // verus!
