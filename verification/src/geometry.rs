use vstd::prelude::*;

verus! {

/// A point on the drawing surface, in pixels.
#[derive(Debug, Clone, Copy, PartialEq, Eq, Structural)]
pub struct Point {
    /// The x coordinate.
    pub x: i32,
    /// The y coordinate.
    pub y: i32,
}

impl Point {
    /// Creates a point from its two coordinates.
    pub fn new(x: i32, y: i32) -> (r: Point)
        ensures
            r.x == x,
            r.y == y,
    {
        Point { x, y }
    }
}

/// Which point of an object's bounding box a position refers to.
#[derive(Debug, Clone, Copy, PartialEq, Eq, Structural)]
pub enum Anchor {
    /// Top left corner.
    TopLeft,
    /// Middle of the top edge.
    TopCenter,
    /// Top right corner.
    TopRight,
    /// Middle of the left edge.
    MiddleLeft,
    /// Center of the box.
    MiddleCenter,
    /// Middle of the right edge.
    MiddleRight,
    /// Bottom left corner.
    BottomLeft,
    /// Middle of the bottom edge.
    BottomCenter,
    /// Bottom right corner.
    BottomRight,
}

/// Horizontal placement of an anchor: 0 for the left edge, 1 for the middle, 2 for the right edge.
pub open spec fn anchor_column(anchor: Anchor) -> int {
    match anchor {
        Anchor::TopLeft | Anchor::MiddleLeft | Anchor::BottomLeft => 0,
        Anchor::TopCenter | Anchor::MiddleCenter | Anchor::BottomCenter => 1,
        Anchor::TopRight | Anchor::MiddleRight | Anchor::BottomRight => 2,
    }
}

/// Vertical placement of an anchor: 0 for the top edge, 1 for the middle, 2 for the bottom edge.
pub open spec fn anchor_line(anchor: Anchor) -> int {
    match anchor {
        Anchor::TopLeft | Anchor::TopCenter | Anchor::TopRight => 0,
        Anchor::MiddleLeft | Anchor::MiddleCenter | Anchor::MiddleRight => 1,
        Anchor::BottomLeft | Anchor::BottomCenter | Anchor::BottomRight => 2,
    }
}

/// The offset from the left (or top) edge of a box of the given extent to the
/// point that an anchor placement (0, 1 or 2) names: the edge, the middle
/// (rounded down), or the far edge.
pub open spec fn anchor_offset(placement: int, extent: int) -> int {
    if placement == 0 {
        0
    } else if placement == 1 {
        extent / 2
    } else {
        extent
    }
}

/// The x coordinate of the left edge of a box `width` wide whose anchor point lies at `x`.
pub open spec fn anchored_left(x: int, width: int, anchor: Anchor) -> int {
    x - anchor_offset(anchor_column(anchor), width)
}

/// The y coordinate of the top edge of a box `height` tall whose anchor point lies at `y`.
pub open spec fn anchored_top(y: int, height: int, anchor: Anchor) -> int {
    y - anchor_offset(anchor_line(anchor), height)
}

/// The point that `anchor` names on the box with top left corner `(left, top)`
/// and the given size.
pub open spec fn box_anchor_point(left: int, top: int, width: int, height: int, anchor: Anchor) -> (
    int,
    int,
) {
    match anchor {
        Anchor::TopLeft => (left, top),
        Anchor::TopCenter => (left + width / 2, top),
        Anchor::TopRight => (left + width, top),
        Anchor::MiddleLeft => (left, top + height / 2),
        Anchor::MiddleCenter => (left + width / 2, top + height / 2),
        Anchor::MiddleRight => (left + width, top + height / 2),
        Anchor::BottomLeft => (left, top + height),
        Anchor::BottomCenter => (left + width / 2, top + height),
        Anchor::BottomRight => (left + width, top + height),
    }
}

/// Placing a box of the given size by `anchor` at `position` keeps its
/// coordinates within the range of `i32`.
pub open spec fn anchor_fits(position: Point, width: int, height: int, anchor: Anchor) -> bool {
    &&& i32::MIN <= anchored_left(position.x as int, width, anchor)
    &&& i32::MIN <= anchored_top(position.y as int, height, anchor)
}

/// The top left corner of a box of the given size whose `anchor` point lies at `position`.
pub fn anchored_origin(position: Point, width: i32, height: i32, anchor: Anchor) -> (r: Point)
    requires
        width >= 0,
        height >= 0,
        anchor_fits(position, width as int, height as int, anchor),
    ensures
        r.x == anchored_left(position.x as int, width as int, anchor),
        r.y == anchored_top(position.y as int, height as int, anchor),
        box_anchor_point(r.x as int, r.y as int, width as int, height as int, anchor) == (
            position.x as int,
            position.y as int,
        ),
{
    match anchor {
        Anchor::TopLeft => Point::new(position.x, position.y),
        Anchor::TopCenter => Point::new(position.x - (width / 2), position.y),
        Anchor::TopRight => Point::new(position.x - width, position.y),
        Anchor::MiddleLeft => Point::new(position.x, position.y - (height / 2)),
        Anchor::MiddleCenter => Point::new(position.x - (width / 2), position.y - (height / 2)),
        Anchor::MiddleRight => Point::new(position.x - width, position.y - (height / 2)),
        Anchor::BottomLeft => Point::new(position.x, position.y - height),
        Anchor::BottomCenter => Point::new(position.x - (width / 2), position.y - height),
        Anchor::BottomRight => Point::new(position.x - width, position.y - height),
    }
}

/// Whether a box of the given size can be placed by `anchor` at `position`
/// without leaving the range of `i32`.
pub fn can_anchor(position: Point, width: i32, height: i32, anchor: Anchor) -> (r: bool)
    requires
        width >= 0,
        height >= 0,
    ensures
        r == anchor_fits(position, width as int, height as int, anchor),
{
    let dx: i64 = match anchor {
        Anchor::TopLeft | Anchor::MiddleLeft | Anchor::BottomLeft => 0,
        Anchor::TopCenter | Anchor::MiddleCenter | Anchor::BottomCenter => (width / 2) as i64,
        Anchor::TopRight | Anchor::MiddleRight | Anchor::BottomRight => width as i64,
    };
    let dy: i64 = match anchor {
        Anchor::TopLeft | Anchor::TopCenter | Anchor::TopRight => 0,
        Anchor::MiddleLeft | Anchor::MiddleCenter | Anchor::MiddleRight => (height / 2) as i64,
        Anchor::BottomLeft | Anchor::BottomCenter | Anchor::BottomRight => height as i64,
    };
    position.x as i64 - dx >= i32::MIN as i64 && position.y as i64 - dy >= i32::MIN as i64
}

/// The box that `anchored_origin` places has its `anchor` point exactly at
/// the requested position.
pub proof fn lemma_anchored_box_meets_position(
    position: Point,
    width: int,
    height: int,
    anchor: Anchor,
)
    ensures
        box_anchor_point(
            anchored_left(position.x as int, width, anchor),
            anchored_top(position.y as int, height, anchor),
            width,
            height,
            anchor,
        ) == (position.x as int, position.y as int),
{
}

} // verus!
