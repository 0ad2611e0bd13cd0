//! Axis-aligned rectangles and the quadrant arithmetic shared by the tree:
//! child bounds, centers, containment and overlap tests.
//!
//! Coordinates are exact integers. Rectangles are stored by their corners;
//! every rectangle that the tree subdivides is kept inside `COORD_LIMIT` so
//! that center arithmetic cannot overflow.

use vstd::prelude::*;

verus! {

/// Largest magnitude allowed for the corners of tree bounds (2^35). Bounding
/// boxes of stored values stay well inside it, and centers of such rectangles
/// fit comfortably in `i64`.
pub const COORD_LIMIT: i64 = 34359738368;

/// An axis-aligned rectangle given by its minimum and maximum corners,
/// both corners included.
#[derive(Clone, Copy, Debug, PartialEq, Eq, Structural)]
pub struct Rect {
    pub min_x: i64,
    pub min_y: i64,
    pub max_x: i64,
    pub max_y: i64,
}

impl Rect {
    /// All four corners are within `COORD_LIMIT`.
    pub open spec fn bounded(self) -> bool {
        &&& -COORD_LIMIT <= self.min_x <= COORD_LIMIT
        &&& -COORD_LIMIT <= self.min_y <= COORD_LIMIT
        &&& -COORD_LIMIT <= self.max_x <= COORD_LIMIT
        &&& -COORD_LIMIT <= self.max_y <= COORD_LIMIT
    }

    /// A rectangle is well formed when its corners are ordered and within
    /// `COORD_LIMIT` on both axes.
    pub open spec fn wf(self) -> bool {
        &&& self.bounded()
        &&& self.min_x <= self.max_x
        &&& self.min_y <= self.max_y
    }

    /// x coordinate of the center, rounded toward the minimum corner.
    pub open spec fn center_x(self) -> int {
        self.min_x + (self.max_x - self.min_x) / 2
    }

    /// y coordinate of the center, rounded toward the minimum corner.
    pub open spec fn center_y(self) -> int {
        self.min_y + (self.max_y - self.min_y) / 2
    }
}

/// `inner` lies entirely inside `outer` (shared edges allowed).
pub open spec fn rect_contains_rect(outer: Rect, inner: Rect) -> bool {
    &&& outer.min_x <= inner.min_x
    &&& inner.max_x <= outer.max_x
    &&& outer.min_y <= inner.min_y
    &&& inner.max_y <= outer.max_y
}

/// The two rectangles meet as closed boxes: touching edges count.
pub open spec fn rects_intersect(a: Rect, b: Rect) -> bool {
    &&& a.min_x <= b.max_x
    &&& b.min_x <= a.max_x
    &&& a.min_y <= b.max_y
    &&& b.min_y <= a.max_y
}

/// The two rectangles overlap with positive extent on both axes: touching
/// edges do not count, and a degenerate rectangle overlaps nothing. This is
/// the test the tree uses when deciding whether to descend into a child.
pub open spec fn rects_overlap_strict(a: Rect, b: Rect) -> bool {
    &&& a.min_x < b.max_x
    &&& b.min_x < a.max_x
    &&& a.min_x < a.max_x
    &&& b.min_x < b.max_x
    &&& a.min_y < b.max_y
    &&& b.min_y < a.max_y
    &&& a.min_y < a.max_y
    &&& b.min_y < b.max_y
}

/// Bounds of the child quadrant `idx` of `parent`. Quadrants are numbered
/// counter-clockwise: 0 bottom-left, 1 bottom-right, 2 top-right, 3 top-left,
/// split at the parent's center.
pub open spec fn child_bounds(parent: Rect, idx: int) -> Rect {
    let cx = parent.center_x();
    let cy = parent.center_y();
    if idx == 0 {
        Rect { min_x: parent.min_x, min_y: parent.min_y, max_x: cx as i64, max_y: cy as i64 }
    } else if idx == 1 {
        Rect { min_x: cx as i64, min_y: parent.min_y, max_x: parent.max_x, max_y: cy as i64 }
    } else if idx == 2 {
        Rect { min_x: cx as i64, min_y: cy as i64, max_x: parent.max_x, max_y: parent.max_y }
    } else {
        Rect { min_x: parent.min_x, min_y: cy as i64, max_x: cx as i64, max_y: parent.max_y }
    }
}

/// The quadrant of `bounds` that fully contains the box `q`, if any.
/// A box that is out of bounds or straddles a center line has no quadrant.
pub open spec fn quadrant_of(bounds: Rect, q: Rect) -> Option<int> {
    let cx = bounds.center_x();
    let cy = bounds.center_y();
    if !rect_contains_rect(bounds, q) {
        None
    } else if q.max_x < cx && q.max_y < cy {
        Some(0int)
    } else if q.max_x < cx && q.min_y >= cy {
        Some(3int)
    } else if q.min_x >= cx && q.max_y < cy {
        Some(1int)
    } else if q.min_x >= cx && q.min_y >= cy {
        Some(2int)
    } else {
        None
    }
}

/// A quadrant index, when there is one, is between 0 and 3.
pub proof fn lemma_quadrant_range(bounds: Rect, q: Rect)
    ensures
        quadrant_of(bounds, q) is Some ==> 0 <= quadrant_of(bounds, q)->0 < 4,
{
}

/// The center of a well-formed rectangle lies inside it, so the bounds of
/// every child quadrant are again well formed and contained in the parent.
pub proof fn lemma_child_bounds_wf(parent: Rect, idx: int)
    requires
        parent.wf(),
        0 <= idx < 4,
    ensures
        child_bounds(parent, idx).wf(),
        rect_contains_rect(parent, child_bounds(parent, idx)),
{
}

/// Computes the center of a well-formed rectangle.
pub fn rect_center(bounds: &Rect) -> (c: (i64, i64))
    requires
        bounds.wf(),
    ensures
        c.0 == bounds.center_x(),
        c.1 == bounds.center_y(),
{
    let half_w: i64 = ((bounds.max_x - bounds.min_x) as u64 / 2) as i64;
    let half_h: i64 = ((bounds.max_y - bounds.min_y) as u64 / 2) as i64;
    (bounds.min_x + half_w, bounds.min_y + half_h)
}

/// Computes the bounds of the child quadrant `idx` of `parent`.
/// Quadrants are numbered counter-clockwise, see [`child_bounds`].
pub fn compute_rect(parent: &Rect, idx: u8) -> (r: Rect)
    requires
        parent.wf(),
        idx < 4,
    ensures
        r == child_bounds(*parent, idx as int),
{
    let (cx, cy): (i64, i64) = rect_center(parent);
    match idx {
        0 => Rect { min_x: parent.min_x, min_y: parent.min_y, max_x: cx, max_y: cy },
        1 => Rect { min_x: cx, min_y: parent.min_y, max_x: parent.max_x, max_y: cy },
        2 => Rect { min_x: cx, min_y: cy, max_x: parent.max_x, max_y: parent.max_y },
        _ => Rect { min_x: parent.min_x, min_y: cy, max_x: cx, max_y: parent.max_y },
    }
}

/// Decides whether two rectangles overlap with positive extent on both
/// axes: touching edges do not count.
pub fn overlaps_strictly(a: &Rect, b: &Rect) -> (r: bool)
    ensures
        r == rects_overlap_strict(*a, *b),
{
    a.min_x < b.max_x && b.min_x < a.max_x && a.min_x < a.max_x && b.min_x < b.max_x
        && a.min_y < b.max_y && b.min_y < a.max_y && a.min_y < a.max_y && b.min_y < b.max_y
}

/// Finds the quadrant of `bounds` that fully contains the box `quad`.
/// Returns `None` when the box is out of bounds or straddles a center line.
pub fn find_quadrant(bounds: &Rect, quad: &Rect) -> (r: Option<u8>)
    requires
        bounds.wf(),
    ensures
        r is Some <==> quadrant_of(*bounds, *quad) is Some,
        r is Some ==> r->0 as int == quadrant_of(*bounds, *quad)->0,
{
    let (cx, cy): (i64, i64) = rect_center(bounds);

    // Return early if the box is out of bounds.
    if quad.max_x > bounds.max_x || quad.max_y > bounds.max_y || quad.min_x < bounds.min_x
        || quad.min_y < bounds.min_y {
        return None;
    }

    // Try to find the quadrant and return early on a match.
    if quad.max_x < cx {
        if quad.max_y < cy {
            return Some(0);
        } else if quad.min_y >= cy {
            return Some(3);
        }
    } else if quad.min_x >= cx {
        if quad.max_y < cy {
            return Some(1);
        } else if quad.min_y >= cy {
            return Some(2);
        }
    }

    None
}

} // verus!
