//! The values stored in the tree: an opaque identity, a position and a
//! bounding [`Shape`], together with the full 3 x 3 matrix of pairwise
//! shape intersection predicates and bounding-box extraction.
//!
//! Positions and shape extents are `i32`; every predicate is computed
//! exactly, comparing squared distances so no rounding ever occurs. All
//! boundary cases are inclusive: touching shapes count as intersecting.

use vstd::prelude::*;

use crate::geom::Rect;
use crate::geom::COORD_LIMIT;
use crate::geom::rect_contains_rect;

verus! {

/// A collision shape, centered at a position supplied alongside it.
/// Extents are half-widths and are never negative for well-formed shapes.
#[derive(Clone, Copy, Debug, PartialEq, Eq, Structural)]
pub enum Shape {
    /// An axis-aligned rectangle with the given half-extents.
    Quad { half_x: i32, half_y: i32 },
    /// A circle with the given radius.
    Circle { radius: i32 },
    /// A stadium: a rectangle of half-extents `(radius, half_length)`
    /// capped by two half-circles of `radius`, oriented along the
    /// vertical axis.
    Capsule { radius: i32, half_length: i32 },
}

impl Shape {
    /// All extents are non-negative.
    pub open spec fn wf(self) -> bool {
        match self {
            Shape::Quad { half_x, half_y } => half_x >= 0 && half_y >= 0,
            Shape::Circle { radius } => radius >= 0,
            Shape::Capsule { radius, half_length } => radius >= 0 && half_length >= 0,
        }
    }
}

/// A value stored in the quadtree: an opaque identity, a position and a
/// bounding shape. Equality is structural over all three.
#[derive(Clone, Copy, Debug, PartialEq, Eq, Structural)]
pub struct QuadVal {
    pub id: u64,
    pub x: i32,
    pub y: i32,
    pub shape: Shape,
}

/// The square of `a`.
pub open spec fn sq(a: int) -> int {
    a * a
}

/// `v` clamped by taking the minimum with `hi` and then the maximum with
/// `lo`; for `lo <= hi` this is `v` clamped into the closed interval
/// `[lo, hi]`.
pub open spec fn clamp(v: int, lo: int, hi: int) -> int {
    let m = if v < hi {
        v
    } else {
        hi
    };
    if m < lo {
        lo
    } else {
        m
    }
}

/// The axis-aligned rectangle centered at `(x, y)` with half-extents
/// `(hx, hy)`.
pub open spec fn shape_rect(x: int, y: int, hx: int, hy: int) -> Rect {
    Rect {
        min_x: (x - hx) as i64,
        min_y: (y - hy) as i64,
        max_x: (x + hx) as i64,
        max_y: (y + hy) as i64,
    }
}

/// The circles at `(x1, y1)` and `(x2, y2)` with radii `r1` and `r2` meet:
/// the squared distance between the centers is at most the square of the
/// summed radii (touching counts).
pub open spec fn circle_meets_circle(x1: int, y1: int, r1: int, x2: int, y2: int, r2: int) -> bool {
    sq(x1 - x2) + sq(y1 - y2) <= sq(r1 + r2)
}

/// The rectangle `r` and the circle at `(cx, cy)` with radius `rad` meet:
/// the point of `r` closest to the center is within `rad` of it.
pub open spec fn rect_meets_circle(r: Rect, cx: int, cy: int, rad: int) -> bool {
    let px = clamp(cx, r.min_x as int, r.max_x as int);
    let py = clamp(cy, r.min_y as int, r.max_y as int);
    sq(cx - px) + sq(cy - py) <= sq(rad)
}

/// The rectangle `r` meets the capsule at `(px, py)`: it meets the capsule's
/// inner rectangle or one of its two end-cap circles.
pub open spec fn rect_meets_capsule(r: Rect, px: int, py: int, rad: int, hl: int) -> bool {
    ||| crate::geom::rects_intersect(r, shape_rect(px, py, rad, hl))
    ||| rect_meets_circle(r, px, py + hl, rad)
    ||| rect_meets_circle(r, px, py - hl, rad)
}

/// The circle at `(cx, cy)` meets the capsule at `(px, py)`: it meets the
/// capsule's inner rectangle or one of its two end-cap circles.
pub open spec fn circle_meets_capsule(
    cx: int,
    cy: int,
    cr: int,
    px: int,
    py: int,
    rad: int,
    hl: int,
) -> bool {
    ||| rect_meets_circle(shape_rect(px, py, rad, hl), cx, cy, cr)
    ||| circle_meets_circle(cx, cy, cr, px, py + hl, rad)
    ||| circle_meets_circle(cx, cy, cr, px, py - hl, rad)
}

/// The two capsules meet: their inner rectangles intersect, an end-cap
/// circle of one meets the inner rectangle of the other, or some pair of
/// end-cap circles meet.
pub open spec fn capsule_meets_capsule(
    x1: int,
    y1: int,
    r1: int,
    h1: int,
    x2: int,
    y2: int,
    r2: int,
    h2: int,
) -> bool {
    ||| crate::geom::rects_intersect(shape_rect(x1, y1, r1, h1), shape_rect(x2, y2, r2, h2))
    ||| rect_meets_circle(shape_rect(x2, y2, r2, h2), x1, y1 + h1, r1)
    ||| rect_meets_circle(shape_rect(x2, y2, r2, h2), x1, y1 - h1, r1)
    ||| rect_meets_circle(shape_rect(x1, y1, r1, h1), x2, y2 + h2, r2)
    ||| rect_meets_circle(shape_rect(x1, y1, r1, h1), x2, y2 - h2, r2)
    ||| circle_meets_circle(x1, y1 + h1, r1, x2, y2 + h2, r2)
    ||| circle_meets_circle(x1, y1 + h1, r1, x2, y2 - h2, r2)
    ||| circle_meets_circle(x1, y1 - h1, r1, x2, y2 + h2, r2)
    ||| circle_meets_circle(x1, y1 - h1, r1, x2, y2 - h2, r2)
}

/// A coordinate derived from at most one position and two shape extents;
/// such values stay well inside the range the arithmetic helpers accept.
pub open spec fn coord_ok(v: int) -> bool {
    -2 * (COORD_LIMIT as int) <= v <= 2 * (COORD_LIMIT as int)
}

impl QuadVal {
    /// The shape's extents are non-negative.
    pub open spec fn wf(self) -> bool {
        self.shape.wf()
    }

    /// The axis-aligned bounding box of the value's positioned shape.
    pub open spec fn aabb_sp(self) -> Rect {
        match self.shape {
            Shape::Quad { half_x, half_y } => shape_rect(self.x as int, self.y as int, half_x as int, half_y as int),
            Shape::Circle { radius } => shape_rect(self.x as int, self.y as int, radius as int, radius as int),
            Shape::Capsule { radius, half_length } => shape_rect(
                self.x as int,
                self.y as int,
                radius as int,
                half_length + radius,
            ),
        }
    }

    /// The positioned shapes of the two values meet (touching counts).
    pub open spec fn intersects_sp(self, other: QuadVal) -> bool {
        let ax = self.x as int;
        let ay = self.y as int;
        let bx = other.x as int;
        let by = other.y as int;
        match self.shape {
            Shape::Quad { half_x: ahx, half_y: ahy } => match other.shape {
                Shape::Quad { half_x: bhx, half_y: bhy } => crate::geom::rects_intersect(
                    shape_rect(ax, ay, ahx as int, ahy as int),
                    shape_rect(bx, by, bhx as int, bhy as int),
                ),
                Shape::Circle { radius } => rect_meets_circle(
                    shape_rect(ax, ay, ahx as int, ahy as int),
                    bx,
                    by,
                    radius as int,
                ),
                Shape::Capsule { radius, half_length } => rect_meets_capsule(
                    shape_rect(ax, ay, ahx as int, ahy as int),
                    bx,
                    by,
                    radius as int,
                    half_length as int,
                ),
            },
            Shape::Circle { radius: ar } => match other.shape {
                Shape::Quad { half_x: bhx, half_y: bhy } => rect_meets_circle(
                    shape_rect(bx, by, bhx as int, bhy as int),
                    ax,
                    ay,
                    ar as int,
                ),
                Shape::Circle { radius: br } => circle_meets_circle(
                    ax,
                    ay,
                    ar as int,
                    bx,
                    by,
                    br as int,
                ),
                Shape::Capsule { radius, half_length } => circle_meets_capsule(
                    ax,
                    ay,
                    ar as int,
                    bx,
                    by,
                    radius as int,
                    half_length as int,
                ),
            },
            Shape::Capsule { radius: ar, half_length: ah } => match other.shape {
                Shape::Quad { half_x: bhx, half_y: bhy } => rect_meets_capsule(
                    shape_rect(bx, by, bhx as int, bhy as int),
                    ax,
                    ay,
                    ar as int,
                    ah as int,
                ),
                Shape::Circle { radius: br } => circle_meets_capsule(
                    bx,
                    by,
                    br as int,
                    ax,
                    ay,
                    ar as int,
                    ah as int,
                ),
                Shape::Capsule { radius: br, half_length: bh } => capsule_meets_capsule(
                    ax,
                    ay,
                    ar as int,
                    ah as int,
                    bx,
                    by,
                    br as int,
                    bh as int,
                ),
            },
        }
    }

    /// The value's positioned shape meets the rectangle `region`
    /// (touching counts).
    pub open spec fn intersects_rect_sp(self, region: Rect) -> bool {
        let x = self.x as int;
        let y = self.y as int;
        match self.shape {
            Shape::Quad { half_x, half_y } => crate::geom::rects_intersect(
                region,
                shape_rect(x, y, half_x as int, half_y as int),
            ),
            Shape::Circle { radius } => rect_meets_circle(region, x, y, radius as int),
            Shape::Capsule { radius, half_length } => rect_meets_capsule(
                region,
                x,
                y,
                radius as int,
                half_length as int,
            ),
        }
    }
}

/// A square is never negative.
proof fn lemma_sq_nonneg(a: int)
    ensures
        sq(a) >= 0,
{
    assert(a * a >= 0) by (nonlinear_arith);
}

/// A value whose square is at most the square of a non-negative bound
/// lies within that bound.
proof fn lemma_sq_le(d: int, r: int)
    requires
        sq(d) <= sq(r),
        r >= 0,
    ensures
        -r <= d <= r,
{
    assert(d * d <= r * r && r >= 0 ==> -r <= d <= r) by (nonlinear_arith);
}

/// Squaring ignores sign.
proof fn lemma_sq_neg(a: int)
    ensures
        sq(a) == sq(-a),
{
    assert(a * a == (-a) * (-a)) by (nonlinear_arith);
}

/// A circle meeting an ordered rectangle meets its bounding box: the
/// clamped closest point pins the circle's center within `rad` of the
/// rectangle on both axes.
proof fn lemma_rect_circle_aabb(r: Rect, cx: int, cy: int, rad: int)
    requires
        r.min_x <= r.max_x,
        r.min_y <= r.max_y,
        rad >= 0,
        coord_ok(cx),
        coord_ok(cy),
        coord_ok(rad),
        rect_meets_circle(r, cx, cy, rad),
    ensures
        crate::geom::rects_intersect(r, shape_rect(cx, cy, rad, rad)),
        r.min_x - rad <= cx <= r.max_x + rad,
        r.min_y - rad <= cy <= r.max_y + rad,
{
    let px = clamp(cx, r.min_x as int, r.max_x as int);
    let py = clamp(cy, r.min_y as int, r.max_y as int);
    lemma_sq_nonneg(cx - px);
    lemma_sq_nonneg(cy - py);
    lemma_sq_le(cx - px, rad);
    lemma_sq_le(cy - py, rad);
}

/// Two circles that meet are within the sum of their radii of each other
/// on both axes.
proof fn lemma_circle_circle_aabb(x1: int, y1: int, r1: int, x2: int, y2: int, r2: int)
    requires
        r1 >= 0,
        r2 >= 0,
        circle_meets_circle(x1, y1, r1, x2, y2, r2),
    ensures
        -(r1 + r2) <= x1 - x2 <= r1 + r2,
        -(r1 + r2) <= y1 - y2 <= r1 + r2,
{
    lemma_sq_nonneg(x1 - x2);
    lemma_sq_nonneg(y1 - y2);
    lemma_sq_le(x1 - x2, r1 + r2);
    lemma_sq_le(y1 - y2, r1 + r2);
}

/// A value's shape meeting a non-degenerate rectangle forces the value's
/// bounding box to meet that rectangle (as closed boxes).
pub proof fn lemma_hit_means_aabb_meets(v: QuadVal, region: Rect)
    requires
        v.wf(),
        region.min_x <= region.max_x,
        region.min_y <= region.max_y,
        v.intersects_rect_sp(region),
    ensures
        crate::geom::rects_intersect(v.aabb_sp(), region),
{
    match v.shape {
        Shape::Quad { half_x, half_y } => {},
        Shape::Circle { radius } => {
            lemma_rect_circle_aabb(region, v.x as int, v.y as int, radius as int);
        },
        Shape::Capsule { radius, half_length } => {
            let x = v.x as int;
            let y = v.y as int;
            let rad = radius as int;
            let hl = half_length as int;
            if crate::geom::rects_intersect(region, shape_rect(x, y, rad, hl)) {
            } else if rect_meets_circle(region, x, y + hl, rad) {
                lemma_rect_circle_aabb(region, x, y + hl, rad);
            } else {
                lemma_rect_circle_aabb(region, x, y - hl, rad);
            }
        },
    }
}

/// Two values whose shapes meet have meeting bounding boxes.
pub proof fn lemma_meet_means_aabbs_meet(a: QuadVal, b: QuadVal)
    requires
        a.wf(),
        b.wf(),
        a.intersects_sp(b),
    ensures
        crate::geom::rects_intersect(a.aabb_sp(), b.aabb_sp()),
{
    let ax = a.x as int;
    let ay = a.y as int;
    let bx = b.x as int;
    let by = b.y as int;
    match a.shape {
        Shape::Quad { half_x: ahx, half_y: ahy } => {
            let ar = shape_rect(ax, ay, ahx as int, ahy as int);
            match b.shape {
                Shape::Quad { .. } => {},
                Shape::Circle { radius } => {
                    lemma_rect_circle_aabb(ar, bx, by, radius as int);
                },
                Shape::Capsule { radius, half_length } => {
                    let rad = radius as int;
                    let hl = half_length as int;
                    if crate::geom::rects_intersect(ar, shape_rect(bx, by, rad, hl)) {
                    } else if rect_meets_circle(ar, bx, by + hl, rad) {
                        lemma_rect_circle_aabb(ar, bx, by + hl, rad);
                    } else {
                        lemma_rect_circle_aabb(ar, bx, by - hl, rad);
                    }
                },
            }
        },
        Shape::Circle { radius: arad } => {
            let ar = arad as int;
            match b.shape {
                Shape::Quad { half_x: bhx, half_y: bhy } => {
                    lemma_rect_circle_aabb(shape_rect(bx, by, bhx as int, bhy as int), ax, ay, ar);
                },
                Shape::Circle { radius: brad } => {
                    lemma_circle_circle_aabb(ax, ay, ar, bx, by, brad as int);
                },
                Shape::Capsule { radius, half_length } => {
                    let rad = radius as int;
                    let hl = half_length as int;
                    if rect_meets_circle(shape_rect(bx, by, rad, hl), ax, ay, ar) {
                        lemma_rect_circle_aabb(shape_rect(bx, by, rad, hl), ax, ay, ar);
                    } else if circle_meets_circle(ax, ay, ar, bx, by + hl, rad) {
                        lemma_circle_circle_aabb(ax, ay, ar, bx, by + hl, rad);
                    } else {
                        lemma_circle_circle_aabb(ax, ay, ar, bx, by - hl, rad);
                    }
                },
            }
        },
        Shape::Capsule { radius: arad, half_length: ahl } => {
            let ar = arad as int;
            let ah = ahl as int;
            let inner_a = shape_rect(ax, ay, ar, ah);
            match b.shape {
                Shape::Quad { half_x: bhx, half_y: bhy } => {
                    let br = shape_rect(bx, by, bhx as int, bhy as int);
                    if crate::geom::rects_intersect(br, inner_a) {
                    } else if rect_meets_circle(br, ax, ay + ah, ar) {
                        lemma_rect_circle_aabb(br, ax, ay + ah, ar);
                    } else {
                        lemma_rect_circle_aabb(br, ax, ay - ah, ar);
                    }
                },
                Shape::Circle { radius: brad } => {
                    let br = brad as int;
                    if rect_meets_circle(inner_a, bx, by, br) {
                        lemma_rect_circle_aabb(inner_a, bx, by, br);
                    } else if circle_meets_circle(bx, by, br, ax, ay + ah, ar) {
                        lemma_circle_circle_aabb(bx, by, br, ax, ay + ah, ar);
                    } else {
                        lemma_circle_circle_aabb(bx, by, br, ax, ay - ah, ar);
                    }
                },
                Shape::Capsule { radius: brad, half_length: bhl } => {
                    let br = brad as int;
                    let bh = bhl as int;
                    let inner_b = shape_rect(bx, by, br, bh);
                    if crate::geom::rects_intersect(inner_a, inner_b) {
                    } else if rect_meets_circle(inner_b, ax, ay + ah, ar) {
                        lemma_rect_circle_aabb(inner_b, ax, ay + ah, ar);
                    } else if rect_meets_circle(inner_b, ax, ay - ah, ar) {
                        lemma_rect_circle_aabb(inner_b, ax, ay - ah, ar);
                    } else if rect_meets_circle(inner_a, bx, by + bh, br) {
                        lemma_rect_circle_aabb(inner_a, bx, by + bh, br);
                    } else if rect_meets_circle(inner_a, bx, by - bh, br) {
                        lemma_rect_circle_aabb(inner_a, bx, by - bh, br);
                    } else if circle_meets_circle(ax, ay + ah, ar, bx, by + bh, br) {
                        lemma_circle_circle_aabb(ax, ay + ah, ar, bx, by + bh, br);
                    } else if circle_meets_circle(ax, ay + ah, ar, bx, by - bh, br) {
                        lemma_circle_circle_aabb(ax, ay + ah, ar, bx, by - bh, br);
                    } else if circle_meets_circle(ax, ay - ah, ar, bx, by + bh, br) {
                        lemma_circle_circle_aabb(ax, ay - ah, ar, bx, by + bh, br);
                    } else {
                        lemma_circle_circle_aabb(ax, ay - ah, ar, bx, by - bh, br);
                    }
                },
            }
        },
    }
}

/// Shape intersection is symmetric.
pub proof fn lemma_intersects_symmetric(a: QuadVal, b: QuadVal)
    ensures
        a.intersects_sp(b) == b.intersects_sp(a),
{
    let ax = a.x as int;
    let ay = a.y as int;
    let bx = b.x as int;
    let by = b.y as int;
    match (a.shape, b.shape) {
        (Shape::Circle { radius: ar }, Shape::Circle { radius: br }) => {
            lemma_sq_neg(ax - bx);
            lemma_sq_neg(ay - by);
        },
        (
            Shape::Capsule { radius: ar, half_length: ah },
            Shape::Capsule { radius: br, half_length: bh },
        ) => {
            lemma_sq_neg(ax - bx);
            lemma_sq_neg((ay + ah) - (by + bh));
            lemma_sq_neg((ay + ah) - (by - bh));
            lemma_sq_neg((ay - ah) - (by + bh));
            lemma_sq_neg((ay - ah) - (by - bh));
        },
        _ => {},
    }
}

/// Squares a bounded coordinate without overflow.
fn sq_i64(v: i64) -> (r: i128)
    requires
        -4 * (COORD_LIMIT as int) <= v <= 4 * (COORD_LIMIT as int),
    ensures
        r as int == sq(v as int),
        0 <= r <= 0x100000000000000000000,
{
    proof {
        let vi = v as int;
        assert(0 <= vi * vi <= 0x100000000000000000000) by (nonlinear_arith)
            requires
                -137438953472 <= vi <= 137438953472,
        ;
    }
    (v as i128) * (v as i128)
}

/// Clamps `v` by taking the minimum with `hi` and then the maximum with `lo`.
fn clamp_i64(v: i64, lo: i64, hi: i64) -> (r: i64)
    ensures
        r as int == clamp(v as int, lo as int, hi as int),
{
    let m: i64 = if v < hi {
        v
    } else {
        hi
    };
    if m < lo {
        lo
    } else {
        m
    }
}

/// Builds the rectangle centered at `(x, y)` with half-extents `(hx, hy)`.
fn make_rect(x: i64, y: i64, hx: i64, hy: i64) -> (r: Rect)
    requires
        coord_ok(x as int),
        coord_ok(y as int),
        coord_ok(hx as int),
        coord_ok(hy as int),
    ensures
        r == shape_rect(x as int, y as int, hx as int, hy as int),
{
    Rect { min_x: x - hx, min_y: y - hy, max_x: x + hx, max_y: y + hy }
}

/// Decides [`circle_meets_circle`] on bounded coordinates.
fn circle_circle(x1: i64, y1: i64, r1: i64, x2: i64, y2: i64, r2: i64) -> (b: bool)
    requires
        coord_ok(x1 as int),
        coord_ok(y1 as int),
        coord_ok(r1 as int),
        coord_ok(x2 as int),
        coord_ok(y2 as int),
        coord_ok(r2 as int),
    ensures
        b == circle_meets_circle(x1 as int, y1 as int, r1 as int, x2 as int, y2 as int, r2 as int),
{
    let dx: i64 = x1 - x2;
    let dy: i64 = y1 - y2;
    let rs: i64 = r1 + r2;
    sq_i64(dx) + sq_i64(dy) <= sq_i64(rs)
}

/// Decides [`rect_meets_circle`] on a bounded rectangle and circle.
fn rect_circle(r: &Rect, cx: i64, cy: i64, rad: i64) -> (b: bool)
    requires
        r.bounded(),
        coord_ok(cx as int),
        coord_ok(cy as int),
        coord_ok(rad as int),
    ensures
        b == rect_meets_circle(*r, cx as int, cy as int, rad as int),
{
    let px: i64 = clamp_i64(cx, r.min_x, r.max_x);
    let py: i64 = clamp_i64(cy, r.min_y, r.max_y);
    let dx: i64 = cx - px;
    let dy: i64 = cy - py;
    sq_i64(dx) + sq_i64(dy) <= sq_i64(rad)
}

/// Decides whether two rectangles meet as closed boxes: touching counts.
pub fn rects_intersect(rect: &Rect, other: &Rect) -> (b: bool)
    ensures
        b == crate::geom::rects_intersect(*rect, *other),
{
    // check on the x-axis
    (rect.min_x <= other.max_x && other.min_x <= rect.max_x)
    // check on the y-axis
        && (rect.min_y <= other.max_y && other.min_y <= rect.max_y)
}

/// Decides whether the rectangles centered at `(x1, y1)` and `(x2, y2)` with
/// the given half-extents meet (touching counts).
pub fn rectangles_intersect(
    x1: i32,
    y1: i32,
    hx1: i32,
    hy1: i32,
    x2: i32,
    y2: i32,
    hx2: i32,
    hy2: i32,
) -> (b: bool)
    ensures
        b == crate::geom::rects_intersect(
            shape_rect(x1 as int, y1 as int, hx1 as int, hy1 as int),
            shape_rect(x2 as int, y2 as int, hx2 as int, hy2 as int),
        ),
{
    let r1 = make_rect(x1 as i64, y1 as i64, hx1 as i64, hy1 as i64);
    let r2 = make_rect(x2 as i64, y2 as i64, hx2 as i64, hy2 as i64);
    rects_intersect(&r1, &r2)
}

/// Decides whether two circles meet (touching counts).
pub fn circles_intersect(x1: i32, y1: i32, r1: i32, x2: i32, y2: i32, r2: i32) -> (b: bool)
    ensures
        b == circle_meets_circle(x1 as int, y1 as int, r1 as int, x2 as int, y2 as int, r2 as int),
{
    circle_circle(x1 as i64, y1 as i64, r1 as i64, x2 as i64, y2 as i64, r2 as i64)
}

/// Decides whether the rectangle centered at `(rx, ry)` with half-extents
/// `(hx, hy)` meets the circle at `(cx, cy)` (touching counts).
pub fn rectangle_circle_intersect(
    rx: i32,
    ry: i32,
    hx: i32,
    hy: i32,
    cx: i32,
    cy: i32,
    rad: i32,
) -> (b: bool)
    ensures
        b == rect_meets_circle(
            shape_rect(rx as int, ry as int, hx as int, hy as int),
            cx as int,
            cy as int,
            rad as int,
        ),
{
    let r = make_rect(rx as i64, ry as i64, hx as i64, hy as i64);
    rect_circle(&r, cx as i64, cy as i64, rad as i64)
}

/// Decides whether the rectangle centered at `(rx, ry)` with half-extents
/// `(hx, hy)` meets the capsule at `(px, py)` (touching counts).
pub fn rectangle_capsule_intersect(
    rx: i32,
    ry: i32,
    hx: i32,
    hy: i32,
    px: i32,
    py: i32,
    rad: i32,
    hl: i32,
) -> (b: bool)
    ensures
        b == rect_meets_capsule(
            shape_rect(rx as int, ry as int, hx as int, hy as int),
            px as int,
            py as int,
            rad as int,
            hl as int,
        ),
{
    let r = make_rect(rx as i64, ry as i64, hx as i64, hy as i64);
    let inner = make_rect(px as i64, py as i64, rad as i64, hl as i64);
    rects_intersect(&r, &inner) || rect_circle(&r, px as i64, py as i64 + hl as i64, rad as i64)
        || rect_circle(&r, px as i64, py as i64 - hl as i64, rad as i64)
}

/// Decides whether the circle at `(cx, cy)` meets the capsule at `(px, py)`
/// (touching counts).
pub fn circle_capsule_intersect(
    cx: i32,
    cy: i32,
    cr: i32,
    px: i32,
    py: i32,
    rad: i32,
    hl: i32,
) -> (b: bool)
    ensures
        b == circle_meets_capsule(
            cx as int,
            cy as int,
            cr as int,
            px as int,
            py as int,
            rad as int,
            hl as int,
        ),
{
    let inner = make_rect(px as i64, py as i64, rad as i64, hl as i64);
    rect_circle(&inner, cx as i64, cy as i64, cr as i64) || circle_circle(
        cx as i64,
        cy as i64,
        cr as i64,
        px as i64,
        py as i64 + hl as i64,
        rad as i64,
    ) || circle_circle(
        cx as i64,
        cy as i64,
        cr as i64,
        px as i64,
        py as i64 - hl as i64,
        rad as i64,
    )
}

/// Decides whether two capsules meet (touching counts).
pub fn capsules_intersect(
    x1: i32,
    y1: i32,
    r1: i32,
    h1: i32,
    x2: i32,
    y2: i32,
    r2: i32,
    h2: i32,
) -> (b: bool)
    ensures
        b == capsule_meets_capsule(
            x1 as int,
            y1 as int,
            r1 as int,
            h1 as int,
            x2 as int,
            y2 as int,
            r2 as int,
            h2 as int,
        ),
{
    let inner1 = make_rect(x1 as i64, y1 as i64, r1 as i64, h1 as i64);
    let inner2 = make_rect(x2 as i64, y2 as i64, r2 as i64, h2 as i64);
    if rects_intersect(&inner1, &inner2) {
        return true;
    }
    let top1: i64 = y1 as i64 + h1 as i64;
    let bot1: i64 = y1 as i64 - h1 as i64;
    let top2: i64 = y2 as i64 + h2 as i64;
    let bot2: i64 = y2 as i64 - h2 as i64;
    rect_circle(&inner2, x1 as i64, top1, r1 as i64) || rect_circle(&inner2, x1 as i64, bot1, r1 as i64)
        || rect_circle(&inner1, x2 as i64, top2, r2 as i64)
        || rect_circle(&inner1, x2 as i64, bot2, r2 as i64)
        || circle_circle(x1 as i64, top1, r1 as i64, x2 as i64, top2, r2 as i64)
        || circle_circle(x1 as i64, top1, r1 as i64, x2 as i64, bot2, r2 as i64)
        || circle_circle(x1 as i64, bot1, r1 as i64, x2 as i64, top2, r2 as i64)
        || circle_circle(x1 as i64, bot1, r1 as i64, x2 as i64, bot2, r2 as i64)
}

/// Squared Euclidean distance from the point `(px, py)` to the center of
/// `v`. Comparing squared distances orders values exactly as comparing
/// distances does.
pub open spec fn center_dist_sq(px: int, py: int, v: QuadVal) -> int {
    sq(px - v.x) + sq(py - v.y)
}

/// Computes the squared distance from `(px, py)` to the center of `v`.
pub fn dist_to_center(px: i32, py: i32, v: &QuadVal) -> (d: i128)
    ensures
        d as int == center_dist_sq(px as int, py as int, *v),
{
    let dx: i64 = px as i64 - v.x as i64;
    let dy: i64 = py as i64 - v.y as i64;
    sq_i64(dx) + sq_i64(dy)
}

impl QuadVal {
    /// Builds a value from its identity, position and bounding shape.
    pub fn new(id: u64, x: i32, y: i32, shape: Shape) -> (v: Self)
        ensures
            v == (QuadVal { id, x, y, shape }),
    {
        QuadVal { id, x, y, shape }
    }

    /// Computes the axis-aligned bounding box of the value's positioned
    /// shape.
    pub fn aabb(&self) -> (r: Rect)
        ensures
            r == self.aabb_sp(),
    {
        match self.shape {
            Shape::Quad { half_x, half_y } => make_rect(
                self.x as i64,
                self.y as i64,
                half_x as i64,
                half_y as i64,
            ),
            Shape::Circle { radius } => make_rect(
                self.x as i64,
                self.y as i64,
                radius as i64,
                radius as i64,
            ),
            Shape::Capsule { radius, half_length } => make_rect(
                self.x as i64,
                self.y as i64,
                radius as i64,
                half_length as i64 + radius as i64,
            ),
        }
    }

    /// The center of the value's shape: its position.
    pub fn center(&self) -> (c: (i32, i32))
        ensures
            c.0 == self.x,
            c.1 == self.y,
    {
        (self.x, self.y)
    }

    /// Checks whether the value's bounding box lies entirely inside
    /// `bounds` (shared edges allowed).
    pub fn is_contained_by(&self, bounds: &Rect) -> (b: bool)
        ensures
            b == rect_contains_rect(*bounds, self.aabb_sp()),
    {
        let ab = self.aabb();
        bounds.min_x <= ab.min_x && ab.max_x <= bounds.max_x && bounds.min_y <= ab.min_y
            && ab.max_y <= bounds.max_y
    }

    /// Decides whether the positioned shapes of the two values meet
    /// (touching counts).
    pub fn intersects(&self, other: &QuadVal) -> (b: bool)
        ensures
            b == self.intersects_sp(*other),
    {
        match self.shape {
            Shape::Quad { half_x: ahx, half_y: ahy } => match other.shape {
                Shape::Quad { half_x: bhx, half_y: bhy } => rectangles_intersect(
                    self.x,
                    self.y,
                    ahx,
                    ahy,
                    other.x,
                    other.y,
                    bhx,
                    bhy,
                ),
                Shape::Circle { radius } => rectangle_circle_intersect(
                    self.x,
                    self.y,
                    ahx,
                    ahy,
                    other.x,
                    other.y,
                    radius,
                ),
                Shape::Capsule { radius, half_length } => rectangle_capsule_intersect(
                    self.x,
                    self.y,
                    ahx,
                    ahy,
                    other.x,
                    other.y,
                    radius,
                    half_length,
                ),
            },
            Shape::Circle { radius: ar } => match other.shape {
                Shape::Quad { half_x: bhx, half_y: bhy } => rectangle_circle_intersect(
                    other.x,
                    other.y,
                    bhx,
                    bhy,
                    self.x,
                    self.y,
                    ar,
                ),
                Shape::Circle { radius: br } => circles_intersect(
                    self.x,
                    self.y,
                    ar,
                    other.x,
                    other.y,
                    br,
                ),
                Shape::Capsule { radius, half_length } => circle_capsule_intersect(
                    self.x,
                    self.y,
                    ar,
                    other.x,
                    other.y,
                    radius,
                    half_length,
                ),
            },
            Shape::Capsule { radius: ar, half_length: ah } => match other.shape {
                Shape::Quad { half_x: bhx, half_y: bhy } => rectangle_capsule_intersect(
                    other.x,
                    other.y,
                    bhx,
                    bhy,
                    self.x,
                    self.y,
                    ar,
                    ah,
                ),
                Shape::Circle { radius: br } => circle_capsule_intersect(
                    other.x,
                    other.y,
                    br,
                    self.x,
                    self.y,
                    ar,
                    ah,
                ),
                Shape::Capsule { radius: br, half_length: bh } => capsules_intersect(
                    self.x,
                    self.y,
                    ar,
                    ah,
                    other.x,
                    other.y,
                    br,
                    bh,
                ),
            },
        }
    }

    /// Decides whether the value's positioned shape meets the rectangle
    /// `region` (touching counts).
    pub fn intersects_rect(&self, region: &Rect) -> (b: bool)
        requires
            region.bounded(),
        ensures
            b == self.intersects_rect_sp(*region),
    {
        match self.shape {
            Shape::Quad { half_x, half_y } => {
                let r = make_rect(self.x as i64, self.y as i64, half_x as i64, half_y as i64);
                rects_intersect(region, &r)
            },
            Shape::Circle { radius } => rect_circle(
                region,
                self.x as i64,
                self.y as i64,
                radius as i64,
            ),
            Shape::Capsule { radius, half_length } => {
                let inner = make_rect(self.x as i64, self.y as i64, radius as i64, half_length as i64);
                rects_intersect(region, &inner) || rect_circle(
                    region,
                    self.x as i64,
                    self.y as i64 + half_length as i64,
                    radius as i64,
                ) || rect_circle(
                    region,
                    self.x as i64,
                    self.y as i64 - half_length as i64,
                    radius as i64,
                )
            },
        }
    }
}

} // verus!
