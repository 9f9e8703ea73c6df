//! Decisions that the geometric primitives share: which root of an
//! intersection equation counts, how a path through a medium is clipped to
//! the query interval, and which rectangles make up a box.
//!
//! Distances are distance keys; coordinates are carried as they come and
//! never computed with.

use crate::distance::{is_finite, lemma_not_finite_outside, spec_distance_key};
use vstd::prelude::*;

verus! {

/// `t` lies strictly between `t_min` and `t_max`.
pub open spec fn inside(t: u64, t_min: u64, t_max: u64) -> bool {
    t_min < t < t_max
}

/// The root that an intersection with two roots reports: the near one if
/// it lies strictly inside the interval, else the far one if that does.
pub open spec fn spec_nearest_root(near: u64, far: u64, t_min: u64, t_max: u64) -> Option<u64> {
    if inside(near, t_min, t_max) {
        Some(near)
    } else if inside(far, t_min, t_max) {
        Some(far)
    } else {
        None
    }
}

/// Picks the root to report from the two roots of an intersection
/// equation, the near one first.
pub fn nearest_root(near: u64, far: u64, t_min: u64, t_max: u64) -> (root: Option<u64>)
    ensures
        root == spec_nearest_root(near, far, t_min, t_max),
{
    if near < t_max && near > t_min {
        Some(near)
    } else if far < t_max && far > t_min {
        Some(far)
    } else {
        None
    }
}

/// With the roots in order, the reported root is the least root strictly
/// inside the interval, and none is reported exactly when neither is inside.
pub proof fn lemma_nearest_root_minimal(near: u64, far: u64, t_min: u64, t_max: u64)
    requires
        near <= far,
    ensures
        spec_nearest_root(near, far, t_min, t_max).is_none() <==> !inside(near, t_min, t_max)
            && !inside(far, t_min, t_max),
        spec_nearest_root(near, far, t_min, t_max) matches Some(t) ==> {
            &&& inside(t, t_min, t_max)
            &&& t == near || t == far
            &&& inside(near, t_min, t_max) ==> t <= near
            &&& inside(far, t_min, t_max) ==> t <= far
        },
{
}

/// The stretch of a ray inside a boundary, clipped to the query interval:
/// the entry is raised to `t_min`, the exit lowered to `t_max`; a stretch
/// that this turns around is empty; what is left starts no earlier than
/// the ray itself, at `origin`.
pub open spec fn spec_clip_segment(entry: u64, exit: u64, t_min: u64, t_max: u64, origin: u64)
    -> Option<(u64, u64)> {
    let lo = if entry < t_min {
        t_min
    } else {
        entry
    };
    let hi = if exit > t_max {
        t_max
    } else {
        exit
    };
    if lo > hi {
        None
    } else if lo < origin {
        Some((origin, hi))
    } else {
        Some((lo, hi))
    }
}

/// Clips the stretch between two boundary crossings to the query interval
/// and to the start of the ray.
pub fn clip_segment(entry: u64, exit: u64, t_min: u64, t_max: u64, origin: u64) -> (seg: Option<
    (u64, u64),
>)
    ensures
        seg == spec_clip_segment(entry, exit, t_min, t_max, origin),
{
    let mut lo = entry;
    let mut hi = exit;
    if lo < t_min {
        lo = t_min;
    }
    if hi > t_max {
        hi = t_max;
    }
    if lo > hi {
        return None;
    }
    if lo < origin {
        lo = origin;
    }
    Some((lo, hi))
}

/// A clipped stretch lies inside the query interval wherever the crossings
/// did, and is empty exactly when the crossings miss the interval.
pub proof fn lemma_clip_segment(entry: u64, exit: u64, t_min: u64, t_max: u64, origin: u64)
    requires
        entry <= exit,
        t_min <= t_max,
    ensures
        spec_clip_segment(entry, exit, t_min, t_max, origin).is_none() <==> (exit < t_min || entry
            > t_max),
        spec_clip_segment(entry, exit, t_min, t_max, origin) matches Some(seg) ==> {
            &&& seg.1 <= t_max
            &&& seg.1 <= exit
            &&& seg.0 >= entry
            &&& seg.0 >= t_min || seg.0 == origin
            &&& origin <= seg.1 ==> seg.0 <= seg.1
        },
{
}

/// `x` lies in the closed range from `lo` to `hi`.
pub open spec fn within(x: u64, lo: u64, hi: u64) -> bool {
    lo <= x <= hi
}

/// Whether a rectangle takes a crossing of its plane for a hit: the
/// crossing lies in the closed query interval, and the point of crossing
/// lies between the bounds along both axes of the plane.
pub open spec fn spec_rect_accepts(
    t: u64,
    t_min: u64,
    t_max: u64,
    a: u64,
    a0: u64,
    a1: u64,
    b: u64,
    b0: u64,
    b1: u64,
) -> bool {
    within(t, t_min, t_max) && within(a, a0, a1) && within(b, b0, b1)
}

/// Decides whether the crossing at `t`, at the point `(a, b)` of the
/// plane, is a hit of the rectangle between `(a0, b0)` and `(a1, b1)`.
pub fn rect_accepts(
    t: u64,
    t_min: u64,
    t_max: u64,
    a: u64,
    a0: u64,
    a1: u64,
    b: u64,
    b0: u64,
    b1: u64,
) -> (hit: bool)
    ensures
        hit == spec_rect_accepts(t, t_min, t_max, a, a0, a1, b, b0, b1),
{
    if t < t_min || t > t_max {
        return false;
    }
    if a < a0 || a > a1 || b < b0 || b > b1 {
        return false;
    }
    true
}

/// A crossing whose point is not finite along an axis of the plane is no
/// hit of a rectangle with finite bounds. This is what keeps a ray that
/// runs along the plane, whose crossing lies nowhere, from registering.
pub proof fn lemma_rect_rejects_not_finite(
    t: u64,
    t_min: u64,
    t_max: u64,
    a: u64,
    a0: u64,
    a1: u64,
    b: u64,
    b0: u64,
    b1: u64,
)
    requires
        is_finite(a0) && is_finite(a1) && is_finite(b0) && is_finite(b1),
        !is_finite(a) || !is_finite(b),
    ensures
        !spec_rect_accepts(
            spec_distance_key(t),
            spec_distance_key(t_min),
            spec_distance_key(t_max),
            spec_distance_key(a),
            spec_distance_key(a0),
            spec_distance_key(a1),
            spec_distance_key(b),
            spec_distance_key(b0),
            spec_distance_key(b1),
        ),
{
    if !is_finite(a) {
        lemma_not_finite_outside(a, a0, a1);
    } else {
        lemma_not_finite_outside(b, b0, b1);
    }
}

/// The plane that an axis-aligned rectangle lies in, named by the two axes
/// that span it.
#[derive(Clone, Copy, Debug, PartialEq, Eq)]
pub enum Plane {
    /// Spanned by the first and second axis; fixed on the third.
    Xy,
    /// Spanned by the first and third axis; fixed on the second.
    Xz,
    /// Spanned by the second and third axis; fixed on the first.
    Yz,
}

/// An axis-aligned rectangle: its plane, its extent along the two axes of
/// the plane in the order of the plane's name, and its place on the third.
#[derive(Debug, PartialEq)]
pub struct RectBounds<S> {
    pub plane: Plane,
    pub a0: S,
    pub a1: S,
    pub b0: S,
    pub b1: S,
    pub k: S,
}

/// The coordinate of a point along the axis that `plane` is fixed on.
pub open spec fn fixed_coord<S>(plane: Plane, p: (S, S, S)) -> S {
    match plane {
        Plane::Xy => p.2,
        Plane::Xz => p.1,
        Plane::Yz => p.0,
    }
}

/// The coordinates of a point along the two axes that span `plane`.
pub open spec fn span_coords<S>(plane: Plane, p: (S, S, S)) -> (S, S) {
    match plane {
        Plane::Xy => (p.0, p.1),
        Plane::Xz => (p.0, p.2),
        Plane::Yz => (p.1, p.2),
    }
}

/// The side of the box between the corners `low` and `high` that lies in
/// `plane` and passes through the point `through`: it spans the box from
/// the one corner to the other along both axes of the plane.
pub open spec fn box_side<S>(plane: Plane, low: (S, S, S), high: (S, S, S), through: (S, S, S))
    -> RectBounds<S> {
    RectBounds {
        plane,
        a0: span_coords(plane, low).0,
        a1: span_coords(plane, high).0,
        b0: span_coords(plane, low).1,
        b1: span_coords(plane, high).1,
        k: fixed_coord(plane, through),
    }
}

/// The six sides of the box with opposite corners `low` and `high`: for
/// each plane the side through `high`, then the side through `low`.
pub open spec fn spec_box_sides<S>(low: (S, S, S), high: (S, S, S)) -> Seq<RectBounds<S>> {
    seq![
        box_side(Plane::Xy, low, high, high),
        box_side(Plane::Xy, low, high, low),
        box_side(Plane::Xz, low, high, high),
        box_side(Plane::Xz, low, high, low),
        box_side(Plane::Yz, low, high, high),
        box_side(Plane::Yz, low, high, low),
    ]
}

/// Assembles the six sides of the box with opposite corners `low` and `high`.
pub fn box_sides<S: Copy>(low: (S, S, S), high: (S, S, S)) -> (sides: Vec<RectBounds<S>>)
    ensures
        sides@ == spec_box_sides(low, high),
{
    let mut sides: Vec<RectBounds<S>> = Vec::new();
    sides.push(RectBounds { plane: Plane::Xy, a0: low.0, a1: high.0, b0: low.1, b1: high.1, k: high.2 });
    sides.push(RectBounds { plane: Plane::Xy, a0: low.0, a1: high.0, b0: low.1, b1: high.1, k: low.2 });
    sides.push(RectBounds { plane: Plane::Xz, a0: low.0, a1: high.0, b0: low.2, b1: high.2, k: high.1 });
    sides.push(RectBounds { plane: Plane::Xz, a0: low.0, a1: high.0, b0: low.2, b1: high.2, k: low.1 });
    sides.push(RectBounds { plane: Plane::Yz, a0: low.1, a1: high.1, b0: low.2, b1: high.2, k: high.0 });
    sides.push(RectBounds { plane: Plane::Yz, a0: low.1, a1: high.1, b0: low.2, b1: high.2, k: low.0 });
    assert(sides@ =~= spec_box_sides(low, high));
    sides
}

} // verus!
