//! The geometry model and the intersection test.

use vstd::prelude::*;

verus! {

/// A point of the world plane.
#[derive(Clone, Copy, Debug, PartialEq, Eq, Structural)]
pub struct WorldPoint {
    pub x: i64,
    pub y: i64,
}

/// Where an entity stands in the world. Only `x` and `y` take part in the
/// intersection test; `z` is handed on as the depth of a hit.
#[derive(Clone, Copy, Debug, PartialEq, Eq, Structural)]
pub struct WorldTransform {
    pub x: i64,
    pub y: i64,
    pub z: i64,
}

/// The volume against which a pointer is tested.
#[derive(Clone, Copy, Debug, PartialEq, Eq, Structural)]
pub enum PrimitiveShape {
    /// A disc around the transform's position.
    Circle { radius: i64 },
}

/// An entity that can be picked.
///
/// `pickable` records whether the entity carries the picking marker. It is
/// data only: an entity without the marker is tested like any other, and a
/// host that wants opt-in picking filters before it calls the library.
#[derive(Clone, Copy, Debug, PartialEq, Eq, Structural)]
pub struct Primitive {
    pub entity: u64,
    pub transform: WorldTransform,
    pub shape: PrimitiveShape,
    pub pickable: bool,
}

/// The square of the Euclidean distance between `p` and the position of `t`
/// in the plane.
pub open spec fn distance_sq(p: WorldPoint, t: WorldTransform) -> int {
    (p.x - t.x) * (p.x - t.x) + (p.y - t.y) * (p.y - t.y)
}

/// Whether `p` lies strictly inside the primitive.
///
/// For a circle of radius `r` this is `|p - c| < r`, written over squares:
/// a distance is never negative, so it is below `r` exactly when `r` is
/// positive and the squared distance is below `r * r`. A point on the
/// boundary is outside.
pub open spec fn within(p: WorldPoint, prim: Primitive) -> bool {
    match prim.shape {
        PrimitiveShape::Circle { radius } => {
            radius > 0 && distance_sq(p, prim.transform) < radius * radius
        },
    }
}

/// The distance between two coordinates.
fn span(a: i64, b: i64) -> (d: u64)
    ensures
        d == if a >= b { a - b } else { b - a },
{
    if a >= b {
        let wide: i128 = a as i128 - b as i128;
        wide as u64
    } else {
        let wide: i128 = b as i128 - a as i128;
        wide as u64
    }
}

proof fn square_of_span(a: int, b: int, d: int)
    requires
        d == if a >= b { a - b } else { b - a },
    ensures
        d * d == (a - b) * (a - b),
{
    assert(d * d == (a - b) * (a - b)) by (nonlinear_arith)
        requires
            d == a - b || d == -(a - b),
    ;
}

proof fn square_is_monotone(a: int, b: int)
    requires
        0 <= a <= b,
    ensures
        a * a <= b * b,
{
    assert(a * a <= b * b) by (nonlinear_arith)
        requires
            0 <= a <= b,
    ;
}

/// Tests one primitive against a world point.
///
/// Returns the squared distance from the point to the primitive's centre
/// when the point lies strictly inside it, and `None` otherwise.
pub fn hit_distance(point: WorldPoint, prim: &Primitive) -> (r: Option<u128>)
    ensures
        r.is_some() == within(point, *prim),
        r.is_some() ==> r.unwrap() == distance_sq(point, prim.transform),
{
    match prim.shape {
        PrimitiveShape::Circle { radius } => {
            if radius <= 0 {
                return None;
            }
            let reach: u64 = radius as u64;
            let dx: u64 = span(point.x, prim.transform.x);
            let dy: u64 = span(point.y, prim.transform.y);
            proof {
                square_of_span(point.x as int, prim.transform.x as int, dx as int);
                square_of_span(point.y as int, prim.transform.y as int, dy as int);
                square_is_monotone(0, dx as int);
                square_is_monotone(0, dy as int);
            }
            if dx >= reach || dy >= reach {
                proof {
                    if dx >= reach {
                        square_is_monotone(reach as int, dx as int);
                    } else {
                        square_is_monotone(reach as int, dy as int);
                    }
                }
                return None;
            }
            proof {
                square_is_monotone(dx as int, reach as int);
                square_is_monotone(dy as int, reach as int);
                square_is_monotone(reach as int, 0x7fff_ffff_ffff_ffff);
            }
            let limit: u128 = (reach as u128) * (reach as u128);
            let d: u128 = (dx as u128) * (dx as u128) + (dy as u128) * (dy as u128);
            if d < limit {
                Some(d)
            } else {
                None
            }
        },
    }
}

/// The squared distance to a primitive that contains the point is not
/// negative and fits the type in which distances are ranked.
pub proof fn distance_within_fits(p: WorldPoint, prim: Primitive)
    requires
        within(p, prim),
    ensures
        0 <= distance_sq(p, prim.transform) <= u128::MAX,
{
    let dx = p.x - prim.transform.x;
    let dy = p.y - prim.transform.y;
    assert(dx * dx >= 0 && dy * dy >= 0) by (nonlinear_arith);
    match prim.shape {
        PrimitiveShape::Circle { radius } => {
            square_is_monotone(radius as int, 0x7fff_ffff_ffff_ffff);
        },
    }
}

/// A point is inside a circle exactly when its squared distance from the
/// centre is below the square of a positive radius; in particular a point at
/// distance exactly `radius` is outside.
pub proof fn circle_hit_is_strict(p: WorldPoint, prim: Primitive, radius: i64)
    requires
        prim.shape == (PrimitiveShape::Circle { radius }),
    ensures
        within(p, prim) <==> (radius > 0 && distance_sq(p, prim.transform) < radius * radius),
        distance_sq(p, prim.transform) == radius * radius ==> !within(p, prim),
        distance_sq(p, prim.transform) >= 0,
{
    let dx = p.x - prim.transform.x;
    let dy = p.y - prim.transform.y;
    assert(dx * dx >= 0 && dy * dy >= 0) by (nonlinear_arith);
}

} // verus!
