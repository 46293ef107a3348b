use vstd::prelude::*;

verus! {

/// An integer point in screen space (pixels).
#[derive(Clone, Copy, Debug, PartialEq, Eq, Structural)]
pub struct Point {
    pub x: i32,
    pub y: i32,
}

impl Point {
    pub fn new(x: i32, y: i32) -> (p: Point)
        ensures
            p.x == x,
            p.y == y,
    {
        Point { x, y }
    }
}

/// The smaller of two integers.
pub open spec fn min_int(a: int, b: int) -> int {
    if a <= b {
        a
    } else {
        b
    }
}

/// The larger of two integers.
pub open spec fn max_int(a: int, b: int) -> int {
    if a >= b {
        a
    } else {
        b
    }
}

pub fn min_i32(a: i32, b: i32) -> (r: i32)
    ensures
        r == min_int(a as int, b as int),
{
    if a <= b {
        a
    } else {
        b
    }
}

pub fn max_i32(a: i32, b: i32) -> (r: i32)
    ensures
        r == max_int(a as int, b as int),
{
    if a >= b {
        a
    } else {
        b
    }
}

/// A triangle in screen space: integer vertex positions with a depth and a
/// payload per vertex, interpolated by the caller.
#[derive(Clone, Copy, Debug)]
pub struct Triangle<D, T> {
    pub position: [Point; 3],
    pub depth: [D; 3],
    pub data: [T; 3],
}

#[verifier::external_type_specification]
#[verifier::external_body]
pub struct ExVec3(glam::Vec3);

/// Specifies `Clone::clone` of glam's `Vec3`, which derives `Clone` and `Copy`:
/// the clone is the value itself.
pub assume_specification[ <glam::Vec3 as Clone>::clone ](v: &glam::Vec3) -> (r: glam::Vec3)
    ensures
        r == *v,
;

/// A mesh vertex: a position in model space and a payload that is
/// interpolated across triangles.
#[derive(Clone, Copy, Debug)]
pub struct Vertex<T> {
    pub position: glam::Vec3,
    pub data: T,
}

impl<T> Vertex<T> {
    pub fn new(position: glam::Vec3, data: T) -> (v: Vertex<T>)
        ensures
            v.position == position,
            v.data == data,
    {
        Vertex { position, data }
    }
}

/// Identifies the triangle drawn at a pixel: the draw call and the
/// triangle's index within it.
#[derive(Clone, Copy, Debug, PartialEq, Eq, Hash, Structural)]
pub struct DrawTri {
    pub draw_id: u32,
    pub tri_id: u32,
}

impl DrawTri {
    /// Draw call 0, triangle 0.
    pub open spec fn spec_default() -> DrawTri {
        DrawTri { draw_id: 0, tri_id: 0 }
    }
}

impl Default for DrawTri {
    fn default() -> (d: DrawTri)
        ensures
            d == DrawTri::spec_default(),
    {
        DrawTri { draw_id: 0, tri_id: 0 }
    }
}

} // verus!
