//! The generated meshes which lights and lines are drawn with.
//!
//! A light's mesh is a list of corner points, three little-endian 16-bit
//! coordinates each, in the unit the cache keys are counted in. A line's mesh
//! is its two ends: three little-endian 32-bit coordinates and four colour
//! bytes each.

use vstd::prelude::*;
use crate::command::LineVertex;

verus! {

/// The number of bytes of a line's mesh.
pub const LINE_STRIDE: usize = 32;

/// The number of bytes of a rectangular light's mesh.
pub const RECT_LIGHT_STRIDE: usize = 48;

/// The number of bytes of a spotlight's mesh.
pub const SPOTLIGHT_STRIDE: usize = 54;

/// The number of bytes of the point light's mesh.
pub const POINT_LIGHT_LEN: usize = 72;

/// The short coordinate of the icosahedron the point light is drawn with.
pub const ICO_SHORT: i16 = 8613;

/// The long coordinate of the icosahedron the point light is drawn with.
pub const ICO_LONG: i16 = 13938;

/// The two bytes of `v`, low byte first, negative values in two's complement.
pub open spec fn le16(v: int) -> Seq<u8> {
    let u = if v < 0 {
        v + 0x1_0000
    } else {
        v
    };
    seq![(u % 256) as u8, (u / 256) as u8]
}

/// The four bytes of `v`, low byte first, negative values in two's complement.
pub open spec fn le32(v: int) -> Seq<u8> {
    let u = if v < 0 {
        v + 0x1_0000_0000
    } else {
        v
    };
    seq![
        (u % 256) as u8,
        ((u / 256) % 256) as u8,
        ((u / 0x1_0000) % 256) as u8,
        (u / 0x100_0000) as u8,
    ]
}

/// The six bytes of a corner point.
pub open spec fn corner(x: int, y: int, z: int) -> Seq<u8> {
    le16(x) + le16(y) + le16(z)
}

/// The sixteen bytes of one end of a line.
pub open spec fn line_end(v: LineVertex) -> Seq<u8> {
    le32(v.pos.x as int) + le32(v.pos.y as int) + le32(v.pos.z as int) + seq![
        v.color.r,
        v.color.g,
        v.color.b,
        v.color.a,
    ]
}

/// The mesh of a line: its two ends.
pub open spec fn line_mesh(from: LineVertex, to: LineVertex) -> Seq<u8> {
    line_end(from) + line_end(to)
}

/// The mesh of a rectangular light: the four corners of the lit rectangle,
/// then the four corners of its footprint, which lies `range` below and
/// reaches `radius` further on every side.
pub open spec fn rect_light_mesh(dx: int, dy: int, range: int, radius: int) -> Seq<u8> {
    corner(0, 0, 0) + corner(dx, 0, 0) + corner(dx, 0, dy) + corner(0, 0, dy) + corner(
        -radius,
        -range,
        -radius,
    ) + corner(dx + radius, -range, -radius) + corner(dx + radius, -range, dy + radius) + corner(
        -radius,
        -range,
        dy + radius,
    )
}

/// The mesh of a spotlight: the apex, then the eight corners of the octagon
/// of the given radius which lies `range` below it.
pub open spec fn spotlight_mesh(radius: int, range: int) -> Seq<u8> {
    let a = radius;
    let b = radius * 45 / 64;
    corner(0, 0, 0) + corner(a, -range, 0) + corner(b, -range, b) + corner(0, -range, a) + corner(
        -b,
        -range,
        b,
    ) + corner(-a, -range, 0) + corner(-b, -range, -b) + corner(0, -range, -a) + corner(
        b,
        -range,
        -b,
    )
}

/// The mesh of the point light: the twelve corners of an icosahedron.
pub open spec fn point_light_mesh() -> Seq<u8> {
    let a = ICO_SHORT as int;
    let b = ICO_LONG as int;
    corner(0, a, b) + corner(0, a, -b) + corner(0, -a, b) + corner(0, -a, -b) + corner(a, b, 0)
        + corner(a, -b, 0) + corner(-a, b, 0) + corner(-a, -b, 0) + corner(b, 0, a) + corner(
        -b,
        0,
        a,
    ) + corner(b, 0, -a) + corner(-b, 0, -a)
}

/// Appends the two bytes of `v`.
fn push16(out: &mut Vec<u8>, v: i16)
    ensures
        final(out)@ == old(out)@ + le16(v as int),
{
    let u: u32 = if v < 0 {
        ((v as i32) + 0x1_0000) as u32
    } else {
        v as u32
    };
    out.push((u % 256) as u8);
    out.push((u / 256) as u8);
    assert(out@ =~= old(out)@ + le16(v as int));
}

/// Appends the four bytes of `v`.
fn push32(out: &mut Vec<u8>, v: i32)
    ensures
        final(out)@ == old(out)@ + le32(v as int),
{
    let u: u64 = if v < 0 {
        ((v as i64) + 0x1_0000_0000) as u64
    } else {
        v as u64
    };
    out.push((u % 256) as u8);
    out.push(((u / 256) % 256) as u8);
    out.push(((u / 0x1_0000) % 256) as u8);
    out.push((u / 0x100_0000) as u8);
    assert(out@ =~= old(out)@ + le32(v as int));
}

/// Appends the six bytes of a corner point.
fn push_corner(out: &mut Vec<u8>, x: i16, y: i16, z: i16)
    ensures
        final(out)@ == old(out)@ + corner(x as int, y as int, z as int),
{
    push16(out, x);
    push16(out, y);
    push16(out, z);
    assert(out@ =~= old(out)@ + corner(x as int, y as int, z as int));
}

/// Appends the sixteen bytes of one end of a line.
fn push_line_end(out: &mut Vec<u8>, v: &LineVertex)
    ensures
        final(out)@ == old(out)@ + line_end(*v),
{
    push32(out, v.pos.x);
    push32(out, v.pos.y);
    push32(out, v.pos.z);
    out.push(v.color.r);
    out.push(v.color.g);
    out.push(v.color.b);
    out.push(v.color.a);
    assert(out@ =~= old(out)@ + line_end(*v));
}

/// Generates the mesh of a line.
pub fn gen_line(from: &LineVertex, to: &LineVertex) -> (v: Vec<u8>)
    ensures
        v@ == line_mesh(*from, *to),
        v@.len() == LINE_STRIDE,
{
    let mut out: Vec<u8> = Vec::new();
    push_line_end(&mut out, from);
    push_line_end(&mut out, to);
    assert(out@ =~= line_mesh(*from, *to));
    out
}

/// Generates the mesh of a rectangular light from its quantized sides, range
/// and penumbra radius.
pub fn gen_rect_light(dims: (u8, u8), range: u8, radius: u8) -> (v: Vec<u8>)
    ensures
        v@ == rect_light_mesh(dims.0 as int, dims.1 as int, range as int, radius as int),
        v@.len() == RECT_LIGHT_STRIDE,
{
    let dx: i16 = dims.0 as i16;
    let dy: i16 = dims.1 as i16;
    let g: i16 = range as i16;
    let r: i16 = radius as i16;
    let mut out: Vec<u8> = Vec::new();
    push_corner(&mut out, 0, 0, 0);
    push_corner(&mut out, dx, 0, 0);
    push_corner(&mut out, dx, 0, dy);
    push_corner(&mut out, 0, 0, dy);
    push_corner(&mut out, -r, -g, -r);
    push_corner(&mut out, dx + r, -g, -r);
    push_corner(&mut out, dx + r, -g, dy + r);
    push_corner(&mut out, -r, -g, dy + r);
    assert(out@ =~= rect_light_mesh(dims.0 as int, dims.1 as int, range as int, radius as int));
    out
}

/// Generates the mesh of a spotlight from its quantized radius and range.
pub fn gen_spotlight(radius: u8, range: u8) -> (v: Vec<u8>)
    ensures
        v@ == spotlight_mesh(radius as int, range as int),
        v@.len() == SPOTLIGHT_STRIDE,
{
    let a: i16 = radius as i16;
    let b: i16 = a * 45 / 64;
    let g: i16 = range as i16;
    let mut out: Vec<u8> = Vec::new();
    push_corner(&mut out, 0, 0, 0);
    push_corner(&mut out, a, -g, 0);
    push_corner(&mut out, b, -g, b);
    push_corner(&mut out, 0, -g, a);
    push_corner(&mut out, -b, -g, b);
    push_corner(&mut out, -a, -g, 0);
    push_corner(&mut out, -b, -g, -b);
    push_corner(&mut out, 0, -g, -a);
    push_corner(&mut out, b, -g, -b);
    assert(out@ =~= spotlight_mesh(radius as int, range as int));
    out
}

/// Generates the mesh of the point light.
pub fn gen_point_light() -> (v: Vec<u8>)
    ensures
        v@ == point_light_mesh(),
        v@.len() == POINT_LIGHT_LEN,
{
    let a: i16 = ICO_SHORT;
    let b: i16 = ICO_LONG;
    let mut out: Vec<u8> = Vec::new();
    push_corner(&mut out, 0, a, b);
    push_corner(&mut out, 0, a, -b);
    push_corner(&mut out, 0, -a, b);
    push_corner(&mut out, 0, -a, -b);
    push_corner(&mut out, a, b, 0);
    push_corner(&mut out, a, -b, 0);
    push_corner(&mut out, -a, b, 0);
    push_corner(&mut out, -a, -b, 0);
    push_corner(&mut out, b, 0, a);
    push_corner(&mut out, -b, 0, a);
    push_corner(&mut out, b, 0, -a);
    push_corner(&mut out, -b, 0, -a);
    assert(out@ =~= point_light_mesh());
    out
}

} // verus!
