//! Cache keys: what a light or a line is cached under.
//!
//! A light is reduced to its proportions, counted in 255ths of its largest
//! measure, and that measure is handed back beside the key as the scale by
//! which the cached mesh is drawn. Lights of the same proportions share one
//! mesh whatever their size. A line is cached under its two ends.

use vstd::prelude::*;
use crate::code::Asm;
use crate::command::{Command, LineCommand, LineVertex, RectLightCommand, SpotlightCommand};
use crate::group::GroupIdx;
use crate::geom::{
    gen_line, gen_rect_light, gen_spotlight, line_mesh, rect_light_mesh, spotlight_mesh,
    LINE_STRIDE, RECT_LIGHT_STRIDE, SPOTLIGHT_STRIDE,
};
use crate::math::sat_add;

verus! {

/// A key of the geometry cache.
pub trait ShapeKey: Sized + Copy {
    /// The key's place in the order by which a cache is kept: keys are ordered
    /// as their ranks are, and no two keys share a rank.
    spec fn rank(&self) -> int;

    /// The bytes of the mesh which is cached under the key.
    spec fn mesh(&self) -> Seq<u8>;

    /// The number of bytes of every mesh of this kind.
    spec fn stride_len() -> nat;

    /// No two keys share a rank.
    proof fn lemma_rank_injective(a: Self, b: Self)
        requires
            a.rank() == b.rank(),
        ensures
            a == b,
    ;

    /// Every mesh of this kind has the same, positive number of bytes.
    proof fn lemma_mesh_len(k: Self)
        ensures
            k.mesh().len() == Self::stride_len(),
            0 < Self::stride_len() <= 64,
    ;

    /// A mesh has bytes.
    proof fn lemma_stride_positive()
        ensures
            0 < Self::stride_len() <= 64,
    ;

    /// The number of bytes of every mesh of this kind.
    fn stride() -> (s: usize)
        ensures
            s == Self::stride_len(),
    ;

    /// Whether this key comes before `other`.
    fn precedes(&self, other: &Self) -> (r: bool)
        ensures
            r == (self.rank() < other.rank()),
    ;

    /// Generates the mesh which is cached under the key.
    fn generate(&self) -> (v: Vec<u8>)
        ensures
            v@ == self.mesh(),
    ;

    /// The group whose commands are cached under keys of this kind.
    spec fn group() -> GroupIdx;

    /// The key and the scale of a command of that group; nothing for any
    /// other command.
    spec fn read(cmd: Command) -> Option<(Self, u32)>;

    /// What is noted for a command whose mesh lies at `offset`.
    spec fn draw(offset: usize, scale: u32) -> Asm;

    /// The commands of the group, and no others, have a key of this kind.
    proof fn lemma_read_group(cmd: Command)
        ensures
            Self::read(cmd) is Some <==> GroupIdx::of(cmd) == Self::group(),
    ;

    /// Reduces a command to its key and its scale.
    fn resolve(cmd: &Command) -> (r: Option<(Self, u32)>)
        ensures
            r == Self::read(*cmd),
    ;

    /// Notes where the mesh of a command lies.
    fn note(offset: usize, scale: u32) -> (a: Asm)
        ensures
            a == Self::draw(offset, scale),
    ;
}

/// The part `v` of `scale`, in 255ths, rounded to the nearest.
pub open spec fn quantized(v: int, scale: int) -> int {
    if scale <= 0 {
        0
    } else {
        (v * 255 + scale / 2) / scale
    }
}

/// The larger of two numbers.
pub open spec fn larger(a: int, b: int) -> int {
    if a >= b {
        a
    } else {
        b
    }
}

/// A quantized part is a 255th count: it lies between 0 and 255.
pub proof fn lemma_quantized_bounds(v: int, scale: int)
    requires
        0 <= v <= scale,
    ensures
        0 <= quantized(v, scale) <= 255,
{
    if scale > 0 {
        let n = v * 255 + scale / 2;
        assert(0 <= n < 256 * scale) by (nonlinear_arith)
            requires
                0 <= v <= scale,
                scale > 0,
                n == v * 255 + scale / 2,
        ;
        assert(0 <= n / scale <= 255) by (nonlinear_arith)
            requires
                0 <= n < 256 * scale,
                scale > 0,
        ;
    }
}

/// Drawn at its scale, a quantized part is off by no more than half a 255th
/// of the scale.
pub proof fn lemma_quantized_error(v: int, scale: int)
    requires
        0 <= v <= scale,
        0 < scale,
    ensures
        -scale <= 2 * (quantized(v, scale) * scale - v * 255) <= scale,
{
    let n = v * 255 + scale / 2;
    let q = n / scale;
    assert(q * scale <= n < q * scale + scale) by (nonlinear_arith)
        requires
            q == n / scale,
            scale > 0,
    ;
}

/// Computes [`quantized`].
fn quantize_part(v: u32, scale: u32) -> (q: u8)
    requires
        v <= scale,
    ensures
        q == quantized(v as int, scale as int),
{
    if scale == 0 {
        0
    } else {
        proof {
            lemma_quantized_bounds(v as int, scale as int);
        }
        let n: u64 = (v as u64) * 255 + (scale as u64) / 2;
        (n / (scale as u64)) as u8
    }
}

/// The larger of two numbers.
fn max_u32(a: u32, b: u32) -> (m: u32)
    ensures
        m == larger(a as int, b as int),
{
    if a >= b {
        a
    } else {
        b
    }
}

/// The key of a rectangular light: its sides, penumbra radius and range in
/// 255ths of the largest of them.
#[derive(Clone, Copy, Debug, PartialEq, Eq, Structural)]
pub struct RectLightKey {
    pub dims_x: u8,
    pub dims_y: u8,
    pub radius: u8,
    pub range: u8,
}

/// The key of a spotlight: its radius, penumbra included, and its range in
/// 255ths of the larger of them.
#[derive(Clone, Copy, Debug, PartialEq, Eq, Structural)]
pub struct SpotlightKey {
    pub radius: u8,
    pub range: u8,
}

/// The key of a line: its two ends.
#[derive(Clone, Copy, Debug, PartialEq, Eq, Structural)]
pub struct LineKey {
    pub from: LineVertex,
    pub to: LineVertex,
}

impl RectLightKey {
    /// The largest measure of a rectangular light.
    pub open spec fn scale_of(cmd: RectLightCommand) -> int {
        larger(
            larger(cmd.dims.x as int, cmd.dims.y as int),
            larger(cmd.radius as int, cmd.range as int),
        )
    }

    /// The key a rectangular light is cached under.
    pub open spec fn of(cmd: RectLightCommand) -> RectLightKey {
        let scale = Self::scale_of(cmd);
        RectLightKey {
            dims_x: quantized(cmd.dims.x as int, scale) as u8,
            dims_y: quantized(cmd.dims.y as int, scale) as u8,
            radius: quantized(cmd.radius as int, scale) as u8,
            range: quantized(cmd.range as int, scale) as u8,
        }
    }

    /// Reduces a rectangular light to its key and its scale.
    pub fn quantize(cmd: &RectLightCommand) -> (r: (RectLightKey, u32))
        ensures
            r.0 == Self::of(*cmd),
            r.1 == Self::scale_of(*cmd),
    {
        let scale: u32 = max_u32(max_u32(cmd.dims.x, cmd.dims.y), max_u32(cmd.radius, cmd.range));
        let key = RectLightKey {
            dims_x: quantize_part(cmd.dims.x, scale),
            dims_y: quantize_part(cmd.dims.y, scale),
            radius: quantize_part(cmd.radius, scale),
            range: quantize_part(cmd.range, scale),
        };
        (key, scale)
    }

    /// The quantized sides.
    pub fn dims(&self) -> (d: (u8, u8))
        ensures
            d == (self.dims_x, self.dims_y),
    {
        (self.dims_x, self.dims_y)
    }

    /// The quantized range.
    pub fn range(&self) -> (r: u8)
        ensures
            r == self.range,
    {
        self.range
    }

    /// The quantized penumbra radius.
    pub fn radius(&self) -> (r: u8)
        ensures
            r == self.radius,
    {
        self.radius
    }
}

impl ShapeKey for RectLightKey {
    open spec fn rank(&self) -> int {
        ((self.dims_x * 256 + self.dims_y) * 256 + self.radius) * 256 + self.range
    }

    open spec fn mesh(&self) -> Seq<u8> {
        rect_light_mesh(
            self.dims_x as int,
            self.dims_y as int,
            self.range as int,
            self.radius as int,
        )
    }

    open spec fn stride_len() -> nat {
        RECT_LIGHT_STRIDE as nat
    }

    proof fn lemma_rank_injective(a: Self, b: Self) {
    }

    proof fn lemma_mesh_len(k: Self) {
    }

    proof fn lemma_stride_positive() {
    }

    fn stride() -> (s: usize) {
        RECT_LIGHT_STRIDE
    }

    fn precedes(&self, other: &Self) -> (r: bool) {
        let a: u32 = (((self.dims_x as u32) * 256 + (self.dims_y as u32)) * 256 + (
        self.radius as u32)) * 256 + (self.range as u32);
        let b: u32 = (((other.dims_x as u32) * 256 + (other.dims_y as u32)) * 256 + (
        other.radius as u32)) * 256 + (other.range as u32);
        a < b
    }

    fn generate(&self) -> (v: Vec<u8>) {
        gen_rect_light(self.dims(), self.range(), self.radius())
    }

    open spec fn group() -> GroupIdx {
        GroupIdx::RectLight
    }

    open spec fn read(cmd: Command) -> Option<(Self, u32)> {
        match cmd {
            Command::RectLight(c) => Some((Self::of(c), Self::scale_of(c) as u32)),
            _ => None,
        }
    }

    open spec fn draw(offset: usize, scale: u32) -> Asm {
        Asm::RectLight(offset, scale)
    }

    proof fn lemma_read_group(cmd: Command) {
    }

    fn resolve(cmd: &Command) -> (r: Option<(Self, u32)>) {
        match cmd {
            Command::RectLight(c) => Some(Self::quantize(c)),
            _ => None,
        }
    }

    fn note(offset: usize, scale: u32) -> (a: Asm) {
        Asm::RectLight(offset, scale)
    }
}

impl SpotlightKey {
    /// The radius of a spotlight, penumbra included.
    pub open spec fn radius_of(cmd: SpotlightCommand) -> int {
        sat_add(cmd.cone_radius as int, cmd.penumbra_radius as int)
    }

    /// The largest measure of a spotlight.
    pub open spec fn scale_of(cmd: SpotlightCommand) -> int {
        larger(Self::radius_of(cmd), cmd.range.end as int)
    }

    /// The key a spotlight is cached under.
    pub open spec fn of(cmd: SpotlightCommand) -> SpotlightKey {
        let scale = Self::scale_of(cmd);
        SpotlightKey {
            radius: quantized(Self::radius_of(cmd), scale) as u8,
            range: quantized(cmd.range.end as int, scale) as u8,
        }
    }

    /// Reduces a spotlight to its key and its scale.
    pub fn quantize(cmd: &SpotlightCommand) -> (r: (SpotlightKey, u32))
        ensures
            r.0 == Self::of(*cmd),
            r.1 == Self::scale_of(*cmd),
    {
        let radius: u32 = cmd.cone_radius.saturating_add(cmd.penumbra_radius);
        let scale: u32 = max_u32(radius, cmd.range.end);
        let key = SpotlightKey {
            radius: quantize_part(radius, scale),
            range: quantize_part(cmd.range.end, scale),
        };
        (key, scale)
    }

    /// The quantized range.
    pub fn range(&self) -> (r: u8)
        ensures
            r == self.range,
    {
        self.range
    }

    /// The quantized radius.
    pub fn radius(&self) -> (r: u8)
        ensures
            r == self.radius,
    {
        self.radius
    }
}

impl ShapeKey for SpotlightKey {
    open spec fn rank(&self) -> int {
        self.radius * 256 + self.range
    }

    open spec fn mesh(&self) -> Seq<u8> {
        spotlight_mesh(self.radius as int, self.range as int)
    }

    open spec fn stride_len() -> nat {
        SPOTLIGHT_STRIDE as nat
    }

    proof fn lemma_rank_injective(a: Self, b: Self) {
    }

    proof fn lemma_mesh_len(k: Self) {
    }

    proof fn lemma_stride_positive() {
    }

    fn stride() -> (s: usize) {
        SPOTLIGHT_STRIDE
    }

    fn precedes(&self, other: &Self) -> (r: bool) {
        let a: u32 = (self.radius as u32) * 256 + (self.range as u32);
        let b: u32 = (other.radius as u32) * 256 + (other.range as u32);
        a < b
    }

    fn generate(&self) -> (v: Vec<u8>) {
        gen_spotlight(self.radius(), self.range())
    }

    open spec fn group() -> GroupIdx {
        GroupIdx::Spotlight
    }

    open spec fn read(cmd: Command) -> Option<(Self, u32)> {
        match cmd {
            Command::Spotlight(c) => Some((Self::of(c), Self::scale_of(c) as u32)),
            _ => None,
        }
    }

    open spec fn draw(offset: usize, scale: u32) -> Asm {
        Asm::Spotlight(offset, scale)
    }

    proof fn lemma_read_group(cmd: Command) {
    }

    fn resolve(cmd: &Command) -> (r: Option<(Self, u32)>) {
        match cmd {
            Command::Spotlight(c) => Some(Self::quantize(c)),
            _ => None,
        }
    }

    fn note(offset: usize, scale: u32) -> (a: Asm) {
        Asm::Spotlight(offset, scale)
    }
}

/// One end of a line as a number: its three coordinates, each moved up into
/// the unsigned range, and its four colour bytes, as the digits of one
/// number.
pub open spec fn vertex_code(v: LineVertex) -> int {
    let x = v.pos.x + 0x8000_0000;
    let y = v.pos.y + 0x8000_0000;
    let z = v.pos.z + 0x8000_0000;
    let pos = (x * 0x1_0000_0000 + y) * 0x1_0000_0000 + z;
    (((pos * 256 + v.color.r) * 256 + v.color.g) * 256 + v.color.b) * 256 + v.color.a
}

/// Two ends with the same code are the same end.
pub proof fn lemma_vertex_code_injective(a: LineVertex, b: LineVertex)
    requires
        vertex_code(a) == vertex_code(b),
    ensures
        a == b,
{
}

/// Computes [`vertex_code`].
fn encode_vertex(v: &LineVertex) -> (c: u128)
    ensures
        c == vertex_code(*v),
{
    let x: u128 = ((v.pos.x as i64) + 0x8000_0000) as u128;
    let y: u128 = ((v.pos.y as i64) + 0x8000_0000) as u128;
    let z: u128 = ((v.pos.z as i64) + 0x8000_0000) as u128;
    let xy: u128 = x * 0x1_0000_0000 + y;
    let pos: u128 = xy * 0x1_0000_0000 + z;
    let r: u128 = pos * 256 + (v.color.r as u128);
    let g: u128 = r * 256 + (v.color.g as u128);
    let b: u128 = g * 256 + (v.color.b as u128);
    b * 256 + (v.color.a as u128)
}

impl LineKey {
    /// The key a line is cached under: its two ends.
    pub open spec fn of(cmd: LineCommand) -> LineKey {
        LineKey { from: cmd.from, to: cmd.to }
    }

    /// Reduces a line to its key.
    pub fn hash(cmd: &LineCommand) -> (k: LineKey)
        ensures
            k == Self::of(*cmd),
    {
        LineKey { from: cmd.from, to: cmd.to }
    }
}

impl ShapeKey for LineKey {
    open spec fn rank(&self) -> int {
        vertex_code(self.from) * 0x1_0000_0000_0000_0000_0000_0000_0000_0000 + vertex_code(self.to)
    }

    open spec fn mesh(&self) -> Seq<u8> {
        line_mesh(self.from, self.to)
    }

    open spec fn stride_len() -> nat {
        LINE_STRIDE as nat
    }

    proof fn lemma_rank_injective(a: Self, b: Self) {
        lemma_vertex_code_injective(a.from, b.from);
        lemma_vertex_code_injective(a.to, b.to);
    }

    proof fn lemma_mesh_len(k: Self) {
    }

    proof fn lemma_stride_positive() {
    }

    fn stride() -> (s: usize) {
        LINE_STRIDE
    }

    fn precedes(&self, other: &Self) -> (r: bool) {
        let a0: u128 = encode_vertex(&self.from);
        let b0: u128 = encode_vertex(&other.from);
        if a0 != b0 {
            a0 < b0
        } else {
            let a1: u128 = encode_vertex(&self.to);
            let b1: u128 = encode_vertex(&other.to);
            a1 < b1
        }
    }

    fn generate(&self) -> (v: Vec<u8>) {
        gen_line(&self.from, &self.to)
    }

    open spec fn group() -> GroupIdx {
        GroupIdx::Line
    }

    /// A line is drawn as it is: its scale is one.
    open spec fn read(cmd: Command) -> Option<(Self, u32)> {
        match cmd {
            Command::Line(c) => Some((Self::of(c), 1u32)),
            _ => None,
        }
    }

    open spec fn draw(offset: usize, scale: u32) -> Asm {
        Asm::Line(offset)
    }

    proof fn lemma_read_group(cmd: Command) {
    }

    fn resolve(cmd: &Command) -> (r: Option<(Self, u32)>) {
        match cmd {
            Command::Line(c) => Some((Self::hash(c), 1)),
            _ => None,
        }
    }

    fn note(offset: usize, scale: u32) -> (a: Asm) {
        Asm::Line(offset)
    }
}

} // verus!
