//! The geometry buffer: the render targets a draw operation renders into
//! before its output is composed.

use vstd::prelude::*;

verus! {

/// The image is read by a transfer.
pub const TRANSFER_SRC: u32 = 0x1;

/// The image is written by a transfer.
pub const TRANSFER_DST: u32 = 0x2;

/// The image is sampled by a shader.
pub const SAMPLED: u32 = 0x4;

/// The image is a colour attachment.
pub const COLOR_ATTACHMENT: u32 = 0x10;

/// The image is a depth or stencil attachment.
pub const DEPTH_STENCIL_ATTACHMENT: u32 = 0x20;

/// The image is an input attachment.
pub const INPUT_ATTACHMENT: u32 = 0x80;

/// The format of the texels of a render target.
#[derive(Clone, Copy, Debug, PartialEq, Eq, Structural)]
pub enum TargetFormat {
    /// One 32-bit float.
    R32Sfloat,
    /// One 32-bit unsigned integer.
    R32Uint,
    /// Two normalized bytes.
    Rg8Unorm,
    /// Three 32-bit floats.
    Rgb32Sfloat,
    /// The format of the destination, by the number its backend gives it.
    Destination(u32),
}

/// The width and height of an image.
#[derive(Clone, Copy, Debug, PartialEq, Eq, Structural)]
pub struct Dims {
    pub x: u32,
    pub y: u32,
}

/// What a render target is made with. Every target has one mip level, one
/// layer and one sample, and optimal tiling.
#[derive(Clone, Copy, Debug, PartialEq, Eq, Structural)]
pub struct Target {
    pub dims: Dims,
    pub format: TargetFormat,
    /// The uses of the image, one bit each.
    pub usage: u32,
}

/// The render targets of one draw operation: all of the same dimensions.
#[derive(Clone, Copy, Debug, PartialEq, Eq, Structural)]
pub struct GeometryBuffer {
    pub albedo: Target,
    pub depth: Target,
    pub light: Target,
    pub material: Target,
    pub normal: Target,
    /// Where the frame is composed before it is copied to the destination.
    pub output: Target,
}

/// The number of render targets of a geometry buffer.
pub const TARGET_COUNT: usize = 6;

/// The uses of the albedo target: it is rendered to, read as input, sampled
/// and copied from and to.
pub open spec fn albedo_usage() -> u32 {
    COLOR_ATTACHMENT | INPUT_ATTACHMENT | SAMPLED | TRANSFER_DST | TRANSFER_SRC
}

/// The uses of the depth target: depth is tested against it, and it is read
/// as input and sampled.
pub open spec fn depth_usage() -> u32 {
    DEPTH_STENCIL_ATTACHMENT | INPUT_ATTACHMENT | SAMPLED
}

/// The uses of the output target: it is rendered to, read as input, sampled
/// and copied from.
pub open spec fn output_usage() -> u32 {
    COLOR_ATTACHMENT | INPUT_ATTACHMENT | SAMPLED | TRANSFER_SRC
}

/// The uses of the light, material and normal targets: they are rendered to,
/// read as input and sampled.
pub open spec fn attachment_usage() -> u32 {
    COLOR_ATTACHMENT | INPUT_ATTACHMENT | SAMPLED
}

impl GeometryBuffer {
    /// The geometry buffer for a destination of the given dimensions and
    /// format: the albedo and output targets share the format of the
    /// destination, every other target has a format of its own.
    pub open spec fn describe(dims: Dims, albedo_fmt: TargetFormat) -> GeometryBuffer {
        GeometryBuffer {
            albedo: Target { dims, format: albedo_fmt, usage: albedo_usage() },
            depth: Target { dims, format: TargetFormat::R32Sfloat, usage: depth_usage() },
            light: Target { dims, format: TargetFormat::R32Uint, usage: attachment_usage() },
            material: Target { dims, format: TargetFormat::Rg8Unorm, usage: attachment_usage() },
            normal: Target { dims, format: TargetFormat::Rgb32Sfloat, usage: attachment_usage() },
            output: Target { dims, format: albedo_fmt, usage: output_usage() },
        }
    }

    /// Lays out the geometry buffer for a destination of the given
    /// dimensions and format.
    pub fn new(dims: Dims, albedo_fmt: TargetFormat) -> (g: GeometryBuffer)
        ensures
            g == Self::describe(dims, albedo_fmt),
            g.albedo.usage == 0x97,
            g.depth.usage == 0xa4,
            g.light.usage == 0x94,
            g.output.usage == 0x95,
    {
        proof {
            assert(0x10u32 | 0x80u32 | 0x4u32 | 0x2u32 | 0x1u32 == 0x97u32) by (bit_vector);
            assert(0x20u32 | 0x80u32 | 0x4u32 == 0xa4u32) by (bit_vector);
            assert(0x10u32 | 0x80u32 | 0x4u32 == 0x94u32) by (bit_vector);
            assert(0x10u32 | 0x80u32 | 0x4u32 | 0x1u32 == 0x95u32) by (bit_vector);
        }
        let albedo = Target {
            dims,
            format: albedo_fmt,
            usage: COLOR_ATTACHMENT | INPUT_ATTACHMENT | SAMPLED | TRANSFER_DST | TRANSFER_SRC,
        };
        let depth = Target {
            dims,
            format: TargetFormat::R32Sfloat,
            usage: DEPTH_STENCIL_ATTACHMENT | INPUT_ATTACHMENT | SAMPLED,
        };
        let light = Target {
            dims,
            format: TargetFormat::R32Uint,
            usage: COLOR_ATTACHMENT | INPUT_ATTACHMENT | SAMPLED,
        };
        let material = Target {
            dims,
            format: TargetFormat::Rg8Unorm,
            usage: COLOR_ATTACHMENT | INPUT_ATTACHMENT | SAMPLED,
        };
        let normal = Target {
            dims,
            format: TargetFormat::Rgb32Sfloat,
            usage: COLOR_ATTACHMENT | INPUT_ATTACHMENT | SAMPLED,
        };
        let output = Target {
            dims,
            format: albedo_fmt,
            usage: COLOR_ATTACHMENT | INPUT_ATTACHMENT | SAMPLED | TRANSFER_SRC,
        };
        GeometryBuffer { albedo, depth, light, material, normal, output }
    }

    /// The targets in the order in which a frame buffer takes them.
    pub fn targets(&self) -> (t: Vec<Target>)
        ensures
            t@ == seq![
                self.albedo,
                self.depth,
                self.light,
                self.material,
                self.normal,
                self.output,
            ],
            t@.len() == TARGET_COUNT,
    {
        let mut t: Vec<Target> = Vec::new();
        t.push(self.albedo);
        t.push(self.depth);
        t.push(self.light);
        t.push(self.material);
        t.push(self.normal);
        t.push(self.output);
        assert(t@ =~= seq![
            self.albedo,
            self.depth,
            self.light,
            self.material,
            self.normal,
            self.output,
        ]);
        t
    }
}

} // verus!
