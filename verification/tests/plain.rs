use scene_compiler::code::Asm;
use scene_compiler::color::{AlphaColor, Color};
use gfx_hal::image::Usage;
use scene_compiler::geom_buf::{
    Dims, GeometryBuffer, Target, TargetFormat, COLOR_ATTACHMENT, DEPTH_STENCIL_ATTACHMENT,
    INPUT_ATTACHMENT, SAMPLED, TARGET_COUNT, TRANSFER_DST, TRANSFER_SRC,
};
use scene_compiler::material::Material;
use scene_compiler::solid::Solid;
use scene_compiler::vertex_buf::{ByteRange, CopyRange, VertexBuf, MAX_CAPACITY};
use std::cmp::Ordering;

#[test]
fn a_solid_screen_keeps_its_color() {
    let solid = Solid::new(Color::rgb(1, 2, 3));
    assert_eq!(solid.color(), Color { r: 1, g: 2, b: 3 });
    assert_eq!(Color::rgb(1, 2, 3).with_alpha(4), AlphaColor { r: 1, g: 2, b: 3, a: 4 });
}

#[test]
fn materials_are_ordered_by_their_bitmaps() {
    let m = Material::new(5, 5, 5);
    assert_eq!(m.cmp(&Material::new(5, 5, 5)), Ordering::Equal);
    // with the same albedo bitmap the other bitmaps are not looked at
    assert_eq!(m.cmp(&Material::new(5, 9, 9)), Ordering::Equal);
    assert_eq!(m.cmp(&Material::new(5, 1, 1)), Ordering::Equal);
    assert_ne!(m, Material::new(5, 9, 9));
    assert_eq!(m.cmp(&Material::new(4, 9, 9)), Ordering::Greater);
    // with an albedo bitmap which comes first the metal-rough bitmap decides unless it comes first too
    assert_eq!(m.cmp(&Material::new(6, 5, 1)), Ordering::Equal);
    assert_eq!(m.cmp(&Material::new(6, 4, 9)), Ordering::Greater);
    assert_eq!(m.cmp(&Material::new(6, 6, 5)), Ordering::Equal);
    assert_eq!(m.cmp(&Material::new(6, 6, 4)), Ordering::Greater);
    assert_eq!(m.cmp(&Material::new(6, 6, 6)), Ordering::Less);
    assert_eq!(m.partial_cmp(&Material::new(6, 6, 6)), Some(Ordering::Less));
}

#[test]
fn the_geometry_buffer_has_six_targets() {
    let dims = Dims { x: 320, y: 200 };
    let buf = GeometryBuffer::new(dims, TargetFormat::Destination(44));
    assert_eq!(buf.albedo, Target { dims, format: TargetFormat::Destination(44), usage: 0x97 });
    assert_eq!(buf.depth, Target { dims, format: TargetFormat::R32Sfloat, usage: 0xa4 });
    assert_eq!(buf.light, Target { dims, format: TargetFormat::R32Uint, usage: 0x94 });
    assert_eq!(buf.material, Target { dims, format: TargetFormat::Rg8Unorm, usage: 0x94 });
    assert_eq!(buf.normal, Target { dims, format: TargetFormat::Rgb32Sfloat, usage: 0x94 });
    assert_eq!(buf.output, Target { dims, format: TargetFormat::Destination(44), usage: 0x95 });
    let targets = buf.targets();
    assert_eq!(targets.len(), TARGET_COUNT);
    assert_eq!(TARGET_COUNT, 6);
    assert_eq!(
        targets,
        vec![buf.albedo, buf.depth, buf.light, buf.material, buf.normal, buf.output]
    );
}

#[test]
fn the_uses_of_a_target_are_those_of_the_backend() {
    assert_eq!(TRANSFER_SRC, Usage::TRANSFER_SRC.bits());
    assert_eq!(TRANSFER_DST, Usage::TRANSFER_DST.bits());
    assert_eq!(SAMPLED, Usage::SAMPLED.bits());
    assert_eq!(COLOR_ATTACHMENT, Usage::COLOR_ATTACHMENT.bits());
    assert_eq!(DEPTH_STENCIL_ATTACHMENT, Usage::DEPTH_STENCIL_ATTACHMENT.bits());
    assert_eq!(INPUT_ATTACHMENT, Usage::INPUT_ATTACHMENT.bits());
    let buf = GeometryBuffer::new(Dims { x: 1, y: 1 }, TargetFormat::R32Uint);
    assert_eq!(
        Usage::from_bits(buf.albedo.usage),
        Some(
            Usage::COLOR_ATTACHMENT
                | Usage::INPUT_ATTACHMENT
                | Usage::SAMPLED
                | Usage::TRANSFER_DST
                | Usage::TRANSFER_SRC
        )
    );
    assert_eq!(
        Usage::from_bits(buf.depth.usage),
        Some(Usage::DEPTH_STENCIL_ATTACHMENT | Usage::INPUT_ATTACHMENT | Usage::SAMPLED)
    );
    assert_eq!(
        Usage::from_bits(buf.normal.usage),
        Some(Usage::COLOR_ATTACHMENT | Usage::INPUT_ATTACHMENT | Usage::SAMPLED)
    );
    assert_eq!(
        Usage::from_bits(buf.output.usage),
        Some(
            Usage::COLOR_ATTACHMENT
                | Usage::INPUT_ATTACHMENT
                | Usage::SAMPLED
                | Usage::TRANSFER_SRC
        )
    );
}

#[test]
fn a_vertex_buffer_grows_and_keeps_its_bytes() {
    let mut buf = VertexBuf::with_capacity(4, 10);
    assert_eq!(buf.capacity(), 4);
    assert_eq!(buf.limit(), 10);
    assert_eq!(buf.data(), &vec![0, 0, 0, 0]);
    assert_eq!(buf.cpu_dirty(), None);

    buf.write(1, &vec![7, 8]);
    assert_eq!(buf.data(), &vec![0, 7, 8, 0]);
    assert_eq!(buf.cpu_dirty(), Some(ByteRange { start: 1, end: 3 }));
    buf.write(3, &vec![]);
    assert_eq!(buf.cpu_dirty(), Some(ByteRange { start: 1, end: 3 }));
    buf.write(0, &vec![6]);
    assert_eq!(buf.cpu_dirty(), Some(ByteRange { start: 0, end: 3 }));

    // room enough: nothing happens
    buf.reserve(4, 9, 3);
    assert_eq!(buf.capacity(), 4);
    assert_eq!(buf.cpu_dirty(), Some(ByteRange { start: 0, end: 3 }));

    buf.clear_dirty();
    assert_eq!(buf.cpu_dirty(), None);
    buf.write(3, &vec![9]);
    // room for 5 bytes is needed: twice the 5 planned is given, and the 3 bytes in use are kept
    // and dirty
    buf.reserve(5, 5, 3);
    assert_eq!(buf.capacity(), 10);
    assert_eq!(buf.data(), &vec![6, 7, 8, 0, 0, 0, 0, 0, 0, 0]);
    assert_eq!(buf.cpu_dirty(), Some(ByteRange { start: 0, end: 4 }));

    let mut buf = VertexBuf::with_capacity(4, 7);
    buf.reserve(5, 5, 0);
    // twice the 5 bytes is beyond the limit
    assert_eq!(buf.capacity(), 7);
    assert_eq!(buf.cpu_dirty(), None);

    let mut buf = VertexBuf::with_capacity(4, 100);
    buf.reserve(5, 20, 4);
    assert_eq!(buf.capacity(), 40);
    assert_eq!(buf.cpu_dirty(), Some(ByteRange { start: 0, end: 4 }));
    assert_eq!(MAX_CAPACITY, 0x7fff_ffff);
}

#[test]
fn a_hole_is_closed_by_a_move() {
    let mut buf = VertexBuf::with_capacity(8, 8);
    buf.write(0, &vec![1, 2, 3, 4, 5, 6, 7, 8]);
    buf.clear_dirty();
    buf.shift_down(2, 3, 7);
    assert_eq!(buf.data(), &vec![1, 2, 6, 7, 5, 6, 7, 8]);
    assert_eq!(
        buf.gpu_dirty(),
        &vec![CopyRange { src: ByteRange { start: 5, end: 7 }, dst: 2 }]
    );
    assert_eq!(buf.cpu_dirty(), None);
    // a hole at the end needs no move
    buf.shift_down(5, 2, 7);
    buf.shift_down(3, 0, 7);
    assert_eq!(buf.gpu_dirty().len(), 1);
    assert_eq!(buf.data(), &vec![1, 2, 6, 7, 5, 6, 7, 8]);
    // growing drops the moves, which were meant for the old buffer
    buf.reserve(8, 8, 8);
    assert_eq!(buf.gpu_dirty().len(), 1);
    buf.clear_dirty();
    assert!(buf.gpu_dirty().is_empty());
}

#[test]
fn notes_name_their_kind() {
    assert_ne!(Asm::RectLight(72, 1), Asm::Spotlight(72, 1));
    assert_eq!(Asm::Line(72), Asm::Line(72));
}
