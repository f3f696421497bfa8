use scene_compiler::camera::{BoxCamera, Camera};
use scene_compiler::color::{AlphaColor, Color};
use scene_compiler::command::{
    Command, Extent, LineCommand, LineVertex, Mesh, MeshTextures, ModelCommand, PointLightCommand,
    RectLightCommand, Span, SpotlightCommand,
};
use scene_compiler::geom::{
    gen_line, gen_point_light, gen_rect_light, gen_spotlight, LINE_STRIDE, POINT_LIGHT_LEN,
    RECT_LIGHT_STRIDE, SPOTLIGHT_STRIDE,
};
use scene_compiler::key::{LineKey, RectLightKey, ShapeKey, SpotlightKey};
use scene_compiler::math::{Axis, Cone, Sphere, Transform, Vec3};

fn rect(x: u32, y: u32, radius: u32, range: u32) -> RectLightCommand {
    RectLightCommand {
        color: Color::rgb(1, 2, 3),
        dims: Extent { x, y },
        radius,
        pos: Vec3::new(5, 6, 7),
        power: 1,
        range,
    }
}

fn spot(cone_radius: u32, penumbra_radius: u32, end: u32) -> SpotlightCommand {
    SpotlightCommand {
        color: Color::rgb(1, 2, 3),
        cone_radius,
        normal: Vec3::new(0, -1, 0),
        penumbra_radius,
        pos: Vec3::new(5, 6, 7),
        power: 1,
        range: Span { start: 1, end },
        top_radius: 0,
    }
}

fn vertex(x: i32, y: i32, z: i32) -> LineVertex {
    LineVertex { color: AlphaColor { r: 1, g: 2, b: 3, a: 4 }, pos: Vec3::new(x, y, z) }
}

#[test]
fn a_line_is_its_two_ends() {
    let bytes = gen_line(&vertex(1, -1, 256), &vertex(i32::MIN, i32::MAX, 0));
    assert_eq!(bytes.len(), LINE_STRIDE);
    assert_eq!(
        bytes,
        vec![
            1, 0, 0, 0, 255, 255, 255, 255, 0, 1, 0, 0, 1, 2, 3, 4, //
            0, 0, 0, 128, 255, 255, 255, 127, 0, 0, 0, 0, 1, 2, 3, 4,
        ]
    );
}

#[test]
fn a_rect_light_is_eight_corners() {
    let bytes = gen_rect_light((2, 3), 4, 1);
    assert_eq!(bytes.len(), RECT_LIGHT_STRIDE);
    assert_eq!(
        bytes,
        vec![
            0, 0, 0, 0, 0, 0, // the lit rectangle
            2, 0, 0, 0, 0, 0, //
            2, 0, 0, 0, 3, 0, //
            0, 0, 0, 0, 3, 0, //
            255, 255, 252, 255, 255, 255, // its footprint
            3, 0, 252, 255, 255, 255, //
            3, 0, 252, 255, 4, 0, //
            255, 255, 252, 255, 4, 0,
        ]
    );
    let widest = gen_rect_light((255, 255), 255, 255);
    // 255 + 255 = 510 = 0x01fe
    assert_eq!(&widest[30..32], &[0xfe, 0x01]);
}

#[test]
fn a_spotlight_is_an_apex_and_an_octagon() {
    let bytes = gen_spotlight(64, 10);
    assert_eq!(bytes.len(), SPOTLIGHT_STRIDE);
    assert_eq!(
        bytes,
        vec![
            0, 0, 0, 0, 0, 0, //
            64, 0, 0xf6, 0xff, 0, 0, //
            45, 0, 0xf6, 0xff, 45, 0, //
            0, 0, 0xf6, 0xff, 64, 0, //
            0xd3, 0xff, 0xf6, 0xff, 45, 0, //
            0xc0, 0xff, 0xf6, 0xff, 0, 0, //
            0xd3, 0xff, 0xf6, 0xff, 0xd3, 0xff, //
            0, 0, 0xf6, 0xff, 0xc0, 0xff, //
            45, 0, 0xf6, 0xff, 0xd3, 0xff,
        ]
    );
    // 255 * 45 / 64 = 179
    assert_eq!(&gen_spotlight(255, 0)[12..14], &[179, 0]);
}

#[test]
fn the_point_light_is_an_icosahedron() {
    let bytes = gen_point_light();
    assert_eq!(bytes.len(), POINT_LIGHT_LEN);
    assert_eq!(&bytes[0..6], &[0, 0, 0xa5, 0x21, 0x72, 0x36]);
    assert_eq!(&bytes[6..12], &[0, 0, 0xa5, 0x21, 0x8e, 0xc9]);
    assert_eq!(&bytes[66..72], &[0x8e, 0xc9, 0, 0, 0x5b, 0xde]);
}

#[test]
fn a_rect_light_is_quantized_to_its_proportions() {
    let (key, scale) = RectLightKey::quantize(&rect(10000, 10000, 1000, 5000));
    assert_eq!(key, RectLightKey { dims_x: 255, dims_y: 255, radius: 26, range: 128 });
    assert_eq!(scale, 10000);
    assert_eq!(key.dims(), (255, 255));
    assert_eq!(key.radius(), 26);
    assert_eq!(key.range(), 128);

    // the same proportions at twice the size
    let (twice, scale) = RectLightKey::quantize(&rect(20000, 20000, 2000, 10000));
    assert_eq!(twice, key);
    assert_eq!(scale, 20000);

    // 1039 * 255 + 5000 = 269945 is still in the 26th part, 1040 * 255 + 5000 = 270200 is not
    assert_eq!(RectLightKey::quantize(&rect(10000, 10000, 1039, 5000)).0.radius, 26);
    assert_eq!(RectLightKey::quantize(&rect(10000, 10000, 1040, 5000)).0.radius, 27);
    // 1000 * 255 + 5000 = 260000 is the first of the 26th part
    assert_eq!(RectLightKey::quantize(&rect(10000, 10000, 1000, 5000)).0.radius, 26);
    assert_eq!(RectLightKey::quantize(&rect(10000, 10000, 999, 5000)).0.radius, 25);

    // the range is the largest measure here
    let (key, scale) = RectLightKey::quantize(&rect(1, 2, 3, 4));
    assert_eq!(key, RectLightKey { dims_x: 64, dims_y: 128, radius: 191, range: 255 });
    assert_eq!(scale, 4);

    let (key, scale) = RectLightKey::quantize(&rect(0, 0, 0, 0));
    assert_eq!(key, RectLightKey { dims_x: 0, dims_y: 0, radius: 0, range: 0 });
    assert_eq!(scale, 0);

    let (key, scale) = RectLightKey::quantize(&rect(u32::MAX, 1, 0, u32::MAX));
    assert_eq!(key, RectLightKey { dims_x: 255, dims_y: 0, radius: 0, range: 255 });
    assert_eq!(scale, u32::MAX);
}

#[test]
fn a_spotlight_is_quantized_to_its_proportions() {
    let (key, scale) = SpotlightKey::quantize(&spot(20, 10, 40));
    assert_eq!(key, SpotlightKey { radius: 191, range: 255 });
    assert_eq!(scale, 40);
    assert_eq!(key.radius(), 191);
    assert_eq!(key.range(), 255);

    // the radius, penumbra included, is the largest measure here
    let (key, scale) = SpotlightKey::quantize(&spot(60, 20, 40));
    assert_eq!(key, SpotlightKey { radius: 255, range: 128 });
    assert_eq!(scale, 80);

    // the radius is held at the largest number
    let (key, scale) = SpotlightKey::quantize(&spot(u32::MAX, 7, 0));
    assert_eq!(key, SpotlightKey { radius: 255, range: 0 });
    assert_eq!(scale, u32::MAX);
}

#[test]
fn keys_are_ordered() {
    let a = RectLightKey { dims_x: 1, dims_y: 200, radius: 200, range: 200 };
    let b = RectLightKey { dims_x: 2, dims_y: 0, radius: 0, range: 0 };
    let c = RectLightKey { dims_x: 2, dims_y: 0, radius: 0, range: 1 };
    assert!(a.precedes(&b) && b.precedes(&c) && a.precedes(&c));
    assert!(!b.precedes(&a) && !c.precedes(&b) && !a.precedes(&a));

    let a = SpotlightKey { radius: 1, range: 255 };
    let b = SpotlightKey { radius: 2, range: 0 };
    assert!(a.precedes(&b) && !b.precedes(&a) && !b.precedes(&b));

    let a = LineKey { from: vertex(-1, 5, 5), to: vertex(9, 9, 9) };
    let b = LineKey { from: vertex(0, 0, 0), to: vertex(-9, 0, 0) };
    let c = LineKey { from: vertex(0, 0, 0), to: vertex(-9, 0, 1) };
    assert!(a.precedes(&b) && b.precedes(&c) && a.precedes(&c));
    assert!(!b.precedes(&a) && !c.precedes(&b) && !c.precedes(&c));
    let mut d = c;
    d.to.color.a = 5;
    assert!(c.precedes(&d) && !d.precedes(&c));

    assert_eq!(RectLightKey::stride(), 48);
    assert_eq!(SpotlightKey::stride(), 54);
    assert_eq!(LineKey::stride(), 32);
    assert_eq!(a.generate(), gen_line(&a.from, &a.to));
    assert_eq!(
        LineKey::hash(&LineCommand { from: a.from, to: a.to, width: 9 }),
        LineKey { from: a.from, to: a.to }
    );
}

#[test]
fn depth_is_the_squared_length_of_the_transformed_eye() {
    assert_eq!(Transform::scale(2).camera_depth(Vec3::new(-10, 0, 0)), 400);
    let t = Transform {
        x_axis: Axis::new(1, 2, 3),
        y_axis: Axis::new(4, 5, 6),
        z_axis: Axis::new(7, 8, 9),
        translation: Vec3::new(100, 100, 100),
    };
    // the negated eye (-1, -1, -1) goes to (-12, -15, -18); the translation plays no part
    assert_eq!(t.camera_depth(Vec3::new(1, 1, 1)), 144 + 225 + 324);
    let far = Transform::scale(i16::MIN).camera_depth(Vec3::new(i32::MIN, i32::MIN, i32::MIN));
    assert_eq!(far, 3 * (1u128 << 92));
}

#[test]
fn bounds_hold_the_lit_volume() {
    let light = PointLightCommand {
        core: Sphere::new(Vec3::new(1, 2, 3), 10),
        color: Color::rgb(0, 0, 0),
        penumbra: 5,
        power: 1,
    };
    assert_eq!(light.bounds(), Sphere::new(Vec3::new(1, 2, 3), 15));
    let huge = PointLightCommand { penumbra: u32::MAX, ..light };
    assert_eq!(huge.bounds().radius, u32::MAX);

    assert_eq!(rect(10, 20, 3, 40).bounds(), Sphere::new(Vec3::new(5, 6, 7), 73));
    assert_eq!(rect(u32::MAX, 20, 3, 40).bounds().radius, u32::MAX);

    assert_eq!(
        spot(20, 10, 40).bounds(),
        Cone::new(Vec3::new(5, 6, 7), Vec3::new(0, -1, 0), 40, 30)
    );
    assert_eq!(Sphere::new(Vec3::new(0, 0, 0), 7).grow(3).radius, 10);
}

#[test]
fn a_box_camera_sees_what_reaches_its_box() {
    let camera = BoxCamera::new(Vec3::new(1, 2, 3), Vec3::new(-10, -10, -10), Vec3::new(10, 10, 10));
    assert_eq!(camera.eye(), Vec3::new(1, 2, 3));
    assert!(camera.overlaps_sphere(Sphere::new(Vec3::new(0, 0, 0), 0)));
    assert!(camera.overlaps_sphere(Sphere::new(Vec3::new(20, 0, 0), 10)));
    assert!(!camera.overlaps_sphere(Sphere::new(Vec3::new(20, 0, 0), 9)));
    // the corner is 3, 4 and 12 away: 13 in all
    assert!(camera.overlaps_sphere(Sphere::new(Vec3::new(13, 14, 22), 13)));
    assert!(!camera.overlaps_sphere(Sphere::new(Vec3::new(13, 14, 22), 12)));
    assert!(!camera.overlaps_sphere(Sphere::new(Vec3::new(i32::MAX, i32::MIN, i32::MAX), 1)));
    assert!(camera.overlaps_sphere(Sphere::new(Vec3::new(i32::MAX, 0, 0), u32::MAX)));

    let cone = Cone::new(Vec3::new(30, 0, 0), Vec3::new(-1, 0, 0), 15, 5);
    assert!(camera.overlaps_cone(cone));
    assert!(!camera.overlaps_cone(Cone::new(Vec3::new(30, 0, 0), Vec3::new(-1, 0, 0), 15, 4)));
}

#[test]
fn commands_tell_their_kind() {
    let line = Command::Line(LineCommand { from: vertex(0, 0, 0), to: vertex(1, 1, 1), width: 2 });
    assert!(line.as_line().is_some());
    assert!(line.as_mesh().is_none() && line.as_rect_light().is_none());
    assert!(line.as_spotlight().is_none());
    let light = Command::RectLight(rect(1, 1, 1, 1));
    assert_eq!(light.as_rect_light(), Some(&rect(1, 1, 1, 1)));
    let light = Command::Spotlight(spot(1, 1, 1));
    assert_eq!(light.as_spotlight(), Some(&spot(1, 1, 1)));
    let mesh = Mesh {
        id: 1,
        bounds: Sphere::new(Vec3::new(0, 0, 0), 1),
        animated: true,
        textures: MeshTextures::Dual(1, 2),
    };
    assert!(mesh.is_animated() && !mesh.is_single_texture());
    let model = ModelCommand { mesh, transform: Transform::scale(1), camera_z: 0 };
    assert_eq!(Command::Mesh(model).as_mesh(), Some(&model));
}
