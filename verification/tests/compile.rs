use scene_compiler::camera::{BoxCamera, Camera};
use scene_compiler::color::{AlphaColor, Color};
use scene_compiler::command::{
    Command, Extent, LineCommand, LineVertex, Mesh, MeshTextures, ModelCommand, PointLightCommand,
    RectLightCommand, Span, SpotlightCommand, SunlightCommand,
};
use scene_compiler::compiler::{CompileError, Compiler};
use scene_compiler::geom::{gen_line, gen_point_light, gen_rect_light, gen_spotlight};
use scene_compiler::instruction::Instruction;
use scene_compiler::key::{LineKey, RectLightKey, SpotlightKey};
use scene_compiler::math::{Cone, Sphere, Transform, Vec3};
use scene_compiler::stages::{LINE, MESH_SINGLE_TEX, POINTLIGHT, RECTLIGHT, SPOTLIGHT};
use scene_compiler::vertex_buf::{ByteRange, CopyRange};

fn camera() -> BoxCamera {
    BoxCamera::new(Vec3::new(-10, 0, 0), Vec3::new(-100, -100, -100), Vec3::new(100, 100, 100))
}

fn white() -> Color {
    Color::rgb(255, 255, 255)
}

fn mesh_at(id: u64, x: i32, texture: u64) -> Command {
    Command::Mesh(ModelCommand {
        mesh: Mesh {
            id,
            bounds: Sphere::new(Vec3::new(x, 0, 0), 10),
            animated: false,
            textures: MeshTextures::Single(texture),
        },
        transform: Transform::scale(2),
        camera_z: 0,
    })
}

fn rect_light(side: u32, radius: u32, range: u32) -> Command {
    Command::RectLight(RectLightCommand {
        color: white(),
        dims: Extent { x: side, y: side },
        radius,
        pos: Vec3::new(0, 0, 0),
        power: 1,
        range,
    })
}

fn spotlight(cone_radius: u32, end: u32) -> Command {
    Command::Spotlight(SpotlightCommand {
        color: white(),
        cone_radius,
        normal: Vec3::new(0, -1, 0),
        penumbra_radius: 0,
        pos: Vec3::new(0, 0, 0),
        power: 1,
        range: Span { start: 0, end },
        top_radius: 0,
    })
}

fn point_light() -> Command {
    Command::PointLight(PointLightCommand {
        core: Sphere::new(Vec3::new(0, 0, 0), 5),
        color: white(),
        penumbra: 5,
        power: 1,
    })
}

fn vertex(x: i32) -> LineVertex {
    LineVertex { color: AlphaColor { r: 1, g: 2, b: 3, a: 4 }, pos: Vec3::new(x, 0, 0) }
}

fn line(x: i32, width: u32) -> Command {
    Command::Line(LineCommand { from: vertex(x), to: vertex(x + 1), width })
}

fn drain(mut compilation: scene_compiler::compilation::Compilation) -> Vec<Instruction> {
    let mut out = Vec::new();
    while let Some(instruction) = compilation.next() {
        out.push(instruction);
    }
    out
}

#[test]
fn test_no_commands() {
    let camera = {
        let eye = Vec3::new(-10, 0, 0);
        let target = Vec3::new(10, 0, 0);
        let width = 320.0;
        let height = 200.0;
        let fov: f32 = 45.0;
        let near = 1;
        let far = 100;
        // the box around the view volume of such a camera, which looks along x
        assert!(target.x > eye.x && target.y == eye.y && target.z == eye.z);
        let half_height = (far as f32 * (fov.to_radians() / 2.0).tan()) as i32;
        let half_width = (half_height as f32 * width / height) as i32;
        BoxCamera::new(
            eye,
            Vec3::new(eye.x + near, -half_height, -half_width),
            Vec3::new(eye.x + far, half_height, half_width),
        )
    };
    let mut compiler = Compiler::default();
    let mut cmds: Vec<Command> = vec![];
    let mut res = compiler.compile(&camera, &mut cmds).unwrap();

    assert!(res.stages_required().is_empty());
    assert_eq!(res.mesh_sets_required().dual_tex, 0);
    assert_eq!(res.mesh_sets_required().single_tex, 0);
    assert_eq!(res.mesh_sets_required().trans, 0);
    assert!(!res.is_empty());
    assert_eq!(res.next(), Some(Instruction::Stop));
    assert!(res.is_empty());
    assert_eq!(res.next(), None);
    assert_eq!(res.next(), None);
}

#[test]
fn one_mesh_of_three_is_in_view() {
    let camera = camera();
    let mut compiler = Compiler::new();
    let mut cmds = vec![mesh_at(1, 500, 7), mesh_at(2, 0, 7), mesh_at(3, -500, 7)];
    let res = compiler.compile(&camera, &mut cmds).unwrap();

    assert_eq!(res.cmds().len(), 1);
    match res.cmds()[0] {
        Command::Mesh(c) => {
            assert_eq!(c.mesh.id, 2);
            // the eye stands at (-10, 0, 0); negated and doubled it is (20, 0, 0)
            assert_eq!(c.camera_z, 400);
        }
        _ => panic!("the survivor is a mesh"),
    }
    assert_eq!(res.stages_required().bits(), MESH_SINGLE_TEX);
    assert_eq!(res.mesh_sets_required().single_tex, 1);
    assert_eq!(res.mesh_sets_required().dual_tex, 0);
    assert_eq!(
        drain(res),
        vec![
            Instruction::MeshBegin,
            Instruction::MeshDescriptorSet(0),
            Instruction::MeshBind(2),
            Instruction::MeshDraw(0),
            Instruction::Stop,
        ]
    );
    assert_eq!(compiler.mesh_textures(), &vec![7]);
}

#[test]
fn two_rect_lights_of_one_key_share_one_mesh() {
    let camera = camera();
    let mut compiler = Compiler::new();
    let a = rect_light(10000, 1000, 5000);
    let b = rect_light(10000, 1010, 5000);
    let c = rect_light(20000, 2000, 10000);
    let mut cmds = vec![a, b, c];
    let res = compiler.compile(&camera, &mut cmds).unwrap();

    assert_eq!(res.stages_required().bits(), RECTLIGHT);
    assert_eq!(
        drain(res),
        vec![
            // a frame of three lights is 216 bytes long, which is more than the 144 there
            // are: the buffer grew, so what it holds is new to the GPU, but one mesh only
            // was written
            Instruction::DataWrite(ByteRange { start: 0, end: 120 }),
            Instruction::RectLightDraw(0, 72, 10000),
            Instruction::RectLightDraw(1, 72, 10000),
            Instruction::RectLightDraw(2, 72, 20000),
            Instruction::Stop,
        ]
    );
    let key = RectLightKey { dims_x: 255, dims_y: 255, radius: 26, range: 128 };
    assert_eq!(compiler.rect_light(&key), Some((72, true)));
    assert_eq!(compiler.vertex_len(), 120);
    assert_eq!(compiler.vertex_buf().capacity(), 432);

    // a frame without lights lets the mesh be evicted
    compiler.reset();
    let mut cmds = vec![];
    drain(compiler.compile(&camera, &mut cmds).unwrap());
    compiler.reset();
    assert_eq!(compiler.rect_light(&key), None);
    assert_eq!(compiler.vertex_len(), 72);
    assert!(compiler.vertex_buf().gpu_dirty().is_empty());

    // two lights of one key in a buffer which has room for them: the one mesh is all
    // that is written
    let mut cmds = vec![rect_light(10000, 1000, 5000), rect_light(10000, 1010, 5000)];
    let res = compiler.compile(&camera, &mut cmds).unwrap();
    assert_eq!(
        drain(res),
        vec![
            Instruction::DataWrite(ByteRange { start: 72, end: 120 }),
            Instruction::RectLightDraw(0, 72, 10000),
            Instruction::RectLightDraw(1, 72, 10000),
            Instruction::Stop,
        ]
    );
    assert_eq!(compiler.vertex_buf().capacity(), 432);
    assert_eq!(&compiler.vertex_buf().data()[72..120], &gen_rect_light((255, 255), 128, 26)[..]);
}

fn frame() -> Vec<Command> {
    vec![line(3, 1), spotlight(30, 40), rect_light(10000, 1000, 5000)]
}

#[test]
fn a_frame_is_sorted_and_cached() {
    let camera = camera();
    let mut compiler = Compiler::new();
    let mut cmds = frame();
    let res = compiler.compile(&camera, &mut cmds).unwrap();

    assert_eq!(res.stages_required().bits(), LINE | SPOTLIGHT | RECTLIGHT);
    assert_eq!(
        drain(res),
        vec![
            // the buffer grew from 144 bytes: all 206 bytes in use are new to the GPU
            Instruction::DataWrite(ByteRange { start: 0, end: 206 }),
            Instruction::RectLightDraw(0, 72, 10000),
            Instruction::SpotlightDraw(1, 120, 40),
            Instruction::LineDraw(2, 174),
            Instruction::Stop,
        ]
    );
    assert_eq!(compiler.vertex_len(), 206);
    // twice the 206 bytes which the frame could bring into use
    assert_eq!(compiler.vertex_buf().capacity(), 412);
    // what was cached before the buffer grew is still there
    let data = compiler.vertex_buf().data();
    assert_eq!(&data[72..120], &gen_rect_light((255, 255), 128, 26)[..]);
    assert_eq!(&data[120..174], &gen_spotlight(191, 255)[..]);
    assert_eq!(&data[174..206], &gen_line(&vertex(3), &vertex(4))[..]);
}

#[test]
fn a_repeated_frame_writes_nothing() {
    let camera = camera();
    let mut compiler = Compiler::new();
    let mut cmds = frame();
    drain(compiler.compile(&camera, &mut cmds).unwrap());
    compiler.reset();

    let mut cmds = frame();
    let res = compiler.compile(&camera, &mut cmds).unwrap();
    assert_eq!(
        drain(res),
        vec![
            Instruction::RectLightDraw(0, 72, 10000),
            Instruction::SpotlightDraw(1, 120, 40),
            Instruction::LineDraw(2, 174),
            Instruction::Stop,
        ]
    );
    assert_eq!(compiler.vertex_buf().cpu_dirty(), None);
    assert!(compiler.vertex_buf().gpu_dirty().is_empty());
    assert_eq!(compiler.spotlight(&SpotlightKey { radius: 191, range: 255 }), Some((120, true)));
    assert_eq!(compiler.vertex_len(), 206);
    assert_eq!(compiler.vertex_buf().capacity(), 412);
}

#[test]
fn what_a_frame_does_not_use_is_evicted() {
    let camera = camera();
    let mut compiler = Compiler::new();
    let mut cmds = frame();
    drain(compiler.compile(&camera, &mut cmds).unwrap());
    compiler.reset();

    let rect = RectLightKey { dims_x: 255, dims_y: 255, radius: 26, range: 128 };
    let spot = SpotlightKey { radius: 191, range: 255 };
    let key = LineKey { from: vertex(3), to: vertex(4) };
    assert_eq!(compiler.rect_light(&rect), Some((72, false)));
    assert_eq!(compiler.spotlight(&spot), Some((120, false)));
    assert_eq!(compiler.line(&key), Some((174, false)));

    // the second frame draws the line only
    let mut cmds = vec![line(3, 1)];
    drain(compiler.compile(&camera, &mut cmds).unwrap());
    assert_eq!(compiler.rect_light(&rect), Some((72, false)));
    assert_eq!(compiler.line(&key), Some((174, true)));
    compiler.reset();

    assert_eq!(compiler.rect_light(&rect), None);
    assert_eq!(compiler.spotlight(&spot), None);
    assert_eq!(compiler.line(&key), Some((72, false)));
    assert_eq!(compiler.vertex_len(), 104);
    assert_eq!(compiler.vertex_buf().capacity(), 412);
    assert_eq!(compiler.vertex_buf().cpu_dirty(), None);
    assert_eq!(
        compiler.vertex_buf().gpu_dirty(),
        &vec![
            CopyRange { src: ByteRange { start: 120, end: 206 }, dst: 72 },
            CopyRange { src: ByteRange { start: 126, end: 158 }, dst: 72 },
        ]
    );
    assert_eq!(&compiler.vertex_buf().data()[72..104], &gen_line(&vertex(3), &vertex(4))[..]);

    // the third frame needs the moves made, and writes the new mesh into the room given back
    let mut cmds = vec![line(3, 1), line(8, 1)];
    let res = compiler.compile(&camera, &mut cmds).unwrap();
    assert_eq!(
        drain(res),
        vec![
            Instruction::DataCopy,
            Instruction::DataWrite(ByteRange { start: 104, end: 136 }),
            Instruction::LineDraw(0, 72),
            Instruction::LineDraw(1, 104),
            Instruction::Stop,
        ]
    );
}

#[test]
fn the_buffer_grows_for_what_the_commands_could_need() {
    let camera = camera();
    let mut compiler = Compiler::new();
    let mut cmds = vec![line(3, 1)];
    drain(compiler.compile(&camera, &mut cmds).unwrap());
    assert_eq!(compiler.vertex_len(), 104);
    assert_eq!(compiler.vertex_buf().capacity(), 144);
    compiler.reset();
    assert!(compiler.vertex_buf().gpu_dirty().is_empty());

    // a frame of three commands of the line which is cached is 168 bytes long, which is
    // more than the 144 there are: the buffer grows to twice the 200 bytes there could
    // come into use, though no mesh is new
    let mut cmds = vec![line(3, 1), line(3, 2), line(3, 3)];
    let res = compiler.compile(&camera, &mut cmds).unwrap();
    assert_eq!(
        drain(res),
        vec![
            Instruction::DataWrite(ByteRange { start: 0, end: 104 }),
            Instruction::LineDraw(0, 72),
            Instruction::LineDraw(1, 72),
            Instruction::LineDraw(2, 72),
            Instruction::Stop,
        ]
    );
    assert_eq!(compiler.vertex_len(), 104);
    assert_eq!(compiler.vertex_buf().capacity(), 400);
    assert_eq!(&compiler.vertex_buf().data()[72..104], &gen_line(&vertex(3), &vertex(4))[..]);
    assert_eq!(compiler.line(&LineKey { from: vertex(3), to: vertex(4) }), Some((72, true)));
}

#[test]
fn the_buffer_grows_for_what_comes_into_use() {
    let camera = camera();
    let mut compiler = Compiler::new();
    let mut cmds = vec![line(3, 1), line(5, 1)];
    drain(compiler.compile(&camera, &mut cmds).unwrap());
    assert_eq!(compiler.vertex_len(), 136);
    assert_eq!(compiler.vertex_buf().capacity(), 144);
    compiler.reset();

    // the same frame again fits as it did, finds its meshes and writes nothing
    let mut cmds = vec![line(3, 1), line(5, 1)];
    let res = compiler.compile(&camera, &mut cmds).unwrap();
    assert_eq!(
        drain(res),
        vec![Instruction::LineDraw(0, 72), Instruction::LineDraw(1, 104), Instruction::Stop]
    );
    assert_eq!(compiler.vertex_buf().capacity(), 144);
    compiler.reset();

    // a frame of two other lines is no longer, but its meshes go behind the 136 bytes in
    // use: the buffer grows to twice the 200 bytes there could be, and keeps what it held
    let mut cmds = vec![line(7, 1), line(9, 1)];
    let res = compiler.compile(&camera, &mut cmds).unwrap();
    assert_eq!(
        drain(res),
        vec![
            Instruction::DataWrite(ByteRange { start: 0, end: 200 }),
            Instruction::LineDraw(0, 136),
            Instruction::LineDraw(1, 168),
            Instruction::Stop,
        ]
    );
    assert_eq!(compiler.vertex_len(), 200);
    assert_eq!(compiler.vertex_buf().capacity(), 400);
    let data = compiler.vertex_buf().data();
    assert_eq!(&data[72..104], &gen_line(&vertex(3), &vertex(4))[..]);
    assert_eq!(&data[104..136], &gen_line(&vertex(5), &vertex(6))[..]);
    assert_eq!(&data[136..168], &gen_line(&vertex(7), &vertex(8))[..]);
    assert_eq!(&data[168..200], &gen_line(&vertex(9), &vertex(10))[..]);
}

#[test]
fn the_point_light_is_written_once_a_frame() {
    let camera = camera();
    let mut compiler = Compiler::new();
    let mut cmds = vec![point_light(), point_light()];
    let res = compiler.compile(&camera, &mut cmds).unwrap();
    assert_eq!(res.stages_required().bits(), POINTLIGHT);
    assert_eq!(
        drain(res),
        vec![
            Instruction::DataWrite(ByteRange { start: 0, end: 72 }),
            Instruction::PointLightDraw(0),
            Instruction::PointLightDraw(1),
            Instruction::Stop,
        ]
    );
    assert!(compiler.has_point_light());
    assert_eq!(&compiler.vertex_buf().data()[0..72], &gen_point_light()[..]);
    compiler.reset();
    assert!(!compiler.has_point_light());
}

#[test]
fn a_frame_beyond_the_limit_is_refused() {
    let camera = camera();
    let mut compiler = Compiler::with_limit(205);
    let mut cmds = frame();
    match compiler.compile(&camera, &mut cmds) {
        Err(e) => assert_eq!(e, CompileError::CapacityOverflow),
        Ok(_) => panic!("206 bytes do not fit into 205"),
    }
    assert_eq!(compiler.vertex_len(), 72);
    assert_eq!(compiler.vertex_buf().capacity(), 144);
    assert_eq!(compiler.vertex_buf().cpu_dirty(), None);
    assert!(compiler.code().is_empty());

    let mut compiler = Compiler::with_limit(206);
    let mut cmds = frame();
    assert!(compiler.compile(&camera, &mut cmds).is_ok());
    assert_eq!(compiler.vertex_len(), 206);
    // twice the 206 bytes which could come into use is beyond the limit
    assert_eq!(compiler.vertex_buf().capacity(), 206);

    // a frame of lights which are cached is refused as well if it could need too much
    compiler.reset();
    let mut cmds = vec![line(3, 1)];
    assert!(compiler.compile(&camera, &mut cmds).is_err());
    assert_eq!(compiler.vertex_len(), 206);
    assert_eq!(compiler.vertex_buf().limit(), 206);
}

/// A camera which sees nothing.
struct Blind;

impl Camera for Blind {
    fn eye_point(&self) -> Vec3 {
        self.eye()
    }

    fn sees_sphere(&self, sphere: Sphere) -> bool {
        self.overlaps_sphere(sphere)
    }

    fn sees_cone(&self, cone: Cone) -> bool {
        self.overlaps_cone(cone)
    }

    fn eye(&self) -> Vec3 {
        Vec3::new(1, 2, 3)
    }

    fn overlaps_sphere(&self, _: Sphere) -> bool {
        false
    }

    fn overlaps_cone(&self, _: Cone) -> bool {
        false
    }
}

#[test]
fn a_camera_of_ones_own_decides() {
    let mut compiler = Compiler::new();
    let mut cmds = vec![mesh_at(1, 0, 7), point_light(), rect_light(1, 1, 1), spotlight(1, 1), line(0, 1)];
    let res = compiler.compile(&Blind, &mut cmds).unwrap();
    assert_eq!(res.stages_required().bits(), LINE);
    assert_eq!(
        drain(res),
        vec![
            Instruction::DataWrite(ByteRange { start: 72, end: 104 }),
            Instruction::LineDraw(0, 72),
            Instruction::Stop,
        ]
    );
    assert!(compiler.mesh_textures().is_empty());
}

#[test]
fn sunlight_and_lines_are_never_culled() {
    let camera = camera();
    let far = LineVertex { color: AlphaColor { r: 0, g: 0, b: 0, a: 0 }, pos: Vec3::new(9000, 0, 0) };
    let mut cmds = vec![
        Command::Line(LineCommand { from: far, to: far, width: 2 }),
        Command::Sunlight(SunlightCommand { color: white(), normal: Vec3::new(0, -1, 0), power: 3 }),
        mesh_at(1, 900, 1),
    ];
    Compiler::cull(&camera, &mut cmds);
    assert_eq!(cmds.len(), 2);
    assert!(cmds.iter().any(|c| matches!(c, Command::Line(_))));
    assert!(cmds.iter().any(|c| matches!(c, Command::Sunlight(_))));
}
