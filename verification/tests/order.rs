use scene_compiler::camera::BoxCamera;
use scene_compiler::color::{AlphaColor, Color};
use scene_compiler::command::{
    Command, Extent, LineCommand, LineVertex, Mesh, MeshTextures, ModelCommand, PointLightCommand,
    RectLightCommand, Span, SpotlightCommand, SunlightCommand,
};
use scene_compiler::compilation::MeshSets;
use scene_compiler::compiler::Compiler;
use scene_compiler::group::{GroupIdx, SearchIdx};
use scene_compiler::instruction::Instruction;
use scene_compiler::math::{Sphere, Transform, Vec3};
use scene_compiler::sort::{cmd_ordered, find_texture, sort_commands};
use scene_compiler::stages::{
    Stages, ALL, LINE, MESH_ANIMATED, MESH_DUAL_TEX, MESH_SINGLE_TEX, POINTLIGHT, RECTLIGHT,
    SPOTLIGHT, SUNLIGHT,
};

fn camera() -> BoxCamera {
    BoxCamera::new(Vec3::new(0, 0, -7), Vec3::new(-100, -100, -100), Vec3::new(100, 100, 100))
}

fn mesh(id: u64, animated: bool, textures: MeshTextures, unit: i16) -> Command {
    Command::Mesh(ModelCommand {
        mesh: Mesh { id, bounds: Sphere::new(Vec3::new(0, 0, 0), 1), animated, textures },
        transform: Transform::scale(unit),
        camera_z: 0,
    })
}

fn line(width: u32) -> Command {
    let end = LineVertex { color: AlphaColor { r: 0, g: 0, b: 0, a: 255 }, pos: Vec3::new(0, 0, 0) };
    Command::Line(LineCommand { from: end, to: end, width })
}

fn sun() -> Command {
    Command::Sunlight(SunlightCommand {
        color: Color::rgb(255, 255, 0),
        normal: Vec3::new(0, -1, 0),
        power: 1,
    })
}

fn point(x: i32) -> Command {
    Command::PointLight(PointLightCommand {
        core: Sphere::new(Vec3::new(x, 0, 0), 1),
        color: Color::rgb(255, 255, 255),
        penumbra: 1,
        power: 1,
    })
}

fn rect(x: i32) -> Command {
    Command::RectLight(RectLightCommand {
        color: Color::rgb(255, 255, 255),
        dims: Extent { x: 1, y: 1 },
        radius: 1,
        pos: Vec3::new(x, 0, 0),
        power: 1,
        range: 1,
    })
}

fn spot(x: i32) -> Command {
    Command::Spotlight(SpotlightCommand {
        color: Color::rgb(255, 255, 255),
        cone_radius: 1,
        normal: Vec3::new(0, -1, 0),
        penumbra_radius: 1,
        pos: Vec3::new(x, 0, 0),
        power: 1,
        range: Span { start: 0, end: 2 },
        top_radius: 0,
    })
}

fn groups(cmds: &[Command]) -> Vec<u8> {
    cmds.iter().map(|c| Compiler::group_idx(c).index()).collect()
}

#[test]
fn groups_are_numbered_evenly() {
    assert_eq!(GroupIdx::Mesh.index(), 0);
    assert_eq!(GroupIdx::Sunlight.index(), 2);
    assert_eq!(GroupIdx::PointLight.index(), 4);
    assert_eq!(GroupIdx::RectLight.index(), 6);
    assert_eq!(GroupIdx::Spotlight.index(), 8);
    assert_eq!(GroupIdx::Line.index(), 10);
    assert_eq!(SearchIdx::PointLight.index(), 3);
    assert_eq!(SearchIdx::RectLight.index(), 5);
    assert_eq!(SearchIdx::Spotlight.index(), 7);
    assert_eq!(SearchIdx::Line.index(), 9);
    assert_eq!(Compiler::group_idx(&line(1)), GroupIdx::Line);
    assert_eq!(Compiler::group_idx(&sun()), GroupIdx::Sunlight);
    assert_eq!(Compiler::group_idx(&spot(0)), GroupIdx::Spotlight);
}

#[test]
fn meshes_have_three_sub_groups() {
    let m = |animated, textures| Mesh {
        id: 0,
        bounds: Sphere::new(Vec3::new(0, 0, 0), 1),
        animated,
        textures,
    };
    assert_eq!(Compiler::mesh_group_idx(&m(true, MeshTextures::Single(1))), 0);
    assert_eq!(Compiler::mesh_group_idx(&m(true, MeshTextures::Dual(1, 2))), 0);
    assert_eq!(Compiler::mesh_group_idx(&m(false, MeshTextures::Single(1))), 1);
    assert_eq!(Compiler::mesh_group_idx(&m(false, MeshTextures::Dual(1, 2))), 2);
}

#[test]
fn culling_keeps_what_the_camera_sees() {
    let camera = camera();
    let mut cmds = vec![
        point(500),
        rect(0),
        spot(500),
        line(1),
        point(0),
        rect(500),
        mesh(1, false, MeshTextures::Single(9), 3),
        spot(0),
        sun(),
    ];
    Compiler::cull(&camera, &mut cmds);
    assert_eq!(cmds.len(), 6);
    let mut kept = groups(&cmds);
    kept.sort();
    assert_eq!(kept, vec![0, 2, 4, 6, 8, 10]);
    for cmd in &cmds {
        match cmd {
            Command::PointLight(c) => assert_eq!(c.core.center.x, 0),
            Command::RectLight(c) => assert_eq!(c.pos.x, 0),
            Command::Spotlight(c) => assert_eq!(c.pos.x, 0),
            // the eye stands 7 in front: negated and scaled by 3 it is 21 long
            Command::Mesh(c) => assert_eq!(c.camera_z, 441),
            _ => {}
        }
    }

    let mut none: Vec<Command> = vec![point(500), rect(500), spot(500)];
    Compiler::cull(&camera, &mut none);
    assert!(none.is_empty());
}

#[test]
fn sorting_groups_the_commands() {
    let camera = camera();
    let mut compiler = Compiler::new();
    let mut cmds = vec![
        line(3),
        spot(0),
        mesh(1, false, MeshTextures::Dual(5, 6), 1),
        rect(0),
        line(1),
        point(0),
        mesh(2, false, MeshTextures::Single(9), 2),
        sun(),
        mesh(3, true, MeshTextures::Single(9), 1),
        mesh(4, false, MeshTextures::Single(9), 1),
        mesh(5, false, MeshTextures::Single(4), 9),
        line(2),
    ];
    Compiler::cull(&camera, &mut cmds);
    compiler.sort(&mut cmds);
    assert_eq!(groups(&cmds), vec![0, 0, 0, 0, 0, 2, 4, 6, 8, 10, 10, 10]);
    assert_eq!(compiler.mesh_textures(), &vec![4, 5, 6, 9]);
    let ids: Vec<u64> = cmds.iter().filter_map(|c| c.as_mesh()).map(|c| c.mesh.id).collect();
    // the animated mesh, then the meshes of one texture by slot and depth, then those of two
    assert_eq!(ids, vec![3, 5, 4, 2, 1]);
    let depths: Vec<u128> = cmds.iter().filter_map(|c| c.as_mesh()).map(|c| c.camera_z).collect();
    assert_eq!(depths, vec![49, 3969, 49, 196, 49]);
    let widths: Vec<u32> = cmds.iter().filter_map(|c| c.as_line()).map(|c| c.width).collect();
    assert_eq!(widths, vec![1, 2, 3]);

    assert_eq!(Compiler::group_start(&cmds, SearchIdx::PointLight), 6);
    assert_eq!(Compiler::group_start(&cmds, SearchIdx::RectLight), 7);
    assert_eq!(Compiler::group_start(&cmds, SearchIdx::Spotlight), 8);
    assert_eq!(Compiler::group_start(&cmds, SearchIdx::Line), 9);
    assert_eq!(Compiler::group_start(&Vec::new(), SearchIdx::Line), 0);

    let sets = MeshSets::required(&cmds);
    assert_eq!(sets, MeshSets { dual_tex: 1, single_tex: 3, trans: 0 });
    assert_eq!(
        Stages::required(&cmds).bits(),
        LINE | MESH_ANIMATED | MESH_DUAL_TEX | MESH_SINGLE_TEX | POINTLIGHT | RECTLIGHT
            | SPOTLIGHT | SUNLIGHT
    );
}

#[test]
fn textures_take_slots_in_rising_order() {
    let mut compiler = Compiler::new();
    assert_eq!(compiler.mesh_texture_idx(50), 0);
    assert_eq!(compiler.mesh_texture_idx(70), 1);
    assert_eq!(compiler.mesh_texture_idx(60), 1);
    assert_eq!(compiler.mesh_texture_idx(70), 2);
    assert_eq!(compiler.mesh_texture_idx(10), 0);
    assert_eq!(compiler.mesh_textures(), &vec![10, 50, 60, 70]);
    assert_eq!(find_texture(compiler.mesh_textures(), 60), Ok(2));
    assert_eq!(find_texture(compiler.mesh_textures(), 65), Err(3));
    assert_eq!(find_texture(compiler.mesh_textures(), 5), Err(0));
    compiler.reset();
    assert!(compiler.mesh_textures().is_empty());
}

#[test]
fn commands_are_ordered_by_their_keys() {
    let table = vec![4, 9];
    let near = mesh(1, false, MeshTextures::Single(9), 1);
    let mut far = near;
    if let Command::Mesh(c) = &mut far {
        c.camera_z = 10;
    }
    assert!(cmd_ordered(&table, &near, &far));
    assert!(!cmd_ordered(&table, &far, &near));
    assert!(cmd_ordered(&table, &near, &near));
    let other = mesh(2, false, MeshTextures::Single(4), 1);
    assert!(cmd_ordered(&table, &other, &near) && !cmd_ordered(&table, &near, &other));
    let dual = mesh(3, true, MeshTextures::Dual(9, 4), 1);
    let single = mesh(4, true, MeshTextures::Single(9), 1);
    assert!(cmd_ordered(&table, &single, &dual) && !cmd_ordered(&table, &dual, &single));
    assert!(cmd_ordered(&table, &sun(), &point(0)) && !cmd_ordered(&table, &point(0), &sun()));
    assert!(cmd_ordered(&table, &point(1), &point(2)) && cmd_ordered(&table, &point(2), &point(1)));
    assert!(cmd_ordered(&table, &line(1), &line(2)) && !cmd_ordered(&table, &line(2), &line(1)));

    let mut cmds = vec![line(2), far, sun(), near, line(1), other];
    sort_commands(&table, &mut cmds);
    assert_eq!(cmds, vec![other, near, far, sun(), line(1), line(2)]);
}

#[test]
fn meshes_share_descriptor_sets_and_bindings() {
    let camera = camera();
    let mut compiler = Compiler::new();
    let mut cmds = vec![
        mesh(7, false, MeshTextures::Single(9), 1),
        mesh(7, false, MeshTextures::Single(9), 2),
        mesh(8, false, MeshTextures::Single(9), 3),
        mesh(8, false, MeshTextures::Dual(9, 9), 1),
        sun(),
    ];
    let mut res = compiler.compile(&camera, &mut cmds).unwrap();
    assert_eq!(*res.mesh_sets_required(), MeshSets { dual_tex: 1, single_tex: 1, trans: 0 });
    assert_eq!(res.stages_required().bits(), MESH_SINGLE_TEX | MESH_DUAL_TEX | SUNLIGHT);
    assert_eq!(res.vertex_buf_mut().capacity(), 144);
    let mut out = Vec::new();
    while !res.is_empty() {
        out.push(res.next().unwrap());
    }
    assert_eq!(
        out,
        vec![
            Instruction::MeshBegin,
            Instruction::MeshDescriptorSet(0),
            Instruction::MeshBind(7),
            Instruction::MeshDraw(0),
            Instruction::MeshDraw(1),
            Instruction::MeshBind(8),
            Instruction::MeshDraw(2),
            Instruction::MeshDescriptorSet(1),
            Instruction::MeshDraw(3),
            Instruction::SunlightDraw(4),
            Instruction::Stop,
        ]
    );
}

#[test]
fn stages_are_sets_of_bits() {
    assert_eq!(Stages::bit(0), 1);
    assert_eq!(Stages::bit(3), MESH_SINGLE_TEX);
    assert_eq!(Stages::bit(8), SUNLIGHT);
    assert_eq!(ALL, 511);
    let mut stages = Stages::empty();
    assert!(stages.is_empty());
    stages.insert(LINE);
    stages.insert(SPOTLIGHT);
    assert_eq!(stages.bits(), 129);
    assert!(stages.contains(Stages::from_bits_truncate(LINE)));
    assert!(!stages.contains(Stages::from_bits_truncate(LINE | SUNLIGHT)));
    assert_eq!(Stages::from_bits_truncate(0xfff).bits(), 511);
    assert_eq!(stages.union(Stages::from_bits_truncate(SUNLIGHT)).bits(), 385);
    assert_eq!(Stages::stage(&line(1)), LINE);
    assert_eq!(Stages::stage(&mesh(1, true, MeshTextures::Dual(1, 2), 1)), MESH_ANIMATED);
    assert_eq!(Stages::stage(&mesh(1, false, MeshTextures::Dual(1, 2), 1)), MESH_DUAL_TEX);
}
