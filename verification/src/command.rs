//! The drawable commands a client submits for one frame.

use vstd::prelude::*;
use crate::camera::Camera;
use crate::color::{AlphaColor, Color};
use crate::math::{Cone, Sphere, Transform, Vec3, sat_add};

verus! {

/// The textures a mesh samples, each named by its identity.
#[derive(Clone, Copy, Debug, PartialEq, Eq, Structural)]
pub enum MeshTextures {
    Single(u64),
    Dual(u64, u64),
}

/// What the compiler reads of a mesh.
#[derive(Clone, Copy, Debug, PartialEq, Eq, Structural)]
pub struct Mesh {
    /// The identity of the mesh's vertex and index data.
    pub id: u64,
    pub bounds: Sphere,
    pub animated: bool,
    pub textures: MeshTextures,
}

/// Draws a mesh under a world transform.
#[derive(Clone, Copy, Debug, PartialEq, Eq, Structural)]
pub struct ModelCommand {
    pub mesh: Mesh,
    pub transform: Transform,
    /// The depth measure of the mesh; culling fills it in.
    pub camera_z: u128,
}

/// One end of a line segment.
#[derive(Clone, Copy, Debug, PartialEq, Eq, Structural)]
pub struct LineVertex {
    pub color: AlphaColor,
    pub pos: Vec3,
}

/// Draws a line segment.
#[derive(Clone, Copy, Debug, PartialEq, Eq, Structural)]
pub struct LineCommand {
    pub from: LineVertex,
    pub to: LineVertex,
    pub width: u32,
}

/// Draws a point light: a full-bright core and a penumbra around it.
#[derive(Clone, Copy, Debug, PartialEq, Eq, Structural)]
pub struct PointLightCommand {
    pub core: Sphere,
    pub color: Color,
    pub penumbra: u32,
    pub power: u32,
}

/// The distances between which a light is lit.
#[derive(Clone, Copy, Debug, PartialEq, Eq, Structural)]
pub struct Span {
    pub start: u32,
    pub end: u32,
}

/// The two sides of a rectangle.
#[derive(Clone, Copy, Debug, PartialEq, Eq, Structural)]
pub struct Extent {
    pub x: u32,
    pub y: u32,
}

/// Draws a rectangular light which shines downward from `pos`.
#[derive(Clone, Copy, Debug, PartialEq, Eq, Structural)]
pub struct RectLightCommand {
    pub color: Color,
    pub dims: Extent,
    /// How far the penumbra reaches beyond the lit box.
    pub radius: u32,
    /// The top-left corner when viewed from above.
    pub pos: Vec3,
    pub power: u32,
    /// The distance from `pos` to the bottom of the light.
    pub range: u32,
}

/// Draws sunlight: light of one direction everywhere.
#[derive(Clone, Copy, Debug, PartialEq, Eq, Structural)]
pub struct SunlightCommand {
    pub color: Color,
    pub normal: Vec3,
    pub power: u32,
}

/// Draws a spotlight: a cone of light from `pos` along `normal`.
#[derive(Clone, Copy, Debug, PartialEq, Eq, Structural)]
pub struct SpotlightCommand {
    pub color: Color,
    pub cone_radius: u32,
    pub normal: Vec3,
    pub penumbra_radius: u32,
    pub pos: Vec3,
    pub power: u32,
    /// The lit distances from `pos`.
    pub range: Span,
    pub top_radius: u32,
}

/// A drawable command.
#[derive(Clone, Copy, Debug, PartialEq, Eq, Structural)]
pub enum Command {
    Mesh(ModelCommand),
    PointLight(PointLightCommand),
    RectLight(RectLightCommand),
    Spotlight(SpotlightCommand),
    Sunlight(SunlightCommand),
    Line(LineCommand),
}

impl Mesh {
    /// Whether the mesh is animated.
    pub fn is_animated(&self) -> (r: bool)
        ensures
            r == self.animated,
    {
        self.animated
    }

    /// Whether the mesh samples one texture only.
    pub fn is_single_texture(&self) -> (r: bool)
        ensures
            r == (self.textures is Single),
    {
        match self.textures {
            MeshTextures::Single(_) => true,
            MeshTextures::Dual(_, _) => false,
        }
    }
}

impl MeshTextures {
    /// The first texture.
    pub open spec fn first(&self) -> u64 {
        match *self {
            MeshTextures::Single(a) => a,
            MeshTextures::Dual(a, _) => a,
        }
    }

    /// The textures in order.
    pub open spec fn list(&self) -> Seq<u64> {
        match *self {
            MeshTextures::Single(a) => seq![a],
            MeshTextures::Dual(a, b) => seq![a, b],
        }
    }
}

impl PointLightCommand {
    /// The sphere around the lit area of this light, penumbra included.
    pub open spec fn bounding(&self) -> Sphere {
        self.core.grown(self.penumbra)
    }

    /// Returns the sphere around the lit area of this light, penumbra included.
    pub fn bounds(&self) -> (s: Sphere)
        ensures
            s == self.bounding(),
    {
        self.core.grow(self.penumbra)
    }
}

impl RectLightCommand {
    /// The sphere around `pos` which holds the lit box and its penumbra: its
    /// radius is the sum of the box's three sides and the penumbra's reach.
    pub open spec fn bounding(&self) -> Sphere {
        Sphere {
            center: self.pos,
            radius: sat_add(
                sat_add(sat_add(self.dims.x as int, self.dims.y as int), self.range as int),
                self.radius as int,
            ) as u32,
        }
    }

    /// Returns a sphere which holds the lit area of this light, penumbra
    /// included.
    pub fn bounds(&self) -> (s: Sphere)
        ensures
            s == self.bounding(),
    {
        let sides: u32 = self.dims.x.saturating_add(self.dims.y);
        let reach: u32 = sides.saturating_add(self.range);
        Sphere { center: self.pos, radius: reach.saturating_add(self.radius) }
    }
}

impl SpotlightCommand {
    /// The cone around the lit area of this light, penumbra included.
    pub open spec fn bounding(&self) -> Cone {
        Cone {
            apex: self.pos,
            normal: self.normal,
            height: self.range.end,
            radius: sat_add(self.cone_radius as int, self.penumbra_radius as int) as u32,
        }
    }

    /// Returns the cone around the lit area of this light, penumbra included.
    pub fn bounds(&self) -> (c: Cone)
        ensures
            c == self.bounding(),
    {
        Cone::new(
            self.pos,
            self.normal,
            self.range.end,
            self.cone_radius.saturating_add(self.penumbra_radius),
        )
    }
}

impl Command {
    /// The mesh command, if this is one.
    pub fn as_mesh(&self) -> (r: Option<&ModelCommand>)
        ensures
            r == (match *self {
                Command::Mesh(c) => Some(&c),
                _ => None,
            }),
    {
        match self {
            Command::Mesh(c) => Some(c),
            _ => None,
        }
    }

    /// The line command, if this is one.
    pub fn as_line(&self) -> (r: Option<&LineCommand>)
        ensures
            r == (match *self {
                Command::Line(c) => Some(&c),
                _ => None,
            }),
    {
        match self {
            Command::Line(c) => Some(c),
            _ => None,
        }
    }

    /// The rectangular light command, if this is one.
    pub fn as_rect_light(&self) -> (r: Option<&RectLightCommand>)
        ensures
            r == (match *self {
                Command::RectLight(c) => Some(&c),
                _ => None,
            }),
    {
        match self {
            Command::RectLight(c) => Some(c),
            _ => None,
        }
    }

    /// The spotlight command, if this is one.
    pub fn as_spotlight(&self) -> (r: Option<&SpotlightCommand>)
        ensures
            r == (match *self {
                Command::Spotlight(c) => Some(&c),
                _ => None,
            }),
    {
        match self {
            Command::Spotlight(c) => Some(c),
            _ => None,
        }
    }

    /// Whether `camera` sees the command's bounding shape. Lines and sunlight
    /// have none and are always seen.
    pub open spec fn visible<C: Camera>(&self, camera: &C) -> bool {
        match *self {
            Command::Mesh(c) => camera.sees_sphere(c.mesh.bounds),
            Command::PointLight(c) => camera.sees_sphere(c.bounding()),
            Command::RectLight(c) => camera.sees_sphere(c.bounding()),
            Command::Spotlight(c) => camera.sees_cone(c.bounding()),
            Command::Sunlight(_) => true,
            Command::Line(_) => true,
        }
    }

    /// The command as it leaves culling: a mesh carries its depth measure as
    /// seen from `eye`, every other command is unchanged.
    pub open spec fn measured(&self, eye: Vec3) -> Command {
        match *self {
            Command::Mesh(c) => Command::Mesh(
                ModelCommand {
                    mesh: c.mesh,
                    transform: c.transform,
                    camera_z: c.transform.depth(eye) as u128,
                },
            ),
            _ => *self,
        }
    }
}

} // verus!
