//! A per-frame scene-command compiler and geometry cache for a deferred
//! renderer.
//!
//! A frame's drawable commands are culled against a camera, sorted into an
//! order that keeps pipeline and descriptor switches low, and resolved against
//! a cache of generated light and line meshes which lives in one shared vertex
//! buffer. The result is a pull-based stream of submission instructions.
//!
//! Beside the compiler stand the layout of the geometry buffer a frame is
//! rendered into, and the glyph atlas text is drawn from.
//!
//! All quantities are fixed-point integers, so every rule of the library is
//! stated exactly and proved. The one thing taken on trust is what the
//! allocator of the atlas pages does; it is marked where it is used.

pub mod atlas;
pub mod camera;
pub mod code;
pub mod color;
pub mod command;
pub mod compilation;
pub mod compiler;
pub mod cull;
pub mod fill;
pub mod geom;
pub mod geom_buf;
pub mod group;
pub mod instruction;
pub mod key;
pub mod lru;
pub mod material;
pub mod math;
pub mod solid;
pub mod sort;
pub mod stages;
pub mod vertex_buf;
