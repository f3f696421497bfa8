//! The instructions a compiled frame is submitted with, and the order in
//! which they are handed out.

use vstd::prelude::*;
use crate::code::Asm;
use crate::command::Command;
use crate::vertex_buf::{ByteRange, CopyRange};

verus! {

/// One step of the submission of a frame.
#[derive(Clone, Copy, Debug, PartialEq, Eq, Structural)]
pub enum Instruction {
    /// Make the moves which the vertex buffer has recorded, in their order.
    DataCopy,
    /// Copy the range of the vertex buffer to the GPU.
    DataWrite(ByteRange),
    /// Begin drawing meshes.
    MeshBegin,
    /// Bind the descriptor set of the number given.
    MeshDescriptorSet(usize),
    /// Bind the index and vertex data of the mesh of the identity given.
    MeshBind(u64),
    /// Draw the mesh of the command of the index given.
    MeshDraw(usize),
    /// Draw the sunlight of the command of the index given.
    SunlightDraw(usize),
    /// Draw the point light of the command of the index given, with the mesh
    /// at the front of the vertex buffer.
    PointLightDraw(usize),
    /// Draw the rectangular light of the command of the index given, with the
    /// mesh at the offset given, at the scale given.
    RectLightDraw(usize, usize, u32),
    /// Draw the spotlight of the command of the index given, with the mesh at
    /// the offset given, at the scale given.
    SpotlightDraw(usize, usize, u32),
    /// Draw the line of the command of the index given, with the mesh at the
    /// offset given.
    LineDraw(usize, usize),
    /// Nothing is left to do.
    Stop,
}

/// Whether the command at `i` is the first mesh.
pub open spec fn mesh_begins(s: Seq<Command>, i: int) -> bool {
    s[i] is Mesh && (i == 0 || !(s[i - 1] is Mesh))
}

/// Whether the mesh at `i` needs a descriptor set of its own: it is the first
/// mesh, or its textures or its pipeline are not those of the mesh in front
/// of it.
pub open spec fn set_starts(s: Seq<Command>, i: int) -> bool {
    s[i] is Mesh && (i == 0 || !(s[i - 1] is Mesh) || s[i - 1]->Mesh_0.mesh.textures
        != s[i]->Mesh_0.mesh.textures || s[i - 1]->Mesh_0.mesh.animated
        != s[i]->Mesh_0.mesh.animated)
}

/// Whether the mesh at `i` needs its data bound: it is the first mesh, or it
/// is not the mesh in front of it.
pub open spec fn bind_starts(s: Seq<Command>, i: int) -> bool {
    s[i] is Mesh && (i == 0 || !(s[i - 1] is Mesh) || s[i - 1]->Mesh_0.mesh.id
        != s[i]->Mesh_0.mesh.id)
}

/// The number of descriptor sets which the first `n` commands need.
pub open spec fn sets_before(s: Seq<Command>, n: int) -> nat
    decreases n,
{
    if n <= 0 {
        0
    } else {
        sets_before(s, n - 1) + if set_starts(s, n - 1) {
            1nat
        } else {
            0nat
        }
    }
}

/// The number of descriptor sets which the first `n` commands need for
/// meshes of two textures, if `dual`, or of one, if not.
pub open spec fn sets_of(s: Seq<Command>, n: int, dual: bool) -> nat
    decreases n,
{
    if n <= 0 {
        0
    } else {
        sets_of(s, n - 1, dual) + if set_starts(s, n - 1) && (s[n - 1]->Mesh_0.mesh.textures
            is Dual) == dual {
            1nat
        } else {
            0nat
        }
    }
}

/// The instruction which draws the light or line of the command at `i` as
/// it was noted.
pub open spec fn lit(note: Asm, i: usize) -> Instruction {
    match note {
        Asm::RectLight(offset, scale) => Instruction::RectLightDraw(i, offset, scale),
        Asm::Spotlight(offset, scale) => Instruction::SpotlightDraw(i, offset, scale),
        Asm::Line(offset) => Instruction::LineDraw(i, offset),
    }
}

/// The instructions for the command at `i`, where `first` is the index of
/// the first command which has a note.
///
/// A mesh is drawn after drawing meshes has begun, its descriptor set is
/// bound and its data is bound, each only where the mesh in front of it has
/// not done so already. Every other command is one instruction.
pub open spec fn body(s: Seq<Command>, notes: Seq<Asm>, first: int, i: int) -> Seq<Instruction> {
    match s[i] {
        Command::Mesh(c) => (if mesh_begins(s, i) {
            seq![Instruction::MeshBegin]
        } else {
            Seq::empty()
        }) + (if set_starts(s, i) {
            seq![Instruction::MeshDescriptorSet((sets_before(s, i + 1) - 1) as usize)]
        } else {
            Seq::empty()
        }) + (if bind_starts(s, i) {
            seq![Instruction::MeshBind(c.mesh.id)]
        } else {
            Seq::empty()
        }) + seq![Instruction::MeshDraw(i as usize)],
        Command::Sunlight(_) => seq![Instruction::SunlightDraw(i as usize)],
        Command::PointLight(_) => seq![Instruction::PointLightDraw(i as usize)],
        _ => seq![lit(notes[i - first], i as usize)],
    }
}

/// The instructions for the commands from `i` on, and the stop behind them.
pub open spec fn rest_from(s: Seq<Command>, notes: Seq<Asm>, first: int, i: int) -> Seq<
    Instruction,
>
    decreases s.len() - i,
{
    if i >= s.len() {
        seq![Instruction::Stop]
    } else {
        body(s, notes, first, i) + rest_from(s, notes, first, i + 1)
    }
}

/// The instructions which bring the GPU's copy of the vertex buffer up to
/// date: the recorded moves, if there are any, then the dirty range, if it
/// is not empty.
pub open spec fn header(copies: Seq<CopyRange>, dirty: Option<ByteRange>) -> Seq<Instruction> {
    (if copies.len() > 0 {
        seq![Instruction::DataCopy]
    } else {
        Seq::empty()
    }) + (match dirty {
        Some(d) => if d.start < d.end {
            seq![Instruction::DataWrite(d)]
        } else {
            Seq::empty()
        },
        None => Seq::empty(),
    })
}

/// All the instructions of a frame, in the order in which they are handed
/// out: buffer moves and writes come first, so that they precede the draws
/// which read what they bring.
pub open spec fn stream(
    s: Seq<Command>,
    notes: Seq<Asm>,
    first: int,
    copies: Seq<CopyRange>,
    dirty: Option<ByteRange>,
) -> Seq<Instruction> {
    header(copies, dirty) + rest_from(s, notes, first, 0)
}

/// Whether the instruction moves or writes bytes of the vertex buffer.
pub open spec fn is_transfer(i: Instruction) -> bool {
    i is DataCopy || i is DataWrite
}

/// No instruction for a command moves or writes bytes of the vertex buffer,
/// and the stop is the last of them.
pub proof fn lemma_rest_draws(s: Seq<Command>, notes: Seq<Asm>, first: int, i: int, k: int)
    requires
        0 <= i,
        0 <= k < rest_from(s, notes, first, i).len(),
    ensures
        !is_transfer(rest_from(s, notes, first, i)[k]),
        rest_from(s, notes, first, i)[k] is Stop <==> k == rest_from(s, notes, first, i).len()
            - 1,
    decreases s.len() - i,
{
    if i < s.len() {
        let here = body(s, notes, first, i);
        if k >= here.len() {
            lemma_rest_draws(s, notes, first, i + 1, k - here.len());
        } else {
            lemma_rest_draws(s, notes, first, i + 1, 0);
        }
    }
}

/// In the instructions of a frame every move and write of bytes of the
/// vertex buffer comes before every other instruction, and the stop comes
/// last.
pub proof fn lemma_transfers_first(
    s: Seq<Command>,
    notes: Seq<Asm>,
    first: int,
    copies: Seq<CopyRange>,
    dirty: Option<ByteRange>,
    i: int,
    j: int,
)
    requires
        0 <= i < stream(s, notes, first, copies, dirty).len(),
        0 <= j < stream(s, notes, first, copies, dirty).len(),
        is_transfer(stream(s, notes, first, copies, dirty)[i]),
        !is_transfer(stream(s, notes, first, copies, dirty)[j]),
    ensures
        i < j,
        stream(s, notes, first, copies, dirty).last() is Stop,
{
    let head = header(copies, dirty);
    let tail = rest_from(s, notes, first, 0);
    if i >= head.len() {
        lemma_rest_draws(s, notes, first, 0, i - head.len());
    }
    lemma_rest_draws(s, notes, first, 0, tail.len() - 1);
}

} // verus!
