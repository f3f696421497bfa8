//! Compiling a frame, and the compiled frame: a pull-based sequence of
//! instructions.

use vstd::prelude::*;
use vstd::seq_lib::*;
use crate::camera::Camera;
use crate::code::Asm;
use crate::command::Command;
use crate::compiler::{
    frame_len, lemma_nothing_evicted, lemma_repeat_frame, point_lit, projected, textured,
    CompileError, Compiler,
};
use crate::fill::wanted;
use crate::key::{LineKey, RectLightKey, SpotlightKey};
use crate::cull::survivors;
use crate::group::{boundary, lemma_boundaries_rise, SearchIdx};
use crate::instruction::{
    bind_starts, body, header, is_transfer, lemma_rest_draws, mesh_begins, rest_from, set_starts,
    sets_before, sets_of, stream, Instruction,
};
use crate::sort::{lemma_sorted_grouped, sorted_cmds};
use crate::stages::{stages_of, Stages};
use crate::vertex_buf::VertexBuf;

verus! {

/// How many descriptor sets the meshes of a frame need, by the number of
/// textures of a mesh.
#[derive(Clone, Copy, Debug, Default, PartialEq, Eq, Structural)]
pub struct MeshSets {
    pub dual_tex: usize,
    pub single_tex: usize,
    pub trans: usize,
}

/// A compiled frame: the commands in the order in which they are drawn, and
/// the instructions which draw them, handed out one at a time.
pub struct Compilation<'c, 'm> {
    cmds: &'m Vec<Command>,
    compiler: &'c Compiler,
    idx: usize,
    pending: Vec<Instruction>,
    sub: usize,
    stopped: bool,
    sets: usize,
    first: usize,
    mesh_sets: MeshSets,
    stages: Stages,
}

/// Whether the commands in front of `first`, and they only, are meshes,
/// sunlight and point lights: the commands for which nothing is noted.
pub open spec fn noted_from(s: Seq<Command>, first: int) -> bool {
    &&& 0 <= first <= s.len()
    &&& forall|i: int|
        0 <= i < s.len() ==> (i < first <==> ((#[trigger] s[i]) is Mesh || s[i] is Sunlight
            || s[i] is PointLight))
}

impl MeshSets {
    /// Counts the descriptor sets which the meshes among the commands need.
    pub fn required(cmds: &Vec<Command>) -> (sets: MeshSets)
        ensures
            sets.single_tex == sets_of(cmds@, cmds@.len() as int, false),
            sets.dual_tex == sets_of(cmds@, cmds@.len() as int, true),
            sets.trans == 0,
    {
        let mut sets = MeshSets { dual_tex: 0, single_tex: 0, trans: 0 };
        let n: usize = cmds.len();
        let mut i: usize = 0;
        while i < n
            invariant
                i <= n == cmds@.len(),
                sets.single_tex == sets_of(cmds@, i as int, false),
                sets.dual_tex == sets_of(cmds@, i as int, true),
                sets.single_tex <= i,
                sets.dual_tex <= i,
                sets.trans == 0,
            decreases n - i,
        {
            if starts_set(cmds, i) {
                match cmds[i] {
                    Command::Mesh(c) => {
                        if c.mesh.is_single_texture() {
                            sets.single_tex = sets.single_tex + 1;
                        } else {
                            sets.dual_tex = sets.dual_tex + 1;
                        }
                    },
                    _ => {},
                }
            }
            i = i + 1;
        }
        sets
    }
}

/// Computes [`mesh_begins`].
fn begins_meshes(cmds: &Vec<Command>, i: usize) -> (r: bool)
    requires
        i < cmds@.len(),
    ensures
        r == mesh_begins(cmds@, i as int),
{
    match cmds[i] {
        Command::Mesh(_) => {
            if i == 0 {
                true
            } else {
                match cmds[i - 1] {
                    Command::Mesh(_) => false,
                    _ => true,
                }
            }
        },
        _ => false,
    }
}

/// Computes [`set_starts`].
fn starts_set(cmds: &Vec<Command>, i: usize) -> (r: bool)
    requires
        i < cmds@.len(),
    ensures
        r == set_starts(cmds@, i as int),
{
    match cmds[i] {
        Command::Mesh(c) => {
            if i == 0 {
                true
            } else {
                match cmds[i - 1] {
                    Command::Mesh(p) => p.mesh.textures != c.mesh.textures || p.mesh.animated
                        != c.mesh.animated,
                    _ => true,
                }
            }
        },
        _ => false,
    }
}

/// Computes [`bind_starts`].
fn starts_bind(cmds: &Vec<Command>, i: usize) -> (r: bool)
    requires
        i < cmds@.len(),
    ensures
        r == bind_starts(cmds@, i as int),
{
    match cmds[i] {
        Command::Mesh(c) => {
            if i == 0 {
                true
            } else {
                match cmds[i - 1] {
                    Command::Mesh(p) => p.mesh.id != c.mesh.id,
                    _ => true,
                }
            }
        },
        _ => false,
    }
}

impl<'c, 'm> Compilation<'c, 'm> {
    /// The commands of the frame, in the order in which they are drawn.
    pub closed spec fn commands(&self) -> Seq<Command> {
        self.cmds@
    }

    /// The compiler which compiled the frame.
    pub closed spec fn compiler(&self) -> Compiler {
        *self.compiler
    }

    /// The index of the first command which has a note.
    pub closed spec fn first_noted(&self) -> int {
        self.first as int
    }

    /// The stages the frame requires.
    pub closed spec fn stages(&self) -> Stages {
        self.stages
    }

    /// The descriptor sets the meshes of the frame require.
    pub closed spec fn mesh_sets(&self) -> MeshSets {
        self.mesh_sets
    }

    /// The instructions which have not been handed out yet.
    pub closed spec fn remaining(&self) -> Seq<Instruction> {
        self.pending@.skip(self.sub as int) + if self.stopped {
            Seq::empty()
        } else {
            rest_from(self.cmds@, self.compiler.notes(), self.first as int, self.idx as int)
        }
    }

    /// The cursor of the compilation is sound.
    pub closed spec fn wf(&self) -> bool {
        &&& self.sub <= self.pending@.len()
        &&& self.idx <= self.cmds@.len()
        &&& noted_from(self.cmds@, self.first as int)
        &&& self.compiler.notes().len() == self.cmds@.len() - self.first
        &&& self.sets == sets_before(self.cmds@, self.idx as int)
        &&& self.sets <= self.idx
        &&& self.stopped ==> self.idx == self.cmds@.len()
    }

    /// Returns the accumulated vertex buffer for this compilation. It is a
    /// blob of all requested lights and lines jammed together. The buffer is
    /// handed out to be read: what changes is the copy the GPU has of it.
    pub fn vertex_buf_mut(&self) -> (buf: &VertexBuf)
        ensures
            *buf == self.compiler().buffer(),
    {
        self.compiler.vertex_buf()
    }

    /// The commands of the frame, in the order in which they are drawn.
    pub fn cmds(&self) -> (c: &Vec<Command>)
        ensures
            c@ == self.commands(),
    {
        self.cmds
    }

    /// The descriptor sets the meshes of the frame require.
    pub fn mesh_sets_required(&self) -> (sets: &MeshSets)
        ensures
            *sets == self.mesh_sets(),
    {
        &self.mesh_sets
    }

    /// The stages the frame requires.
    pub fn stages_required(&self) -> (stages: Stages)
        ensures
            stages == self.stages(),
    {
        self.stages
    }

    /// Whether every instruction has been handed out.
    pub fn is_empty(&self) -> (r: bool)
        requires
            self.wf(),
        ensures
            r == (self.remaining().len() == 0),
    {
        proof {
            if !self.stopped {
                lemma_rest_nonempty(
                    self.cmds@,
                    self.compiler.notes(),
                    self.first as int,
                    self.idx as int,
                );
            }
        }
        self.stopped && self.sub >= self.pending.len()
    }

    /// Hands out the next instruction; nothing once the stop was handed out.
    pub fn next(&mut self) -> (r: Option<Instruction>)
        requires
            old(self).wf(),
        ensures
            final(self).wf(),
            final(self).commands() == old(self).commands(),
            final(self).compiler() == old(self).compiler(),
            final(self).first_noted() == old(self).first_noted(),
            final(self).stages() == old(self).stages(),
            final(self).mesh_sets() == old(self).mesh_sets(),
            old(self).remaining().len() == 0 ==> r is None && final(self).remaining().len() == 0,
            old(self).remaining().len() > 0 ==> r == Some(old(self).remaining()[0])
                && final(self).remaining() == old(self).remaining().skip(1),
    {
        if self.sub >= self.pending.len() {
            if self.stopped {
                return None;
            }
            let ghost s = self.cmds@;
            let ghost notes = self.compiler.notes();
            let i: usize = self.idx;
            self.pending.clear();
            self.sub = 0;
            if i >= self.cmds.len() {
                self.stopped = true;
                self.pending.push(Instruction::Stop);
            } else {
                match self.cmds[i] {
                    Command::Mesh(c) => {
                        if begins_meshes(self.cmds, i) {
                            self.pending.push(Instruction::MeshBegin);
                        }
                        if starts_set(self.cmds, i) {
                            self.pending.push(Instruction::MeshDescriptorSet(self.sets));
                            self.sets = self.sets + 1;
                        }
                        if starts_bind(self.cmds, i) {
                            self.pending.push(Instruction::MeshBind(c.mesh.id));
                        }
                        self.pending.push(Instruction::MeshDraw(i));
                    },
                    Command::Sunlight(_) => {
                        self.pending.push(Instruction::SunlightDraw(i));
                    },
                    Command::PointLight(_) => {
                        self.pending.push(Instruction::PointLightDraw(i));
                    },
                    _ => {
                        let code: &Vec<Asm> = self.compiler.code();
                        let drawn: Instruction = match code[i - self.first] {
                            Asm::RectLight(offset, scale) => Instruction::RectLightDraw(
                                i,
                                offset,
                                scale,
                            ),
                            Asm::Spotlight(offset, scale) => Instruction::SpotlightDraw(
                                i,
                                offset,
                                scale,
                            ),
                            Asm::Line(offset) => Instruction::LineDraw(i, offset),
                        };
                        self.pending.push(drawn);
                    },
                }
                self.idx = i + 1;
                proof {
                    assert(self.pending@ =~= body(s, notes, self.first as int, i as int));
                }
            }
            proof {
                assert(old(self).pending@.skip(old(self).sub as int) =~= Seq::<
                    Instruction,
                >::empty());
                assert(self.pending@.skip(0) =~= self.pending@);
                assert(self.remaining() =~= old(self).remaining());
            }
        }
        let ghost before = self.remaining();
        let r: Instruction = self.pending[self.sub];
        self.sub = self.sub + 1;
        proof {
            let tail = if self.stopped {
                Seq::<Instruction>::empty()
            } else {
                rest_from(
                    self.cmds@,
                    self.compiler.notes(),
                    self.first as int,
                    self.idx as int,
                )
            };
            assert(before == self.pending@.skip(self.sub as int - 1) + tail);
            assert(before[0] == r);
            assert(self.remaining() =~= before.skip(1));
        }
        Some(r)
    }
}

/// Whether a texture is used among commands does not depend on their order.
proof fn lemma_textured_any_order(a: Seq<Command>, b: Seq<Command>, tex: u64)
    requires
        a.to_multiset() == b.to_multiset(),
        textured(a, tex),
    ensures
        textured(b, tex),
{
    broadcast use group_to_multiset_ensures;

    let i = choose|i: int|
        0 <= i < a.len() && (#[trigger] a[i]) is Mesh && a[i]->Mesh_0.mesh.textures.list().contains(
            tex,
        );
    assert(a.contains(a[i]));
    assert(b.to_multiset().count(a[i]) > 0);
    assert(b.contains(a[i]));
    let j = choose|j: int| 0 <= j < b.len() && b[j] == a[i];
    assert(b[j] is Mesh);
}

impl Compiler {
    /// Compiles a given set of commands into a ready-to-draw list of
    /// instructions. Performs these steps:
    /// - Cull commands which might not be visible to the camera
    /// - Sort commands into predictable groupings (meshes, lights, lines)
    /// - Sort mesh commands further by texture(s) in order to reduce
    ///   descriptor set switching/usage
    /// - Prepare a single buffer of all line and light vertices which can be
    ///   copied to the GPU all at once
    ///
    /// The compiler must have been reset since it last compiled a frame.
    pub fn compile<'a, 'c, C: Camera>(&'a mut self, camera: &C, cmds: &'c mut Vec<Command>) -> (r:
        Result<Compilation<'a, 'c>, CompileError>)
        requires
            old(self).wf(),
            old(self).textures().len() == 0,
            old(self).buffer().dirty() is None,
        ensures
            final(self).wf(),
            final(cmds)@.to_multiset() == survivors(camera, old(cmds)@).to_multiset(),
            final(cmds)@.len() == survivors(camera, old(cmds)@).len(),
            sorted_cmds(final(self).textures(), final(cmds)@),
            forall|tex: u64| final(self).textures().contains(tex) <==> textured(final(cmds)@, tex),
            r is Err <==> projected(old(self).used() as int, final(cmds)@) > old(
                self,
            ).buffer().max_len(),
            match r {
                Ok(c) => {
                    &&& c.wf()
                    &&& c.commands() == final(cmds)@
                    &&& c.compiler() == *final(self)
                    &&& final(self).filled(old(self), final(cmds)@)
                    &&& c.stages()@ == stages_of(final(cmds)@)
                    &&& c.mesh_sets().single_tex == sets_of(
                        final(cmds)@,
                        final(cmds)@.len() as int,
                        false,
                    )
                    &&& c.mesh_sets().dual_tex == sets_of(
                        final(cmds)@,
                        final(cmds)@.len() as int,
                        true,
                    )
                    &&& c.mesh_sets().trans == 0
                    &&& c.first_noted() == boundary(final(cmds)@, SearchIdx::RectLight)
                    &&& c.remaining() == stream(
                        final(cmds)@,
                        final(self).notes(),
                        boundary(final(cmds)@, SearchIdx::RectLight),
                        final(self).buffer().copies(),
                        final(self).buffer().dirty(),
                    )
                },
                Err(e) => e == CompileError::CapacityOverflow && final(self).same_cache(old(self)),
            },
    {
        // Remove non-visible commands
        Self::cull(camera, cmds);
        let ghost culled = cmds@;

        // Rearrange the commands so draw order doesn't cause unnecessary
        // resource-switching
        self.sort(cmds);
        proof {
            lemma_sorted_grouped(self.textures(), cmds@);
            lemma_boundaries_rise(cmds@);
            assert forall|tex: u64| self.textures().contains(tex) <==> textured(cmds@, tex) by {
                if textured(culled, tex) {
                    lemma_textured_any_order(culled, cmds@, tex);
                }
                if textured(cmds@, tex) {
                    lemma_textured_any_order(cmds@, culled, tex);
                }
            }
        }

        // Keep track of the stages and descriptor sets needed to draw these
        // commands
        let stages: Stages = Stages::required(cmds);
        let mesh_sets: MeshSets = MeshSets::required(cmds);
        let first: usize = Self::group_start(cmds, SearchIdx::RectLight);

        // Fill the vertex cache buffer for all requested lines and lights
        match self.fill_cache(cmds) {
            Err(e) => {
                return Err(e);
            },
            Ok(_) => {},
        }
        let mut pending: Vec<Instruction> = Vec::new();
        if self.vertex_buf().gpu_dirty().len() > 0 {
            pending.push(Instruction::DataCopy);
        }
        match self.vertex_buf().cpu_dirty() {
            Some(d) => {
                if d.start < d.end {
                    pending.push(Instruction::DataWrite(d));
                }
            },
            None => {},
        }
        proof {
            assert(pending@ =~= header(self.buffer().copies(), self.buffer().dirty()));
            assert(pending@.skip(0) =~= pending@);
        }
        Ok(
            Compilation {
                cmds,
                compiler: self,
                idx: 0,
                pending,
                sub: 0,
                stopped: false,
                sets: 0,
                first,
                mesh_sets,
                stages,
            },
        )
    }
}

/// A frame after a frame which drew the same lights and lines, with a reset
/// between the two, is handed out without a move or a write of bytes of the
/// vertex buffer: where the frame is no longer than the first and draws no
/// point light, and the reset had no mesh to evict, its instructions are
/// draws and the stop.
pub proof fn lemma_repeat_stream(
    start: &Compiler,
    drawn: &Compiler,
    rested: &Compiler,
    again: &Compiler,
    first: Seq<Command>,
    second: Seq<Command>,
    i: int,
)
    requires
        start.wf(),
        drawn.wf(),
        rested.wf(),
        again.wf(),
        drawn.filled(start, first),
        rested.rested_from(drawn),
        again.filled(rested, second),
        frame_len(second) <= frame_len(first),
        wanted::<RectLightKey>(second).subset_of(wanted::<RectLightKey>(first)),
        wanted::<SpotlightKey>(second).subset_of(wanted::<SpotlightKey>(first)),
        wanted::<LineKey>(second).subset_of(wanted::<LineKey>(first)),
        !point_lit(second),
        forall|k: RectLightKey| #[trigger]
            drawn.rect_lights().dom().contains(k) ==> drawn.rect_lights()[k].recently_used,
        forall|k: SpotlightKey| #[trigger]
            drawn.spotlights().dom().contains(k) ==> drawn.spotlights()[k].recently_used,
        forall|k: LineKey| #[trigger]
            drawn.lines().dom().contains(k) ==> drawn.lines()[k].recently_used,
        0 <= i < stream(
            second,
            again.notes(),
            boundary(second, SearchIdx::RectLight),
            again.buffer().copies(),
            again.buffer().dirty(),
        ).len(),
    ensures
        !is_transfer(
            stream(
                second,
                again.notes(),
                boundary(second, SearchIdx::RectLight),
                again.buffer().copies(),
                again.buffer().dirty(),
            )[i],
        ),
{
    lemma_repeat_frame(start, drawn, rested, again, first, second);
    lemma_nothing_evicted(drawn, rested);
    let head = header(again.buffer().copies(), again.buffer().dirty());
    assert(head =~= Seq::<Instruction>::empty());
    let tail = rest_from(second, again.notes(), boundary(second, SearchIdx::RectLight), 0);
    assert(head + tail =~= tail);
    lemma_rest_draws(second, again.notes(), boundary(second, SearchIdx::RectLight), 0, i);
}

/// Something is left to hand out until the stop was handed out.
proof fn lemma_rest_nonempty(s: Seq<Command>, notes: Seq<Asm>, first: int, i: int)
    ensures
        rest_from(s, notes, first, i).len() > 0,
    decreases s.len() - i,
{
    if i < s.len() {
        lemma_rest_nonempty(s, notes, first, i + 1);
    }
}

} // verus!
