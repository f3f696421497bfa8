//! The set of pipeline stages a compiled frame needs.

use vstd::prelude::*;
use crate::command::{Command, MeshTextures};

verus! {

/// A set of pipeline stages, one bit each.
#[derive(Clone, Copy, Debug, PartialEq, Eq, Structural)]
pub struct Stages {
    bits: usize,
}

pub const LINE: usize = 1;
pub const MESH_ANIMATED: usize = 2;
pub const MESH_DUAL_TEX: usize = 4;
pub const MESH_SINGLE_TEX: usize = 8;
pub const MESH_TRANSPARENT: usize = 16;
pub const POINTLIGHT: usize = 32;
pub const RECTLIGHT: usize = 64;
pub const SPOTLIGHT: usize = 128;
pub const SUNLIGHT: usize = 256;

/// Every bit that names a stage.
pub const ALL: usize = 511;

/// The stage which draws the command.
pub open spec fn stage_of(cmd: Command) -> usize {
    match cmd {
        Command::Mesh(c) => if c.mesh.animated {
            MESH_ANIMATED
        } else if c.mesh.textures is Single {
            MESH_SINGLE_TEX
        } else {
            MESH_DUAL_TEX
        },
        Command::PointLight(_) => POINTLIGHT,
        Command::RectLight(_) => RECTLIGHT,
        Command::Spotlight(_) => SPOTLIGHT,
        Command::Sunlight(_) => SUNLIGHT,
        Command::Line(_) => LINE,
    }
}

/// The stages which draw the commands: the bits of the stage of each.
pub open spec fn stages_of(s: Seq<Command>) -> usize
    decreases s.len(),
{
    if s.len() == 0 {
        0
    } else {
        stages_of(s.drop_last()) | stage_of(s.last())
    }
}

/// Whether `flag` is the bit of one stage.
pub open spec fn is_stage(flag: usize) -> bool {
    flag == LINE || flag == MESH_ANIMATED || flag == MESH_DUAL_TEX || flag == MESH_SINGLE_TEX
        || flag == MESH_TRANSPARENT || flag == POINTLIGHT || flag == RECTLIGHT || flag
        == SPOTLIGHT || flag == SUNLIGHT
}

/// A stage is required where a command is drawn by it, and there only.
pub proof fn lemma_stages_of(s: Seq<Command>, flag: usize)
    requires
        is_stage(flag),
    ensures
        stages_of(s) & flag == flag <==> exists|i: int|
            0 <= i < s.len() && stage_of(#[trigger] s[i]) == flag,
        stages_of(s) <= ALL,
    decreases s.len(),
{
    if s.len() == 0 {
        assert(0usize & flag == 0usize) by (bit_vector);
    } else {
        let head = s.drop_last();
        let a = stages_of(head);
        let b = stage_of(s.last());
        lemma_stages_of(head, flag);
        assert(is_stage(b));
        assert(((a | b) & flag == flag) <==> (a & flag == flag || b == flag)) by (bit_vector)
            requires
                flag == 1 || flag == 2 || flag == 4 || flag == 8 || flag == 16 || flag == 32
                    || flag == 64 || flag == 128 || flag == 256,
                b == 1 || b == 2 || b == 4 || b == 8 || b == 16 || b == 32 || b == 64 || b == 128
                    || b == 256,
        ;
        assert((a | b) <= 511) by (bit_vector)
            requires
                a <= 511,
                b <= 256,
        ;
        if exists|i: int| 0 <= i < s.len() && stage_of(#[trigger] s[i]) == flag {
            let i = choose|i: int| 0 <= i < s.len() && stage_of(#[trigger] s[i]) == flag;
            if i < s.len() - 1 {
                assert(head[i] == s[i]);
            }
        }
        if exists|i: int| 0 <= i < head.len() && stage_of(#[trigger] head[i]) == flag {
            let i = choose|i: int| 0 <= i < head.len() && stage_of(#[trigger] head[i]) == flag;
            assert(s[i] == head[i]);
        }
        if b == flag {
            assert(stage_of(s[s.len() - 1]) == flag);
        }
    }
}

impl Stages {
    /// The raw bits of this set.
    pub closed spec fn view(&self) -> usize {
        self.bits
    }

    /// Whether every stage of `flag` is in this set.
    pub open spec fn has(&self, flag: usize) -> bool {
        self@ & flag == flag
    }

    /// Returns a `usize` with the given zero-indexed bit set to one.
    pub fn bit(b: usize) -> (r: usize)
        requires
            b < usize::BITS,
        ensures
            r == 1usize << b,
    {
        1usize << b
    }

    /// The set with no stage in it.
    pub fn empty() -> (s: Stages)
        ensures
            s@ == 0,
    {
        Stages { bits: 0 }
    }

    /// The set whose bits are those of `bits` which name a stage.
    pub fn from_bits_truncate(bits: usize) -> (s: Stages)
        ensures
            s@ == bits & ALL,
    {
        Stages { bits: bits & ALL }
    }

    /// The raw bits of this set.
    pub fn bits(&self) -> (r: usize)
        ensures
            r == self@,
    {
        self.bits
    }

    /// Whether no stage is in this set.
    pub fn is_empty(&self) -> (r: bool)
        ensures
            r == (self@ == 0),
    {
        self.bits == 0
    }

    /// Whether every stage of `other` is in this set.
    pub fn contains(&self, other: Stages) -> (r: bool)
        ensures
            r == self.has(other@),
    {
        self.bits & other.bits == other.bits
    }

    /// Adds the stages of `flag` to this set.
    pub fn insert(&mut self, flag: usize)
        ensures
            final(self)@ == old(self)@ | flag,
    {
        self.bits = self.bits | flag;
    }

    /// The bit of the stage which draws the command.
    pub fn stage(cmd: &Command) -> (flag: usize)
        ensures
            flag == stage_of(*cmd),
    {
        match cmd {
            Command::Mesh(c) => {
                if c.mesh.animated {
                    MESH_ANIMATED
                } else {
                    match c.mesh.textures {
                        MeshTextures::Single(_) => MESH_SINGLE_TEX,
                        MeshTextures::Dual(_, _) => MESH_DUAL_TEX,
                    }
                }
            },
            Command::PointLight(_) => POINTLIGHT,
            Command::RectLight(_) => RECTLIGHT,
            Command::Spotlight(_) => SPOTLIGHT,
            Command::Sunlight(_) => SUNLIGHT,
            Command::Line(_) => LINE,
        }
    }

    /// The stages which draw the commands.
    pub fn required(cmds: &Vec<Command>) -> (s: Stages)
        ensures
            s@ == stages_of(cmds@),
    {
        let mut stages = Stages::empty();
        let n: usize = cmds.len();
        let mut i: usize = 0;
        proof {
            assert(cmds@.subrange(0, 0) =~= Seq::<Command>::empty());
        }
        while i < n
            invariant
                i <= n == cmds@.len(),
                stages@ == stages_of(cmds@.subrange(0, i as int)),
            decreases n - i,
        {
            proof {
                let next = cmds@.subrange(0, i as int + 1);
                assert(next.drop_last() =~= cmds@.subrange(0, i as int));
                assert(next.last() == cmds@[i as int]);
            }
            stages.insert(Self::stage(&cmds[i]));
            i = i + 1;
        }
        proof {
            assert(cmds@.subrange(0, n as int) =~= cmds@);
        }
        stages
    }

    /// The stages in either set.
    pub fn union(&self, other: Stages) -> (s: Stages)
        ensures
            s@ == self@ | other@,
    {
        Stages { bits: self.bits | other.bits }
    }
}

} // verus!
