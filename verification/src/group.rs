//! The groups into which commands are sorted for drawing.

use vstd::prelude::*;
use crate::command::{Command, Mesh};
use crate::compiler::Compiler;

verus! {

/// The group of a command. Groups are drawn in the order in which they are
/// listed, and are numbered evenly so that the numbers between them can be
/// searched for.
#[derive(Clone, Copy, Debug, PartialEq, Eq, Structural)]
pub enum GroupIdx {
    Mesh,
    Sunlight,
    PointLight,
    RectLight,
    Spotlight,
    Line,
}

/// The numbers between the groups: the one in front of each cached group.
/// None of them is the number of a group, so a search for one ends where
/// that group begins.
#[derive(Clone, Copy, Debug, PartialEq, Eq, Structural)]
pub enum SearchIdx {
    PointLight,
    RectLight,
    Spotlight,
    Line,
}

impl GroupIdx {
    /// The number of the group.
    pub open spec fn number(&self) -> int {
        match *self {
            GroupIdx::Mesh => 0,
            GroupIdx::Sunlight => 2,
            GroupIdx::PointLight => 4,
            GroupIdx::RectLight => 6,
            GroupIdx::Spotlight => 8,
            GroupIdx::Line => 10,
        }
    }

    /// The group of a command.
    pub open spec fn of(cmd: Command) -> GroupIdx {
        match cmd {
            Command::Mesh(_) => GroupIdx::Mesh,
            Command::PointLight(_) => GroupIdx::PointLight,
            Command::RectLight(_) => GroupIdx::RectLight,
            Command::Spotlight(_) => GroupIdx::Spotlight,
            Command::Sunlight(_) => GroupIdx::Sunlight,
            Command::Line(_) => GroupIdx::Line,
        }
    }

    /// Returns the number of the group.
    pub fn index(&self) -> (n: u8)
        ensures
            n == self.number(),
    {
        match self {
            GroupIdx::Mesh => 0,
            GroupIdx::Sunlight => 2,
            GroupIdx::PointLight => 4,
            GroupIdx::RectLight => 6,
            GroupIdx::Spotlight => 8,
            GroupIdx::Line => 10,
        }
    }
}

impl SearchIdx {
    /// The number searched for.
    pub open spec fn number(&self) -> int {
        match *self {
            SearchIdx::PointLight => 3,
            SearchIdx::RectLight => 5,
            SearchIdx::Spotlight => 7,
            SearchIdx::Line => 9,
        }
    }

    /// Returns the number searched for.
    pub fn index(&self) -> (n: u8)
        ensures
            n == self.number(),
    {
        match self {
            SearchIdx::PointLight => 3,
            SearchIdx::RectLight => 5,
            SearchIdx::Spotlight => 7,
            SearchIdx::Line => 9,
        }
    }
}

/// The sub-group of a mesh: animated meshes come first, then those with one
/// texture, then those with two.
pub open spec fn mesh_group(mesh: Mesh) -> int {
    if mesh.animated {
        0
    } else if mesh.textures is Single {
        1
    } else {
        2
    }
}

/// Whether the commands stand in the order of their groups.
pub open spec fn grouped(s: Seq<Command>) -> bool {
    forall|i: int, j: int|
        0 <= i < j < s.len() ==> GroupIdx::of(s[i]).number() <= GroupIdx::of(s[j]).number()
}

/// Whether the commands in front of `at` belong to the groups in front of
/// `gap`, and the commands from `at` on to the groups behind it.
pub open spec fn splits(s: Seq<Command>, gap: SearchIdx, at: int) -> bool {
    &&& 0 <= at <= s.len()
    &&& forall|i: int| 0 <= i < at ==> GroupIdx::of(#[trigger] s[i]).number() < gap.number()
    &&& forall|i: int| at <= i < s.len() ==> GroupIdx::of(#[trigger] s[i]).number() > gap.number()
}

/// Where the group behind `gap` begins: the one place at which the commands
/// split.
pub open spec fn boundary(s: Seq<Command>, gap: SearchIdx) -> int {
    choose|at: int| splits(s, gap, at)
}

/// The commands split at one place only.
pub proof fn lemma_boundary(s: Seq<Command>, gap: SearchIdx, at: int)
    requires
        splits(s, gap, at),
    ensures
        boundary(s, gap) == at,
{
    let other = boundary(s, gap);
    if other < at {
        assert(GroupIdx::of(s[other]).number() < gap.number());
    } else if at < other {
        assert(GroupIdx::of(s[at]).number() < gap.number());
    }
}

/// The groups begin in the order in which they are drawn.
pub proof fn lemma_boundaries_rise(s: Seq<Command>)
    requires
        grouped(s),
    ensures
        splits(s, SearchIdx::PointLight, boundary(s, SearchIdx::PointLight)),
        splits(s, SearchIdx::RectLight, boundary(s, SearchIdx::RectLight)),
        splits(s, SearchIdx::Spotlight, boundary(s, SearchIdx::Spotlight)),
        splits(s, SearchIdx::Line, boundary(s, SearchIdx::Line)),
        0 <= boundary(s, SearchIdx::PointLight) <= boundary(s, SearchIdx::RectLight) <= boundary(
            s,
            SearchIdx::Spotlight,
        ) <= boundary(s, SearchIdx::Line) <= s.len(),
{
    lemma_splits_exists(s, SearchIdx::PointLight, s.len() as int);
    lemma_splits_exists(s, SearchIdx::RectLight, s.len() as int);
    lemma_splits_exists(s, SearchIdx::Spotlight, s.len() as int);
    lemma_splits_exists(s, SearchIdx::Line, s.len() as int);
    let a = boundary(s, SearchIdx::PointLight);
    let b = boundary(s, SearchIdx::RectLight);
    let c = boundary(s, SearchIdx::Spotlight);
    let d = boundary(s, SearchIdx::Line);
    if b < a {
        assert(GroupIdx::of(s[b]).number() < 3);
    }
    if c < b {
        assert(GroupIdx::of(s[c]).number() < 5);
    }
    if d < c {
        assert(GroupIdx::of(s[d]).number() < 7);
    }
}

/// Commands which stand in the order of their groups split somewhere.
proof fn lemma_splits_exists(s: Seq<Command>, gap: SearchIdx, n: int)
    requires
        grouped(s),
        0 <= n <= s.len(),
        forall|i: int| n <= i < s.len() ==> GroupIdx::of(#[trigger] s[i]).number() > gap.number(),
    ensures
        exists|at: int| splits(s, gap, at),
    decreases n,
{
    if n == 0 {
        assert(splits(s, gap, 0));
    } else if GroupIdx::of(s[n - 1]).number() < gap.number() {
        assert forall|i: int| 0 <= i < n implies GroupIdx::of(#[trigger] s[i]).number()
            < gap.number() by {
            if i < n - 1 {
                assert(GroupIdx::of(s[i]).number() <= GroupIdx::of(s[n - 1]).number());
            }
        }
        assert(splits(s, gap, n));
    } else {
        lemma_splits_exists(s, gap, n - 1);
    }
}

impl Compiler {
    /// All commands sort into groups: first meshes, then lights, followed by
    /// lines.
    pub fn group_idx(cmd: &Command) -> (g: GroupIdx)
        ensures
            g == GroupIdx::of(*cmd),
    {
        match cmd {
            Command::Mesh(_) => GroupIdx::Mesh,
            Command::PointLight(_) => GroupIdx::PointLight,
            Command::RectLight(_) => GroupIdx::RectLight,
            Command::Spotlight(_) => GroupIdx::Spotlight,
            Command::Sunlight(_) => GroupIdx::Sunlight,
            Command::Line(_) => GroupIdx::Line,
        }
    }

    /// Meshes sort into sub-groups: first animated, then single texture,
    /// followed by dual texture.
    pub fn mesh_group_idx(mesh: &Mesh) -> (g: usize)
        ensures
            g == mesh_group(*mesh),
    {
        if mesh.is_animated() {
            0
        } else if mesh.is_single_texture() {
            1
        } else {
            2
        }
    }

    /// Where the group behind `gap` begins in commands which stand in the
    /// order of their groups: the number of commands of the groups in front
    /// of it.
    pub fn group_start(cmds: &Vec<Command>, gap: SearchIdx) -> (at: usize)
        requires
            grouped(cmds@),
        ensures
            at == boundary(cmds@, gap),
            splits(cmds@, gap, at as int),
    {
        let target: u8 = gap.index();
        let mut lo: usize = 0;
        let mut hi: usize = cmds.len();
        while lo < hi
            invariant
                lo <= hi <= cmds@.len(),
                grouped(cmds@),
                target == gap.number(),
                forall|i: int| 0 <= i < lo ==> GroupIdx::of(cmds@[i]).number() < target,
                forall|i: int| hi <= i < cmds@.len() ==> GroupIdx::of(cmds@[i]).number() > target,
            decreases hi - lo,
        {
            let mid: usize = lo + (hi - lo) / 2;
            let found: u8 = Self::group_idx(&cmds[mid]).index();
            if found < target {
                lo = mid + 1;
            } else {
                hi = mid;
            }
        }
        proof {
            lemma_boundary(cmds@, gap, lo as int);
        }
        lo
    }
}

} // verus!
