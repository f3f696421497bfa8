//! The order in which commands are drawn, and the sort which puts them into
//! it.
//!
//! Commands are ordered by group; meshes further by sub-group, by the slots
//! their textures have in the frame's table of mesh textures, and by depth,
//! nearest first; lines further by width.

use vstd::prelude::*;
use vstd::seq_lib::*;
use crate::command::{Command, MeshTextures, ModelCommand};
use crate::compiler::Compiler;
use crate::group::{grouped, mesh_group, GroupIdx};

verus! {

/// Whether the texture identities stand in strictly rising order.
pub open spec fn ascending(table: Seq<u64>) -> bool {
    forall|i: int, j: int| 0 <= i < j < table.len() ==> table[i] < table[j]
}

/// The slot of a texture: its place in the table.
pub open spec fn slot(table: Seq<u64>, tex: u64) -> int {
    choose|i: int| 0 <= i < table.len() && table[i] == tex
}

/// Whether the textures of the command, if it is a mesh, are in the table.
pub open spec fn listed(table: Seq<u64>, cmd: Command) -> bool {
    match cmd {
        Command::Mesh(c) => match c.mesh.textures {
            MeshTextures::Single(a) => table.contains(a),
            MeshTextures::Dual(a, b) => table.contains(a) && table.contains(b),
        },
        _ => true,
    }
}

/// Whether the textures of every mesh among the commands are in the table.
pub open spec fn all_listed(table: Seq<u64>, s: Seq<Command>) -> bool {
    forall|i: int| 0 <= i < s.len() ==> listed(table, #[trigger] s[i])
}

/// What a command is ordered by, most significant first.
pub struct SortKey {
    /// The number of the command's group.
    pub group: int,
    /// The sub-group of a mesh.
    pub sub: int,
    /// The slot of a mesh's first texture.
    pub first: int,
    /// The slot of a mesh's second texture; -1 where it has none.
    pub second: int,
    /// The depth of a mesh; the width of a line.
    pub fine: int,
}

/// What the command is ordered by.
pub open spec fn sort_key(table: Seq<u64>, cmd: Command) -> SortKey {
    match cmd {
        Command::Mesh(c) => SortKey {
            group: GroupIdx::of(cmd).number(),
            sub: mesh_group(c.mesh),
            first: slot(table, c.mesh.textures.first()),
            second: match c.mesh.textures {
                MeshTextures::Single(_) => -1,
                MeshTextures::Dual(_, b) => slot(table, b),
            },
            fine: c.camera_z as int,
        },
        Command::Line(c) => SortKey {
            group: GroupIdx::of(cmd).number(),
            sub: 0,
            first: 0,
            second: 0,
            fine: c.width as int,
        },
        _ => SortKey { group: GroupIdx::of(cmd).number(), sub: 0, first: 0, second: 0, fine: 0 },
    }
}

/// Whether `a` is drawn no later than `b`: the order of the keys, field by
/// field.
pub open spec fn key_le(a: SortKey, b: SortKey) -> bool {
    if a.group != b.group {
        a.group < b.group
    } else if a.sub != b.sub {
        a.sub < b.sub
    } else if a.first != b.first {
        a.first < b.first
    } else if a.second != b.second {
        a.second < b.second
    } else {
        a.fine <= b.fine
    }
}

/// Whether the command `a` may be drawn before the command `b`.
pub open spec fn ordered(table: Seq<u64>, a: Command, b: Command) -> bool {
    key_le(sort_key(table, a), sort_key(table, b))
}

/// Whether every command may be drawn before all which follow it.
pub open spec fn sorted_cmds(table: Seq<u64>, s: Seq<Command>) -> bool {
    forall|i: int, j: int| 0 <= i < j < s.len() ==> ordered(table, s[i], s[j])
}

/// Sorted commands stand in the order of their groups; meshes of the same
/// sub-group and the same texture slots stand by rising depth; lines stand by
/// rising width.
pub proof fn lemma_sorted_order(table: Seq<u64>, s: Seq<Command>, i: int, j: int)
    requires
        sorted_cmds(table, s),
        0 <= i < j < s.len(),
    ensures
        GroupIdx::of(s[i]).number() <= GroupIdx::of(s[j]).number(),
        grouped(s),
        (s[i] is Mesh && s[j] is Mesh && sort_key(table, s[i]).sub == sort_key(table, s[j]).sub
            && sort_key(table, s[i]).first == sort_key(table, s[j]).first && sort_key(
            table,
            s[i],
        ).second == sort_key(table, s[j]).second) ==> s[i]->Mesh_0.camera_z
            <= s[j]->Mesh_0.camera_z,
        (s[i] is Line && s[j] is Line) ==> s[i]->Line_0.width <= s[j]->Line_0.width,
{
    assert(ordered(table, s[i], s[j]));
    assert forall|a: int, b: int| 0 <= a < b < s.len() implies GroupIdx::of(s[a]).number()
        <= GroupIdx::of(s[b]).number() by {
        assert(ordered(table, s[a], s[b]));
    }
}

/// Sorted commands stand in the order of their groups.
pub proof fn lemma_sorted_grouped(table: Seq<u64>, s: Seq<Command>)
    requires
        sorted_cmds(table, s),
    ensures
        grouped(s),
{
    assert forall|a: int, b: int| 0 <= a < b < s.len() implies GroupIdx::of(s[a]).number()
        <= GroupIdx::of(s[b]).number() by {
        assert(ordered(table, s[a], s[b]));
    }
}

/// The order of commands is total and transitive.
pub proof fn lemma_order_total(table: Seq<u64>, a: Command, b: Command, c: Command)
    ensures
        ordered(table, a, b) || ordered(table, b, a),
        ordered(table, a, b) && ordered(table, b, c) ==> ordered(table, a, c),
{
}

/// In a rising table a texture is found in one place only, and textures
/// stand as their slots do.
pub proof fn lemma_slot(table: Seq<u64>, i: int)
    requires
        ascending(table),
        0 <= i < table.len(),
    ensures
        slot(table, table[i]) == i,
{
    let j = slot(table, table[i]);
    if j < i {
        assert(table[j] < table[i]);
    } else if i < j {
        assert(table[i] < table[j]);
    }
}

/// Looks a texture up in the table by bisection: where it is, or where it
/// would have to go.
pub fn find_texture(table: &Vec<u64>, tex: u64) -> (r: Result<usize, usize>)
    requires
        ascending(table@),
    ensures
        match r {
            Ok(i) => i < table@.len() && table@[i as int] == tex && slot(table@, tex) == i,
            Err(i) => {
                &&& i <= table@.len()
                &&& !table@.contains(tex)
                &&& forall|j: int| 0 <= j < i ==> table@[j] < tex
                &&& forall|j: int| i <= j < table@.len() ==> tex < table@[j]
            },
        },
{
    let mut lo: usize = 0;
    let mut hi: usize = table.len();
    while lo < hi
        invariant
            lo <= hi <= table@.len(),
            ascending(table@),
            forall|j: int| 0 <= j < lo ==> table@[j] < tex,
            forall|j: int| hi <= j < table@.len() ==> tex < table@[j],
        decreases hi - lo,
    {
        let mid: usize = lo + (hi - lo) / 2;
        let probe: u64 = table[mid];
        if probe < tex {
            lo = mid + 1;
        } else if tex < probe {
            hi = mid;
        } else {
            proof {
                lemma_slot(table@, mid as int);
            }
            return Ok(mid);
        }
    }
    Err(lo)
}

/// The slot of a texture which is in the table.
fn slot_index(table: &Vec<u64>, tex: u64) -> (i: usize)
    requires
        ascending(table@),
        table@.contains(tex),
    ensures
        i == slot(table@, tex),
{
    match find_texture(table, tex) {
        Ok(i) => i,
        Err(_) => 0,
    }
}

/// Whether the mesh `a` may be drawn before the mesh `b`.
fn mesh_ordered(table: &Vec<u64>, a: &ModelCommand, b: &ModelCommand) -> (r: bool)
    requires
        ascending(table@),
        listed(table@, Command::Mesh(*a)),
        listed(table@, Command::Mesh(*b)),
    ensures
        r == ordered(table@, Command::Mesh(*a), Command::Mesh(*b)),
{
    // Compare mesh group indices
    let a_group: usize = Compiler::mesh_group_idx(&a.mesh);
    let b_group: usize = Compiler::mesh_group_idx(&b.mesh);
    if a_group != b_group {
        return a_group < b_group;
    }
    // Compare mesh texture indices
    match (a.mesh.textures, b.mesh.textures) {
        (MeshTextures::Single(a0), MeshTextures::Single(b0)) => {
            let a_first: usize = slot_index(table, a0);
            let b_first: usize = slot_index(table, b0);
            if a_first != b_first {
                return a_first < b_first;
            }
        },
        (MeshTextures::Single(a0), MeshTextures::Dual(b0, _)) => {
            let a_first: usize = slot_index(table, a0);
            let b_first: usize = slot_index(table, b0);
            if a_first != b_first {
                return a_first < b_first;
            }
            return true;
        },
        (MeshTextures::Dual(a0, _), MeshTextures::Single(b0)) => {
            let a_first: usize = slot_index(table, a0);
            let b_first: usize = slot_index(table, b0);
            if a_first != b_first {
                return a_first < b_first;
            }
            return false;
        },
        (MeshTextures::Dual(a0, a1), MeshTextures::Dual(b0, b1)) => {
            let a_first: usize = slot_index(table, a0);
            let b_first: usize = slot_index(table, b0);
            if a_first != b_first {
                return a_first < b_first;
            }
            let a_second: usize = slot_index(table, a1);
            let b_second: usize = slot_index(table, b1);
            if a_second != b_second {
                return a_second < b_second;
            }
        },
    }
    // Compare z-order (sorting in closer to further)
    a.camera_z <= b.camera_z
}

/// Whether the command `a` may be drawn before the command `b`.
pub fn cmd_ordered(table: &Vec<u64>, a: &Command, b: &Command) -> (r: bool)
    requires
        ascending(table@),
        listed(table@, *a),
        listed(table@, *b),
    ensures
        r == ordered(table@, *a, *b),
{
    // Compare group indices
    let a_group: u8 = Compiler::group_idx(a).index();
    let b_group: u8 = Compiler::group_idx(b).index();
    if a_group != b_group {
        return a_group < b_group;
    }
    match (a, b) {
        (Command::Line(x), Command::Line(y)) => {
            // Compare line widths
            x.width <= y.width
        },
        (Command::Mesh(x), Command::Mesh(y)) => mesh_ordered(table, x, y),
        _ => true,
    }
}

/// A command put behind a run of commands adds itself to what the run holds.
proof fn lemma_push_holds(
    s: Seq<Command>,
    c: Command,
    a: vstd::multiset::Multiset<Command>,
    b: vstd::multiset::Multiset<Command>,
)
    ensures
        s.push(c).to_multiset() == s.to_multiset().insert(c),
        a.insert(c).add(b) == a.add(b).insert(c),
        a.add(b.insert(c)) == a.add(b).insert(c),
{
    broadcast use vstd::multiset::group_multiset_axioms;
    broadcast use group_to_multiset_ensures;

    assert(s.push(c).to_multiset() =~= s.to_multiset().insert(c));
    assert(a.insert(c).add(b) =~= a.add(b).insert(c));
    assert(a.add(b.insert(c)) =~= a.add(b).insert(c));
}

/// Merges two sorted runs of commands into one.
fn merge(table: &Vec<u64>, left: &Vec<Command>, right: &Vec<Command>) -> (out: Vec<Command>)
    requires
        ascending(table@),
        all_listed(table@, left@),
        all_listed(table@, right@),
        sorted_cmds(table@, left@),
        sorted_cmds(table@, right@),
        left@.len() + right@.len() <= usize::MAX,
    ensures
        sorted_cmds(table@, out@),
        out@.to_multiset() == left@.to_multiset().add(right@.to_multiset()),
        out@.len() == left@.len() + right@.len(),
        all_listed(table@, out@),
{
    broadcast use vstd::multiset::group_multiset_axioms;
    broadcast use group_to_multiset_ensures;

    let mut out: Vec<Command> = Vec::new();
    let mut i: usize = 0;
    let mut j: usize = 0;
    proof {
        assert(left@.subrange(0, 0) =~= Seq::<Command>::empty());
        assert(right@.subrange(0, 0) =~= Seq::<Command>::empty());
        assert(out@.to_multiset() =~= left@.subrange(0, 0).to_multiset().add(
            right@.subrange(0, 0).to_multiset(),
        ));
    }
    while i < left.len() || j < right.len()
        invariant
            i <= left@.len(),
            j <= right@.len(),
            left@.len() + right@.len() <= usize::MAX,
            out@.len() == i + j,
            ascending(table@),
            all_listed(table@, left@),
            all_listed(table@, right@),
            all_listed(table@, out@),
            sorted_cmds(table@, left@),
            sorted_cmds(table@, right@),
            sorted_cmds(table@, out@),
            out@.to_multiset() == left@.subrange(0, i as int).to_multiset().add(
                right@.subrange(0, j as int).to_multiset(),
            ),
            forall|a: int, b: int|
                0 <= a < out@.len() && i <= b < left@.len() ==> ordered(table@, out@[a], left@[b]),
            forall|a: int, b: int|
                0 <= a < out@.len() && j <= b < right@.len() ==> ordered(
                    table@,
                    out@[a],
                    right@[b],
                ),
        decreases left@.len() + right@.len() - i - j,
    {
        let ghost prev = out@;
        let take_left: bool = if i >= left.len() {
            false
        } else if j >= right.len() {
            true
        } else {
            cmd_ordered(table, &left[i], &right[j])
        };
        if take_left {
            let c: Command = left[i];
            out.push(c);
            proof {
                assert(left@.subrange(0, i as int + 1) =~= left@.subrange(0, i as int).push(c));
                assert(out@ =~= prev.push(c));
                lemma_push_holds(
                    prev,
                    c,
                    left@.subrange(0, i as int).to_multiset(),
                    right@.subrange(0, j as int).to_multiset(),
                );
                lemma_push_holds(
                    left@.subrange(0, i as int),
                    c,
                    left@.subrange(0, i as int).to_multiset(),
                    right@.subrange(0, j as int).to_multiset(),
                );
                assert forall|a: int, b: int|
                    0 <= a < out@.len() && j <= b < right@.len() implies ordered(
                    table@,
                    out@[a],
                    right@[b],
                ) by {
                    if a == prev.len() {
                        lemma_order_total(table@, c, right@[j as int], right@[b]);
                        if b > j {
                            assert(ordered(table@, right@[j as int], right@[b]));
                        }
                    } else {
                        assert(out@[a] == prev[a]);
                    }
                }
                assert forall|a: int, b: int|
                    0 <= a < out@.len() && i + 1 <= b < left@.len() implies ordered(
                    table@,
                    out@[a],
                    left@[b],
                ) by {
                    if a == prev.len() {
                        assert(ordered(table@, left@[i as int], left@[b]));
                    } else {
                        assert(out@[a] == prev[a]);
                    }
                }
                assert forall|a: int, b: int| 0 <= a < b < out@.len() implies ordered(
                    table@,
                    out@[a],
                    out@[b],
                ) by {
                    if b == prev.len() {
                        assert(out@[a] == prev[a]);
                        assert(ordered(table@, prev[a], left@[i as int]));
                    } else {
                        assert(out@[a] == prev[a]);
                        assert(out@[b] == prev[b]);
                    }
                }
                assert forall|a: int| 0 <= a < out@.len() implies listed(
                    table@,
                    #[trigger] out@[a],
                ) by {
                    if a < prev.len() {
                        assert(out@[a] == prev[a]);
                    }
                }
            }
            i = i + 1;
        } else {
            let c: Command = right[j];
            out.push(c);
            proof {
                assert(right@.subrange(0, j as int + 1) =~= right@.subrange(0, j as int).push(c));
                assert(out@ =~= prev.push(c));
                lemma_push_holds(
                    prev,
                    c,
                    left@.subrange(0, i as int).to_multiset(),
                    right@.subrange(0, j as int).to_multiset(),
                );
                lemma_push_holds(
                    right@.subrange(0, j as int),
                    c,
                    left@.subrange(0, i as int).to_multiset(),
                    right@.subrange(0, j as int).to_multiset(),
                );
                assert forall|a: int, b: int|
                    0 <= a < out@.len() && i <= b < left@.len() implies ordered(
                    table@,
                    out@[a],
                    left@[b],
                ) by {
                    if a == prev.len() {
                        lemma_order_total(table@, left@[i as int], c, c);
                        lemma_order_total(table@, c, left@[i as int], left@[b]);
                        if b > i {
                            assert(ordered(table@, left@[i as int], left@[b]));
                        }
                    } else {
                        assert(out@[a] == prev[a]);
                    }
                }
                assert forall|a: int, b: int|
                    0 <= a < out@.len() && j + 1 <= b < right@.len() implies ordered(
                    table@,
                    out@[a],
                    right@[b],
                ) by {
                    if a == prev.len() {
                        assert(ordered(table@, right@[j as int], right@[b]));
                    } else {
                        assert(out@[a] == prev[a]);
                    }
                }
                assert forall|a: int, b: int| 0 <= a < b < out@.len() implies ordered(
                    table@,
                    out@[a],
                    out@[b],
                ) by {
                    if b == prev.len() {
                        assert(out@[a] == prev[a]);
                        assert(ordered(table@, prev[a], right@[j as int]));
                    } else {
                        assert(out@[a] == prev[a]);
                        assert(out@[b] == prev[b]);
                    }
                }
                assert forall|a: int| 0 <= a < out@.len() implies listed(
                    table@,
                    #[trigger] out@[a],
                ) by {
                    if a < prev.len() {
                        assert(out@[a] == prev[a]);
                    }
                }
            }
            j = j + 1;
        }
    }
    proof {
        assert(left@.subrange(0, i as int) =~= left@);
        assert(right@.subrange(0, j as int) =~= right@);
    }
    out
}

/// Sorts the commands from `lo` up to `hi` into a list of their own.
fn sort_range(table: &Vec<u64>, cmds: &Vec<Command>, lo: usize, hi: usize) -> (out: Vec<Command>)
    requires
        ascending(table@),
        all_listed(table@, cmds@),
        lo <= hi <= cmds@.len(),
    ensures
        sorted_cmds(table@, out@),
        out@.to_multiset() == cmds@.subrange(lo as int, hi as int).to_multiset(),
        out@.len() == hi - lo,
        all_listed(table@, out@),
    decreases hi - lo,
{
    broadcast use vstd::multiset::group_multiset_axioms;
    broadcast use group_to_multiset_ensures;

    if hi - lo == 0 {
        let out: Vec<Command> = Vec::new();
        assert(cmds@.subrange(lo as int, hi as int) =~= out@);
        out
    } else if hi - lo == 1 {
        let mut out: Vec<Command> = Vec::new();
        out.push(cmds[lo]);
        assert(cmds@.subrange(lo as int, hi as int) =~= out@);
        out
    } else {
        let mid: usize = lo + (hi - lo) / 2;
        let left: Vec<Command> = sort_range(table, cmds, lo, mid);
        let right: Vec<Command> = sort_range(table, cmds, mid, hi);
        proof {
            assert(cmds@.subrange(lo as int, hi as int) =~= cmds@.subrange(lo as int, mid as int)
                + cmds@.subrange(mid as int, hi as int));
            lemma_multiset_commutative(
                cmds@.subrange(lo as int, mid as int),
                cmds@.subrange(mid as int, hi as int),
            );
        }
        merge(table, &left, &right)
    }
}

/// Sorts the commands into the order in which they are drawn. Commands
/// which the order does not tell apart may come out in either order.
pub fn sort_commands(table: &Vec<u64>, cmds: &mut Vec<Command>)
    requires
        ascending(table@),
        all_listed(table@, old(cmds)@),
    ensures
        sorted_cmds(table@, final(cmds)@),
        final(cmds)@.to_multiset() == old(cmds)@.to_multiset(),
        final(cmds)@.len() == old(cmds)@.len(),
        all_listed(table@, final(cmds)@),
{
    let sorted: Vec<Command> = sort_range(table, cmds, 0, cmds.len());
    assert(cmds@.subrange(0, cmds@.len() as int) =~= cmds@);
    *cmds = sorted;
}

} // verus!
