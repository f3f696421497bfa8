//! Culling: commands the camera cannot see are dropped, and the meshes which
//! stay are given their depth.

use vstd::prelude::*;
use vstd::seq_lib::*;
use crate::camera::Camera;
use crate::command::{Command, ModelCommand};
use crate::compiler::Compiler;
use crate::math::Vec3;

verus! {

/// The commands of `s` which `camera` sees, in their order, each as it leaves
/// culling.
pub open spec fn survivors<C: Camera>(camera: &C, s: Seq<Command>) -> Seq<Command> {
    s.filter(|c: Command| c.visible(camera)).map_values(
        |c: Command| c.measured(camera.eye_point()),
    )
}

/// The survivors of two runs of commands are those of the first, then those
/// of the second.
proof fn lemma_survivors_add<C: Camera>(camera: &C, a: Seq<Command>, b: Seq<Command>)
    ensures
        survivors(camera, a + b) == survivors(camera, a) + survivors(camera, b),
{
    let pred = |c: Command| c.visible(camera);
    Seq::filter_distributes_over_add(a, b, pred);
    assert(survivors(camera, a + b) =~= survivors(camera, a) + survivors(camera, b));
}

/// The survivors of a single command: itself with its depth if it is seen,
/// nothing if it is not.
proof fn lemma_survivors_one<C: Camera>(camera: &C, c: Command)
    ensures
        survivors(camera, seq![c]) == if c.visible(camera) {
            seq![c.measured(camera.eye_point())]
        } else {
            Seq::<Command>::empty()
        },
{
    let pred = |c: Command| c.visible(camera);
    let one = seq![c];
    reveal_with_fuel(Seq::filter, 2);
    assert(one.drop_last() =~= Seq::<Command>::empty());
    assert(one.last() == c);
    assert(one.filter(pred) =~= if c.visible(camera) {
        seq![c]
    } else {
        Seq::<Command>::empty()
    });
    assert(survivors(camera, one) =~= if c.visible(camera) {
        seq![c.measured(camera.eye_point())]
    } else {
        Seq::<Command>::empty()
    });
}

/// No command stays of no commands.
proof fn lemma_survivors_none<C: Camera>(camera: &C)
    ensures
        survivors(camera, Seq::<Command>::empty()) == Seq::<Command>::empty(),
        forall|m: vstd::multiset::Multiset<Command>|
            m.add(Seq::<Command>::empty().to_multiset()) == m,
        forall|m: vstd::multiset::Multiset<Command>|
            Seq::<Command>::empty().to_multiset().add(m) == m,
{
    broadcast use vstd::multiset::group_multiset_axioms;
    broadcast use group_to_multiset_ensures;

    reveal_with_fuel(Seq::filter, 1);
    let none = Seq::<Command>::empty();
    assert(survivors(camera, none) =~= none);
    assert forall|c: Command| none.to_multiset().count(c) == 0 by {
        assert(!none.contains(c));
    }
    assert forall|m: vstd::multiset::Multiset<Command>| m.add(none.to_multiset()) == m by {
        assert(m.add(none.to_multiset()) =~= m);
    }
    assert forall|m: vstd::multiset::Multiset<Command>| none.to_multiset().add(m) == m by {
        assert(none.to_multiset().add(m) =~= m);
    }
}

impl Compiler {
    /// Culls the commands which are not within the view of the camera, and
    /// gives each mesh which stays its depth.
    ///
    /// The commands which stay are those the camera sees, each as often as it
    /// was submitted; their order is not kept.
    pub fn cull<C: Camera>(camera: &C, cmds: &mut Vec<Command>)
        ensures
            final(cmds)@.to_multiset() == survivors(camera, old(cmds)@).to_multiset(),
            final(cmds)@.len() == survivors(camera, old(cmds)@).len(),
            forall|i: int|
                0 <= i < final(cmds)@.len() ==> (#[trigger] final(cmds)@[i]).visible(camera),
            forall|i: int|
                0 <= i < final(cmds)@.len() ==> (#[trigger] final(cmds)@[i]).measured(
                    camera.eye_point(),
                ) == final(cmds)@[i],
    {
        let eye: Vec3 = camera.eye();
        let ghost orig = cmds@;
        let mut idx: usize = 0;
        let mut len: usize = cmds.len();
        proof {
            assert(cmds@.subrange(0, idx as int) =~= Seq::<Command>::empty());
            assert(cmds@.subrange(idx as int, len as int) =~= orig);
            lemma_survivors_none(camera);
        }
        while idx < len
            invariant
                idx <= len <= cmds@.len(),
                eye == camera.eye_point(),
                cmds@.subrange(0, idx as int).to_multiset().add(
                    survivors(camera, cmds@.subrange(idx as int, len as int)).to_multiset(),
                ) == survivors(camera, orig).to_multiset(),
                forall|i: int| 0 <= i < idx ==> (#[trigger] cmds@[i]).visible(camera),
                forall|i: int| 0 <= i < idx ==> (#[trigger] cmds@[i]).measured(eye) == cmds@[i],
            decreases len - idx,
        {
            let ghost before = cmds@;
            let ghost head = before.subrange(0, idx as int);
            let ghost mid = before.subrange(idx as int, len as int);
            let cmd: Command = cmds[idx];
            let seen: bool = match cmd {
                Command::Mesh(c) => camera.overlaps_sphere(c.mesh.bounds),
                Command::PointLight(c) => camera.overlaps_sphere(c.bounds()),
                Command::RectLight(c) => camera.overlaps_sphere(c.bounds()),
                Command::Spotlight(c) => camera.overlaps_cone(c.bounds()),
                Command::Sunlight(_) => true,
                Command::Line(_) => true,
            };
            if seen {
                // The command at `idx` is visible and will draw normally
                let kept: Command = match cmd {
                    Command::Mesh(c) => Command::Mesh(
                        ModelCommand {
                            mesh: c.mesh,
                            transform: c.transform,
                            camera_z: c.transform.camera_depth(eye),
                        },
                    ),
                    _ => cmd,
                };
                cmds[idx] = kept;
                proof {
                    let rest = before.subrange(idx as int + 1, len as int);
                    assert(mid =~= seq![cmd] + rest);
                    lemma_survivors_add(camera, seq![cmd], rest);
                    lemma_survivors_one(camera, cmd);
                    assert(cmds@.subrange(0, idx as int + 1) =~= head.push(kept));
                    assert(cmds@.subrange(idx as int + 1, len as int) =~= rest);
                    broadcast use group_to_multiset_ensures;
                    lemma_multiset_commutative(seq![kept], survivors(camera, rest));
                    assert(seq![kept] =~= Seq::<Command>::empty().push(kept));
                    assert(seq![kept].to_multiset() =~= Seq::<Command>::empty().to_multiset().insert(
                        kept,
                    ));
                    assert(head.push(kept).to_multiset().add(
                        survivors(camera, rest).to_multiset(),
                    ) =~= head.to_multiset().add(survivors(camera, mid).to_multiset()));
                }
                idx = idx + 1;
            } else {
                // The command at `idx` has been culled and won't be drawn: it
                // goes to the end of the list
                len = len - 1;
                let last: Command = cmds[len];
                cmds[idx] = last;
                cmds[len] = cmd;
                proof {
                    lemma_survivors_one(camera, cmd);
                    if idx < len {
                        let inner = before.subrange(idx as int + 1, len as int);
                        assert(mid =~= seq![cmd] + (inner + seq![last]));
                        lemma_survivors_add(camera, seq![cmd], inner + seq![last]);
                        lemma_survivors_add(camera, inner, seq![last]);
                        assert(survivors(camera, mid) =~= survivors(camera, inner) + survivors(
                            camera,
                            seq![last],
                        ));
                        let after = cmds@.subrange(idx as int, len as int);
                        assert(after =~= seq![last] + inner);
                        lemma_survivors_add(camera, seq![last], inner);
                        lemma_seq_union_to_multiset_commutative(
                            survivors(camera, inner),
                            survivors(camera, seq![last]),
                        );
                    } else {
                        assert(mid =~= seq![cmd]);
                        assert(cmds@.subrange(idx as int, len as int) =~= Seq::<Command>::empty());
                        lemma_survivors_none(camera);
                    }
                    assert(cmds@.subrange(0, idx as int) =~= head);
                }
            }
        }
        proof {
            assert(cmds@.subrange(idx as int, len as int) =~= Seq::<Command>::empty());
            lemma_survivors_none(camera);
        }
        // Drop the culled commands
        cmds.truncate(len);
        proof {
            cmds@.to_multiset_ensures();
            survivors(camera, orig).to_multiset_ensures();
        }
    }
}

} // verus!
