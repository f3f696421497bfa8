//! Filling the cache for the commands of one group.

use vstd::prelude::*;
use crate::code::Asm;
use crate::command::Command;
use crate::key::ShapeKey;
use crate::lru::{
    among, appended, backed, cache_map, grown, placed, refreshed, sorted, spread, touch_all,
    touched, Filled, Lru, Slot,
};
use crate::vertex_buf::{grown_capacity, VertexBuf};

verus! {

/// The key a command of the group is cached under.
pub open spec fn key_of<K: ShapeKey>(cmd: Command) -> K {
    let pair = K::read(cmd)->Some_0;
    pair.0
}

/// The scale a command of the group is drawn at.
pub open spec fn scale_of<K: ShapeKey>(cmd: Command) -> u32 {
    let pair = K::read(cmd)->Some_0;
    pair.1
}

/// The keys of this kind which the commands ask for.
pub open spec fn wanted<K: ShapeKey>(s: Seq<Command>) -> Set<K> {
    Set::new(|k: K| exists|i: int| 0 <= i < s.len() && K::read(s[i]) is Some && key_of::<K>(s[i]) == k)
}

/// The keys of the commands from `lo` up to `hi`, in their order.
pub open spec fn group_keys<K: ShapeKey>(s: Seq<Command>, lo: int, hi: int) -> Seq<K> {
    Seq::new((hi - lo) as nat, |j: int| key_of::<K>(s[lo + j]))
}

/// What is noted for the commands from `lo` up to `hi`, one note each: where
/// the map has the mesh of the command's key, and the command's scale.
pub open spec fn notes<K: ShapeKey>(s: Seq<Command>, lo: int, hi: int, m: Map<K, Slot>) -> Seq<
    Asm,
> {
    Seq::new(
        (hi - lo) as nat,
        |j: int| K::draw(m[key_of::<K>(s[lo + j])].offset, scale_of::<K>(s[lo + j])),
    )
}

/// Resolves the commands from `lo` up to `hi`, which are those of the group
/// of `K`, against the list of that group: the mesh of each is marked as
/// used, generated and cached first where the list does not hold it, and
/// where it lies is noted in `code`. Where the buffer has not room for a
/// mesh, it grows for the `planned` bytes which may come into use.
pub(crate) fn fill_group<K: ShapeKey>(
    lru: &mut Vec<Lru<K>>,
    buf: &mut VertexBuf,
    end: &mut usize,
    code: &mut Vec<Asm>,
    cmds: &Vec<Command>,
    lo: usize,
    hi: usize,
    planned: usize,
)
    requires
        lo <= hi <= cmds@.len(),
        forall|i: int| 0 <= i < cmds@.len() ==> (K::read(#[trigger] cmds@[i]) is Some <==> lo <= i < hi),
        sorted(old(lru)@),
        old(buf).wf(),
        0 < *old(end) <= old(buf).bytes().len(),
        *old(end) + (hi - lo) * K::stride_len() <= planned <= old(buf).max_len(),
        placed(cache_map(old(lru)@), 0, *old(end) as int),
        spread(cache_map(old(lru)@)),
        backed(cache_map(old(lru)@), old(buf).bytes()),
        old(buf).dirty() matches Some(d) ==> d.end <= *old(end),
    ensures
        sorted(final(lru)@),
        final(buf).wf(),
        final(buf).max_len() == old(buf).max_len(),
        *old(end) <= *final(end) <= final(buf).bytes().len(),
        *final(end) <= *old(end) + (hi - lo) * K::stride_len(),
        placed(cache_map(final(lru)@), 0, *final(end) as int),
        spread(cache_map(final(lru)@)),
        backed(cache_map(final(lru)@), final(buf).bytes()),
        refreshed(cache_map(old(lru)@), cache_map(final(lru)@), wanted::<K>(cmds@), *old(end)),
        touched(
            cache_map(old(lru)@),
            *old(end) as int,
            group_keys::<K>(cmds@, lo as int, hi as int),
        ) == (Filled { map: cache_map(final(lru)@), end: *final(end) as int }),
        final(code)@ == old(code)@ + notes::<K>(
            cmds@,
            lo as int,
            hi as int,
            cache_map(final(lru)@),
        ),
        final(lru)@.len() >= old(lru)@.len(),
        *final(end) - *old(end) == (final(lru)@.len() - old(lru)@.len()) * K::stride_len(),
        final(buf).bytes().subrange(0, *old(end) as int) == old(buf).bytes().subrange(
            0,
            *old(end) as int,
        ),
        final(buf).bytes().len() >= old(buf).bytes().len(),
        final(buf).bytes().len() == if *final(end) <= old(buf).bytes().len() {
            old(buf).bytes().len() as int
        } else {
            grown_capacity(planned as int, old(buf).max_len() as int)
        },
        *final(end) <= old(buf).bytes().len() <==> final(buf).bytes().len() == old(
            buf,
        ).bytes().len(),
        *final(end) == *old(end) ==> final(buf).bytes() == old(buf).bytes(),
        *final(end) == *old(end) || grown(cache_map(old(lru)@), cache_map(final(lru)@)),
        final(buf).dirty() == appended(
            old(buf).dirty(),
            final(buf).bytes().len() != old(buf).bytes().len(),
            *old(end),
            *final(end),
        ),
        final(buf).copies() == if final(buf).bytes().len() != old(buf).bytes().len() {
            Seq::empty()
        } else {
            old(buf).copies()
        },
{
    let mut keys: Vec<K> = Vec::new();
    let mut scales: Vec<u32> = Vec::new();
    let mut i: usize = lo;
    while i < hi
        invariant
            lo <= i <= hi <= cmds@.len(),
            forall|i: int|
                0 <= i < cmds@.len() ==> (K::read(#[trigger] cmds@[i]) is Some <==> lo <= i < hi),
            keys@.len() == i - lo,
            scales@.len() == i - lo,
            forall|j: int| 0 <= j < i - lo ==> #[trigger] keys@[j] == key_of::<K>(cmds@[lo + j]),
            forall|j: int|
                0 <= j < i - lo ==> #[trigger] scales@[j] == scale_of::<K>(cmds@[lo + j]),
        decreases hi - i,
    {
        assert(K::read(cmds@[i as int]) is Some);
        match K::resolve(&cmds[i]) {
            Some((key, scale)) => {
                keys.push(key);
                scales.push(scale);
            },
            None => {},
        }
        i = i + 1;
    }
    assert(keys@ =~= group_keys::<K>(cmds@, lo as int, hi as int));
    let offsets: Vec<usize> = touch_all(lru, buf, end, &keys, planned);
    let ghost map = cache_map(lru@);
    proof {
        assert(among(keys@, keys@.len() as int) =~= wanted::<K>(cmds@)) by {
            assert forall|k: K| among(keys@, keys@.len() as int).contains(k) <==> wanted::<K>(
                cmds@,
            ).contains(k) by {
                if among(keys@, keys@.len() as int).contains(k) {
                    let j = choose|j: int| 0 <= j < keys@.len() && keys@[j] == k;
                    assert(K::read(cmds@[lo + j]) is Some);
                    assert(key_of::<K>(cmds@[lo + j]) == k);
                }
                if wanted::<K>(cmds@).contains(k) {
                    let i = choose|i: int|
                        0 <= i < cmds@.len() && K::read(cmds@[i]) is Some && key_of::<K>(cmds@[i])
                            == k;
                    assert(keys@[i - lo] == k);
                }
            }
        }
    }
    let n: usize = keys.len();
    let mut j: usize = 0;
    while j < n
        invariant
            j <= n == hi - lo,
            hi <= cmds@.len(),
            offsets@.len() == n,
            scales@.len() == n,
            keys@.len() == n,
            map == cache_map(lru@),
            forall|j: int| 0 <= j < n ==> #[trigger] keys@[j] == key_of::<K>(cmds@[lo + j]),
            forall|j: int| 0 <= j < n ==> #[trigger] scales@[j] == scale_of::<K>(cmds@[lo + j]),
            forall|j: int| 0 <= j < n ==> #[trigger] offsets@[j] == map[keys@[j]].offset,
            code@ == old(code)@ + notes::<K>(cmds@, lo as int, lo + j, map),
        decreases n - j,
    {
        let ghost prev = code@;
        code.push(K::note(offsets[j], scales[j]));
        proof {
            assert(code@ =~= old(code)@ + notes::<K>(cmds@, lo as int, lo + j + 1, map)) by {
                let a = notes::<K>(cmds@, lo as int, lo + j, map);
                let b = notes::<K>(cmds@, lo as int, lo + j + 1, map);
                assert(b.len() == j + 1);
                assert(b[j as int] == K::draw(offsets@[j as int], scales@[j as int]));
                assert forall|x: int| 0 <= x < j implies a[x] == b[x] by {}
            }
        }
        j = j + 1;
    }
    proof {
        assert(code@ == old(code)@ + notes::<K>(cmds@, lo as int, hi as int, map));
    }
}

} // verus!
