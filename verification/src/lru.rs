//! The cache lists: for each kind of shape, the keys which have a mesh in the
//! vertex buffer, where it lies, and whether it was used this frame.
//!
//! A list is kept in the order of its keys, so that a key is found by
//! bisection. What a list holds is stated as a map from keys to slots.

use vstd::prelude::*;
use crate::geom::POINT_LIGHT_LEN;
use crate::key::ShapeKey;
use crate::vertex_buf::{
    grown_capacity, hull, lemma_replayed_len, moved, moves_down, replayed, ByteRange, CopyRange,
    VertexBuf,
};

verus! {

/// An entry of a cache list.
#[derive(Debug)]
pub struct Lru<K> {
    pub key: K,
    /// Where the mesh starts in the vertex buffer.
    pub offset: usize,
    /// Whether a command of this frame was drawn with the mesh.
    pub recently_used: bool,
}

impl<K: Copy> Clone for Lru<K> {
    fn clone(&self) -> (r: Self)
        ensures
            r == *self,
    {
        *self
    }
}

impl<K: Copy> Copy for Lru<K> {

}

/// What a cache list knows of one key.
pub struct Slot {
    pub offset: usize,
    pub recently_used: bool,
}

/// Whether the entries stand in the strict order of their keys.
pub open spec fn sorted<K: ShapeKey>(s: Seq<Lru<K>>) -> bool {
    forall|i: int, j: int| 0 <= i < j < s.len() ==> s[i].key.rank() < s[j].key.rank()
}

/// Whether the list has an entry for `key`.
pub open spec fn holds<K: ShapeKey>(s: Seq<Lru<K>>, key: K) -> bool {
    exists|i: int| 0 <= i < s.len() && s[i].key == key
}

/// The place of the entry for `key`.
pub open spec fn index_of<K: ShapeKey>(s: Seq<Lru<K>>, key: K) -> int {
    choose|i: int| 0 <= i < s.len() && s[i].key == key
}

/// The slot of an entry.
pub open spec fn slot_of<K: ShapeKey>(e: Lru<K>) -> Slot {
    Slot { offset: e.offset, recently_used: e.recently_used }
}

/// What the list holds: the slot of every key which has an entry.
pub open spec fn cache_map<K: ShapeKey>(s: Seq<Lru<K>>) -> Map<K, Slot> {
    Map::new(|k: K| holds(s, k), |k: K| slot_of(s[index_of(s, k)]))
}

/// Whether every mesh of the map lies between `lo` and `hi`.
pub open spec fn placed<K: ShapeKey>(m: Map<K, Slot>, lo: int, hi: int) -> bool {
    forall|k: K| #[trigger]
        m.dom().contains(k) ==> lo <= m[k].offset && m[k].offset + K::stride_len() <= hi
}

/// Whether no mesh of `m` shares a byte with a mesh of `n`.
pub open spec fn apart<K: ShapeKey, L: ShapeKey>(m: Map<K, Slot>, n: Map<L, Slot>) -> bool {
    forall|k: K, l: L|
        #![trigger m.dom().contains(k), n.dom().contains(l)]
        m.dom().contains(k) && n.dom().contains(l) ==> m[k].offset + K::stride_len()
            <= n[l].offset || n[l].offset + L::stride_len() <= m[k].offset
}

/// Whether no two meshes of the map share a byte.
pub open spec fn spread<K: ShapeKey>(m: Map<K, Slot>) -> bool {
    forall|k: K, l: K|
        #![trigger m.dom().contains(k), m.dom().contains(l)]
        m.dom().contains(k) && m.dom().contains(l) && k != l ==> m[k].offset + K::stride_len()
            <= m[l].offset || m[l].offset + K::stride_len() <= m[k].offset
}

/// Whether `bytes` holds, at the offset of every key of the map, the mesh of
/// that key.
pub open spec fn backed<K: ShapeKey>(m: Map<K, Slot>, bytes: Seq<u8>) -> bool {
    forall|k: K| #[trigger]
        m.dom().contains(k) ==> m[k].offset + K::stride_len() <= bytes.len() && bytes.subrange(
            m[k].offset as int,
            m[k].offset + K::stride_len(),
        ) == k.mesh()
}

/// The slot of a mesh after a hole of `len` bytes at `hole` was closed:
/// meshes behind the hole lie `len` lower.
pub open spec fn slid(s: Slot, hole: usize, len: usize) -> Slot {
    if s.offset > hole {
        Slot { offset: (s.offset - len) as usize, recently_used: s.recently_used }
    } else {
        s
    }
}

/// The slot with its flag cleared.
pub open spec fn rested(s: Slot) -> Slot {
    Slot { offset: s.offset, recently_used: false }
}

/// In a sorted list every entry is found under its key.
pub proof fn lemma_map_at<K: ShapeKey>(s: Seq<Lru<K>>, i: int)
    requires
        sorted(s),
        0 <= i < s.len(),
    ensures
        cache_map(s).dom().contains(s[i].key),
        cache_map(s)[s[i].key] == slot_of(s[i]),
        index_of(s, s[i].key) == i,
{
    let j = index_of(s, s[i].key);
    assert(holds(s, s[i].key));
    if j < i {
        assert(s[j].key.rank() < s[i].key.rank());
    } else if i < j {
        assert(s[i].key.rank() < s[j].key.rank());
    }
}

/// An entry put into a sorted list, which stays sorted, adds its key to the
/// map and changes nothing else.
pub proof fn lemma_map_insert<K: ShapeKey>(s: Seq<Lru<K>>, idx: int, e: Lru<K>)
    requires
        sorted(s),
        0 <= idx <= s.len(),
        sorted(s.insert(idx, e)),
    ensures
        !holds(s, e.key),
        cache_map(s.insert(idx, e)) == cache_map(s).insert(e.key, slot_of(e)),
{
    let t = s.insert(idx, e);
    assert(t[idx] == e);
    assert forall|i: int| 0 <= i < s.len() implies s[i].key != e.key by {
        if i < idx {
            assert(t[i] == s[i]);
            assert(t[i].key.rank() < t[idx].key.rank());
        } else {
            assert(t[i + 1] == s[i]);
            assert(t[idx].key.rank() < t[i + 1].key.rank());
        }
    }
    assert forall|k: K| holds(t, k) <==> (holds(s, k) || k == e.key) by {
        if holds(t, k) {
            let i = index_of(t, k);
            if i < idx {
                assert(s[i] == t[i]);
            } else if i > idx {
                assert(s[i - 1] == t[i]);
            }
        }
        if holds(s, k) {
            let i = index_of(s, k);
            if i < idx {
                assert(t[i] == s[i]);
            } else {
                assert(t[i + 1] == s[i]);
            }
        }
    }
    assert forall|k: K| holds(s, k) implies #[trigger] cache_map(t)[k] == cache_map(s)[k] by {
        let i = index_of(s, k);
        lemma_map_at(s, i);
        if i < idx {
            assert(t[i] == s[i]);
            lemma_map_at(t, i);
        } else {
            assert(t[i + 1] == s[i]);
            lemma_map_at(t, i + 1);
        }
    }
    lemma_map_at(t, idx);
    assert(cache_map(t) =~= cache_map(s).insert(e.key, slot_of(e)));
}

/// An entry of a sorted list replaced by one of the same key changes the slot
/// of that key and nothing else.
pub proof fn lemma_map_update<K: ShapeKey>(s: Seq<Lru<K>>, i: int, e: Lru<K>)
    requires
        sorted(s),
        0 <= i < s.len(),
        e.key == s[i].key,
    ensures
        sorted(s.update(i, e)),
        cache_map(s.update(i, e)) == cache_map(s).insert(e.key, slot_of(e)),
{
    let t = s.update(i, e);
    assert forall|k: K| holds(t, k) <==> holds(s, k) by {
        if holds(t, k) {
            let j = index_of(t, k);
            assert(s[j].key == k);
        }
        if holds(s, k) {
            let j = index_of(s, k);
            assert(t[j].key == k);
        }
    }
    assert(holds(s, e.key));
    assert forall|k: K| holds(s, k) && k != e.key implies #[trigger] cache_map(t)[k] == cache_map(
        s,
    )[k] by {
        let j = index_of(s, k);
        lemma_map_at(s, j);
        assert(t[j] == s[j]);
        lemma_map_at(t, j);
    }
    lemma_map_at(t, i);
    assert(cache_map(t) =~= cache_map(s).insert(e.key, slot_of(e)));
}

/// An entry taken out of a sorted list takes its key out of the map and
/// changes nothing else.
pub proof fn lemma_map_remove<K: ShapeKey>(s: Seq<Lru<K>>, i: int)
    requires
        sorted(s),
        0 <= i < s.len(),
    ensures
        sorted(s.remove(i)),
        cache_map(s.remove(i)) == cache_map(s).remove(s[i].key),
{
    let t = s.remove(i);
    assert forall|k: K| holds(t, k) <==> (holds(s, k) && k != s[i].key) by {
        if holds(t, k) {
            let j = index_of(t, k);
            if j < i {
                assert(s[j] == t[j]);
                assert(s[j].key.rank() < s[i].key.rank());
            } else {
                assert(s[j + 1] == t[j]);
                assert(s[i].key.rank() < s[j + 1].key.rank());
            }
        }
        if holds(s, k) && k != s[i].key {
            let j = index_of(s, k);
            if j < i {
                assert(t[j] == s[j]);
            } else {
                assert(t[j - 1] == s[j]);
            }
        }
    }
    assert forall|k: K| holds(t, k) implies #[trigger] cache_map(t)[k] == cache_map(s)[k] by {
        let j = index_of(t, k);
        lemma_map_at(t, j);
        if j < i {
            assert(s[j] == t[j]);
            lemma_map_at(s, j);
        } else {
            assert(s[j + 1] == t[j]);
            lemma_map_at(s, j + 1);
        }
    }
    assert(cache_map(t) =~= cache_map(s).remove(s[i].key));
}

/// A sorted list holds as many keys as it has entries.
pub proof fn lemma_map_count<K: ShapeKey>(s: Seq<Lru<K>>)
    requires
        sorted(s),
    ensures
        cache_map(s).dom().finite(),
        cache_map(s).dom().len() == s.len(),
    decreases s.len(),
{
    if s.len() == 0 {
        assert(cache_map(s).dom() =~= Set::<K>::empty());
    } else {
        let i = s.len() - 1;
        let head = s.remove(i);
        lemma_map_remove(s, i);
        lemma_map_count(head);
        lemma_map_at(s, i);
        assert(cache_map(s).dom() =~= cache_map(head).dom().insert(s[i].key));
        assert(!cache_map(head).dom().contains(s[i].key));
    }
}

/// Whether `after` has a key which `before` has not.
pub open spec fn grown<K: ShapeKey>(before: Map<K, Slot>, after: Map<K, Slot>) -> bool {
    exists|k: K| #[trigger] after.dom().contains(k) && !before.dom().contains(k)
}

/// Meshes which lie in bytes that did not change are still there.
pub proof fn lemma_backed_prefix<K: ShapeKey>(
    m: Map<K, Slot>,
    before: Seq<u8>,
    after: Seq<u8>,
    end: int,
)
    requires
        backed(m, before),
        placed(m, 0, end),
        end <= before.len(),
        end <= after.len(),
        after.subrange(0, end) == before.subrange(0, end),
    ensures
        backed(m, after),
{
    assert forall|k: K| #[trigger] m.dom().contains(k) implies m[k].offset + K::stride_len()
        <= after.len() && after.subrange(m[k].offset as int, m[k].offset + K::stride_len())
        == k.mesh() by {
        let o = m[k].offset as int;
        let n = K::stride_len() as int;
        assert(after.subrange(o, o + n) =~= after.subrange(0, end).subrange(o, o + n));
        assert(before.subrange(o, o + n) =~= before.subrange(0, end).subrange(o, o + n));
    }
}

/// Meshes which lie behind bytes that changed are still there.
pub proof fn lemma_backed_suffix<K: ShapeKey>(
    m: Map<K, Slot>,
    before: Seq<u8>,
    after: Seq<u8>,
    front: int,
)
    requires
        backed(m, before),
        placed(m, front, before.len() as int),
        after.len() == before.len(),
        forall|i: int| front <= i < before.len() ==> after[i] == before[i],
    ensures
        backed(m, after),
{
    assert forall|k: K| #[trigger] m.dom().contains(k) implies m[k].offset + K::stride_len()
        <= after.len() && after.subrange(m[k].offset as int, m[k].offset + K::stride_len())
        == k.mesh() by {
        let o = m[k].offset as int;
        let n = K::stride_len() as int;
        assert(after.subrange(o, o + n) =~= before.subrange(o, o + n));
    }
}

/// Two maps lie apart whichever of them is named first.
pub proof fn lemma_apart_swap<K: ShapeKey, L: ShapeKey>(m: Map<K, Slot>, n: Map<L, Slot>)
    requires
        apart(m, n),
    ensures
        apart(n, m),
{
    assert forall|l: L, k: K|
        #![trigger n.dom().contains(l), m.dom().contains(k)]
        n.dom().contains(l) && m.dom().contains(k) implies n[l].offset + L::stride_len()
        <= m[k].offset || m[k].offset + K::stride_len() <= n[l].offset by {
        assert(m.dom().contains(k) && n.dom().contains(l));
    }
}

/// Lists which fit together do so in whatever order they are named.
pub proof fn lemma_laid_out_turn<K: ShapeKey, A: ShapeKey, B: ShapeKey>(
    k: Map<K, Slot>,
    a: Map<A, Slot>,
    b: Map<B, Slot>,
    bytes: Seq<u8>,
    end: int,
)
    requires
        laid_out(k, a, b, bytes, end),
    ensures
        laid_out(a, k, b, bytes, end),
        laid_out(b, k, a, bytes, end),
        laid_out(k, b, a, bytes, end),
{
    lemma_apart_swap(k, a);
    lemma_apart_swap(k, b);
    lemma_apart_swap(a, b);
}

/// A list which was refreshed behind the bytes in use still fits together
/// with the other two lists, which did not change.
pub proof fn lemma_refresh_layout<K: ShapeKey, A: ShapeKey, B: ShapeKey>(
    k0: Map<K, Slot>,
    k1: Map<K, Slot>,
    a: Map<A, Slot>,
    b: Map<B, Slot>,
    bytes0: Seq<u8>,
    bytes1: Seq<u8>,
    end0: usize,
    end1: usize,
    wanted: Set<K>,
)
    requires
        laid_out(k0, a, b, bytes0, end0 as int),
        refreshed(k0, k1, wanted, end0),
        placed(k1, 0, end1 as int),
        spread(k1),
        backed(k1, bytes1),
        end0 <= end1 <= bytes1.len(),
        bytes1.subrange(0, end0 as int) == bytes0.subrange(0, end0 as int),
    ensures
        laid_out(k1, a, b, bytes1, end1 as int),
{
    assert forall|k: K| #[trigger] k1.dom().contains(k) implies POINT_LIGHT_LEN <= k1[k].offset by {
        if k0.dom().contains(k) {
        } else {
            assert(wanted.contains(k));
        }
    }
    assert forall|k: K, x: A|
        #![trigger k1.dom().contains(k), a.dom().contains(x)]
        k1.dom().contains(k) && a.dom().contains(x) implies k1[k].offset + K::stride_len()
        <= a[x].offset || a[x].offset + A::stride_len() <= k1[k].offset by {
        if k0.dom().contains(k) {
            assert(k0.dom().contains(k) && a.dom().contains(x));
        } else {
            assert(wanted.contains(k));
        }
    }
    assert forall|k: K, x: B|
        #![trigger k1.dom().contains(k), b.dom().contains(x)]
        k1.dom().contains(k) && b.dom().contains(x) implies k1[k].offset + K::stride_len()
        <= b[x].offset || b[x].offset + B::stride_len() <= k1[k].offset by {
        if k0.dom().contains(k) {
            assert(k0.dom().contains(k) && b.dom().contains(x));
        } else {
            assert(wanted.contains(k));
        }
    }
    assert(placed(a, 0, end0 as int));
    assert(placed(b, 0, end0 as int));
    lemma_backed_prefix(a, bytes0, bytes1, end0 as int);
    lemma_backed_prefix(b, bytes0, bytes1, end0 as int);
}

/// Looks for `key` by bisection: where it is, or where it would have to go.
pub(crate) fn find<K: ShapeKey>(lru: &Vec<Lru<K>>, key: &K) -> (r: Result<usize, usize>)
    requires
        sorted(lru@),
    ensures
        match r {
            Ok(i) => i < lru@.len() && lru@[i as int].key == *key,
            Err(i) => {
                &&& i <= lru@.len()
                &&& !holds(lru@, *key)
                &&& forall|j: int| 0 <= j < i ==> lru@[j].key.rank() < key.rank()
                &&& forall|j: int| i <= j < lru@.len() ==> key.rank() < lru@[j].key.rank()
            },
        },
{
    let mut lo: usize = 0;
    let mut hi: usize = lru.len();
    while lo < hi
        invariant
            lo <= hi <= lru@.len(),
            sorted(lru@),
            forall|j: int| 0 <= j < lo ==> lru@[j].key.rank() < key.rank(),
            forall|j: int| hi <= j < lru@.len() ==> key.rank() < lru@[j].key.rank(),
        decreases hi - lo,
    {
        let mid: usize = lo + (hi - lo) / 2;
        if lru[mid].key.precedes(key) {
            lo = mid + 1;
        } else if key.precedes(&lru[mid].key) {
            hi = mid;
        } else {
            proof {
                K::lemma_rank_injective(lru@[mid as int].key, *key);
            }
            return Ok(mid);
        }
    }
    assert(!holds(lru@, *key)) by {
        if holds(lru@, *key) {
            let j = index_of(lru@, *key);
            assert(lru@[j].key.rank() == key.rank());
        }
    }
    Err(lo)
}

/// The dirty range after a mesh of `stride` bytes was put behind the `end`
/// bytes in use, where `grew` says whether the buffer had to grow for it.
pub open spec fn dirty_after_append(
    dirty: Option<ByteRange>,
    grew: bool,
    end: usize,
    stride: usize,
) -> Option<ByteRange> {
    let moved = if grew && end > 0 {
        hull(dirty, 0, end)
    } else {
        dirty
    };
    hull(moved, end, (end + stride) as usize)
}

/// Marks the mesh of `key` as used, and generates and caches it first if the
/// list does not hold it. Returns where the mesh lies.
///
/// A mesh which is new goes behind the `end` bytes in use, and `end` moves
/// past it; the buffer grows if it has not room for it, for the `planned`
/// bytes which may come into use. A mesh which is there stays where it is,
/// and neither the buffer nor `end` changes.
pub(crate) fn touch<K: ShapeKey>(
    lru: &mut Vec<Lru<K>>,
    buf: &mut VertexBuf,
    end: &mut usize,
    key: K,
    planned: usize,
) -> (offset: usize)
    requires
        sorted(old(lru)@),
        old(buf).wf(),
        *old(end) <= old(buf).bytes().len(),
        *old(end) + K::stride_len() <= planned <= old(buf).max_len(),
        placed(cache_map(old(lru)@), 0, *old(end) as int),
        spread(cache_map(old(lru)@)),
        backed(cache_map(old(lru)@), old(buf).bytes()),
    ensures
        sorted(final(lru)@),
        final(buf).wf(),
        final(buf).max_len() == old(buf).max_len(),
        *final(end) <= final(buf).bytes().len(),
        placed(cache_map(final(lru)@), 0, *final(end) as int),
        spread(cache_map(final(lru)@)),
        backed(cache_map(final(lru)@), final(buf).bytes()),
        cache_map(final(lru)@) == cache_map(old(lru)@).insert(
            key,
            Slot { offset, recently_used: true },
        ),
        final(buf).bytes().subrange(0, *old(end) as int) == old(buf).bytes().subrange(
            0,
            *old(end) as int,
        ),
        holds(old(lru)@, key) ==> {
            &&& offset == cache_map(old(lru)@)[key].offset
            &&& *final(end) == *old(end)
            &&& final(lru)@.len() == old(lru)@.len()
            &&& final(buf).bytes() == old(buf).bytes()
            &&& final(buf).dirty() == old(buf).dirty()
            &&& final(buf).copies() == old(buf).copies()
        },
        !holds(old(lru)@, key) ==> {
            &&& offset == *old(end)
            &&& *final(end) == *old(end) + K::stride_len()
            &&& final(lru)@.len() == old(lru)@.len() + 1
            &&& final(buf).bytes().len() == if *final(end) <= old(buf).bytes().len() {
                old(buf).bytes().len() as int
            } else {
                grown_capacity(planned as int, old(buf).max_len() as int)
            }
            &&& final(buf).dirty() == dirty_after_append(
                old(buf).dirty(),
                *final(end) > old(buf).bytes().len(),
                *old(end),
                K::stride_len() as usize,
            )
            &&& final(buf).copies() == if *final(end) <= old(buf).bytes().len() {
                old(buf).copies()
            } else {
                Seq::empty()
            }
        },
{
    let ghost before = lru@;
    let ghost bytes0 = buf.bytes();
    match find(lru, &key) {
        Ok(i) => {
            let entry = Lru { key: lru[i].key, offset: lru[i].offset, recently_used: true };
            lru[i] = entry;
            proof {
                lemma_map_at(before, i as int);
                lemma_map_update(before, i as int, entry);
                assert(cache_map(before).insert(key, slot_of(entry)).dom() =~= cache_map(
                    before,
                ).dom());
                assert(buf.bytes().subrange(0, *end as int) =~= bytes0.subrange(0, *end as int));
            }
            entry.offset
        },
        Err(i) => {
            proof {
                K::lemma_mesh_len(key);
            }
            let at: usize = *end;
            let stride: usize = K::stride();
            let mesh: Vec<u8> = key.generate();
            buf.reserve(at + stride, planned, at);
            let ghost bytes1 = buf.bytes();
            buf.write(at, &mesh);
            let entry = Lru { key, offset: at, recently_used: true };
            lru.insert(i, entry);
            *end = at + stride;
            proof {
                let after = lru@;
                assert(sorted(after)) by {
                    assert forall|a: int, b: int| 0 <= a < b < after.len() implies after[a].key.rank()
                        < after[b].key.rank() by {
                        if a < i && b > i {
                            assert(after[a] == before[a]);
                            assert(after[b] == before[b - 1]);
                        } else if a < i && b < i {
                            assert(after[a] == before[a]);
                            assert(after[b] == before[b]);
                        } else if a > i {
                            assert(after[a] == before[a - 1]);
                            assert(after[b] == before[b - 1]);
                        } else if a == i {
                            assert(after[b] == before[b - 1]);
                        } else {
                            assert(after[a] == before[a]);
                        }
                    }
                }
                lemma_map_insert(before, i as int, entry);
                let m0 = cache_map(before);
                let m1 = cache_map(after);
                assert(bytes1.subrange(0, at as int) == bytes0.subrange(0, at as int));
                assert(buf.bytes().subrange(0, at as int) =~= bytes1.subrange(0, at as int));
                lemma_backed_prefix(m0, bytes0, buf.bytes(), at as int);
                assert(buf.bytes().subrange(at as int, at + stride) =~= mesh@);
                assert(backed(m1, buf.bytes()));
                assert(placed(m1, 0, *end as int));
                assert(spread(m1));
            }
            at
        },
    }
}

/// The keys among the first `n` of `keys`.
pub open spec fn among<K: ShapeKey>(keys: Seq<K>, n: int) -> Set<K> {
    Set::new(|k: K| exists|j: int| 0 <= j < n && keys[j] == k)
}

/// What a list holds after the keys of `wanted` were touched, against what
/// it held before: the wanted keys have come to it, behind `end`, and are
/// marked as used; every other key is as it was.
pub open spec fn refreshed<K: ShapeKey>(
    before: Map<K, Slot>,
    after: Map<K, Slot>,
    wanted: Set<K>,
    end: usize,
) -> bool {
    &&& forall|k: K|
        #![trigger after.dom().contains(k)]
        after.dom().contains(k) <==> before.dom().contains(k) || wanted.contains(k)
    &&& forall|k: K|
        #![trigger before.dom().contains(k)]
        before.dom().contains(k) ==> after[k].offset == before[k].offset && after[k].recently_used
            == (before[k].recently_used || wanted.contains(k))
    &&& forall|k: K|
        #![trigger wanted.contains(k)]
        wanted.contains(k) && !before.dom().contains(k) ==> after[k].recently_used
            && after[k].offset >= end
}

/// A cache list and the number of bytes in use.
#[verifier::reject_recursive_types(K)]
pub struct Filled<K> {
    pub map: Map<K, Slot>,
    pub end: int,
}

/// What a list holds, and how many bytes are in use, after the keys were
/// touched one after the other: a key which the list holds is marked as
/// used; a key which it does not hold is put behind the bytes in use, which
/// grow by the bytes of its mesh.
pub open spec fn touched<K: ShapeKey>(map: Map<K, Slot>, end: int, keys: Seq<K>) -> Filled<K>
    decreases keys.len(),
{
    if keys.len() == 0 {
        Filled { map, end }
    } else {
        let before = touched(map, end, keys.drop_last());
        let key = keys.last();
        if before.map.dom().contains(key) {
            Filled {
                map: before.map.insert(
                    key,
                    Slot { offset: before.map[key].offset, recently_used: true },
                ),
                end: before.end,
            }
        } else {
            Filled {
                map: before.map.insert(
                    key,
                    Slot { offset: before.end as usize, recently_used: true },
                ),
                end: before.end + K::stride_len(),
            }
        }
    }
}

/// Where the dirty range starts once bytes from `from` on are dirty too.
pub open spec fn start_of(dirty: Option<ByteRange>, from: usize) -> usize {
    match dirty {
        None => from,
        Some(d) => if d.start <= from {
            d.start
        } else {
            from
        },
    }
}

/// The dirty range after meshes were put behind the `from` bytes in use, so
/// that `to` bytes are in use now, where `grew` says whether the buffer had to
/// grow for them. With no new mesh nothing changes. Else the range ends with
/// the last new mesh; it starts at the front of the buffer if that grew, for
/// then all of it is new to the GPU.
pub open spec fn appended(dirty: Option<ByteRange>, grew: bool, from: usize, to: usize) -> Option<
    ByteRange,
> {
    if to == from {
        dirty
    } else {
        Some(
            ByteRange {
                start: if grew {
                    0
                } else {
                    start_of(dirty, from)
                },
                end: to,
            },
        )
    }
}

/// Touches every key of `keys` in turn, and returns where the mesh of each
/// lies.
pub(crate) fn touch_all<K: ShapeKey>(
    lru: &mut Vec<Lru<K>>,
    buf: &mut VertexBuf,
    end: &mut usize,
    keys: &Vec<K>,
    planned: usize,
) -> (offsets: Vec<usize>)
    requires
        sorted(old(lru)@),
        old(buf).wf(),
        0 < *old(end) <= old(buf).bytes().len(),
        *old(end) + keys@.len() * K::stride_len() <= planned <= old(buf).max_len(),
        placed(cache_map(old(lru)@), 0, *old(end) as int),
        spread(cache_map(old(lru)@)),
        backed(cache_map(old(lru)@), old(buf).bytes()),
        old(buf).dirty() matches Some(d) ==> d.end <= *old(end),
    ensures
        sorted(final(lru)@),
        final(buf).wf(),
        final(buf).max_len() == old(buf).max_len(),
        *old(end) <= *final(end) <= final(buf).bytes().len(),
        *final(end) <= *old(end) + keys@.len() * K::stride_len(),
        placed(cache_map(final(lru)@), 0, *final(end) as int),
        spread(cache_map(final(lru)@)),
        backed(cache_map(final(lru)@), final(buf).bytes()),
        refreshed(
            cache_map(old(lru)@),
            cache_map(final(lru)@),
            among(keys@, keys@.len() as int),
            *old(end),
        ),
        touched(cache_map(old(lru)@), *old(end) as int, keys@) == (Filled {
            map: cache_map(final(lru)@),
            end: *final(end) as int,
        }),
        offsets@.len() == keys@.len(),
        forall|j: int|
            0 <= j < keys@.len() ==> #[trigger] offsets@[j] == cache_map(
                final(lru)@,
            )[keys@[j]].offset,
        final(lru)@.len() >= old(lru)@.len(),
        *final(end) - *old(end) == (final(lru)@.len() - old(lru)@.len()) * K::stride_len(),
        final(buf).bytes().subrange(0, *old(end) as int) == old(buf).bytes().subrange(
            0,
            *old(end) as int,
        ),
        final(buf).bytes().len() >= old(buf).bytes().len(),
        final(buf).bytes().len() == if *final(end) <= old(buf).bytes().len() {
            old(buf).bytes().len() as int
        } else {
            grown_capacity(planned as int, old(buf).max_len() as int)
        },
        *final(end) <= old(buf).bytes().len() <==> final(buf).bytes().len() == old(
            buf,
        ).bytes().len(),
        *final(end) == *old(end) ==> final(buf).bytes() == old(buf).bytes(),
        *final(end) == *old(end) || grown(cache_map(old(lru)@), cache_map(final(lru)@)),
        final(buf).dirty() == appended(
            old(buf).dirty(),
            final(buf).bytes().len() != old(buf).bytes().len(),
            *old(end),
            *final(end),
        ),
        final(buf).copies() == if final(buf).bytes().len() != old(buf).bytes().len() {
            Seq::empty()
        } else {
            old(buf).copies()
        },
{
    let ghost map0 = cache_map(lru@);
    let ghost len0 = lru@.len();
    let ghost end0 = *end;
    let ghost bytes0 = buf.bytes();
    let ghost dirty0 = buf.dirty();
    let ghost copies0 = buf.copies();
    let n: usize = keys.len();
    let mut offsets: Vec<usize> = Vec::new();
    let mut i: usize = 0;
    proof {
        assert(among(keys@, 0) =~= Set::<K>::empty());
        assert(keys@.subrange(0, 0) =~= Seq::<K>::empty());
        assert((n - 0) * K::stride_len() == keys@.len() * K::stride_len());
        assert(0 * K::stride_len() == 0) by (nonlinear_arith);
    }
    while i < n
        invariant
            i <= n == keys@.len(),
            sorted(lru@),
            buf.wf(),
            0 < end0 <= *end <= buf.bytes().len(),
            end0 <= bytes0.len(),
            *end + (n - i) * K::stride_len() <= planned <= buf.max_len(),
            buf.max_len() == old(buf).max_len(),
            *end <= end0 + i * K::stride_len(),
            placed(cache_map(lru@), 0, *end as int),
            spread(cache_map(lru@)),
            backed(cache_map(lru@), buf.bytes()),
            refreshed(map0, cache_map(lru@), among(keys@, i as int), end0),
            touched(map0, end0 as int, keys@.subrange(0, i as int)) == (Filled {
                map: cache_map(lru@),
                end: *end as int,
            }),
            offsets@.len() == i,
            forall|j: int|
                0 <= j < i ==> #[trigger] offsets@[j] == cache_map(lru@)[keys@[j]].offset,
            lru@.len() >= len0,
            *end - end0 == (lru@.len() - len0) * K::stride_len(),
            buf.bytes().subrange(0, end0 as int) == bytes0.subrange(0, end0 as int),
            buf.bytes().len() >= bytes0.len(),
            buf.bytes().len() == if *end <= bytes0.len() {
                bytes0.len() as int
            } else {
                grown_capacity(planned as int, buf.max_len() as int)
            },
            *end <= bytes0.len() <==> buf.bytes().len() == bytes0.len(),
            *end == end0 ==> buf.bytes() == bytes0,
            *end == end0 || grown(map0, cache_map(lru@)),
            dirty0 matches Some(d) ==> d.end <= end0,
            buf.dirty() == appended(dirty0, buf.bytes().len() != bytes0.len(), end0, *end),
            buf.copies() == if buf.bytes().len() != bytes0.len() {
                Seq::empty()
            } else {
                copies0
            },
        decreases n - i,
    {
        let key: K = keys[i];
        let ghost seq1 = lru@;
        let ghost map1 = cache_map(lru@);
        let ghost end1 = *end;
        let ghost bytes1 = buf.bytes();
        let ghost len1 = lru@.len();
        let ghost prev = offsets@;
        proof {
            K::lemma_mesh_len(key);
            assert((n - i) * K::stride_len() == (n - i - 1) * K::stride_len() + K::stride_len())
                by (nonlinear_arith);
            assert((i + 1) * K::stride_len() == i * K::stride_len() + K::stride_len())
                by (nonlinear_arith);
            assert((len1 + 1 - len0) * K::stride_len() == (len1 - len0) * K::stride_len()
                + K::stride_len()) by (nonlinear_arith);
        }
        let offset: usize = touch(lru, buf, end, key, planned);
        offsets.push(offset);
        proof {
            let map2 = cache_map(lru@);
            assert(among(keys@, i as int + 1) =~= among(keys@, i as int).insert(key)) by {
                assert forall|k: K| among(keys@, i as int + 1).contains(k) <==> among(
                    keys@,
                    i as int,
                ).insert(key).contains(k) by {
                    if among(keys@, i as int + 1).contains(k) {
                        let j = choose|j: int| 0 <= j < i + 1 && keys@[j] == k;
                        if j < i {
                            assert(among(keys@, i as int).contains(k));
                        }
                    }
                    if among(keys@, i as int).contains(k) {
                        let j = choose|j: int| 0 <= j < i && keys@[j] == k;
                        assert(0 <= j < i + 1 && keys@[j] == k);
                    }
                    if k == key {
                        assert(0 <= i < i + 1 && keys@[i as int] == k);
                    }
                }
            }
            let wanted1 = among(keys@, i as int);
            let wanted2 = among(keys@, i as int + 1);
            assert(map1.dom().contains(key) <==> holds(seq1, key));
            assert(map2 == map1.insert(key, Slot { offset, recently_used: true }));
            assert(keys@.subrange(0, i as int + 1).drop_last() =~= keys@.subrange(0, i as int));
            assert(keys@.subrange(0, i as int + 1).last() == key);
            if end1 != end0 {
                let k = choose|k: K| #[trigger] map1.dom().contains(k) && !map0.dom().contains(k);
                assert(map2.dom().contains(k));
            } else if *end != end0 {
                assert(!map1.dom().contains(key));
                assert(map2.dom().contains(key) && !map0.dom().contains(key));
            }
            assert forall|k: K|
                #![trigger map2.dom().contains(k)]
                map2.dom().contains(k) <==> map0.dom().contains(k) || wanted2.contains(k) by {
                assert(map1.dom().contains(k) <==> map0.dom().contains(k) || wanted1.contains(k));
            }
            assert forall|k: K|
                #![trigger map0.dom().contains(k)]
                map0.dom().contains(k) implies map2[k].offset == map0[k].offset
                && map2[k].recently_used == (map0[k].recently_used || wanted2.contains(k)) by {
                assert(map1.dom().contains(k));
            }
            assert forall|k: K|
                #![trigger wanted2.contains(k)]
                wanted2.contains(k) && !map0.dom().contains(k) implies map2[k].recently_used
                && map2[k].offset >= end0 by {
                if k != key {
                    assert(wanted1.contains(k));
                } else if map1.dom().contains(key) {
                    assert(wanted1.contains(k));
                }
            }
            assert(buf.bytes().subrange(0, end0 as int) =~= buf.bytes().subrange(
                0,
                end1 as int,
            ).subrange(0, end0 as int));
            assert(bytes1.subrange(0, end0 as int) =~= bytes1.subrange(0, end1 as int).subrange(
                0,
                end0 as int,
            ));
            assert forall|j: int| 0 <= j < i + 1 implies #[trigger] offsets@[j] == map2[keys@[j]].offset by {
                if j < i {
                    assert(offsets@[j] == prev[j]);
                    assert(among(keys@, i as int).contains(keys@[j]));
                    assert(map1.dom().contains(keys@[j]));
                }
            }
        }
        i = i + 1;
    }
    proof {
        assert(keys@.subrange(0, n as int) =~= keys@);
    }
    offsets
}

/// Moves every entry which lies behind `hole` down by `len` bytes.
pub(crate) fn slide<K: ShapeKey>(lru: &mut Vec<Lru<K>>, hole: usize, len: usize)
    requires
        sorted(old(lru)@),
        forall|k: K| #[trigger]
            cache_map(old(lru)@).dom().contains(k) ==> cache_map(old(lru)@)[k].offset <= hole
                || cache_map(old(lru)@)[k].offset >= hole + len,
    ensures
        sorted(final(lru)@),
        final(lru)@.len() == old(lru)@.len(),
        cache_map(final(lru)@).dom() == cache_map(old(lru)@).dom(),
        forall|k: K| #[trigger]
            cache_map(final(lru)@).dom().contains(k) ==> cache_map(final(lru)@)[k] == slid(
                cache_map(old(lru)@)[k],
                hole,
                len,
            ),
        forall|j: int|
            0 <= j < final(lru)@.len() ==> (#[trigger] final(lru)@[j]).recently_used == old(
                lru,
            )@[j].recently_used,
{
    let ghost before = lru@;
    let n: usize = lru.len();
    let mut i: usize = 0;
    while i < n
        invariant
            i <= n == lru@.len() == before.len(),
            sorted(before),
            forall|k: K| #[trigger]
                cache_map(before).dom().contains(k) ==> cache_map(before)[k].offset <= hole
                    || cache_map(before)[k].offset >= hole + len,
            forall|j: int| 0 <= j < n ==> (#[trigger] lru@[j]).key == before[j].key,
            forall|j: int| 0 <= j < i ==> slot_of(#[trigger] lru@[j]) == slid(
                slot_of(before[j]),
                hole,
                len,
            ),
            forall|j: int| i <= j < n ==> #[trigger] lru@[j] == before[j],
        decreases n - i,
    {
        proof {
            lemma_map_at(before, i as int);
        }
        if lru[i].offset > hole {
            let entry = Lru {
                key: lru[i].key,
                offset: lru[i].offset - len,
                recently_used: lru[i].recently_used,
            };
            lru[i] = entry;
        }
        i = i + 1;
    }
    proof {
        let after = lru@;
        assert(sorted(after)) by {
            assert forall|a: int, b: int| 0 <= a < b < after.len() implies after[a].key.rank()
                < after[b].key.rank() by {
                assert(after[a].key == before[a].key);
                assert(after[b].key == before[b].key);
            }
        }
        assert forall|k: K| holds(after, k) <==> holds(before, k) by {
            if holds(after, k) {
                let j = index_of(after, k);
                assert(before[j].key == k);
            }
            if holds(before, k) {
                let j = index_of(before, k);
                assert(after[j].key == k);
            }
        }
        assert(cache_map(after).dom() =~= cache_map(before).dom());
        assert forall|k: K| #[trigger] cache_map(after).dom().contains(k) implies cache_map(
            after,
        )[k] == slid(cache_map(before)[k], hole, len) by {
            let j = index_of(before, k);
            lemma_map_at(before, j);
            assert(after[j].key == k);
            lemma_map_at(after, j);
        }
    }
}

/// Whether no mesh of the map shares a byte with the `len` bytes at `hole`.
pub open spec fn clear_of<K: ShapeKey>(m: Map<K, Slot>, hole: usize, len: usize) -> bool {
    forall|k: K| #[trigger]
        m.dom().contains(k) ==> m[k].offset + K::stride_len() <= hole || m[k].offset >= hole + len
}

/// Whether `after` is `before` with the hole of `len` bytes at `hole` closed.
pub open spec fn closed_up<K: ShapeKey>(
    before: Map<K, Slot>,
    after: Map<K, Slot>,
    hole: usize,
    len: usize,
) -> bool {
    &&& after.dom() == before.dom()
    &&& forall|k: K| #[trigger]
        after.dom().contains(k) ==> after[k] == slid(before[k], hole, len)
}

/// Whether `after` holds the bytes of `before` with the hole of `len` bytes
/// at `hole` closed: what lay behind the hole, up to `end`, lies `len` lower.
pub open spec fn bytes_closed_up(
    before: Seq<u8>,
    after: Seq<u8>,
    hole: usize,
    len: usize,
    end: usize,
) -> bool {
    &&& after.len() == before.len()
    &&& hole + len <= end <= before.len()
    &&& forall|i: int| 0 <= i < hole ==> after[i] == before[i]
    &&& forall|i: int| hole <= i < end - len ==> after[i] == before[i + len]
}

/// Closing a hole which no mesh lies in keeps every mesh whole and in place
/// between the front and the new end.
pub proof fn lemma_close_layout<K: ShapeKey>(
    before: Map<K, Slot>,
    after: Map<K, Slot>,
    bytes: Seq<u8>,
    shifted: Seq<u8>,
    hole: usize,
    len: usize,
    end: usize,
)
    requires
        closed_up(before, after, hole, len),
        bytes_closed_up(bytes, shifted, hole, len, end),
        clear_of(before, hole, len),
        placed(before, POINT_LIGHT_LEN as int, end as int),
        backed(before, bytes),
        POINT_LIGHT_LEN <= hole,
    ensures
        placed(after, POINT_LIGHT_LEN as int, end - len),
        backed(after, shifted),
{
    assert forall|k: K| #[trigger] after.dom().contains(k) implies POINT_LIGHT_LEN
        <= after[k].offset && after[k].offset + K::stride_len() <= end - len && after[k].offset
        + K::stride_len() <= shifted.len() && shifted.subrange(
        after[k].offset as int,
        after[k].offset + K::stride_len(),
    ) == k.mesh() by {
        assert(before.dom().contains(k));
        let o = before[k].offset as int;
        let n = K::stride_len() as int;
        let p = after[k].offset as int;
        assert(shifted.subrange(p, p + n) =~= bytes.subrange(o, o + n));
    }
}

/// Closing a hole which no mesh lies in keeps the meshes of two maps apart.
pub proof fn lemma_close_apart<K: ShapeKey, L: ShapeKey>(
    m: Map<K, Slot>,
    m2: Map<K, Slot>,
    n: Map<L, Slot>,
    n2: Map<L, Slot>,
    hole: usize,
    len: usize,
)
    requires
        closed_up(m, m2, hole, len),
        closed_up(n, n2, hole, len),
        clear_of(m, hole, len),
        clear_of(n, hole, len),
        apart(m, n),
    ensures
        apart(m2, n2),
{
    assert forall|k: K, l: L|
        #![trigger m2.dom().contains(k), n2.dom().contains(l)]
        m2.dom().contains(k) && n2.dom().contains(l) implies m2[k].offset + K::stride_len()
        <= n2[l].offset || n2[l].offset + L::stride_len() <= m2[k].offset by {
        assert(m.dom().contains(k) && n.dom().contains(l));
    }
}

/// Closing a hole which no mesh lies in keeps the meshes of a map apart.
pub proof fn lemma_close_spread<K: ShapeKey>(
    m: Map<K, Slot>,
    m2: Map<K, Slot>,
    hole: usize,
    len: usize,
)
    requires
        closed_up(m, m2, hole, len),
        clear_of(m, hole, len),
        spread(m),
    ensures
        spread(m2),
{
    assert forall|k: K, l: K|
        #![trigger m2.dom().contains(k), m2.dom().contains(l)]
        m2.dom().contains(k) && m2.dom().contains(l) && k != l implies m2[k].offset
        + K::stride_len() <= m2[l].offset || m2[l].offset + K::stride_len() <= m2[k].offset by {
        assert(m.dom().contains(k) && m.dom().contains(l));
    }
}

/// Whether the three lists and the bytes fit together: every mesh lies
/// behind the point light and in front of `end`, no two meshes share a byte,
/// and the bytes of every mesh are those of its key.
pub open spec fn laid_out<K: ShapeKey, A: ShapeKey, B: ShapeKey>(
    k: Map<K, Slot>,
    a: Map<A, Slot>,
    b: Map<B, Slot>,
    bytes: Seq<u8>,
    end: int,
) -> bool {
    &&& POINT_LIGHT_LEN <= end <= bytes.len()
    &&& placed(k, POINT_LIGHT_LEN as int, end)
    &&& placed(a, POINT_LIGHT_LEN as int, end)
    &&& placed(b, POINT_LIGHT_LEN as int, end)
    &&& spread(k)
    &&& spread(a)
    &&& spread(b)
    &&& apart(k, a)
    &&& apart(k, b)
    &&& apart(a, b)
    &&& backed(k, bytes)
    &&& backed(a, bytes)
    &&& backed(b, bytes)
}

/// A key of one of three kinds.
pub enum Tagged<K, A, B> {
    First(K),
    Second(A),
    Third(B),
}

/// The three maps as one.
pub open spec fn merged<K: ShapeKey, A: ShapeKey, B: ShapeKey>(
    k: Map<K, Slot>,
    a: Map<A, Slot>,
    b: Map<B, Slot>,
) -> Map<Tagged<K, A, B>, Slot> {
    Map::new(
        |t: Tagged<K, A, B>|
            match t {
                Tagged::First(x) => k.dom().contains(x),
                Tagged::Second(x) => a.dom().contains(x),
                Tagged::Third(x) => b.dom().contains(x),
            },
        |t: Tagged<K, A, B>|
            match t {
                Tagged::First(x) => k[x],
                Tagged::Second(x) => a[x],
                Tagged::Third(x) => b[x],
            },
    )
}

/// Whether the meshes of `after` lie in the order in which they lay in
/// `before`.
pub open spec fn order_kept<T>(before: Map<T, Slot>, after: Map<T, Slot>) -> bool {
    forall|x: T, y: T|
        #![trigger after.dom().contains(x), after.dom().contains(y)]
        after.dom().contains(x) && after.dom().contains(y) && before.dom().contains(x)
            && before.dom().contains(y) && before[x].offset < before[y].offset ==> after[x].offset
            < after[y].offset
}

/// Closing a hole which no mesh lies in keeps the meshes in their order.
pub proof fn lemma_close_order<K: ShapeKey, A: ShapeKey, B: ShapeKey>(
    k: Map<K, Slot>,
    k2: Map<K, Slot>,
    a: Map<A, Slot>,
    a2: Map<A, Slot>,
    b: Map<B, Slot>,
    b2: Map<B, Slot>,
    hole: usize,
    len: usize,
)
    requires
        closed_up(k, k2, hole, len),
        closed_up(a, a2, hole, len),
        closed_up(b, b2, hole, len),
        clear_of(k, hole, len),
        clear_of(a, hole, len),
        clear_of(b, hole, len),
    ensures
        order_kept(merged(k, a, b), merged(k2, a2, b2)),
{
    K::lemma_stride_positive();
    A::lemma_stride_positive();
    B::lemma_stride_positive();
    let before = merged(k, a, b);
    let after = merged(k2, a2, b2);
    assert forall|x: Tagged<K, A, B>, y: Tagged<K, A, B>|
        #![trigger after.dom().contains(x), after.dom().contains(y)]
        after.dom().contains(x) && after.dom().contains(y) && before.dom().contains(x)
            && before.dom().contains(y) && before[x].offset < before[y].offset implies after[x].offset
            < after[y].offset by {
        match x {
            Tagged::First(p) => {
                assert(k.dom().contains(p));
            },
            Tagged::Second(p) => {
                assert(a.dom().contains(p));
            },
            Tagged::Third(p) => {
                assert(b.dom().contains(p));
            },
        }
        match y {
            Tagged::First(p) => {
                assert(k.dom().contains(p));
            },
            Tagged::Second(p) => {
                assert(a.dom().contains(p));
            },
            Tagged::Third(p) => {
                assert(b.dom().contains(p));
            },
        }
    }
}

/// What keeps the order of what kept the order keeps the order.
pub proof fn lemma_order_chain<T>(first: Map<T, Slot>, second: Map<T, Slot>, third: Map<T, Slot>)
    requires
        order_kept(first, second),
        order_kept(second, third),
        third.dom().subset_of(second.dom()),
        second.dom().subset_of(first.dom()),
    ensures
        order_kept(first, third),
{
    assert forall|x: T, y: T|
        #![trigger third.dom().contains(x), third.dom().contains(y)]
        third.dom().contains(x) && third.dom().contains(y) && first.dom().contains(x)
            && first.dom().contains(y) && first[x].offset < first[y].offset implies third[x].offset
            < third[y].offset by {
        assert(second.dom().contains(x) && second.dom().contains(y));
    }
}

/// The key among three kinds of which the first two have changed places.
pub open spec fn swap_tag<K, A, B>(t: Tagged<K, A, B>) -> Tagged<A, K, B> {
    match t {
        Tagged::First(p) => Tagged::Second(p),
        Tagged::Second(p) => Tagged::First(p),
        Tagged::Third(p) => Tagged::Third(p),
    }
}

/// The key among three kinds of which the last has become the first.
pub open spec fn turn_tag<K, A, B>(t: Tagged<K, A, B>) -> Tagged<B, K, A> {
    match t {
        Tagged::First(p) => Tagged::Second(p),
        Tagged::Second(p) => Tagged::Third(p),
        Tagged::Third(p) => Tagged::First(p),
    }
}

/// The order is kept whichever of the first two maps is named first.
pub proof fn lemma_order_swap<K: ShapeKey, A: ShapeKey, B: ShapeKey>(
    k: Map<K, Slot>,
    k2: Map<K, Slot>,
    a: Map<A, Slot>,
    a2: Map<A, Slot>,
    b: Map<B, Slot>,
    b2: Map<B, Slot>,
)
    requires
        order_kept(merged(a, k, b), merged(a2, k2, b2)),
    ensures
        order_kept(merged(k, a, b), merged(k2, a2, b2)),
{
    let before = merged(k, a, b);
    let after = merged(k2, a2, b2);
    let turned = merged(a2, k2, b2);
    let turned_before = merged(a, k, b);
    assert forall|x: Tagged<K, A, B>, y: Tagged<K, A, B>|
        #![trigger after.dom().contains(x), after.dom().contains(y)]
        after.dom().contains(x) && after.dom().contains(y) && before.dom().contains(x)
            && before.dom().contains(y) && before[x].offset < before[y].offset implies after[x].offset
            < after[y].offset by {
        assert(turned.dom().contains(swap_tag(x)) && turned.dom().contains(swap_tag(y)));
        assert(turned_before.dom().contains(swap_tag(x)) && turned_before.dom().contains(
            swap_tag(y),
        ));
    }
}

/// The order is kept whichever of the three maps is named first.
pub proof fn lemma_order_turn<K: ShapeKey, A: ShapeKey, B: ShapeKey>(
    k: Map<K, Slot>,
    k2: Map<K, Slot>,
    a: Map<A, Slot>,
    a2: Map<A, Slot>,
    b: Map<B, Slot>,
    b2: Map<B, Slot>,
)
    requires
        order_kept(merged(b, k, a), merged(b2, k2, a2)),
    ensures
        order_kept(merged(k, a, b), merged(k2, a2, b2)),
{
    let before = merged(k, a, b);
    let after = merged(k2, a2, b2);
    let turned = merged(b2, k2, a2);
    let turned_before = merged(b, k, a);
    assert forall|x: Tagged<K, A, B>, y: Tagged<K, A, B>|
        #![trigger after.dom().contains(x), after.dom().contains(y)]
        after.dom().contains(x) && after.dom().contains(y) && before.dom().contains(x)
            && before.dom().contains(y) && before[x].offset < before[y].offset implies after[x].offset
            < after[y].offset by {
        assert(turned.dom().contains(turn_tag(x)) && turned.dom().contains(turn_tag(y)));
        assert(turned_before.dom().contains(turn_tag(x)) && turned_before.dom().contains(
            turn_tag(y),
        ));
    }
}

/// Whether `after` holds the keys of `before` with the same flags, each mesh
/// where it was or lower.
pub open spec fn settled<K: ShapeKey>(before: Map<K, Slot>, after: Map<K, Slot>) -> bool {
    &&& after.dom() == before.dom()
    &&& forall|k: K| #[trigger]
        after.dom().contains(k) ==> after[k].recently_used == before[k].recently_used
            && after[k].offset <= before[k].offset
}

/// Whether `after` holds the keys of `before` which are marked as used, and
/// those only, each mesh where it was or lower.
pub open spec fn thinned<K: ShapeKey>(before: Map<K, Slot>, after: Map<K, Slot>) -> bool {
    &&& forall|k: K|
        #![trigger after.dom().contains(k)]
        after.dom().contains(k) <==> before.dom().contains(k) && before[k].recently_used
    &&& forall|k: K| #[trigger]
        after.dom().contains(k) ==> after[k].recently_used && after[k].offset <= before[k].offset
}

/// Evicts the entries of `this` which are not marked as used, and closes the
/// hole each of them leaves: the meshes behind it, of all three lists, move
/// down, and `end` with them. The moves are recorded in the buffer: bytes
/// `gpu` which are those of the buffer as far as it is in use are so again
/// once the moves are made on them.
pub(crate) fn sweep<K: ShapeKey, A: ShapeKey, B: ShapeKey>(
    this: &mut Vec<Lru<K>>,
    a: &mut Vec<Lru<A>>,
    b: &mut Vec<Lru<B>>,
    buf: &mut VertexBuf,
    end: &mut usize,
    Ghost(gpu): Ghost<Seq<u8>>,
)
    requires
        gpu.len() == old(buf).bytes().len(),
        gpu.subrange(0, *old(end) as int) == old(buf).bytes().subrange(0, *old(end) as int),
        sorted(old(this)@),
        sorted(old(a)@),
        sorted(old(b)@),
        old(buf).wf(),
        old(buf).dirty() is None,
        laid_out(
            cache_map(old(this)@),
            cache_map(old(a)@),
            cache_map(old(b)@),
            old(buf).bytes(),
            *old(end) as int,
        ),
    ensures
        sorted(final(this)@),
        sorted(final(a)@),
        sorted(final(b)@),
        final(buf).wf(),
        final(buf).max_len() == old(buf).max_len(),
        final(buf).dirty() is None,
        final(buf).bytes().len() == old(buf).bytes().len(),
        final(buf).copies().len() >= old(buf).copies().len(),
        laid_out(
            cache_map(final(this)@),
            cache_map(final(a)@),
            cache_map(final(b)@),
            final(buf).bytes(),
            *final(end) as int,
        ),
        thinned(cache_map(old(this)@), cache_map(final(this)@)),
        settled(cache_map(old(a)@), cache_map(final(a)@)),
        settled(cache_map(old(b)@), cache_map(final(b)@)),
        final(a)@.len() == old(a)@.len(),
        final(b)@.len() == old(b)@.len(),
        final(this)@.len() <= old(this)@.len(),
        *old(end) - *final(end) == (old(this)@.len() - final(this)@.len()) * K::stride_len(),
        final(buf).bytes().subrange(0, POINT_LIGHT_LEN as int) == old(buf).bytes().subrange(
            0,
            POINT_LIGHT_LEN as int,
        ),
        order_kept(
            merged(cache_map(old(this)@), cache_map(old(a)@), cache_map(old(b)@)),
            merged(cache_map(final(this)@), cache_map(final(a)@), cache_map(final(b)@)),
        ),
        final(buf).copies().subrange(0, old(buf).copies().len() as int) == old(buf).copies(),
        final(buf).copies().len() - old(buf).copies().len() <= old(this)@.len()
            - final(this)@.len(),
        forall|i: int|
            old(buf).copies().len() <= i < final(buf).copies().len() ==> moves_down(
                #[trigger] final(buf).copies()[i],
                POINT_LIGHT_LEN as int,
                *old(end) as int,
            ),
        replayed(
            gpu,
            final(buf).copies().skip(old(buf).copies().len() as int),
        ).subrange(0, *final(end) as int) == final(buf).bytes().subrange(0, *final(end) as int),
{
    let ghost this0 = cache_map(this@);
    let ghost copies0 = buf.copies();
    let ghost a0 = cache_map(a@);
    let ghost b0 = cache_map(b@);
    let ghost len0 = this@.len();
    let ghost end0 = *end;
    let ghost bytes0 = buf.bytes();
    let stride: usize = K::stride();
    let mut i: usize = 0;
    proof {
        assert(0 * K::stride_len() == 0) by (nonlinear_arith);
        assert(buf.copies().skip(copies0.len() as int) =~= Seq::<CopyRange>::empty());
        assert(buf.copies().subrange(0, copies0.len() as int) =~= copies0);
    }
    while i < this.len()
        invariant
            i <= this@.len() <= len0,
            gpu.len() == bytes0.len(),
            copies0.len() <= buf.copies().len(),
            buf.copies().len() - copies0.len() <= len0 - this@.len(),
            *end <= end0,
            forall|i: int|
                copies0.len() <= i < buf.copies().len() ==> moves_down(
                    #[trigger] buf.copies()[i],
                    POINT_LIGHT_LEN as int,
                    end0 as int,
                ),
            buf.copies().subrange(0, copies0.len() as int) == copies0,
            replayed(gpu, buf.copies().skip(copies0.len() as int)).subrange(0, *end as int)
                == buf.bytes().subrange(0, *end as int),
            stride == K::stride_len(),
            sorted(this@),
            sorted(a@),
            sorted(b@),
            buf.wf(),
            buf.max_len() == old(buf).max_len(),
            buf.dirty() is None,
            buf.bytes().len() == bytes0.len(),
            buf.copies().len() >= old(buf).copies().len(),
            laid_out(cache_map(this@), cache_map(a@), cache_map(b@), buf.bytes(), *end as int),
            forall|k: K|
                #![trigger cache_map(this@).dom().contains(k)]
                cache_map(this@).dom().contains(k) ==> this0.dom().contains(k) && cache_map(
                    this@,
                )[k].recently_used == this0[k].recently_used && cache_map(this@)[k].offset
                    <= this0[k].offset,
            forall|k: K|
                #![trigger this0.dom().contains(k)]
                this0.dom().contains(k) && this0[k].recently_used ==> cache_map(
                    this@,
                ).dom().contains(k),
            forall|j: int| 0 <= j < i ==> (#[trigger] this@[j]).recently_used,
            settled(a0, cache_map(a@)),
            settled(b0, cache_map(b@)),
            order_kept(merged(this0, a0, b0), merged(cache_map(this@), cache_map(a@), cache_map(b@))),
            a@.len() == old(a)@.len(),
            b@.len() == old(b)@.len(),
            end0 - *end == (len0 - this@.len()) * K::stride_len(),
            buf.bytes().subrange(0, POINT_LIGHT_LEN as int) == bytes0.subrange(
                0,
                POINT_LIGHT_LEN as int,
            ),
        decreases this@.len() - i,
    {
        if this[i].recently_used {
            i = i + 1;
        } else {
            let ghost seq1 = this@;
            let ghost k1 = cache_map(this@);
            let ghost a1 = cache_map(a@);
            let ghost b1 = cache_map(b@);
            let ghost bytes1 = buf.bytes();
            let ghost copies1 = buf.copies();
            let ghost end1 = *end;
            let hole: usize = this[i].offset;
            let ghost gone = this@[i as int].key;
            proof {
                K::lemma_mesh_len(gone);
                lemma_map_at(seq1, i as int);
                lemma_map_remove(seq1, i as int);
                assert((len0 - (seq1.len() - 1)) * K::stride_len() == (len0 - seq1.len())
                    * K::stride_len() + K::stride_len()) by (nonlinear_arith);
            }
            let _ = this.remove(i);
            let ghost k2 = cache_map(this@);
            proof {
                assert(k2 == k1.remove(gone));
                assert(clear_of(k2, hole, stride)) by {
                    assert forall|k: K| #[trigger] k2.dom().contains(k) implies k2[k].offset
                        + K::stride_len() <= hole || k2[k].offset >= hole + stride by {
                        assert(k1.dom().contains(k) && k1.dom().contains(gone));
                    }
                }
                assert(clear_of(a1, hole, stride)) by {
                    assert forall|x: A| #[trigger] a1.dom().contains(x) implies a1[x].offset
                        + A::stride_len() <= hole || a1[x].offset >= hole + stride by {
                        assert(k1.dom().contains(gone) && a1.dom().contains(x));
                    }
                }
                assert(clear_of(b1, hole, stride)) by {
                    assert forall|x: B| #[trigger] b1.dom().contains(x) implies b1[x].offset
                        + B::stride_len() <= hole || b1[x].offset >= hole + stride by {
                        assert(k1.dom().contains(gone) && b1.dom().contains(x));
                    }
                }
                assert(placed(k2, POINT_LIGHT_LEN as int, end1 as int));
                assert(spread(k2));
                assert(apart(k2, a1));
                assert(apart(k2, b1));
                assert(backed(k2, bytes1));
            }
            buf.shift_down(hole, stride, *end);
            slide(this, hole, stride);
            slide(a, hole, stride);
            slide(b, hole, stride);
            *end = *end - stride;
            proof {
                let k3 = cache_map(this@);
                let a3 = cache_map(a@);
                let b3 = cache_map(b@);
                let bytes3 = buf.bytes();
                assert(closed_up(k2, k3, hole, stride));
                assert(closed_up(a1, a3, hole, stride));
                assert(closed_up(b1, b3, hole, stride));
                assert(bytes_closed_up(bytes1, bytes3, hole, stride, end1));
                lemma_close_layout(k2, k3, bytes1, bytes3, hole, stride, end1);
                lemma_close_layout(a1, a3, bytes1, bytes3, hole, stride, end1);
                lemma_close_layout(b1, b3, bytes1, bytes3, hole, stride, end1);
                lemma_close_spread(k2, k3, hole, stride);
                lemma_close_spread(a1, a3, hole, stride);
                lemma_close_spread(b1, b3, hole, stride);
                lemma_close_apart(k2, k3, a1, a3, hole, stride);
                lemma_close_apart(k2, k3, b1, b3, hole, stride);
                lemma_close_apart(a1, a3, b1, b3, hole, stride);
                lemma_close_order(k2, k3, a1, a3, b1, b3, hole, stride);
                assert(order_kept(merged(this0, a0, b0), merged(k2, a1, b1))) by {
                    let first = merged(this0, a0, b0);
                    let was = merged(k1, a1, b1);
                    let now = merged(k2, a1, b1);
                    assert forall|x: Tagged<K, A, B>, y: Tagged<K, A, B>|
                        #![trigger now.dom().contains(x), now.dom().contains(y)]
                        now.dom().contains(x) && now.dom().contains(y) && first.dom().contains(x)
                            && first.dom().contains(y) && first[x].offset
                            < first[y].offset implies now[x].offset < now[y].offset by {
                        assert(was.dom().contains(x) && was.dom().contains(y));
                        assert(was[x] == now[x] && was[y] == now[y]);
                    }
                }
                assert(merged(k3, a3, b3).dom().subset_of(merged(k2, a1, b1).dom()));
                assert(merged(k2, a1, b1).dom().subset_of(merged(this0, a0, b0).dom())) by {
                    assert forall|x: Tagged<K, A, B>| merged(k2, a1, b1).dom().contains(
                        x,
                    ) implies merged(this0, a0, b0).dom().contains(x) by {
                        match x {
                            Tagged::First(p) => {
                                assert(k1.dom().contains(p));
                            },
                            Tagged::Second(p) => {
                                assert(a1.dom().contains(p));
                            },
                            Tagged::Third(p) => {
                                assert(b1.dom().contains(p));
                            },
                        }
                    }
                }
                lemma_order_chain(merged(this0, a0, b0), merged(k2, a1, b1), merged(k3, a3, b3));
                assert(buf.bytes().subrange(0, POINT_LIGHT_LEN as int) =~= bytes1.subrange(
                    0,
                    POINT_LIGHT_LEN as int,
                ));
                assert forall|j: int| 0 <= j < i implies (#[trigger] this@[j]).recently_used by {
                    assert(seq1.remove(i as int)[j] == seq1[j]);
                }
                let added1 = copies1.skip(copies0.len() as int);
                let added3 = buf.copies().skip(copies0.len() as int);
                let gpu1 = replayed(gpu, added1);
                lemma_replayed_len(gpu, added1);
                assert(buf.copies().subrange(0, copies0.len() as int) =~= copies1.subrange(
                    0,
                    copies0.len() as int,
                ));
                if hole + stride < end1 {
                    let c = CopyRange {
                        src: ByteRange { start: (hole + stride) as usize, end: end1 },
                        dst: hole,
                    };
                    assert(added3 =~= added1.push(c));
                    assert(added3.drop_last() =~= added1);
                    let gpu3 = moved(gpu1, c);
                    assert(replayed(gpu, added3) == gpu3);
                    assert forall|x: int| 0 <= x < end1 - stride implies gpu3[x] == bytes3[x] by {
                        if x < hole {
                            assert(gpu1[x] == gpu1.subrange(0, end1 as int)[x]);
                            assert(bytes1[x] == bytes1.subrange(0, end1 as int)[x]);
                        } else {
                            assert(gpu1[x + stride] == gpu1.subrange(0, end1 as int)[x + stride]);
                            assert(bytes1[x + stride] == bytes1.subrange(0, end1 as int)[x
                                + stride]);
                        }
                    }
                    assert(gpu3.subrange(0, end1 - stride) =~= bytes3.subrange(0, end1 - stride));
                } else {
                    assert(added3 =~= added1);
                    assert forall|x: int| 0 <= x < end1 - stride implies gpu1[x] == bytes3[x] by {
                        assert(gpu1[x] == gpu1.subrange(0, end1 as int)[x]);
                        assert(bytes1[x] == bytes1.subrange(0, end1 as int)[x]);
                    }
                    assert(gpu1.subrange(0, end1 - stride) =~= bytes3.subrange(0, end1 - stride));
                }
            }
        }
    }
    proof {
        assert forall|k: K|
            #![trigger cache_map(this@).dom().contains(k)]
            cache_map(this@).dom().contains(k) implies cache_map(this@)[k].recently_used by {
            let j = index_of(this@, k);
            lemma_map_at(this@, j);
        }
    }
}

/// Clears the flag of every entry.
pub(crate) fn rest<K: ShapeKey>(lru: &mut Vec<Lru<K>>)
    requires
        sorted(old(lru)@),
    ensures
        sorted(final(lru)@),
        final(lru)@.len() == old(lru)@.len(),
        cache_map(final(lru)@).dom() == cache_map(old(lru)@).dom(),
        forall|k: K| #[trigger]
            cache_map(final(lru)@).dom().contains(k) ==> cache_map(final(lru)@)[k] == rested(
                cache_map(old(lru)@)[k],
            ),
{
    let ghost before = lru@;
    let n: usize = lru.len();
    let mut i: usize = 0;
    while i < n
        invariant
            i <= n == lru@.len() == before.len(),
            forall|j: int| 0 <= j < n ==> (#[trigger] lru@[j]).key == before[j].key,
            forall|j: int| 0 <= j < n ==> (#[trigger] lru@[j]).offset == before[j].offset,
            forall|j: int| 0 <= j < i ==> !(#[trigger] lru@[j]).recently_used,
        decreases n - i,
    {
        let entry = Lru { key: lru[i].key, offset: lru[i].offset, recently_used: false };
        lru[i] = entry;
        i = i + 1;
    }
    proof {
        let after = lru@;
        assert(sorted(after)) by {
            assert forall|a: int, b: int| 0 <= a < b < after.len() implies after[a].key.rank()
                < after[b].key.rank() by {
                assert(after[a].key == before[a].key);
                assert(after[b].key == before[b].key);
            }
        }
        assert forall|k: K| holds(after, k) <==> holds(before, k) by {
            if holds(after, k) {
                let j = index_of(after, k);
                assert(before[j].key == k);
            }
            if holds(before, k) {
                let j = index_of(before, k);
                assert(after[j].key == k);
            }
        }
        assert(cache_map(after).dom() =~= cache_map(before).dom());
        assert forall|k: K| #[trigger] cache_map(after).dom().contains(k) implies cache_map(
            after,
        )[k] == rested(cache_map(before)[k]) by {
            let j = index_of(before, k);
            lemma_map_at(before, j);
            assert(after[j].key == k);
            lemma_map_at(after, j);
        }
    }
}

} // verus!
