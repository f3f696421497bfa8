//! The shared vertex buffer: the bytes of every cached mesh, and which of
//! them the GPU has yet to receive.

use vstd::prelude::*;

verus! {

/// No vertex buffer grows beyond this many bytes.
pub const MAX_CAPACITY: usize = 0x7fff_ffff;

/// The bytes from `start` up to, not including, `end`.
#[derive(Clone, Copy, Debug, PartialEq, Eq, Structural)]
pub struct ByteRange {
    pub start: usize,
    pub end: usize,
}

/// A move of the bytes of `src` to the offset `dst`, to be made on the GPU.
/// The two ranges may overlap; the move is to `dst <= src.start`.
#[derive(Clone, Copy, Debug, PartialEq, Eq, Structural)]
pub struct CopyRange {
    pub src: ByteRange,
    pub dst: usize,
}

/// The smallest range which holds `dirty` and the bytes from `start` to `end`.
pub open spec fn hull(dirty: Option<ByteRange>, start: usize, end: usize) -> Option<ByteRange> {
    match dirty {
        None => Some(ByteRange { start, end }),
        Some(d) => Some(
            ByteRange {
                start: if d.start <= start {
                    d.start
                } else {
                    start
                },
                end: if d.end >= end {
                    d.end
                } else {
                    end
                },
            },
        ),
    }
}

/// The capacity a buffer is given when it has to grow and `planned` bytes
/// may come into use: twice that, so that it does not grow again soon, but no
/// more than its limit.
pub open spec fn grown_capacity(planned: int, limit: int) -> int {
    if 2 * planned > limit {
        limit
    } else {
        2 * planned
    }
}

/// Whether the move takes bytes from within the first `used` bytes down
/// towards the front, to no lower than `front`.
pub open spec fn moves_down(c: CopyRange, front: int, used: int) -> bool {
    front <= c.dst < c.src.start < c.src.end <= used
}

/// The bytes after the move `c` was made: the bytes of its source lie at its
/// destination, every other byte is as it was.
pub open spec fn moved(bytes: Seq<u8>, c: CopyRange) -> Seq<u8> {
    Seq::new(
        bytes.len(),
        |i: int|
            if c.dst <= i < c.dst + (c.src.end - c.src.start) {
                bytes[i - c.dst + c.src.start]
            } else {
                bytes[i]
            },
    )
}

/// The bytes after the moves were made one after the other.
pub open spec fn replayed(bytes: Seq<u8>, copies: Seq<CopyRange>) -> Seq<u8>
    decreases copies.len(),
{
    if copies.len() == 0 {
        bytes
    } else {
        moved(replayed(bytes, copies.drop_last()), copies.last())
    }
}

/// Moves made one after the other are made in two runs as well.
pub proof fn lemma_replayed_in_runs(bytes: Seq<u8>, first: Seq<CopyRange>, second: Seq<CopyRange>)
    ensures
        replayed(bytes, first + second) == replayed(replayed(bytes, first), second),
        replayed(bytes, first).len() == bytes.len(),
    decreases second.len(),
{
    lemma_replayed_len(bytes, first);
    if second.len() == 0 {
        assert(first + second =~= first);
    } else {
        lemma_replayed_in_runs(bytes, first, second.drop_last());
        assert((first + second).drop_last() =~= first + second.drop_last());
        assert((first + second).last() == second.last());
    }
}

/// Moves leave as many bytes as there were.
pub proof fn lemma_replayed_len(bytes: Seq<u8>, copies: Seq<CopyRange>)
    ensures
        replayed(bytes, copies).len() == bytes.len(),
    decreases copies.len(),
{
    if copies.len() > 0 {
        lemma_replayed_len(bytes, copies.drop_last());
    }
}

/// A growable buffer of vertex bytes with its dirty state.
pub struct VertexBuf {
    data: Vec<u8>,
    cpu_dirty: Option<ByteRange>,
    gpu_dirty: Vec<CopyRange>,
    limit: usize,
}

impl VertexBuf {
    /// The bytes of the buffer; their number is its capacity.
    pub closed spec fn bytes(&self) -> Seq<u8> {
        self.data@
    }

    /// The range of bytes written since the dirty state was last cleared.
    pub closed spec fn dirty(&self) -> Option<ByteRange> {
        self.cpu_dirty
    }

    /// The moves recorded since the dirty state was last cleared, in the
    /// order in which they were made.
    pub closed spec fn copies(&self) -> Seq<CopyRange> {
        self.gpu_dirty@
    }

    /// The number of bytes beyond which the buffer does not grow.
    pub closed spec fn max_len(&self) -> usize {
        self.limit
    }

    /// The buffer is within its limit, and the dirty range lies within the
    /// buffer.
    pub open spec fn wf(&self) -> bool {
        &&& self.bytes().len() <= self.max_len() <= MAX_CAPACITY
        &&& match self.dirty() {
            None => true,
            Some(d) => d.start <= d.end <= self.bytes().len(),
        }
    }

    /// A clean buffer of `capacity` zero bytes which grows up to `limit`
    /// bytes.
    pub fn with_capacity(capacity: usize, limit: usize) -> (buf: VertexBuf)
        requires
            capacity <= limit <= MAX_CAPACITY,
        ensures
            buf.wf(),
            buf.max_len() == limit,
            buf.bytes().len() == capacity,
            forall|i: int| 0 <= i < capacity ==> buf.bytes()[i] == 0u8,
            buf.dirty() is None,
            buf.copies().len() == 0,
    {
        VertexBuf { data: vec![0u8; capacity], cpu_dirty: None, gpu_dirty: Vec::new(), limit }
    }

    /// The number of bytes the buffer holds.
    pub fn capacity(&self) -> (n: usize)
        ensures
            n == self.bytes().len(),
    {
        self.data.len()
    }

    /// The number of bytes beyond which the buffer does not grow.
    pub fn limit(&self) -> (n: usize)
        ensures
            n == self.max_len(),
    {
        self.limit
    }

    /// The bytes of the buffer.
    pub fn data(&self) -> (d: &Vec<u8>)
        ensures
            d@ == self.bytes(),
    {
        &self.data
    }

    /// The range of bytes written since the dirty state was last cleared.
    pub fn cpu_dirty(&self) -> (d: Option<ByteRange>)
        ensures
            d == self.dirty(),
    {
        self.cpu_dirty
    }

    /// The moves recorded since the dirty state was last cleared.
    pub fn gpu_dirty(&self) -> (c: &Vec<CopyRange>)
        ensures
            c@ == self.copies(),
    {
        &self.gpu_dirty
    }

    /// Forgets the dirty range and the recorded moves; the bytes stay.
    pub fn clear_dirty(&mut self)
        ensures
            final(self).bytes() == old(self).bytes(),
            final(self).max_len() == old(self).max_len(),
            final(self).dirty() is None,
            final(self).copies().len() == 0,
            old(self).wf() ==> final(self).wf(),
    {
        self.cpu_dirty = None;
        self.gpu_dirty.clear();
    }

    /// Makes room for `required` bytes, of which the first `used` are in use,
    /// where `planned` bytes may come into use before long.
    ///
    /// A buffer which is large enough is left as it is. Otherwise it is
    /// replaced by one of [`grown_capacity`] bytes which starts with the bytes
    /// in use; these become dirty, and the recorded moves, which were meant
    /// for the old buffer, are dropped.
    pub fn reserve(&mut self, required: usize, planned: usize, used: usize)
        requires
            old(self).wf(),
            used <= old(self).bytes().len(),
            used <= required <= planned <= old(self).max_len(),
        ensures
            final(self).wf(),
            final(self).max_len() == old(self).max_len(),
            required <= old(self).bytes().len() ==> {
                &&& final(self).bytes() == old(self).bytes()
                &&& final(self).dirty() == old(self).dirty()
                &&& final(self).copies() == old(self).copies()
            },
            required > old(self).bytes().len() ==> {
                &&& final(self).bytes().len() == grown_capacity(
                    planned as int,
                    old(self).max_len() as int,
                )
                &&& final(self).bytes().subrange(0, used as int) == old(self).bytes().subrange(
                    0,
                    used as int,
                )
                &&& forall|i: int|
                    used <= i < final(self).bytes().len() ==> final(self).bytes()[i] == 0u8
                &&& final(self).dirty() == if used > 0 {
                    hull(old(self).dirty(), 0, used)
                } else {
                    old(self).dirty()
                }
                &&& final(self).copies() == Seq::<CopyRange>::empty()
            },
    {
        if required <= self.data.len() {
            return ;
        }
        let capacity: usize = if 2 * planned > self.limit {
            self.limit
        } else {
            2 * planned
        };
        let mut grown: Vec<u8> = vec![0u8; capacity];
        let mut i: usize = 0;
        while i < used
            invariant
                i <= used <= self.data.len(),
                used <= capacity,
                grown@.len() == capacity,
                self.data@ == old(self).data@,
                self.limit == old(self).limit,
                forall|j: int| 0 <= j < i ==> grown@[j] == self.data@[j],
                forall|j: int| i <= j < capacity ==> grown@[j] == 0u8,
            decreases used - i,
        {
            grown[i] = self.data[i];
            i = i + 1;
        }
        assert(grown@.subrange(0, used as int) =~= self.data@.subrange(0, used as int));
        self.data = grown;
        if used > 0 {
            self.cpu_dirty = Some(merge(self.cpu_dirty, 0, used));
        }
        self.gpu_dirty = Vec::new();
        assert(self.gpu_dirty@ =~= Seq::<CopyRange>::empty());
    }

    /// Writes `src` at `offset`; the bytes written become dirty.
    pub fn write(&mut self, offset: usize, src: &Vec<u8>)
        requires
            old(self).wf(),
            offset + src@.len() <= old(self).bytes().len(),
        ensures
            final(self).wf(),
            final(self).max_len() == old(self).max_len(),
            final(self).bytes() == old(self).bytes().subrange(0, offset as int) + src@ + old(
                self,
            ).bytes().subrange(offset + src@.len(), old(self).bytes().len() as int),
            final(self).dirty() == if src@.len() > 0 {
                hull(old(self).dirty(), offset, (offset + src@.len()) as usize)
            } else {
                old(self).dirty()
            },
            final(self).copies() == old(self).copies(),
    {
        let n: usize = src.len();
        let mut i: usize = 0;
        while i < n
            invariant
                i <= n == src@.len(),
                offset + n <= self.data@.len() <= MAX_CAPACITY,
                self.data@.len() == old(self).data@.len(),
                forall|j: int| 0 <= j < offset ==> self.data@[j] == old(self).data@[j],
                forall|j: int| offset <= j < offset + i ==> self.data@[j] == src@[j - offset],
                forall|j: int|
                    offset + i <= j < self.data@.len() ==> self.data@[j] == old(self).data@[j],
                self.cpu_dirty == old(self).cpu_dirty,
                self.gpu_dirty@ == old(self).gpu_dirty@,
                self.limit == old(self).limit,
            decreases n - i,
        {
            self.data[offset + i] = src[i];
            i = i + 1;
        }
        assert(self.data@ =~= old(self).data@.subrange(0, offset as int) + src@ + old(
            self,
        ).data@.subrange(offset + n, old(self).data@.len() as int));
        if n > 0 {
            self.cpu_dirty = Some(merge(self.cpu_dirty, offset, offset + n));
        }
    }

    /// Closes the hole of `len` bytes at `hole`: the bytes from behind the
    /// hole up to `end` move down by `len`, and the move is recorded so that
    /// the GPU can follow it. Nothing becomes dirty.
    pub fn shift_down(&mut self, hole: usize, len: usize, end: usize)
        requires
            old(self).wf(),
            hole + len <= end <= old(self).bytes().len(),
        ensures
            final(self).wf(),
            final(self).max_len() == old(self).max_len(),
            final(self).bytes().len() == old(self).bytes().len(),
            forall|i: int| 0 <= i < hole ==> final(self).bytes()[i] == old(self).bytes()[i],
            forall|i: int|
                hole <= i < end - len ==> final(self).bytes()[i] == old(self).bytes()[i + len],
            forall|i: int|
                end - len <= i < old(self).bytes().len() ==> final(self).bytes()[i] == old(
                    self,
                ).bytes()[i],
            final(self).dirty() == old(self).dirty(),
            final(self).copies() == if len > 0 && hole + len < end {
                old(self).copies().push(
                    CopyRange {
                        src: ByteRange { start: (hole + len) as usize, end },
                        dst: hole,
                    },
                )
            } else {
                old(self).copies()
            },
    {
        if len == 0 || hole + len == end {
            return ;
        }
        let stop: usize = end - len;
        let mut i: usize = hole;
        while i < stop
            invariant
                hole <= i <= stop,
                stop + len == end,
                len > 0,
                end <= self.data@.len() <= MAX_CAPACITY,
                self.data@.len() == old(self).data@.len(),
                forall|j: int| 0 <= j < hole ==> self.data@[j] == old(self).data@[j],
                forall|j: int| hole <= j < i ==> self.data@[j] == old(self).data@[j + len],
                forall|j: int| i <= j < self.data@.len() ==> self.data@[j] == old(self).data@[j],
                self.cpu_dirty == old(self).cpu_dirty,
                self.gpu_dirty@ == old(self).gpu_dirty@,
                self.limit == old(self).limit,
            decreases stop - i,
        {
            self.data[i] = self.data[i + len];
            i = i + 1;
        }
        self.gpu_dirty.push(CopyRange { src: ByteRange { start: hole + len, end }, dst: hole });
    }
}

/// Computes [`hull`].
fn merge(dirty: Option<ByteRange>, start: usize, end: usize) -> (r: ByteRange)
    ensures
        Some(r) == hull(dirty, start, end),
{
    match dirty {
        None => ByteRange { start, end },
        Some(d) => ByteRange {
            start: if d.start <= start {
                d.start
            } else {
                start
            },
            end: if d.end >= end {
                d.end
            } else {
                end
            },
        },
    }
}

} // verus!
