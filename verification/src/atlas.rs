//! A dynamic glyph atlas: which page of the atlas every rasterized glyph
//! went to, where on the page it lies, and which staging bytes still have to
//! be copied there.
//!
//! Room on a page is given out by the shelf-packing allocator of the
//! `etagere` crate. Lengths of advance and bounds are fixed-point numbers
//! with six fractional bits.

use vstd::prelude::*;
use std::collections::HashMap;
use crate::vertex_buf::ByteRange;

verus! {

broadcast use vstd::std_specs::hash::group_hash_axioms;

/// A page takes no more glyphs than this, however much room it has left.
pub const PAGE_GLYPHS: usize = 0x4000;

/// No side of a page is longer than this, so that its area is a number the
/// allocator can hold.
pub const MAX_PAGE_DIMS: u16 = 46340;

/// What a glyph is cached under: the character and the bits of its size.
#[derive(Clone, Copy, Debug, PartialEq, Eq, Hash, Structural)]
pub struct Key {
    pub char: char,
    pub scale: u32,
}

/// A rectangle of texels on a page.
#[derive(Clone, Copy, Debug, PartialEq, Eq, Structural)]
pub struct Rect {
    pub x: i32,
    pub y: i32,
    pub width: u32,
    pub height: u32,
}

/// The room the allocator of a page has given out: the texels from `min`
/// up to, not including, `max`.
#[derive(Clone, Copy, Debug, PartialEq, Eq, Structural)]
pub struct Area {
    pub min_x: i32,
    pub min_y: i32,
    pub max_x: i32,
    pub max_y: i32,
}

/// The width and height a page allocator was made with.
#[derive(Clone, Copy, Debug, PartialEq, Eq, Structural)]
pub struct AtlasSize {
    pub width: i32,
    pub height: i32,
}

/// The bounds of the outline of a glyph.
#[derive(Clone, Copy, Debug, PartialEq, Eq, Structural)]
pub struct OutlineBounds {
    pub xmin: i32,
    pub ymin: i32,
    pub width: i32,
    pub height: i32,
}

/// How far the pen moves behind a glyph.
#[derive(Clone, Copy, Debug, PartialEq, Eq, Structural)]
pub struct Advance {
    pub x: i32,
    pub y: i32,
}

/// A rasterized glyph: its measures and its coverage bytes.
#[derive(Debug)]
pub struct Raster {
    pub width: u32,
    pub height: u32,
    pub advance: Advance,
    pub bounds: OutlineBounds,
    pub data: Vec<u8>,
}

/// What the atlas knows of a cached glyph.
#[derive(Clone, Copy, Debug, PartialEq, Eq, Structural)]
pub struct Value {
    pub advance: Advance,
    pub bounds: OutlineBounds,
    pub page_idx: usize,
    pub page_rect: Rect,
}

/// A glyph whose bytes wait in a staging buffer to be copied to its page.
#[derive(Clone, Copy, Debug, PartialEq, Eq, Structural)]
pub struct Glyph {
    pub buf_idx: usize,
    pub buf_range: ByteRange,
    pub page_idx: usize,
    pub page_rect: Rect,
}

/// A pending glyph with the staging buffer its bytes wait in.
#[derive(Debug)]
pub struct GlyphRef<'a> {
    pub buf: &'a Vec<u8>,
    pub buf_range: ByteRange,
    pub page_idx: usize,
    pub page_rect: Rect,
}

/// Where a glyph of a text lies in the atlas and on the screen.
#[derive(Clone, Copy, Debug, PartialEq, Eq, Structural)]
pub struct VectorGlyph {
    pub page_idx: usize,
    pub page_rect: Rect,
    pub screen_x: i64,
    pub screen_y: i64,
    pub screen_width: i32,
    pub screen_height: i32,
}

/// The pen: where the next glyph of a text goes.
#[derive(Clone, Copy, Debug, PartialEq, Eq, Structural)]
pub struct Pen {
    pub x: i64,
    pub y: i64,
}

/// Why a glyph could not be placed.
#[derive(Clone, Copy, Debug, PartialEq, Eq, Structural)]
pub enum AtlasError {
    /// Not even an empty page has room for the glyph.
    GlyphTooLarge,
}

/// A staging buffer and the offset behind the last glyph in it.
struct Buffer {
    data: Vec<u8>,
    offset: usize,
}

/// A page of the atlas: its allocator and the number of glyphs on it.
struct Page {
    allocator: etagere::AtlasAllocator,
    count: usize,
}

/// `etagere::AtlasAllocator`, taken as it is.
#[verifier::external_type_specification]
#[verifier::external_body]
pub struct ExAtlasAllocator(etagere::AtlasAllocator);

/// The rooms an allocator has given out.
pub uninterp spec fn atlas_areas(atlas: etagere::AtlasAllocator) -> Set<Area>;

/// The size an allocator was made with.
pub uninterp spec fn atlas_size(atlas: etagere::AtlasAllocator) -> AtlasSize;

/// Whether the rectangle lies in the room.
pub open spec fn rect_in(r: Rect, a: Area) -> bool {
    &&& a.min_x <= r.x
    &&& r.x + r.width <= a.max_x
    &&& a.min_y <= r.y
    &&& r.y + r.height <= a.max_y
}

/// Whether the two rooms share no texel.
pub open spec fn areas_apart(a: Area, b: Area) -> bool {
    a.max_x <= b.min_x || b.max_x <= a.min_x || a.max_y <= b.min_y || b.max_y <= a.min_y
}

/// Whether the two rectangles share no texel.
pub open spec fn rects_apart(r: Rect, s: Rect) -> bool {
    r.x + r.width <= s.x || s.x + s.width <= r.x || r.y + r.height <= s.y || s.y + s.height
        <= r.y
}

/// Whether the rectangle lies in one of the rooms.
pub open spec fn in_room(areas: Set<Area>, r: Rect) -> bool {
    exists|a: Area| #[trigger] areas.contains(a) && rect_in(r, a)
}

/// Whether the size is one a page may have: no side is longer than
/// [`MAX_PAGE_DIMS`].
pub open spec fn page_sized(size: AtlasSize) -> bool {
    0 < size.width <= MAX_PAGE_DIMS && 0 < size.height <= MAX_PAGE_DIMS
}

/// Whether the room lies on a page of the given size.
pub open spec fn area_on(a: Area, size: AtlasSize) -> bool {
    0 <= a.min_x <= a.max_x <= size.width && 0 <= a.min_y <= a.max_y <= size.height
}

/// `etagere::AtlasAllocator::new`, for a page of the given width and height.
///
/// Not proved, but taken from the crate: the allocator is made with the
/// size given and has given out no room yet. The crate panics unless the
/// sides are positive and no longer than 65535 and the area fits a signed
/// 32-bit number; it adds to heights in 16 bits when it gives out rooms.
/// Sides of no more than [`MAX_PAGE_DIMS`] keep clear of both.
#[verifier::external_body]
fn new_allocator(width: i32, height: i32) -> (atlas: etagere::AtlasAllocator)
    requires
        0 < width <= MAX_PAGE_DIMS,
        0 < height <= MAX_PAGE_DIMS,
    ensures
        atlas_areas(atlas) == Set::<Area>::empty(),
        atlas_size(atlas) == (AtlasSize { width, height }),
{
    etagere::AtlasAllocator::new(etagere::size2(width, height))
}

/// `etagere::AtlasAllocator::allocate`, for a room of the given width and
/// height.
///
/// Not proved, but taken from the crate: it gives out nothing for a side
/// which is not positive or is longer than 65535, nor where it finds no
/// room, and then nothing changes. Where it gives out a room, that room is
/// at least as wide and as high as was asked for, lies on the page, and
/// shares no texel with a room given out before; it is then one of the rooms
/// given out. The size of the page stays. The allocator counts its items and
/// shelves in 16 bits, and every room takes at most two items and one shelf;
/// the bound on the rooms given out keeps it within them. It adds a small
/// number to the height of a room in 16 bits; the bound on the sides of the
/// page, which no room is higher than, keeps that sum within them.
#[verifier::external_body]
fn allocate(atlas: &mut etagere::AtlasAllocator, width: i32, height: i32) -> (r: Option<Area>)
    requires
        atlas_areas(*old(atlas)).finite(),
        atlas_areas(*old(atlas)).len() < PAGE_GLYPHS,
        page_sized(atlas_size(*old(atlas))),
    ensures
        atlas_size(*final(atlas)) == atlas_size(*old(atlas)),
        match r {
            Some(area) => {
                &&& 0 < width <= 0xffff
                &&& 0 < height <= 0xffff
                &&& atlas_areas(*final(atlas)) == atlas_areas(*old(atlas)).insert(area)
                &&& area_on(area, atlas_size(*old(atlas)))
                &&& area.max_x - area.min_x >= width
                &&& area.max_y - area.min_y >= height
                &&& forall|other: Area| #[trigger]
                    atlas_areas(*old(atlas)).contains(other) ==> areas_apart(area, other)
            },
            None => atlas_areas(*final(atlas)) == atlas_areas(*old(atlas)),
        },
        (width <= 0 || height <= 0 || width > 0xffff || height > 0xffff) ==> r is None,
{
    match atlas.allocate(etagere::size2(width, height)) {
        Some(a) => Some(
            Area {
                min_x: a.rectangle.min.x,
                min_y: a.rectangle.min.y,
                max_x: a.rectangle.max.x,
                max_y: a.rectangle.max.y,
            },
        ),
        None => None,
    }
}

/// The smallest multiple of `alignment` which is no less than `value`.
pub open spec fn aligned_up(value: int, alignment: int) -> int {
    ((value + alignment - 1) / alignment) * alignment
}

/// Rounds `value` up to a multiple of `alignment`; nothing where that is
/// more than a `usize` holds.
pub fn align_up(value: usize, alignment: usize) -> (r: Option<usize>)
    requires
        alignment > 0,
    ensures
        match r {
            Some(a) => a == aligned_up(value as int, alignment as int) && value <= a < value
                + alignment && a % alignment == 0,
            None => aligned_up(value as int, alignment as int) > usize::MAX,
        },
{
    let rem: usize = value % alignment;
    proof {
        lemma_aligned_up(value as int, alignment as int);
    }
    if rem == 0 {
        Some(value)
    } else {
        let pad: usize = alignment - rem;
        if value > usize::MAX - pad {
            None
        } else {
            Some(value + pad)
        }
    }
}

/// Rounding up adds what is missing to the next multiple.
proof fn lemma_aligned_up(value: int, alignment: int)
    requires
        value >= 0,
        alignment > 0,
    ensures
        value % alignment == 0 ==> aligned_up(value, alignment) == value,
        value % alignment != 0 ==> aligned_up(value, alignment) == value + alignment - value
            % alignment,
        aligned_up(value, alignment) % alignment == 0,
{
    let q = value / alignment;
    let r = value % alignment;
    assert(value == q * alignment + r && 0 <= r < alignment) by (nonlinear_arith)
        requires
            q == value / alignment,
            r == value % alignment,
            alignment > 0,
    ;
    if r == 0 {
        assert((q * alignment + alignment - 1) / alignment == q) by (nonlinear_arith)
            requires
                alignment > 0,
        ;
        assert((q * alignment) % alignment == 0) by (nonlinear_arith)
            requires
                alignment > 0,
        ;
    } else {
        assert((q * alignment + r + alignment - 1) / alignment == q + 1) by (nonlinear_arith)
            requires
                alignment > 0,
                0 < r < alignment,
        ;
        assert(((q + 1) * alignment) % alignment == 0) by (nonlinear_arith)
            requires
                alignment > 0,
        ;
        assert((q + 1) * alignment == q * alignment + alignment) by (nonlinear_arith);
    }
}

impl Key {
    /// The key as one number: the character above the bits of the size.
    pub open spec fn code(&self) -> u64 {
        ((self.char as u32 as u64) * 0x1_0000_0000 + self.scale as u64) as u64
    }

    /// Computes [`Key::code`].
    pub fn encode(&self) -> (c: u64)
        ensures
            c == self.code(),
    {
        (self.char as u32 as u64) * 0x1_0000_0000 + (self.scale as u64)
    }

    /// Two keys with the same code are the same key.
    pub proof fn lemma_code_injective(a: Key, b: Key)
        requires
            a.code() == b.code(),
        ensures
            a == b,
    {
        assert(a.char as u32 == b.char as u32);
    }
}

impl Raster {
    /// The width of the room the glyph takes on a page: a glyph without
    /// coverage takes one blank texel.
    pub open spec fn page_width(&self) -> u32 {
        if self.data@.len() == 0 {
            1
        } else {
            self.width
        }
    }

    /// The height of the room the glyph takes on a page.
    pub open spec fn page_height(&self) -> u32 {
        if self.data@.len() == 0 {
            1
        } else {
            self.height
        }
    }

    /// The bytes which are staged for the glyph: one zero byte for a glyph
    /// without coverage.
    pub open spec fn staged(&self) -> Seq<u8> {
        if self.data@.len() == 0 {
            seq![0u8]
        } else {
            self.data@
        }
    }
}

/// A dynamic atlas of rasterized glyphs.
pub struct DynamicAtlas {
    bufs: Vec<Buffer>,
    glyphs: HashMap<u64, Value>,
    pages: Vec<Page>,
    pending_glyphs: Vec<Glyph>,
    atom: usize,
    copy_align: usize,
}

/// A value of the sum of `a` and `b`, held within the range of `i64`.
pub open spec fn clamped_sum(a: int, b: int) -> int {
    if a + b > i64::MAX {
        i64::MAX as int
    } else if a + b < i64::MIN {
        i64::MIN as int
    } else {
        a + b
    }
}

/// Whether a glyph of `len` staged bytes fits a buffer of `capacity` bytes
/// behind `offset`, rounded up to a multiple of `alignment`.
pub open spec fn fits(offset: int, alignment: int, len: int, capacity: int) -> bool {
    aligned_up(offset, alignment) + len <= capacity
}

/// The offset behind a glyph of `len` bytes which was staged at `offset`,
/// rounded up to a multiple of `atom`; the largest offset where that is
/// beyond all offsets.
pub open spec fn offset_behind(offset: int, len: int, atom: int) -> int {
    if offset + aligned_up(len, atom) > usize::MAX {
        usize::MAX as int
    } else {
        offset + aligned_up(len, atom)
    }
}

/// Whether `after` has the bytes of `before` but for the `len` bytes at
/// `start`.
pub open spec fn kept_around(before: Seq<u8>, after: Seq<u8>, start: int, len: int) -> bool {
    &&& after.len() == before.len()
    &&& forall|i: int|
        0 <= i < before.len() && !(start <= i < start + len) ==> #[trigger] after[i] == before[i]
}

/// Whether `bytes` has `size` bytes, all zero behind the first `len`.
pub open spec fn blank_behind(bytes: Seq<u8>, len: int, size: int) -> bool {
    &&& bytes.len() == size
    &&& forall|i: int| len <= i < bytes.len() ==> #[trigger] bytes[i] == 0u8
}

impl DynamicAtlas {
    /// The cached glyphs, by the code of their keys.
    pub closed spec fn glyphs(&self) -> Map<u64, Value> {
        self.glyphs@
    }

    /// The glyphs which wait to be copied to their pages; the last is the
    /// next to go.
    pub closed spec fn pending(&self) -> Seq<Glyph> {
        self.pending_glyphs@
    }

    /// The number of pages.
    pub closed spec fn page_count(&self) -> nat {
        self.pages@.len()
    }

    /// The size of a page.
    pub closed spec fn page_size(&self, page: int) -> AtlasSize {
        atlas_size(self.pages@[page].allocator)
    }

    /// The rooms which the allocator of a page has given out.
    pub closed spec fn page_areas(&self, page: int) -> Set<Area> {
        atlas_areas(self.pages@[page].allocator)
    }

    /// The number of staging buffers.
    pub closed spec fn buffer_count(&self) -> nat {
        self.bufs@.len()
    }

    /// The bytes of a staging buffer.
    pub closed spec fn staged(&self, buf: int) -> Seq<u8> {
        self.bufs@[buf].data@
    }

    /// The offset behind the last glyph in a staging buffer.
    pub closed spec fn staged_to(&self, buf: int) -> usize {
        self.bufs@[buf].offset
    }

    /// The multiple which the offset behind a glyph is rounded up to.
    pub closed spec fn atom_size(&self) -> usize {
        self.atom
    }

    /// The multiple which the offset of a copy is rounded up to when room
    /// is looked for.
    pub closed spec fn copy_alignment(&self) -> usize {
        self.copy_align
    }

    /// The pages count their rooms as their allocators do, and have sizes
    /// a page may have.
    pub closed spec fn inv(&self) -> bool {
        forall|i: int|
            0 <= i < self.pages@.len() ==> atlas_areas(
                (#[trigger] self.pages@[i]).allocator,
            ).finite() && self.pages@[i].count == atlas_areas(self.pages@[i].allocator).len()
                && page_sized(atlas_size(self.pages@[i].allocator))
    }

    /// Whether the bytes of the pending glyph at `j` are in its staging
    /// buffer, in front of the offset behind the last glyph staged there, and
    /// the glyph has a page.
    pub open spec fn pending_staged(&self, j: int) -> bool {
        let g = self.pending()[j];
        &&& g.buf_idx < self.buffer_count()
        &&& g.buf_range.start <= g.buf_range.end <= self.staged(g.buf_idx as int).len()
        &&& g.buf_range.end <= self.staged_to(g.buf_idx as int)
        &&& g.page_idx < self.page_count()
    }

    /// Whether the bytes of the pending glyph at `j` lie in front of those of
    /// the pending glyph at `k`, if the two share a staging buffer.
    pub open spec fn pending_apart(&self, j: int, k: int) -> bool {
        self.pending()[j].buf_idx == self.pending()[k].buf_idx
            ==> self.pending()[j].buf_range.end <= self.pending()[k].buf_range.start
    }

    /// The state of the atlas is sound: the rooms of a page lie on the page
    /// and apart from each other, every cached glyph lies in a room of its
    /// page, no two cached glyphs of a page share a texel, the bytes of every
    /// pending glyph are in its staging buffer in front of the staged offset,
    /// and no two pending glyphs share a byte.
    pub open spec fn wf(&self) -> bool {
        &&& self.inv()
        &&& self.atom_size() > 0
        &&& self.copy_alignment() > 0
        &&& forall|i: int, a: Area|
            #![trigger self.page_areas(i).contains(a)]
            0 <= i < self.page_count() && self.page_areas(i).contains(a) ==> area_on(
                a,
                self.page_size(i),
            )
        &&& forall|i: int, a: Area, b: Area|
            #![trigger self.page_areas(i).contains(a), self.page_areas(i).contains(b)]
            0 <= i < self.page_count() && self.page_areas(i).contains(a) && self.page_areas(
                i,
            ).contains(b) && a != b ==> areas_apart(a, b)
        &&& forall|k: u64| #[trigger]
            self.glyphs().dom().contains(k) ==> self.glyphs()[k].page_idx < self.page_count()
                && self.glyphs()[k].page_rect.width > 0 && self.glyphs()[k].page_rect.height > 0
                && in_room(
                self.page_areas(self.glyphs()[k].page_idx as int),
                self.glyphs()[k].page_rect,
            )
        &&& forall|k: u64, l: u64|
            #![trigger self.glyphs().dom().contains(k), self.glyphs().dom().contains(l)]
            self.glyphs().dom().contains(k) && self.glyphs().dom().contains(l) && k != l
                && self.glyphs()[k].page_idx == self.glyphs()[l].page_idx ==> rects_apart(
                self.glyphs()[k].page_rect,
                self.glyphs()[l].page_rect,
            )
        &&& forall|i: int|
            0 <= i < self.page_count() ==> page_sized(#[trigger] self.page_size(i))
        &&& forall|j: int| 0 <= j < self.pending().len() ==> #[trigger] self.pending_staged(j)
        &&& forall|j: int, k: int|
            0 <= j < k < self.pending().len() ==> #[trigger] self.pending_apart(j, k)
    }

    /// What is stated of the pages and glyphs of an atlas holds of an atlas
    /// with the same pages and glyphs.
    proof fn lemma_same_pages(&self, other: &DynamicAtlas)
        requires
            other.wf(),
            self.pages@.len() == other.pages@.len(),
            forall|i: int|
                0 <= i < self.pages@.len() ==> (#[trigger] self.pages@[i]).count
                    == other.pages@[i].count && atlas_areas(self.pages@[i].allocator)
                    == atlas_areas(other.pages@[i].allocator) && atlas_size(
                    self.pages@[i].allocator,
                ) == atlas_size(other.pages@[i].allocator),
            self.glyphs@ == other.glyphs@,
            self.atom == other.atom,
            self.copy_align == other.copy_align,
        ensures
            self.inv(),
            forall|i: int|
                0 <= i < self.page_count() ==> #[trigger] self.page_areas(i) == other.page_areas(i)
                    && self.page_size(i) == other.page_size(i),
            forall|i: int| 0 <= i < self.page_count() ==> page_sized(#[trigger] self.page_size(i)),
            self.atom_size() > 0,
            self.copy_alignment() > 0,
            forall|i: int, a: Area|
                #![trigger self.page_areas(i).contains(a)]
                0 <= i < self.page_count() && self.page_areas(i).contains(a) ==> area_on(
                    a,
                    self.page_size(i),
                ),
            forall|i: int, a: Area, b: Area|
                #![trigger self.page_areas(i).contains(a), self.page_areas(i).contains(b)]
                0 <= i < self.page_count() && self.page_areas(i).contains(a)
                    && self.page_areas(i).contains(b) && a != b ==> areas_apart(a, b),
            forall|k: u64| #[trigger]
                self.glyphs().dom().contains(k) ==> self.glyphs()[k].page_idx
                    < self.page_count() && self.glyphs()[k].page_rect.width > 0
                    && self.glyphs()[k].page_rect.height > 0 && in_room(
                self.page_areas(self.glyphs()[k].page_idx as int),
                self.glyphs()[k].page_rect,
            ),
            forall|k: u64, l: u64|
                #![trigger self.glyphs().dom().contains(k), self.glyphs().dom().contains(l)]
                self.glyphs().dom().contains(k) && self.glyphs().dom().contains(l) && k != l
                    && self.glyphs()[k].page_idx == self.glyphs()[l].page_idx ==> rects_apart(
                    self.glyphs()[k].page_rect,
                    self.glyphs()[l].page_rect,
                ),
    {
        assert forall|i: int, a: Area|
            #![trigger self.page_areas(i).contains(a)]
            0 <= i < self.page_count() && self.page_areas(i).contains(a) implies area_on(
            a,
            self.page_size(i),
        ) by {
            assert(other.page_areas(i).contains(a));
        }
        assert forall|i: int, a: Area, b: Area|
            #![trigger self.page_areas(i).contains(a), self.page_areas(i).contains(b)]
            0 <= i < self.page_count() && self.page_areas(i).contains(a) && self.page_areas(
                i,
            ).contains(b) && a != b implies areas_apart(a, b) by {
            assert(other.page_areas(i).contains(a) && other.page_areas(i).contains(b));
        }
        assert forall|k: u64| #[trigger] self.glyphs().dom().contains(k) implies self.glyphs()[k].page_idx
            < self.page_count() && self.glyphs()[k].page_rect.width > 0
            && self.glyphs()[k].page_rect.height > 0 && in_room(
                self.page_areas(self.glyphs()[k].page_idx as int),
                self.glyphs()[k].page_rect,
            ) by {
            assert(other.glyphs().dom().contains(k));
            let page = other.glyphs()[k].page_idx as int;
            let a = choose|a: Area| #[trigger]
                other.page_areas(page).contains(a) && rect_in(other.glyphs()[k].page_rect, a);
            assert(self.page_areas(page).contains(a));
            assert(in_room(self.page_areas(page), self.glyphs()[k].page_rect));
        }
        assert forall|k: u64, l: u64|
            #![trigger self.glyphs().dom().contains(k), self.glyphs().dom().contains(l)]
            self.glyphs().dom().contains(k) && self.glyphs().dom().contains(l) && k != l
                && self.glyphs()[k].page_idx == self.glyphs()[l].page_idx implies rects_apart(
            self.glyphs()[k].page_rect,
            self.glyphs()[l].page_rect,
        ) by {
            assert(other.glyphs().dom().contains(k) && other.glyphs().dom().contains(l));
        }
    }

    /// What is stated of the pending glyphs of an atlas holds of an atlas
    /// with the same pending glyphs, staging buffers and number of pages.
    proof fn lemma_same_pending(&self, other: &DynamicAtlas)
        requires
            other.wf(),
            self.pending_glyphs@ == other.pending_glyphs@,
            self.bufs@ == other.bufs@,
            self.pages@.len() == other.pages@.len(),
        ensures
            forall|j: int| 0 <= j < self.pending().len() ==> #[trigger] self.pending_staged(j),
            forall|j: int, k: int|
                0 <= j < k < self.pending().len() ==> #[trigger] self.pending_apart(j, k),
    {
        assert forall|j: int| 0 <= j < self.pending().len() implies #[trigger] self.pending_staged(
            j,
        ) by {
            assert(other.pending_staged(j));
        }
        assert forall|j: int, k: int| 0 <= j < k < self.pending().len() implies #[trigger] self.pending_apart(
            j,
            k,
        ) by {
            assert(other.pending_apart(j, k));
        }
    }

    /// What is stated of the staging buffers of an atlas holds of an atlas
    /// with the same staging buffers.
    proof fn lemma_same_buffers(
        &self,
        other: &DynamicAtlas,
        before: &DynamicAtlas,
        data: Seq<u8>,
        buf_len: usize,
    )
        requires
            other.staged_from(before, data, buf_len),
            self.bufs@ == other.bufs@,
            self.atom == other.atom,
        ensures
            self.staged_from(before, data, buf_len),
    {
        let idx = before.next_buffer(data.len() as int);
        assert(self.staged(idx) == other.staged(idx));
        assert(self.staged_to(idx) == other.staged_to(idx));
        assert(self.buffer_count() == other.buffer_count());
        assert(self.atom_size() == other.atom_size());
        assert(self.others_kept(before, idx)) by {
            assert forall|b: int| 0 <= b < before.buffer_count() && b != idx implies #[trigger] self.staged(
                b,
            ) == before.staged(b) && self.staged_to(b) == before.staged_to(b) by {
                assert(other.staged(b) == before.staged(b));
            }
        }
    }

    /// Every cached glyph lies on its page, and no two cached glyphs of a
    /// page share a texel.
    pub proof fn lemma_glyphs_packed(&self, k: u64, l: u64)
        requires
            self.wf(),
            self.glyphs().dom().contains(k),
            self.glyphs().dom().contains(l),
        ensures
            0 <= self.glyphs()[k].page_rect.x,
            0 <= self.glyphs()[k].page_rect.y,
            self.glyphs()[k].page_rect.x + self.glyphs()[k].page_rect.width <= self.page_size(
                self.glyphs()[k].page_idx as int,
            ).width,
            self.glyphs()[k].page_rect.y + self.glyphs()[k].page_rect.height <= self.page_size(
                self.glyphs()[k].page_idx as int,
            ).height,
            k != l && self.glyphs()[k].page_idx == self.glyphs()[l].page_idx ==> rects_apart(
                self.glyphs()[k].page_rect,
                self.glyphs()[l].page_rect,
            ),
    {
        let page = self.glyphs()[k].page_idx as int;
        let a = choose|a: Area| #[trigger]
            self.page_areas(page).contains(a) && rect_in(self.glyphs()[k].page_rect, a);
        assert(area_on(a, self.page_size(page)));
    }

    /// An atlas without pages, glyphs and staging buffers.
    pub fn new(atom: usize, copy_align: usize) -> (atlas: DynamicAtlas)
        requires
            atom > 0,
            copy_align > 0,
        ensures
            atlas.wf(),
            atlas.atom_size() == atom,
            atlas.copy_alignment() == copy_align,
            atlas.glyphs() == Map::<u64, Value>::empty(),
            atlas.pending().len() == 0,
            atlas.page_count() == 0,
            atlas.buffer_count() == 0,
    {
        DynamicAtlas {
            bufs: Vec::new(),
            glyphs: HashMap::new(),
            pages: Vec::new(),
            pending_glyphs: Vec::new(),
            atom,
            copy_align,
        }
    }

    /// The number of pages.
    pub fn pages(&self) -> (n: usize)
        ensures
            n == self.page_count(),
    {
        self.pages.len()
    }

    /// Whether any glyph waits to be copied to its page.
    pub fn has_pending_glyphs(&self) -> (r: bool)
        ensures
            r == (self.pending().len() > 0),
    {
        self.pending_glyphs.len() > 0
    }

    /// What the atlas knows of the glyph of a key, if it is cached.
    pub fn glyph(&self, key: &Key) -> (r: Option<Value>)
        ensures
            r == if self.glyphs().dom().contains(key.code()) {
                Some(self.glyphs()[key.code()])
            } else {
                None
            },
    {
        let code: u64 = key.encode();
        match self.glyphs.get(&code) {
            Some(v) => Some(*v),
            None => None,
        }
    }

    /// Whether the last staging buffer has room for `len` more bytes.
    pub open spec fn last_fits(&self, len: int) -> bool {
        self.buffer_count() > 0 && fits(
            self.staged_to(self.buffer_count() - 1) as int,
            self.copy_alignment() as int,
            len,
            self.staged(self.buffer_count() - 1).len() as int,
        )
    }

    /// The staging buffer which the next `len` bytes go to: the last one if
    /// it has room for them, else a new one.
    pub open spec fn next_buffer(&self, len: int) -> int {
        if self.last_fits(len) {
            self.buffer_count() - 1
        } else {
            self.buffer_count() as int
        }
    }

    /// Where in their staging buffer the next `len` bytes start: behind the
    /// last glyph of the last buffer if it has room for them, else at the
    /// front of a new one.
    pub open spec fn next_offset(&self, len: int) -> int {
        if self.last_fits(len) {
            self.staged_to(self.buffer_count() - 1) as int
        } else {
            0
        }
    }

    /// Whether every staging buffer of `before` but the one at `idx` is as
    /// it was.
    pub open spec fn others_kept(&self, before: &DynamicAtlas, idx: int) -> bool {
        forall|b: int|
            0 <= b < before.buffer_count() && b != idx ==> #[trigger] self.staged(b)
                == before.staged(b) && self.staged_to(b) == before.staged_to(b)
    }

    /// Whether this is the atlas `before` after `data` was staged: the bytes
    /// are in the buffer and at the offset which were next, a new buffer has
    /// `buf_len` bytes or as many as the glyph needs, and nothing else has
    /// changed in any buffer.
    pub open spec fn staged_from(&self, before: &DynamicAtlas, data: Seq<u8>, buf_len: usize) -> bool {
        let idx = before.next_buffer(data.len() as int);
        let start = before.next_offset(data.len() as int);
        &&& self.buffer_count() == idx + 1
        &&& self.staged(idx).subrange(start, start + data.len()) == data
        &&& self.staged_to(idx) == offset_behind(
            start,
            data.len() as int,
            self.atom_size() as int,
        )
        &&& self.others_kept(before, idx)
        &&& before.last_fits(data.len() as int) ==> kept_around(
            before.staged(idx),
            self.staged(idx),
            start,
            data.len() as int,
        )
        &&& !before.last_fits(data.len() as int) ==> blank_behind(
            self.staged(idx),
            data.len() as int,
            if buf_len > data.len() {
                buf_len as int
            } else {
                data.len() as int
            },
        )
    }

    /// Stages the bytes of a glyph: they go behind the last glyph of the last
    /// staging buffer if it has room for them behind the aligned offset, else
    /// to the front of a new buffer. Returns the buffer and the range they
    /// went to.
    fn stage(&mut self, data: &Vec<u8>, buf_len: usize) -> (r: (usize, ByteRange))
        requires
            old(self).wf(),
            data@.len() > 0,
        ensures
            final(self).wf(),
            final(self).staged_from(old(self), data@, buf_len),
            final(self).glyphs() == old(self).glyphs(),
            final(self).pending() == old(self).pending(),
            final(self).pages@ == old(self).pages@,
            final(self).atom_size() == old(self).atom_size(),
            final(self).copy_alignment() == old(self).copy_alignment(),
            r.0 == old(self).next_buffer(data@.len() as int),
            r.1.start == old(self).next_offset(data@.len() as int),
            r.1.end == r.1.start + data@.len(),
            r.0 < final(self).buffer_count(),
            r.1.end <= final(self).staged(r.0 as int).len(),
            r.1.end <= final(self).staged_to(r.0 as int),
    {
        let len: usize = data.len();
        let n: usize = self.bufs.len();
        let mut use_last: bool = false;
        if n > 0 {
            let capacity: usize = self.bufs[n - 1].data.len();
            match align_up(self.bufs[n - 1].offset, self.copy_align) {
                Some(a) => {
                    if a <= capacity && capacity - a >= len {
                        use_last = true;
                    }
                },
                None => {},
            }
        }
        assert(use_last == self.last_fits(len as int));
        let mut buf: Buffer = if use_last {
            match self.bufs.pop() {
                Some(b) => b,
                None => Buffer { data: Vec::new(), offset: 0 },
            }
        } else {
            let size: usize = if buf_len > len {
                buf_len
            } else {
                len
            };
            Buffer { data: vec![0u8; size], offset: 0 }
        };
        let ghost before = buf.data@;
        let start: usize = buf.offset;
        proof {
            if use_last {
                assert(buf == old(self).bufs@[n - 1]);
                assert(self.bufs@ =~= old(self).bufs@.drop_last());
            } else {
                assert(self.bufs@ == old(self).bufs@);
            }
            assert(start + len <= buf.data@.len());
        }
        let capacity: usize = buf.data.len();
        let mut i: usize = 0;
        while i < len
            invariant
                i <= len == data@.len(),
                start + len <= buf.data@.len() == before.len() == capacity,
                !use_last ==> forall|j: int| 0 <= j < before.len() ==> before[j] == 0u8,
                buf.offset == start,
                forall|j: int| 0 <= j < start ==> buf.data@[j] == before[j],
                forall|j: int| start <= j < start + i ==> buf.data@[j] == data@[j - start],
                forall|j: int| start + i <= j < before.len() ==> buf.data@[j] == before[j],
            decreases len - i,
        {
            buf.data[start + i] = data[i];
            i = i + 1;
        }
        buf.offset = match align_up(len, self.atom) {
            Some(pad) => if start > usize::MAX - pad {
                usize::MAX
            } else {
                start + pad
            },
            None => usize::MAX,
        };
        self.bufs.push(buf);
        let idx: usize = self.bufs.len() - 1;
        proof {
            assert(idx == old(self).next_buffer(len as int));
            assert(start == old(self).next_offset(len as int));
            let now = self.staged(idx as int);
            if use_last {
                assert(before == old(self).staged(idx as int));
                assert(kept_around(before, now, start as int, len as int));
            } else {
                assert forall|i: int| len <= i < now.len() implies #[trigger] now[i] == 0u8 by {
                    assert(now[i] == before[i]);
                }
                assert(blank_behind(now, len as int, now.len() as int));
            }
            assert(self.staged(idx as int).subrange(start as int, start + len) =~= data@);
            assert(self.others_kept(old(self), idx as int)) by {
                assert forall|b: int|
                    0 <= b < old(self).buffer_count() && b != idx implies #[trigger] self.staged(b)
                    == old(self).staged(b) && self.staged_to(b) == old(self).staged_to(b) by {
                    assert(self.bufs@[b] == old(self).bufs@[b]);
                }
            }
            self.lemma_same_pages(old(self));
            assert forall|j: int| 0 <= j < self.pending().len() implies #[trigger] self.pending_staged(
                j,
            ) by {
                let g = old(self).pending()[j];
                assert(old(self).pending_staged(j));
                if g.buf_idx as int != idx {
                    assert(self.bufs@[g.buf_idx as int] == old(self).bufs@[g.buf_idx as int]);
                }
            }
            assert forall|j: int, k: int| 0 <= j < k < self.pending().len() implies #[trigger] self.pending_apart(
                j,
                k,
            ) by {
                assert(old(self).pending_apart(j, k));
            }
        }
        (idx, ByteRange { start, end: start + len })
    }

    /// Whether this is the atlas `before` after the glyph of a raster was
    /// stored under `code` at the texel `x`, `y` of the page `page`.
    ///
    /// The glyph has the width and height of the raster; its bytes are
    /// staged, and it is the next pending glyph.
    pub open spec fn stored_from(
        &self,
        before: &DynamicAtlas,
        code: u64,
        raster: Raster,
        page: usize,
        x: i32,
        y: i32,
        buf_len: usize,
        value: Value,
    ) -> bool {
        let rect = Rect { x, y, width: raster.page_width(), height: raster.page_height() };
        let len = raster.staged().len() as int;
        &&& value == (Value {
            advance: raster.advance,
            bounds: raster.bounds,
            page_idx: page,
            page_rect: rect,
        })
        &&& self.glyphs() == before.glyphs().insert(code, value)
        &&& self.staged_from(before, raster.staged(), buf_len)
        &&& self.pending() == before.pending().push(
            Glyph {
                buf_idx: before.next_buffer(len) as usize,
                buf_range: ByteRange {
                    start: before.next_offset(len) as usize,
                    end: (before.next_offset(len) + len) as usize,
                },
                page_idx: page,
                page_rect: rect,
            },
        )
    }

    /// Stores the glyph of a raster in a room which the allocator of a page
    /// has given out for it: the glyph is cached under `code`, and its bytes
    /// are staged to be copied to the page.
    pub fn store(
        &mut self,
        code: u64,
        raster: Raster,
        page: usize,
        area: Area,
        buf_len: usize,
    ) -> (value: Value)
        requires
            old(self).wf(),
            !old(self).glyphs().dom().contains(code),
            page < old(self).page_count(),
            old(self).page_areas(page as int).contains(area),
            0 < raster.page_width() <= area.max_x - area.min_x,
            0 < raster.page_height() <= area.max_y - area.min_y,
            forall|k: u64| #[trigger]
                old(self).glyphs().dom().contains(k) && old(self).glyphs()[k].page_idx == page
                    ==> !rect_in(old(self).glyphs()[k].page_rect, area),
        ensures
            final(self).wf(),
            final(self).stored_from(
                old(self),
                code,
                raster,
                page,
                area.min_x,
                area.min_y,
                buf_len,
                value,
            ),
            final(self).page_count() == old(self).page_count(),
            forall|i: int|
                0 <= i < old(self).page_count() ==> #[trigger] final(self).page_areas(i) == old(
                    self,
                ).page_areas(i),
            forall|i: int|
                0 <= i < old(self).page_count() ==> #[trigger] final(self).page_size(i) == old(
                    self,
                ).page_size(i),
    {
        let ghost spec_raster = raster;
        // Whitespace characters have no rasterized pixels - we use a single
        // blank pixel
        let blank: bool = raster.data.len() == 0;
        let width: u32 = if blank {
            1
        } else {
            raster.width
        };
        let height: u32 = if blank {
            1
        } else {
            raster.height
        };
        let advance = raster.advance;
        let bounds = raster.bounds;
        assert(width == spec_raster.page_width() && height == spec_raster.page_height());
        let mut data: Vec<u8> = raster.data;
        if blank {
            data.push(0);
            assert(data@ =~= seq![0u8]);
        }
        let (buf_idx, buf_range) = self.stage(&data, buf_len);
        let ghost staged = *self;

        // Keep track of the need to copy this buffer data to the page
        let page_rect = Rect { x: area.min_x, y: area.min_y, width, height };
        self.pending_glyphs.push(
            Glyph { buf_idx, buf_range, page_idx: page, page_rect },
        );
        let value = Value { advance, bounds, page_idx: page, page_rect };
        self.glyphs.insert(code, value);
        proof {
            assert(data@ == spec_raster.staged());
            self.lemma_same_buffers(&staged, old(self), spec_raster.staged(), buf_len);
            assert forall|i: int, a: Area|
                #![trigger self.page_areas(i).contains(a)]
                0 <= i < self.page_count() && self.page_areas(i).contains(a) implies area_on(
                a,
                self.page_size(i),
            ) by {
                assert(old(self).page_areas(i).contains(a));
            }
            assert forall|i: int, a: Area, b: Area|
                #![trigger self.page_areas(i).contains(a), self.page_areas(i).contains(b)]
                0 <= i < self.page_count() && self.page_areas(i).contains(a)
                    && self.page_areas(i).contains(b) && a != b implies areas_apart(a, b) by {
                assert(old(self).page_areas(i).contains(a) && old(self).page_areas(i).contains(b));
            }
            assert(rect_in(page_rect, area));
            assert forall|k: u64| #[trigger] self.glyphs().dom().contains(k) implies self.glyphs()[k].page_idx
                < self.page_count() && self.glyphs()[k].page_rect.width > 0
                && self.glyphs()[k].page_rect.height > 0 && in_room(
                self.page_areas(self.glyphs()[k].page_idx as int),
                self.glyphs()[k].page_rect,
            ) by {
                if k == code {
                    assert(self.page_areas(page as int).contains(area));
                    assert(in_room(self.page_areas(page as int), page_rect));
                } else {
                    assert(old(self).glyphs().dom().contains(k));
                    let p = old(self).glyphs()[k].page_idx as int;
                    let a = choose|a: Area| #[trigger]
                        old(self).page_areas(p).contains(a) && rect_in(
                            old(self).glyphs()[k].page_rect,
                            a,
                        );
                    assert(self.page_areas(p).contains(a));
                    assert(in_room(self.page_areas(p), self.glyphs()[k].page_rect));
                }
            }
            assert forall|k: u64, l: u64|
                #![trigger self.glyphs().dom().contains(k), self.glyphs().dom().contains(l)]
                self.glyphs().dom().contains(k) && self.glyphs().dom().contains(l) && k != l
                    && self.glyphs()[k].page_idx == self.glyphs()[l].page_idx implies rects_apart(
                self.glyphs()[k].page_rect,
                self.glyphs()[l].page_rect,
            ) by {
                if k == code || l == code {
                    let o = if k == code {
                        l
                    } else {
                        k
                    };
                    assert(old(self).glyphs().dom().contains(o));
                    let a = choose|a: Area| #[trigger]
                        old(self).page_areas(page as int).contains(a) && rect_in(
                            old(self).glyphs()[o].page_rect,
                            a,
                        );
                    assert(a != area);
                    assert(old(self).page_areas(page as int).contains(a) && old(
                        self,
                    ).page_areas(page as int).contains(area));
                    assert(areas_apart(a, area));
                } else {
                    assert(old(self).glyphs().dom().contains(k) && old(
                        self,
                    ).glyphs().dom().contains(l));
                }
            }
            assert forall|i: int| 0 <= i < self.page_count() implies page_sized(
                #[trigger] self.page_size(i),
            ) by {
                assert(page_sized(old(self).page_size(i)));
            }
            assert forall|j: int| 0 <= j < self.pending().len() implies #[trigger] self.pending_staged(
                j,
            ) by {
                if j < staged.pending().len() {
                    assert(self.pending()[j] == staged.pending()[j]);
                    assert(staged.pending_staged(j));
                }
            }
            assert forall|j: int, k: int| 0 <= j < k < self.pending().len() implies #[trigger] self.pending_apart(
                j,
                k,
            ) by {
                assert(self.pending()[j] == staged.pending()[j]);
                if k < staged.pending().len() {
                    assert(self.pending()[k] == staged.pending()[k]);
                    assert(staged.pending_apart(j, k));
                } else {
                    assert(old(self).pending_staged(j));
                }
            }
        }
        value
    }

    /// Whether a page can hold the glyph of the raster at all: its sides on
    /// the page are positive and no longer than an allocator takes.
    pub open spec fn placeable(raster: Raster) -> bool {
        0 < raster.page_width() <= 0xffff && 0 < raster.page_height() <= 0xffff
    }

    /// Whether the glyphs, the pending glyphs, the pages and the staging
    /// buffers of the two are the same.
    pub open spec fn same_as(&self, other: &DynamicAtlas) -> bool {
        &&& self.glyphs() == other.glyphs()
        &&& self.pending() == other.pending()
        &&& self.page_count() == other.page_count()
        &&& self.buffer_count() == other.buffer_count()
        &&& forall|b: int|
            0 <= b < self.buffer_count() ==> #[trigger] self.staged(b) == other.staged(b)
                && self.staged_to(b) == other.staged_to(b)
        &&& forall|i: int|
            0 <= i < self.page_count() ==> #[trigger] self.page_areas(i) == other.page_areas(i)
                && self.page_size(i) == other.page_size(i)
    }

    /// Places the glyph of a key in the atlas, unless it is cached already:
    /// room is asked of the pages in turn, and of a new page of `dims` by
    /// `dims` texels if none of them gives any; the glyph is cached and its
    /// bytes are staged to be copied to its page.
    ///
    /// Whether a page gives room is for its allocator to say. Where not
    /// even the new page does, nothing is cached and no page is added.
    pub fn place(&mut self, key: &Key, raster: Raster, buf_len: usize, dims: u16) -> (r: Result<
        Value,
        AtlasError,
    >)
        requires
            old(self).wf(),
            0 < dims <= MAX_PAGE_DIMS,
        ensures
            final(self).wf(),
            old(self).glyphs().dom().contains(key.code()) ==> r == Ok::<Value, AtlasError>(
                old(self).glyphs()[key.code()],
            ) && final(self).same_as(old(self)),
            !old(self).glyphs().dom().contains(key.code()) ==> match r {
                Ok(value) => {
                    &&& Self::placeable(raster)
                    &&& final(self).stored_from(
                        old(self),
                        key.code(),
                        raster,
                        value.page_idx,
                        value.page_rect.x,
                        value.page_rect.y,
                        buf_len,
                        value,
                    )
                    &&& value.page_idx <= old(self).page_count()
                    &&& final(self).page_count() == if value.page_idx == old(self).page_count() {
                        old(self).page_count() + 1
                    } else {
                        old(self).page_count()
                    }
                    &&& value.page_idx == old(self).page_count() ==> final(self).page_size(
                        value.page_idx as int,
                    ) == (AtlasSize { width: dims as i32, height: dims as i32 })
                    &&& forall|i: int|
                        0 <= i < old(self).page_count() ==> #[trigger] final(self).page_size(i)
                            == old(self).page_size(i)
                    &&& forall|i: int|
                        0 <= i < old(self).page_count() && i != value.page_idx
                            ==> #[trigger] final(self).page_areas(i) == old(self).page_areas(i)
                },
                Err(e) => e == AtlasError::GlyphTooLarge && final(self).same_as(old(self)),
            },
            !old(self).glyphs().dom().contains(key.code()) && !Self::placeable(raster) ==> r is Err,
    {
        let code: u64 = key.encode();
        match self.glyphs.get(&code) {
            Some(v) => {
                return Ok(*v);
            },
            None => {},
        }
        let blank: bool = raster.data.len() == 0;
        let width: u32 = if blank {
            1
        } else {
            raster.width
        };
        let height: u32 = if blank {
            1
        } else {
            raster.height
        };
        if width == 0 || height == 0 || width > 0xffff || height > 0xffff {
            return Err(AtlasError::GlyphTooLarge);
        }
        // Get a page and allocation either by finding the first usable page
        // or allocating from a new page
        let mut found: Option<(usize, Area)> = None;
        let n: usize = self.pages.len();
        let mut i: usize = 0;
        while i < n && found.is_none()
            invariant
                i <= n == self.pages@.len() == old(self).pages@.len(),
                old(self).wf(),
                0 < width <= 0xffff,
                0 < height <= 0xffff,
                self.glyphs@ == old(self).glyphs@,
                self.pending_glyphs@ == old(self).pending_glyphs@,
                self.bufs@ == old(self).bufs@,
                self.atom == old(self).atom,
                self.copy_align == old(self).copy_align,
                forall|j: int|
                    0 <= j < n ==> atlas_size((#[trigger] self.pages@[j]).allocator) == atlas_size(
                        old(self).pages@[j].allocator,
                    ),
                match found {
                    None => forall|j: int|
                        0 <= j < n ==> (#[trigger] self.pages@[j]).count == old(
                            self,
                        ).pages@[j].count && atlas_areas(self.pages@[j].allocator)
                            == atlas_areas(old(self).pages@[j].allocator),
                    Some((page, area)) => {
                        &&& page < n
                        &&& forall|j: int|
                            0 <= j < n && j != page ==> (#[trigger] self.pages@[j]).count == old(
                                self,
                            ).pages@[j].count && atlas_areas(self.pages@[j].allocator)
                                == atlas_areas(old(self).pages@[j].allocator)
                        &&& self.pages@[page as int].count == old(self).pages@[page as int].count
                            + 1
                        &&& atlas_areas(self.pages@[page as int].allocator) == atlas_areas(
                            old(self).pages@[page as int].allocator,
                        ).insert(area)
                        &&& !atlas_areas(old(self).pages@[page as int].allocator).contains(area)
                        &&& area_on(area, atlas_size(old(self).pages@[page as int].allocator))
                        &&& area.max_x - area.min_x >= width
                        &&& area.max_y - area.min_y >= height
                        &&& forall|other: Area| #[trigger]
                            atlas_areas(old(self).pages@[page as int].allocator).contains(other)
                                ==> areas_apart(area, other)
                    },
                },
            decreases n - i,
        {
            if self.pages[i].count < PAGE_GLYPHS {
                let ghost pages1 = self.pages@;
                match allocate(&mut self.pages[i].allocator, width as i32, height as i32) {
                    Some(area) => {
                        proof {
                            // a room which was given out before would have to lie
                            // apart from itself
                            if atlas_areas(pages1[i as int].allocator).contains(area) {
                                assert(areas_apart(area, area));
                            }
                        }
                        self.pages[i].count = self.pages[i].count + 1;
                        found = Some((i, area));
                    },
                    None => {},
                }
            }
            i = i + 1;
        }
        let (page, area): (usize, Area) = match found {
            Some(at) => at,
            None => {
                let mut allocator = new_allocator(dims as i32, dims as i32);
                match allocate(&mut allocator, width as i32, height as i32) {
                    Some(area) => {
                        self.pages.push(Page { allocator, count: 1 });
                        (n, area)
                    },
                    None => {
                        proof {
                            self.lemma_same_pages(old(self));
                            self.lemma_same_pending(old(self));
                            assert(self.same_as(old(self)));
                        }
                        return Err(AtlasError::GlyphTooLarge);
                    },
                }
            },
        };
        proof {
            self.lemma_room_taken(old(self), page, area);
            if page == n {
                assert(self.page_size(n as int) == (AtlasSize {
                    width: dims as i32,
                    height: dims as i32,
                }));
            }
        }
        let ghost mid = *self;
        let ghost spec_raster = raster;
        let value: Value = self.store(code, raster, page, area, buf_len);
        proof {
            self.lemma_stored_since(
                &mid,
                old(self),
                code,
                spec_raster,
                page,
                area.min_x,
                area.min_y,
                buf_len,
                value,
            );
        }
        Ok(value)
    }

    /// What was stored in an atlas was stored in every atlas with the same
    /// glyphs, pending glyphs and staging buffers.
    proof fn lemma_stored_since(
        &self,
        mid: &DynamicAtlas,
        before: &DynamicAtlas,
        code: u64,
        raster: Raster,
        page: usize,
        x: i32,
        y: i32,
        buf_len: usize,
        value: Value,
    )
        requires
            self.stored_from(mid, code, raster, page, x, y, buf_len, value),
            mid.same_rest(before),
        ensures
            self.stored_from(before, code, raster, page, x, y, buf_len, value),
    {
        let data = raster.staged();
        let len = data.len() as int;
        if mid.buffer_count() > 0 {
            assert(mid.staged(mid.buffer_count() - 1) == before.staged(before.buffer_count() - 1));
            assert(mid.staged_to(mid.buffer_count() - 1) == before.staged_to(
                before.buffer_count() - 1,
            ));
        }
        assert(mid.last_fits(len) == before.last_fits(len));
        assert(mid.next_buffer(len) == before.next_buffer(len));
        assert(mid.next_offset(len) == before.next_offset(len));
        let idx = before.next_buffer(len);
        assert(self.others_kept(before, idx)) by {
            assert forall|b: int| 0 <= b < before.buffer_count() && b != idx implies #[trigger] self.staged(
                b,
            ) == before.staged(b) && self.staged_to(b) == before.staged_to(b) by {
                assert(self.staged(b) == mid.staged(b));
                assert(mid.staged(b) == before.staged(b));
            }
        }
        if before.last_fits(len) {
            assert(mid.staged(idx) == before.staged(idx));
        }
        assert(self.staged_from(before, data, buf_len));
    }

    /// An atlas one of whose pages has given out a room more, or which has a
    /// page more with one room given out, is sound, and no cached glyph
    /// lies in the new room.
    proof fn lemma_room_taken(&self, before: &DynamicAtlas, page: usize, area: Area)
        requires
            before.wf(),
            self.glyphs@ == before.glyphs@,
            self.pending_glyphs@ == before.pending_glyphs@,
            self.bufs@ == before.bufs@,
            self.atom == before.atom,
            self.copy_align == before.copy_align,
            page < self.pages@.len(),
            before.pages@.len() <= self.pages@.len() <= before.pages@.len() + 1,
            self.pages@.len() == before.pages@.len() + 1 ==> page == before.pages@.len(),
            forall|j: int|
                0 <= j < before.pages@.len() && j != page ==> (#[trigger] self.pages@[j]).count
                    == before.pages@[j].count && atlas_areas(self.pages@[j].allocator)
                    == atlas_areas(before.pages@[j].allocator),
            forall|j: int|
                0 <= j < before.pages@.len() ==> atlas_size((#[trigger] self.pages@[j]).allocator)
                    == atlas_size(before.pages@[j].allocator),
            page < before.pages@.len() ==> {
                &&& self.pages@[page as int].count == before.pages@[page as int].count + 1
                &&& atlas_areas(self.pages@[page as int].allocator) == atlas_areas(
                    before.pages@[page as int].allocator,
                ).insert(area)
                &&& !atlas_areas(before.pages@[page as int].allocator).contains(area)
                &&& forall|other: Area| #[trigger]
                    atlas_areas(before.pages@[page as int].allocator).contains(other)
                        ==> areas_apart(area, other)
            },
            page == before.pages@.len() ==> {
                &&& self.pages@[page as int].count == 1
                &&& atlas_areas(self.pages@[page as int].allocator) == Set::<Area>::empty().insert(
                    area,
                )
            },
            area_on(area, atlas_size(self.pages@[page as int].allocator)),
            page_sized(atlas_size(self.pages@[page as int].allocator)),
        ensures
            self.wf(),
            self.page_areas(page as int).contains(area),
            self.same_rest(before),
            forall|k: u64| #[trigger]
                self.glyphs().dom().contains(k) && self.glyphs()[k].page_idx == page ==> !rect_in(
                    self.glyphs()[k].page_rect,
                    area,
                ),
            forall|i: int|
                0 <= i < before.page_count() ==> #[trigger] self.page_size(i) == before.page_size(
                    i,
                ),
            forall|i: int|
                0 <= i < before.page_count() && i != page ==> #[trigger] self.page_areas(i)
                    == before.page_areas(i),
    {
        assert(self.inv()) by {
            assert forall|i: int| 0 <= i < self.pages@.len() implies atlas_areas(
                (#[trigger] self.pages@[i]).allocator,
            ).finite() && self.pages@[i].count == atlas_areas(self.pages@[i].allocator).len() by {
                if i < before.pages@.len() {
                    assert(atlas_areas(before.pages@[i].allocator).finite());
                }
            }
        }
        assert forall|i: int, a: Area|
            #![trigger self.page_areas(i).contains(a)]
            0 <= i < self.page_count() && self.page_areas(i).contains(a) implies area_on(
            a,
            self.page_size(i),
        ) by {
            if a != area || i != page {
                assert(before.page_areas(i).contains(a));
            }
        }
        assert forall|i: int, a: Area, b: Area|
            #![trigger self.page_areas(i).contains(a), self.page_areas(i).contains(b)]
            0 <= i < self.page_count() && self.page_areas(i).contains(a) && self.page_areas(
                i,
            ).contains(b) && a != b implies areas_apart(a, b) by {
            if i != page {
                assert(before.page_areas(i).contains(a) && before.page_areas(i).contains(b));
            } else if a == area {
                assert(before.page_areas(i).contains(b));
            } else if b == area {
                assert(before.page_areas(i).contains(a));
            } else {
                assert(before.page_areas(i).contains(a) && before.page_areas(i).contains(b));
            }
        }
        assert forall|k: u64| #[trigger] self.glyphs().dom().contains(k) implies self.glyphs()[k].page_idx
            < self.page_count() && self.glyphs()[k].page_rect.width > 0
            && self.glyphs()[k].page_rect.height > 0 && in_room(
                self.page_areas(self.glyphs()[k].page_idx as int),
                self.glyphs()[k].page_rect,
            ) && (self.glyphs()[k].page_idx == page ==> !rect_in(
            self.glyphs()[k].page_rect,
            area,
        )) by {
            assert(before.glyphs().dom().contains(k));
            let p = before.glyphs()[k].page_idx as int;
            let a = choose|a: Area| #[trigger]
                before.page_areas(p).contains(a) && rect_in(before.glyphs()[k].page_rect, a);
            assert(self.page_areas(p).contains(a));
            assert(in_room(self.page_areas(p), self.glyphs()[k].page_rect));
            if p == page {
                assert(areas_apart(area, a));
            }
        }
        assert forall|k: u64, l: u64|
            #![trigger self.glyphs().dom().contains(k), self.glyphs().dom().contains(l)]
            self.glyphs().dom().contains(k) && self.glyphs().dom().contains(l) && k != l
                && self.glyphs()[k].page_idx == self.glyphs()[l].page_idx implies rects_apart(
            self.glyphs()[k].page_rect,
            self.glyphs()[l].page_rect,
        ) by {
            assert(before.glyphs().dom().contains(k) && before.glyphs().dom().contains(l));
        }
        assert forall|i: int| 0 <= i < self.page_count() implies page_sized(
            #[trigger] self.page_size(i),
        ) by {
            if i < before.page_count() {
                assert(page_sized(before.page_size(i)));
            }
        }
        assert forall|j: int| 0 <= j < self.pending().len() implies #[trigger] self.pending_staged(
            j,
        ) by {
            assert(before.pending_staged(j));
        }
        assert forall|j: int, k: int| 0 <= j < k < self.pending().len() implies #[trigger] self.pending_apart(
            j,
            k,
        ) by {
            assert(before.pending_apart(j, k));
        }
    }

    /// Whether the glyphs, the pending glyphs and the staging buffers of the
    /// two are the same.
    pub open spec fn same_rest(&self, other: &DynamicAtlas) -> bool {
        &&& self.glyphs() == other.glyphs()
        &&& self.pending() == other.pending()
        &&& self.buffer_count() == other.buffer_count()
        &&& self.atom_size() == other.atom_size()
        &&& self.copy_alignment() == other.copy_alignment()
        &&& forall|b: int|
            0 <= b < self.buffer_count() ==> #[trigger] self.staged(b) == other.staged(b)
                && self.staged_to(b) == other.staged_to(b)
    }

    /// Pops a glyph off the pending list and returns it with the staging
    /// buffer its bytes wait in.
    pub fn pop_pending_glyph<'a>(&'a mut self) -> (r: Option<GlyphRef<'a>>)
        requires
            old(self).wf(),
        ensures
            final(self).wf(),
            final(self).glyphs() == old(self).glyphs(),
            final(self).page_count() == old(self).page_count(),
            final(self).buffer_count() == old(self).buffer_count(),
            match r {
                Some(g) => {
                    &&& old(self).pending().len() > 0
                    &&& final(self).pending() == old(self).pending().drop_last()
                    &&& g.buf_range == old(self).pending().last().buf_range
                    &&& g.page_idx == old(self).pending().last().page_idx
                    &&& g.page_rect == old(self).pending().last().page_rect
                    &&& g.buf@ == old(self).staged(old(self).pending().last().buf_idx as int)
                    &&& g.buf_range.start <= g.buf_range.end <= g.buf@.len()
                    &&& forall|j: int|
                        0 <= j < final(self).pending().len() && final(self).pending()[j].buf_idx
                            == old(self).pending().last().buf_idx ==> (
                        #[trigger] final(self).pending()[j]).buf_range.end <= g.buf_range.start
                },
                None => old(self).pending().len() == 0 && final(self).pending().len() == 0,
            },
    {
        match self.pending_glyphs.pop() {
            Some(glyph) => {
                proof {
                    assert(glyph == old(self).pending()[old(self).pending().len() - 1]);
                    assert forall|j: int| 0 <= j < self.pending().len() implies #[trigger] self.pending_staged(
                        j,
                    ) by {
                        assert(self.pending()[j] == old(self).pending()[j]);
                        assert(old(self).pending_staged(j));
                    }
                    assert forall|j: int, k: int|
                        0 <= j < k < self.pending().len() implies #[trigger] self.pending_apart(
                        j,
                        k,
                    ) by {
                        assert(old(self).pending_apart(j, k));
                    }
                    assert(old(self).pending_staged(old(self).pending().len() - 1));
                    assert forall|j: int|
                        0 <= j < self.pending().len() && self.pending()[j].buf_idx
                            == glyph.buf_idx implies (#[trigger] self.pending()[j]).buf_range.end
                        <= glyph.buf_range.start by {
                        assert(old(self).pending_apart(j, old(self).pending().len() - 1));
                    }
                    self.lemma_same_pages(old(self));
                    assert(self.wf());
                }
                Some(
                    GlyphRef {
                        buf: &self.bufs[glyph.buf_idx].data,
                        buf_range: glyph.buf_range,
                        page_idx: glyph.page_idx,
                        page_rect: glyph.page_rect,
                    },
                )
            },
            None => {
                proof {
                    self.lemma_same_pages(old(self));
                }
                None
            },
        }
    }

    /// Where a glyph goes on the screen, and where the pen stands behind it.
    pub fn layout(pen: &mut Pen, value: &Value) -> (g: VectorGlyph)
        ensures
            g.page_idx == value.page_idx,
            g.page_rect == value.page_rect,
            g.screen_x == old(pen).x,
            g.screen_y == value.bounds.height + value.bounds.ymin,
            g.screen_width == value.bounds.width,
            g.screen_height == value.bounds.height,
            final(pen).x == clamped_sum(old(pen).x as int, value.advance.x as int),
            final(pen).y == clamped_sum(old(pen).y as int, value.advance.y as int),
    {
        let g = VectorGlyph {
            page_idx: value.page_idx,
            page_rect: value.page_rect,
            screen_x: pen.x,
            screen_y: (value.bounds.height as i64) + (value.bounds.ymin as i64),
            screen_width: value.bounds.width,
            screen_height: value.bounds.height,
        };
        pen.x = add_clamped(pen.x, value.advance.x);
        pen.y = add_clamped(pen.y, value.advance.y);
        g
    }
}

/// Computes [`clamped_sum`].
fn add_clamped(a: i64, b: i32) -> (r: i64)
    ensures
        r == clamped_sum(a as int, b as int),
{
    let wide: i128 = (a as i128) + (b as i128);
    if wide > i64::MAX as i128 {
        i64::MAX
    } else if wide < i64::MIN as i128 {
        i64::MIN
    } else {
        wide as i64
    }
}

} // verus!
