//! The compiler: the geometry cache, the vertex buffer it fills, and the
//! per-frame table of mesh textures.

use vstd::prelude::*;
use crate::code::Asm;
use crate::command::{Command, MeshTextures};
use crate::geom::{
    gen_point_light, point_light_mesh, LINE_STRIDE, POINT_LIGHT_LEN, RECT_LIGHT_STRIDE,
    SPOTLIGHT_STRIDE,
};
use crate::fill::{fill_group, group_keys, notes, wanted};
use crate::group::{boundary, grouped, lemma_boundaries_rise, SearchIdx};
use crate::key::{LineKey, RectLightKey, ShapeKey, SpotlightKey};
use crate::lru::{
    appended, cache_map, grown, laid_out, lemma_backed_prefix, lemma_backed_suffix,
    lemma_laid_out_turn,
    lemma_map_count, lemma_order_chain, lemma_order_swap, lemma_order_turn,
    lemma_refresh_layout, merged, order_kept, refreshed, rest, sorted, sweep, thinned,
    touched, Lru, Slot, Tagged,
};
use crate::sort::{all_listed, ascending, find_texture, slot, sort_commands, sorted_cmds};
use crate::vertex_buf::{
    grown_capacity, hull, lemma_replayed_in_runs, moves_down, replayed, ByteRange, CopyRange,
    VertexBuf, MAX_CAPACITY,
};

verus! {

/// Why a frame could not be compiled.
#[derive(Clone, Copy, Debug, PartialEq, Eq, Structural)]
pub enum CompileError {
    /// The meshes of the frame's lights and lines may need more bytes than a
    /// vertex buffer can hold.
    CapacityOverflow,
}

/// Compiles a series of drawing commands into renderable instructions.
///
/// The compiler keeps the line and light meshes it has generated from one
/// frame to the next, and for the length of a frame the textures of the
/// meshes in view.
pub struct Compiler {
    code: Vec<Asm>,
    line_lru: Vec<Lru<LineKey>>,
    mesh_textures: Vec<u64>,
    point_light_lru: bool,
    rect_light_lru: Vec<Lru<RectLightKey>>,
    spotlight_lru: Vec<Lru<SpotlightKey>>,
    vertex_buf: VertexBuf,
    end: usize,
}

/// Whether `tex` is a texture of a mesh among the commands.
pub open spec fn textured(s: Seq<Command>, tex: u64) -> bool {
    exists|i: int|
        0 <= i < s.len() && (#[trigger] s[i]) is Mesh && s[i]->Mesh_0.mesh.textures.list().contains(
            tex,
        )
}

impl Default for Compiler {
    /// A compiler with nothing cached.
    fn default() -> (c: Compiler)
        ensures
            c.wf(),
            c.buffer().max_len() == MAX_CAPACITY,
            c.textures().len() == 0,
            c.rect_lights() == Map::<RectLightKey, Slot>::empty(),
            c.spotlights() == Map::<SpotlightKey, Slot>::empty(),
            c.lines() == Map::<LineKey, Slot>::empty(),
            !c.point_light(),
            c.used() == POINT_LIGHT_LEN,
            c.buffer().bytes().len() == 2 * POINT_LIGHT_LEN,
            c.buffer().dirty() is None,
            c.buffer().copies().len() == 0,
            c.notes().len() == 0,
    {
        Compiler::new()
    }
}

/// Whether a point light is among the commands.
pub open spec fn point_lit(s: Seq<Command>) -> bool {
    boundary(s, SearchIdx::PointLight) < boundary(s, SearchIdx::RectLight)
}

/// The number of bytes which are in use once the commands are resolved if
/// none of their lights and lines is cached yet: `used`, and the room of one
/// mesh for each of them.
pub open spec fn projected(used: int, s: Seq<Command>) -> int {
    used + (boundary(s, SearchIdx::Spotlight) - boundary(s, SearchIdx::RectLight))
        * RECT_LIGHT_STRIDE + (boundary(s, SearchIdx::Line) - boundary(s, SearchIdx::Spotlight))
        * SPOTLIGHT_STRIDE + (s.len() - boundary(s, SearchIdx::Line)) * LINE_STRIDE
}

/// The length of a frame: the room of the point light and the room of one
/// mesh for every light and line of the commands.
pub open spec fn frame_len(s: Seq<Command>) -> int {
    projected(POINT_LIGHT_LEN as int, s)
}

impl Compiler {
    /// The table of mesh textures: the identities of the textures of the
    /// frame's meshes, in rising order.
    pub closed spec fn textures(&self) -> Seq<u64> {
        self.mesh_textures@
    }

    /// The cached rectangular lights.
    pub closed spec fn rect_lights(&self) -> Map<RectLightKey, Slot> {
        cache_map(self.rect_light_lru@)
    }

    /// The cached spotlights.
    pub closed spec fn spotlights(&self) -> Map<SpotlightKey, Slot> {
        cache_map(self.spotlight_lru@)
    }

    /// The cached lines.
    pub closed spec fn lines(&self) -> Map<LineKey, Slot> {
        cache_map(self.line_lru@)
    }

    /// All cached meshes, whatever their kind.
    pub open spec fn cached(&self) -> Map<Tagged<RectLightKey, SpotlightKey, LineKey>, Slot> {
        merged(self.rect_lights(), self.spotlights(), self.lines())
    }

    /// Whether the mesh of the point light was written this frame.
    pub closed spec fn point_light(&self) -> bool {
        self.point_light_lru
    }

    /// The vertex buffer.
    pub closed spec fn buffer(&self) -> VertexBuf {
        self.vertex_buf
    }

    /// The number of bytes of the vertex buffer which are in use: the room
    /// of the point light and the cached meshes behind it.
    pub closed spec fn used(&self) -> usize {
        self.end
    }

    /// What was noted for the lights and lines of the frame.
    pub closed spec fn notes(&self) -> Seq<Asm> {
        self.code@
    }

    /// The cache lists stand in the order of their keys, and their entries
    /// account for the bytes in use.
    pub closed spec fn inv(&self) -> bool {
        &&& sorted(self.rect_light_lru@)
        &&& sorted(self.spotlight_lru@)
        &&& sorted(self.line_lru@)
        &&& self.end == POINT_LIGHT_LEN + self.rect_light_lru@.len() * RECT_LIGHT_STRIDE
            + self.spotlight_lru@.len() * SPOTLIGHT_STRIDE + self.line_lru@.len() * LINE_STRIDE
    }

    /// The bytes in use are the room of the point light and the room of one
    /// mesh for every key which is cached.
    pub proof fn lemma_used(&self)
        requires
            self.wf(),
        ensures
            self.rect_lights().dom().finite(),
            self.spotlights().dom().finite(),
            self.lines().dom().finite(),
            self.used() == POINT_LIGHT_LEN + self.rect_lights().dom().len() * RECT_LIGHT_STRIDE
                + self.spotlights().dom().len() * SPOTLIGHT_STRIDE + self.lines().dom().len()
                * LINE_STRIDE,
    {
        lemma_map_count(self.rect_light_lru@);
        lemma_map_count(self.spotlight_lru@);
        lemma_map_count(self.line_lru@);
    }

    /// The state of a compiler is sound: the cached meshes lie behind the
    /// room of the point light and within the bytes in use, no two of them
    /// share a byte, every one of them holds the bytes of its key, what is
    /// dirty is in use, and the table of textures rises. That the meshes
    /// leave no gap is [`Compiler::lemma_used`].
    pub open spec fn wf(&self) -> bool {
        &&& self.inv()
        &&& self.buffer().wf()
        &&& laid_out(
            self.rect_lights(),
            self.spotlights(),
            self.lines(),
            self.buffer().bytes(),
            self.used() as int,
        )
        &&& self.point_light() ==> self.buffer().bytes().subrange(0, POINT_LIGHT_LEN as int)
            == point_light_mesh()
        &&& self.buffer().dirty() matches Some(d) ==> d.end <= self.used()
        &&& ascending(self.textures())
    }

    /// Whether the cache and the vertex buffer of the two are the same.
    pub open spec fn same_cache(&self, other: &Compiler) -> bool {
        &&& self.rect_lights() == other.rect_lights()
        &&& self.spotlights() == other.spotlights()
        &&& self.lines() == other.lines()
        &&& self.point_light() == other.point_light()
        &&& self.buffer().bytes() == other.buffer().bytes()
        &&& self.buffer().max_len() == other.buffer().max_len()
        &&& self.buffer().dirty() == other.buffer().dirty()
        &&& self.buffer().copies() == other.buffer().copies()
        &&& self.used() == other.used()
        &&& self.notes() == other.notes()
    }

    /// A compiler with nothing cached, whose vertex buffer grows as far as
    /// any vertex buffer may.
    pub fn new() -> (c: Compiler)
        ensures
            c.wf(),
            c.buffer().max_len() == MAX_CAPACITY,
            c.textures().len() == 0,
            c.rect_lights() == Map::<RectLightKey, Slot>::empty(),
            c.spotlights() == Map::<SpotlightKey, Slot>::empty(),
            c.lines() == Map::<LineKey, Slot>::empty(),
            !c.point_light(),
            c.used() == POINT_LIGHT_LEN,
            c.buffer().bytes().len() == 2 * POINT_LIGHT_LEN,
            c.buffer().dirty() is None,
            c.buffer().copies().len() == 0,
            c.notes().len() == 0,
    {
        Self::with_limit(MAX_CAPACITY)
    }

    /// A compiler with nothing cached, whose vertex buffer does not grow
    /// beyond `limit` bytes.
    pub fn with_limit(limit: usize) -> (c: Compiler)
        requires
            2 * POINT_LIGHT_LEN <= limit <= MAX_CAPACITY,
        ensures
            c.wf(),
            c.buffer().max_len() == limit,
            c.textures().len() == 0,
            c.rect_lights() == Map::<RectLightKey, Slot>::empty(),
            c.spotlights() == Map::<SpotlightKey, Slot>::empty(),
            c.lines() == Map::<LineKey, Slot>::empty(),
            !c.point_light(),
            c.used() == POINT_LIGHT_LEN,
            c.buffer().bytes().len() == 2 * POINT_LIGHT_LEN,
            c.buffer().dirty() is None,
            c.buffer().copies().len() == 0,
            c.notes().len() == 0,
    {
        let c = Compiler {
            code: Vec::new(),
            line_lru: Vec::new(),
            mesh_textures: Vec::new(),
            point_light_lru: false,
            rect_light_lru: Vec::new(),
            spotlight_lru: Vec::new(),
            vertex_buf: VertexBuf::with_capacity(2 * POINT_LIGHT_LEN, limit),
            end: POINT_LIGHT_LEN,
        };
        proof {
            assert(c.rect_lights() =~= Map::<RectLightKey, Slot>::empty());
            assert(c.spotlights() =~= Map::<SpotlightKey, Slot>::empty());
            assert(c.lines() =~= Map::<LineKey, Slot>::empty());
        }
        c
    }

    /// The vertex buffer: the meshes of all cached lights and lines.
    pub fn vertex_buf(&self) -> (buf: &VertexBuf)
        ensures
            *buf == self.buffer(),
    {
        &self.vertex_buf
    }

    /// The table of mesh textures.
    pub fn mesh_textures(&self) -> (t: &Vec<u64>)
        ensures
            t@ == self.textures(),
    {
        &self.mesh_textures
    }

    /// What was noted for the lights and lines of the frame.
    pub fn code(&self) -> (c: &Vec<Asm>)
        ensures
            c@ == self.notes(),
    {
        &self.code
    }

    /// The number of bytes of the vertex buffer which are in use.
    pub fn vertex_len(&self) -> (n: usize)
        ensures
            n == self.used(),
    {
        self.end
    }

    /// Whether the mesh of the point light was written this frame.
    pub fn has_point_light(&self) -> (r: bool)
        ensures
            r == self.point_light(),
    {
        self.point_light_lru
    }

    /// Where the mesh of a rectangular light lies and whether it was used
    /// this frame, if it is cached.
    pub fn rect_light(&self, key: &RectLightKey) -> (r: Option<(usize, bool)>)
        requires
            self.wf(),
        ensures
            match r {
                Some((offset, used)) => self.rect_lights().dom().contains(*key)
                    && self.rect_lights()[*key] == (Slot { offset, recently_used: used }),
                None => !self.rect_lights().dom().contains(*key),
            },
    {
        match crate::lru::find(&self.rect_light_lru, key) {
            Ok(i) => {
                proof {
                    crate::lru::lemma_map_at(self.rect_light_lru@, i as int);
                }
                Some((self.rect_light_lru[i].offset, self.rect_light_lru[i].recently_used))
            },
            Err(_) => None,
        }
    }

    /// Where the mesh of a spotlight lies and whether it was used this
    /// frame, if it is cached.
    pub fn spotlight(&self, key: &SpotlightKey) -> (r: Option<(usize, bool)>)
        requires
            self.wf(),
        ensures
            match r {
                Some((offset, used)) => self.spotlights().dom().contains(*key)
                    && self.spotlights()[*key] == (Slot { offset, recently_used: used }),
                None => !self.spotlights().dom().contains(*key),
            },
    {
        match crate::lru::find(&self.spotlight_lru, key) {
            Ok(i) => {
                proof {
                    crate::lru::lemma_map_at(self.spotlight_lru@, i as int);
                }
                Some((self.spotlight_lru[i].offset, self.spotlight_lru[i].recently_used))
            },
            Err(_) => None,
        }
    }

    /// Where the mesh of a line lies and whether it was used this frame, if
    /// it is cached.
    pub fn line(&self, key: &LineKey) -> (r: Option<(usize, bool)>)
        requires
            self.wf(),
        ensures
            match r {
                Some((offset, used)) => self.lines().dom().contains(*key) && self.lines()[*key]
                    == (Slot { offset, recently_used: used }),
                None => !self.lines().dom().contains(*key),
            },
    {
        match crate::lru::find(&self.line_lru, key) {
            Ok(i) => {
                proof {
                    crate::lru::lemma_map_at(self.line_lru@, i as int);
                }
                Some((self.line_lru[i].offset, self.line_lru[i].recently_used))
            },
            Err(_) => None,
        }
    }

    /// Whether the cache lists and the bytes in use are those of `before`
    /// after the commands were resolved in turn: the rectangular lights, then
    /// the spotlights, then the lines, each behind the bytes which were in
    /// use when its turn came.
    pub open spec fn filled_in_turn(&self, before: &Compiler, cmds: Seq<Command>) -> bool {
        let rect = touched(
            before.rect_lights(),
            before.used() as int,
            group_keys::<RectLightKey>(
                cmds,
                boundary(cmds, SearchIdx::RectLight),
                boundary(cmds, SearchIdx::Spotlight),
            ),
        );
        let spot = touched(
            before.spotlights(),
            rect.end,
            group_keys::<SpotlightKey>(
                cmds,
                boundary(cmds, SearchIdx::Spotlight),
                boundary(cmds, SearchIdx::Line),
            ),
        );
        let line = touched(
            before.lines(),
            spot.end,
            group_keys::<LineKey>(cmds, boundary(cmds, SearchIdx::Line), cmds.len() as int),
        );
        &&& self.rect_lights() == rect.map
        &&& self.spotlights() == spot.map
        &&& self.lines() == line.map
        &&& self.used() == line.end
    }

    /// Whether this is the compiler `before` after its cache was filled for
    /// the commands.
    ///
    /// Every light and line of the commands has its mesh in the cache and is
    /// marked as used; what was cached before lies where it lay, with the
    /// bytes it had; a mesh which is new lies behind the bytes which were in
    /// use. One note was taken for each rectangular light, spotlight and
    /// line, in the order of the commands.
    ///
    /// The buffer has grown if it had not room for the length of the frame,
    /// which is the room of the point light and of one mesh for every light
    /// and line of the commands, or for the bytes which have come into use.
    /// It has then twice the bytes which the commands could have brought into
    /// use behind those which were in use, or as many as its limit; all of
    /// the bytes in use are then dirty, for they are new to the GPU, and the
    /// recorded moves are dropped. Else what was written is dirty: nothing if
    /// no mesh is new.
    pub open spec fn filled(&self, before: &Compiler, cmds: Seq<Command>) -> bool {
        let grew = frame_len(cmds) > before.buffer().bytes().len() || self.used()
            > before.buffer().bytes().len();
        let lit = point_lit(cmds) && !before.point_light();
        &&& self.buffer().max_len() == before.buffer().max_len()
        &&& projected(before.used() as int, cmds) <= before.buffer().max_len()
        &&& refreshed(
            before.rect_lights(),
            self.rect_lights(),
            wanted::<RectLightKey>(cmds),
            before.used(),
        )
        &&& refreshed(
            before.spotlights(),
            self.spotlights(),
            wanted::<SpotlightKey>(cmds),
            before.used(),
        )
        &&& refreshed(before.lines(), self.lines(), wanted::<LineKey>(cmds), before.used())
        &&& self.filled_in_turn(before, cmds)
        &&& self.point_light() == (before.point_light() || point_lit(cmds))
        &&& self.notes() == notes::<RectLightKey>(
            cmds,
            boundary(cmds, SearchIdx::RectLight),
            boundary(cmds, SearchIdx::Spotlight),
            self.rect_lights(),
        ) + notes::<SpotlightKey>(
            cmds,
            boundary(cmds, SearchIdx::Spotlight),
            boundary(cmds, SearchIdx::Line),
            self.spotlights(),
        ) + notes::<LineKey>(
            cmds,
            boundary(cmds, SearchIdx::Line),
            cmds.len() as int,
            self.lines(),
        )
        &&& before.used() <= self.used() <= projected(before.used() as int, cmds)
        &&& self.used() == before.used() || grown(before.rect_lights(), self.rect_lights())
            || grown(before.spotlights(), self.spotlights()) || grown(
            before.lines(),
            self.lines(),
        )
        &&& self.buffer().bytes().len() == if grew {
            grown_capacity(
                projected(before.used() as int, cmds),
                before.buffer().max_len() as int,
            )
        } else {
            before.buffer().bytes().len() as int
        }
        &&& self.buffer().bytes().subrange(POINT_LIGHT_LEN as int, before.used() as int)
            == before.buffer().bytes().subrange(POINT_LIGHT_LEN as int, before.used() as int)
        &&& self.buffer().dirty() == if grew {
            Some(ByteRange { start: 0, end: self.used() })
        } else {
            appended(
                if lit {
                    hull(before.buffer().dirty(), 0, POINT_LIGHT_LEN)
                } else {
                    before.buffer().dirty()
                },
                false,
                before.used(),
                self.used(),
            )
        }
        &&& self.buffer().copies() == if grew {
            Seq::empty()
        } else {
            before.buffer().copies()
        }
    }

    /// Gets this compiler ready to draw the given commands by filling the
    /// vertex buffer with the meshes of their lights and lines, and notes
    /// where each lies. Also records the range of vertex data which must be
    /// copied to the GPU.
    ///
    /// The buffer grows where it has not room for the length of the frame,
    /// or for a mesh which is new; see [`Compiler::filled`]. Fails, and
    /// changes nothing, where the bytes which may come into use are more than
    /// the vertex buffer may hold.
    #[verifier::rlimit(40)]
    pub fn fill_cache(&mut self, cmds: &Vec<Command>) -> (r: Result<(), CompileError>)
        requires
            old(self).wf(),
            grouped(cmds@),
        ensures
            final(self).wf(),
            final(self).textures() == old(self).textures(),
            r is Err <==> projected(old(self).used() as int, cmds@) > old(self).buffer().max_len(),
            match r {
                Ok(_) => final(self).filled(old(self), cmds@),
                Err(e) => e == CompileError::CapacityOverflow && final(self).same_cache(old(self)),
            },
    {
        proof {
            lemma_boundaries_rise(cmds@);
        }
        // Locate the groups
        let point_light_idx: usize = Self::group_start(cmds, SearchIdx::PointLight);
        let rect_light_idx: usize = Self::group_start(cmds, SearchIdx::RectLight);
        let spotlight_idx: usize = Self::group_start(cmds, SearchIdx::Spotlight);
        let line_idx: usize = Self::group_start(cmds, SearchIdx::Line);

        // Count how many items of each group we found
        let point_light_count: usize = rect_light_idx - point_light_idx;
        let rect_light_count: usize = spotlight_idx - rect_light_idx;
        let spotlight_count: usize = line_idx - spotlight_idx;
        let line_count: usize = cmds.len() - line_idx;

        // The vertex buffer must have room for a mesh of each of them
        let limit: usize = self.vertex_buf.limit();
        if rect_light_count > limit || spotlight_count > limit || line_count > limit {
            return Err(CompileError::CapacityOverflow);
        }
        let len: u64 = (self.end as u64) + (rect_light_count as u64) * (RECT_LIGHT_STRIDE as u64) + (
        spotlight_count as u64) * (SPOTLIGHT_STRIDE as u64) + (line_count as u64) * (
        LINE_STRIDE as u64);
        if len > limit as u64 {
            return Err(CompileError::CapacityOverflow);
        }
        self.code.clear();

        let ghost rect0 = self.rect_lights();
        let ghost spot0 = self.spotlights();
        let ghost line0 = self.lines();
        let ghost end0 = self.end;
        let ghost held = self.vertex_buf.bytes();

        // Resize the vertex buffer as needed: it gets twice the room which
        // may be asked for, and keeps what it holds
        let frame: u64 = len - (self.end as u64) + (POINT_LIGHT_LEN as u64);
        if frame > self.vertex_buf.capacity() as u64 {
            self.vertex_buf.reserve(frame as usize, len as usize, self.end);
        }
        let ghost bytes0 = self.vertex_buf.bytes();
        proof {
            assert(bytes0.subrange(0, end0 as int) == held.subrange(0, end0 as int));
            lemma_backed_prefix(rect0, held, bytes0, end0 as int);
            lemma_backed_prefix(spot0, held, bytes0, end0 as int);
            lemma_backed_prefix(line0, held, bytes0, end0 as int);
            assert(bytes0.subrange(0, POINT_LIGHT_LEN as int) =~= bytes0.subrange(
                0,
                end0 as int,
            ).subrange(0, POINT_LIGHT_LEN as int));
            assert(held.subrange(0, POINT_LIGHT_LEN as int) =~= held.subrange(
                0,
                end0 as int,
            ).subrange(0, POINT_LIGHT_LEN as int));
            assert(bytes0.subrange(POINT_LIGHT_LEN as int, end0 as int) =~= bytes0.subrange(
                0,
                end0 as int,
            ).subrange(POINT_LIGHT_LEN as int, end0 as int));
            assert(held.subrange(POINT_LIGHT_LEN as int, end0 as int) =~= held.subrange(
                0,
                end0 as int,
            ).subrange(POINT_LIGHT_LEN as int, end0 as int));
        }

        // Add the point light mesh to the buffer as needed (the spot is
        // reserved for it)
        if point_light_count > 0 && !self.point_light_lru {
            self.point_light_lru = true;
            let mesh: Vec<u8> = gen_point_light();
            self.vertex_buf.write(0, &mesh);
            proof {
                let bytes1 = self.vertex_buf.bytes();
                lemma_backed_suffix(rect0, bytes0, bytes1, POINT_LIGHT_LEN as int);
                lemma_backed_suffix(spot0, bytes0, bytes1, POINT_LIGHT_LEN as int);
                lemma_backed_suffix(line0, bytes0, bytes1, POINT_LIGHT_LEN as int);
                assert(bytes1.subrange(0, POINT_LIGHT_LEN as int) =~= mesh@);
                assert(bytes1.subrange(POINT_LIGHT_LEN as int, end0 as int) =~= bytes0.subrange(
                    POINT_LIGHT_LEN as int,
                    end0 as int,
                ));
            }
        }
        proof {
            assert(self.wf());
        }
        let ghost ready = *self;

        // Resolve the lights and lines, group by group
        self.fill_groups(cmds, rect_light_idx, spotlight_idx, line_idx, len as usize);
        proof {
            let bytes1 = ready.vertex_buf.bytes();
            let bytes4 = self.vertex_buf.bytes();
            assert(bytes4.subrange(POINT_LIGHT_LEN as int, end0 as int) =~= bytes4.subrange(
                0,
                end0 as int,
            ).subrange(POINT_LIGHT_LEN as int, end0 as int));
            assert(bytes1.subrange(POINT_LIGHT_LEN as int, end0 as int) =~= bytes1.subrange(
                0,
                end0 as int,
            ).subrange(POINT_LIGHT_LEN as int, end0 as int));
            assert(ready.notes() =~= Seq::<Asm>::empty());
            assert(Seq::<Asm>::empty() + self.notes() =~= self.notes());
        }
        Ok(())
    }

    /// Whether this is the compiler `before` after its lights and lines were
    /// resolved, where the buffer grows for `planned` bytes if it has to
    /// grow.
    spec fn groups_filled(&self, before: &Compiler, cmds: Seq<Command>, planned: int) -> bool {
        let grew = self.buffer().bytes().len() != before.buffer().bytes().len();
        &&& self.textures() == before.textures()
        &&& self.buffer().max_len() == before.buffer().max_len()
        &&& refreshed(
            before.rect_lights(),
            self.rect_lights(),
            wanted::<RectLightKey>(cmds),
            before.used(),
        )
        &&& refreshed(
            before.spotlights(),
            self.spotlights(),
            wanted::<SpotlightKey>(cmds),
            before.used(),
        )
        &&& refreshed(before.lines(), self.lines(), wanted::<LineKey>(cmds), before.used())
        &&& self.filled_in_turn(before, cmds)
        &&& self.point_light() == before.point_light()
        &&& self.notes() == before.notes() + (notes::<RectLightKey>(
            cmds,
            boundary(cmds, SearchIdx::RectLight),
            boundary(cmds, SearchIdx::Spotlight),
            self.rect_lights(),
        ) + notes::<SpotlightKey>(
            cmds,
            boundary(cmds, SearchIdx::Spotlight),
            boundary(cmds, SearchIdx::Line),
            self.spotlights(),
        ) + notes::<LineKey>(
            cmds,
            boundary(cmds, SearchIdx::Line),
            cmds.len() as int,
            self.lines(),
        ))
        &&& before.used() <= self.used() <= projected(before.used() as int, cmds)
        &&& self.used() == before.used() || grown(before.rect_lights(), self.rect_lights())
            || grown(before.spotlights(), self.spotlights()) || grown(
            before.lines(),
            self.lines(),
        )
        &&& self.buffer().bytes().len() == if self.used() <= before.buffer().bytes().len() {
            before.buffer().bytes().len() as int
        } else {
            grown_capacity(planned, before.buffer().max_len() as int)
        }
        &&& self.buffer().bytes().subrange(0, before.used() as int)
            == before.buffer().bytes().subrange(0, before.used() as int)
        &&& self.buffer().dirty() == appended(
            before.buffer().dirty(),
            grew,
            before.used(),
            self.used(),
        )
        &&& self.buffer().copies() == if grew {
            Seq::empty()
        } else {
            before.buffer().copies()
        }
    }

    /// Resolves the rectangular lights, the spotlights and the lines of the
    /// commands, in this order, against the cache.
    #[verifier::rlimit(40)]
    fn fill_groups(
        &mut self,
        cmds: &Vec<Command>,
        rect_light_idx: usize,
        spotlight_idx: usize,
        line_idx: usize,
        planned: usize,
    )
        requires
            old(self).wf(),
            grouped(cmds@),
            rect_light_idx == boundary(cmds@, SearchIdx::RectLight),
            spotlight_idx == boundary(cmds@, SearchIdx::Spotlight),
            line_idx == boundary(cmds@, SearchIdx::Line),
            projected(old(self).used() as int, cmds@) <= planned <= old(self).buffer().max_len(),
        ensures
            final(self).wf(),
            final(self).groups_filled(old(self), cmds@, planned as int),
    {
        proof {
            lemma_boundaries_rise(cmds@);
        }
        let ghost rect0 = self.rect_lights();
        let ghost spot0 = self.spotlights();
        let ghost line0 = self.lines();
        let ghost end0 = self.end;
        let ghost code0 = self.code@;
        let ghost bytes1 = self.vertex_buf.bytes();
        let ghost dirty1 = self.vertex_buf.dirty();
        let ghost copies1 = self.vertex_buf.copies();
        proof {
            assert forall|i: int| 0 <= i < cmds@.len() implies (RectLightKey::read(
                #[trigger] cmds@[i],
            ) is Some <==> rect_light_idx <= i < spotlight_idx) by {
                RectLightKey::lemma_read_group(cmds@[i]);
            }
            assert forall|i: int| 0 <= i < cmds@.len() implies (SpotlightKey::read(
                #[trigger] cmds@[i],
            ) is Some <==> spotlight_idx <= i < line_idx) by {
                SpotlightKey::lemma_read_group(cmds@[i]);
            }
            assert forall|i: int| 0 <= i < cmds@.len() implies (LineKey::read(
                #[trigger] cmds@[i],
            ) is Some <==> line_idx <= i < cmds@.len()) by {
                LineKey::lemma_read_group(cmds@[i]);
            }
        }

        // Resolve all rectangular lights
        fill_group(
            &mut self.rect_light_lru,
            &mut self.vertex_buf,
            &mut self.end,
            &mut self.code,
            cmds,
            rect_light_idx,
            spotlight_idx,
            planned,
        );
        let ghost rect2 = self.rect_lights();
        let ghost end2 = self.end;
        let ghost bytes2 = self.vertex_buf.bytes();
        proof {
            lemma_refresh_layout(
                rect0,
                rect2,
                spot0,
                line0,
                bytes1,
                bytes2,
                end0,
                end2,
                wanted::<RectLightKey>(cmds@),
            );
            lemma_laid_out_turn(rect2, spot0, line0, bytes2, end2 as int);
            assert(bytes2.subrange(0, POINT_LIGHT_LEN as int) =~= bytes2.subrange(
                0,
                end0 as int,
            ).subrange(0, POINT_LIGHT_LEN as int));
            assert(bytes1.subrange(0, POINT_LIGHT_LEN as int) =~= bytes1.subrange(
                0,
                end0 as int,
            ).subrange(0, POINT_LIGHT_LEN as int));
            assert(bytes2.subrange(POINT_LIGHT_LEN as int, end0 as int) =~= bytes2.subrange(
                0,
                end0 as int,
            ).subrange(POINT_LIGHT_LEN as int, end0 as int));
            assert(bytes1.subrange(POINT_LIGHT_LEN as int, end0 as int) =~= bytes1.subrange(
                0,
                end0 as int,
            ).subrange(POINT_LIGHT_LEN as int, end0 as int));
        }

        // Resolve all spotlights
        fill_group(
            &mut self.spotlight_lru,
            &mut self.vertex_buf,
            &mut self.end,
            &mut self.code,
            cmds,
            spotlight_idx,
            line_idx,
            planned,
        );
        let ghost spot3 = self.spotlights();
        let ghost end3 = self.end;
        let ghost bytes3 = self.vertex_buf.bytes();
        proof {
            lemma_refresh_layout(
                spot0,
                spot3,
                rect2,
                line0,
                bytes2,
                bytes3,
                end2,
                end3,
                wanted::<SpotlightKey>(cmds@),
            );
            lemma_laid_out_turn(spot3, rect2, line0, bytes3, end3 as int);
            assert(bytes3.subrange(0, end0 as int) =~= bytes3.subrange(0, end2 as int).subrange(
                0,
                end0 as int,
            ));
            assert(bytes2.subrange(0, end0 as int) =~= bytes2.subrange(0, end2 as int).subrange(
                0,
                end0 as int,
            ));
            assert(bytes3.subrange(0, POINT_LIGHT_LEN as int) =~= bytes3.subrange(
                0,
                end0 as int,
            ).subrange(0, POINT_LIGHT_LEN as int));
            assert(bytes3.subrange(POINT_LIGHT_LEN as int, end0 as int) =~= bytes3.subrange(
                0,
                end0 as int,
            ).subrange(POINT_LIGHT_LEN as int, end0 as int));
        }

        // Cache all line vertices
        fill_group(
            &mut self.line_lru,
            &mut self.vertex_buf,
            &mut self.end,
            &mut self.code,
            cmds,
            line_idx,
            cmds.len(),
            planned,
        );
        proof {
            let line4 = self.lines();
            let end4 = self.end;
            let bytes4 = self.vertex_buf.bytes();
            lemma_laid_out_turn(rect2, spot3, line0, bytes3, end3 as int);
            lemma_refresh_layout(
                line0,
                line4,
                rect2,
                spot3,
                bytes3,
                bytes4,
                end3,
                end4,
                wanted::<LineKey>(cmds@),
            );
            lemma_laid_out_turn(line4, rect2, spot3, bytes4, end4 as int);
            assert(bytes4.subrange(0, end0 as int) =~= bytes4.subrange(0, end3 as int).subrange(
                0,
                end0 as int,
            ));
            assert(bytes3.subrange(0, end0 as int) =~= bytes3.subrange(0, end3 as int).subrange(
                0,
                end0 as int,
            ));
            assert(bytes4.subrange(0, POINT_LIGHT_LEN as int) =~= bytes4.subrange(
                0,
                end0 as int,
            ).subrange(0, POINT_LIGHT_LEN as int));
            assert(bytes4.subrange(POINT_LIGHT_LEN as int, end0 as int) =~= bytes4.subrange(
                0,
                end0 as int,
            ).subrange(POINT_LIGHT_LEN as int, end0 as int));
            assert(self.code@ =~= code0 + (notes::<RectLightKey>(
                cmds@,
                rect_light_idx as int,
                spotlight_idx as int,
                rect2,
            ) + notes::<SpotlightKey>(cmds@, spotlight_idx as int, line_idx as int, spot3)
                + notes::<LineKey>(cmds@, line_idx as int, cmds@.len() as int, line4)));
        }
    }

    /// Moves cache items into clumps so future items can be appended onto
    /// the end without needing to resize the cache buffer: every mesh which
    /// is not marked as used is evicted, and the meshes behind it move down
    /// into its room. As a side effect the moves are recorded for the GPU.
    pub fn compact_cache(&mut self)
        requires
            old(self).wf(),
            old(self).buffer().dirty() is None,
        ensures
            final(self).wf(),
            final(self).buffer().dirty() is None,
            final(self).buffer().bytes().len() == old(self).buffer().bytes().len(),
            final(self).buffer().max_len() == old(self).buffer().max_len(),
            final(self).buffer().copies().len() >= old(self).buffer().copies().len(),
            final(self).textures() == old(self).textures(),
            final(self).notes() == old(self).notes(),
            final(self).point_light() == old(self).point_light(),
            thinned(old(self).rect_lights(), final(self).rect_lights()),
            thinned(old(self).spotlights(), final(self).spotlights()),
            thinned(old(self).lines(), final(self).lines()),
            order_kept(old(self).cached(), final(self).cached()),
            final(self).used() <= old(self).used(),
            final(self).used() == old(self).used() ==> final(self).buffer().copies() == old(
                self,
            ).buffer().copies(),
            forall|i: int|
                old(self).buffer().copies().len() <= i < final(self).buffer().copies().len()
                    ==> moves_down(
                    #[trigger] final(self).buffer().copies()[i],
                    POINT_LIGHT_LEN as int,
                    old(self).used() as int,
                ),
            final(self).buffer().copies().subrange(
                0,
                old(self).buffer().copies().len() as int,
            ) == old(self).buffer().copies(),
            replayed(
                old(self).buffer().bytes(),
                final(self).buffer().copies().skip(old(self).buffer().copies().len() as int),
            ).subrange(0, final(self).used() as int) == final(self).buffer().bytes().subrange(
                0,
                final(self).used() as int,
            ),
    {
        let ghost rect0 = self.rect_lights();
        let ghost spot0 = self.spotlights();
        let ghost line0 = self.lines();
        let ghost gpu0 = self.vertex_buf.bytes();
        let ghost copies0 = self.vertex_buf.copies();
        sweep(
            &mut self.rect_light_lru,
            &mut self.spotlight_lru,
            &mut self.line_lru,
            &mut self.vertex_buf,
            &mut self.end,
            Ghost(gpu0),
        );
        let ghost copies1 = self.vertex_buf.copies();
        let ghost used1 = self.end;
        let ghost gpu1 = replayed(gpu0, copies1.skip(copies0.len() as int));
        let ghost rect1 = self.rect_lights();
        let ghost spot1 = self.spotlights();
        let ghost line1 = self.lines();
        let ghost bytes1 = self.vertex_buf.bytes();
        proof {
            lemma_laid_out_turn(rect1, spot1, line1, bytes1, self.end as int);
            lemma_replayed_in_runs(gpu0, copies1.skip(copies0.len() as int), Seq::empty());
        }
        sweep(
            &mut self.spotlight_lru,
            &mut self.rect_light_lru,
            &mut self.line_lru,
            &mut self.vertex_buf,
            &mut self.end,
            Ghost(gpu1),
        );
        let ghost copies2 = self.vertex_buf.copies();
        let ghost used2 = self.end;
        let ghost gpu2 = replayed(gpu1, copies2.skip(copies1.len() as int));
        let ghost rect2 = self.rect_lights();
        let ghost spot2 = self.spotlights();
        let ghost line2 = self.lines();
        let ghost bytes2 = self.vertex_buf.bytes();
        proof {
            lemma_laid_out_turn(spot2, rect2, line2, bytes2, self.end as int);
            lemma_laid_out_turn(rect2, spot2, line2, bytes2, self.end as int);
            lemma_replayed_in_runs(gpu1, copies2.skip(copies1.len() as int), Seq::empty());
        }
        sweep(
            &mut self.line_lru,
            &mut self.rect_light_lru,
            &mut self.spotlight_lru,
            &mut self.vertex_buf,
            &mut self.end,
            Ghost(gpu2),
        );
        proof {
            let rect3 = self.rect_lights();
            let spot3 = self.spotlights();
            let line3 = self.lines();
            let copies3 = self.vertex_buf.copies();
            let run1 = copies1.skip(copies0.len() as int);
            let run2 = copies2.skip(copies1.len() as int);
            let run3 = copies3.skip(copies2.len() as int);
            assert(copies1 =~= copies2.subrange(0, copies1.len() as int));
            assert(copies2 =~= copies3.subrange(0, copies2.len() as int));
            assert(copies0 =~= copies1.subrange(0, copies0.len() as int));
            assert(copies3.subrange(0, copies0.len() as int) =~= copies0);
            assert(copies2.skip(copies0.len() as int) =~= run1 + run2);
            assert(copies3.skip(copies0.len() as int) =~= (run1 + run2) + run3);
            lemma_replayed_in_runs(gpu0, run1, run2);
            lemma_replayed_in_runs(gpu0, run1 + run2, run3);
            assert forall|i: int| copies0.len() <= i < copies3.len() implies moves_down(
                #[trigger] copies3[i],
                POINT_LIGHT_LEN as int,
                old(self).used() as int,
            ) by {
                if i < copies1.len() {
                    assert(copies3[i] == copies2[i]);
                    assert(copies2[i] == copies1[i]);
                } else if i < copies2.len() {
                    assert(copies3[i] == copies2[i]);
                    assert(moves_down(copies2[i], POINT_LIGHT_LEN as int, used1 as int));
                } else {
                    assert(moves_down(copies3[i], POINT_LIGHT_LEN as int, used2 as int));
                }
            }
            let all0 = merged(rect0, spot0, line0);
            let all1 = merged(rect1, spot1, line1);
            let all2 = merged(rect2, spot2, line2);
            let all3 = merged(rect3, spot3, line3);
            lemma_order_swap(rect1, rect2, spot1, spot2, line1, line2);
            lemma_order_turn(rect2, rect3, spot2, spot3, line2, line3);
            assert(all1.dom().subset_of(all0.dom())) by {
                assert forall|x: Tagged<RectLightKey, SpotlightKey, LineKey>|
                    all1.dom().contains(x) implies all0.dom().contains(x) by {
                    match x {
                        Tagged::First(k) => {
                            assert(rect1.dom().contains(k));
                        },
                        Tagged::Second(k) => {
                            assert(spot1.dom().contains(k));
                        },
                        Tagged::Third(k) => {
                            assert(line1.dom().contains(k));
                        },
                    }
                }
            }
            assert(all2.dom().subset_of(all1.dom())) by {
                assert forall|x: Tagged<RectLightKey, SpotlightKey, LineKey>|
                    all2.dom().contains(x) implies all1.dom().contains(x) by {
                    match x {
                        Tagged::First(k) => {
                            assert(rect2.dom().contains(k));
                        },
                        Tagged::Second(k) => {
                            assert(spot2.dom().contains(k));
                        },
                        Tagged::Third(k) => {
                            assert(line2.dom().contains(k));
                        },
                    }
                }
            }
            assert(all3.dom().subset_of(all2.dom())) by {
                assert forall|x: Tagged<RectLightKey, SpotlightKey, LineKey>|
                    all3.dom().contains(x) implies all2.dom().contains(x) by {
                    match x {
                        Tagged::First(k) => {
                            assert(rect3.dom().contains(k));
                        },
                        Tagged::Second(k) => {
                            assert(spot3.dom().contains(k));
                        },
                        Tagged::Third(k) => {
                            assert(line3.dom().contains(k));
                        },
                    }
                }
            }
            lemma_order_chain(all0, all1, all2);
            lemma_order_chain(all0, all2, all3);
            let rect3 = self.rect_lights();
            let spot3 = self.spotlights();
            let line3 = self.lines();
            let bytes3 = self.vertex_buf.bytes();
            lemma_laid_out_turn(line3, rect3, spot3, bytes3, self.end as int);
            assert(thinned(rect0, rect3)) by {
                assert forall|k: RectLightKey|
                    #![trigger rect3.dom().contains(k)]
                    rect3.dom().contains(k) <==> rect0.dom().contains(k)
                        && rect0[k].recently_used by {
                    assert(rect2.dom().contains(k) <==> rect1.dom().contains(k));
                    assert(rect1.dom().contains(k) <==> rect0.dom().contains(k)
                        && rect0[k].recently_used);
                }
                assert forall|k: RectLightKey| #[trigger]
                    rect3.dom().contains(k) implies rect3[k].recently_used && rect3[k].offset
                    <= rect0[k].offset by {
                    assert(rect2.dom().contains(k));
                    assert(rect1.dom().contains(k));
                }
            }
            assert(thinned(spot0, spot3)) by {
                assert forall|k: SpotlightKey|
                    #![trigger spot3.dom().contains(k)]
                    spot3.dom().contains(k) <==> spot0.dom().contains(k)
                        && spot0[k].recently_used by {
                    assert(spot3.dom().contains(k) <==> spot2.dom().contains(k));
                    assert(spot2.dom().contains(k) <==> spot1.dom().contains(k)
                        && spot1[k].recently_used);
                    assert(spot1.dom().contains(k) <==> spot0.dom().contains(k));
                }
                assert forall|k: SpotlightKey| #[trigger]
                    spot3.dom().contains(k) implies spot3[k].recently_used && spot3[k].offset
                    <= spot0[k].offset by {
                    assert(spot2.dom().contains(k));
                    assert(spot1.dom().contains(k));
                }
            }
            assert(thinned(line0, line3)) by {
                assert forall|k: LineKey|
                    #![trigger line3.dom().contains(k)]
                    line3.dom().contains(k) <==> line0.dom().contains(k)
                        && line0[k].recently_used by {
                    assert(line3.dom().contains(k) <==> line2.dom().contains(k)
                        && line2[k].recently_used);
                    assert(line2.dom().contains(k) <==> line1.dom().contains(k));
                    assert(line1.dom().contains(k) <==> line0.dom().contains(k));
                }
                assert forall|k: LineKey| #[trigger]
                    line3.dom().contains(k) implies line3[k].recently_used && line3[k].offset
                    <= line0[k].offset by {
                    assert(line2.dom().contains(k));
                    assert(line1.dom().contains(k));
                }
            }
            assert(bytes3.subrange(0, POINT_LIGHT_LEN as int) == old(self).buffer().bytes().subrange(
                0,
                POINT_LIGHT_LEN as int,
            ));
        }
    }

    /// Whether this is the compiler `before` after it was reset: of the cached
    /// meshes those which the last frame used are left, and none is marked as
    /// used any more; the table of mesh textures, the notes and the dirty
    /// range are cleared. The meshes which are left lie in the order in which
    /// they lay, without a gap. The moves which are recorded are those which
    /// closed the gaps: there is none where no mesh was evicted, each takes
    /// bytes which were in use down towards the point light, and made on the
    /// bytes as they were, they give the bytes in use as they are.
    pub open spec fn rested_from(&self, before: &Compiler) -> bool {
        &&& self.textures().len() == 0
        &&& self.notes().len() == 0
        &&& self.buffer().dirty() is None
        &&& self.buffer().bytes().len() == before.buffer().bytes().len()
        &&& self.buffer().max_len() == before.buffer().max_len()
        &&& !self.point_light()
        &&& self.used() <= before.used()
        &&& self.used() == before.used() ==> self.buffer().copies() == Seq::<CopyRange>::empty()
        &&& forall|i: int|
            0 <= i < self.buffer().copies().len() ==> moves_down(
                #[trigger] self.buffer().copies()[i],
                POINT_LIGHT_LEN as int,
                before.used() as int,
            )
        &&& order_kept(before.cached(), self.cached())
        &&& replayed(before.buffer().bytes(), self.buffer().copies()).subrange(
            0,
            self.used() as int,
        ) == self.buffer().bytes().subrange(0, self.used() as int)
        &&& forall|k: RectLightKey|
            #![trigger self.rect_lights().dom().contains(k)]
            self.rect_lights().dom().contains(k) <==> before.rect_lights().dom().contains(k)
                && before.rect_lights()[k].recently_used
        &&& forall|k: SpotlightKey|
            #![trigger self.spotlights().dom().contains(k)]
            self.spotlights().dom().contains(k) <==> before.spotlights().dom().contains(k)
                && before.spotlights()[k].recently_used
        &&& forall|k: LineKey|
            #![trigger self.lines().dom().contains(k)]
            self.lines().dom().contains(k) <==> before.lines().dom().contains(k)
                && before.lines()[k].recently_used
        &&& forall|k: RectLightKey| #[trigger]
            self.rect_lights().dom().contains(k) ==> !self.rect_lights()[k].recently_used
        &&& forall|k: SpotlightKey| #[trigger]
            self.spotlights().dom().contains(k) ==> !self.spotlights()[k].recently_used
        &&& forall|k: LineKey| #[trigger]
            self.lines().dom().contains(k) ==> !self.lines()[k].recently_used
    }

    /// Resets the internal caches so that this compiler may be reused by
    /// calling the `compile` function.
    ///
    /// The table of mesh textures, the notes and the dirty state are cleared.
    /// The meshes which the last frame did not use are evicted, and the bytes
    /// they had are given back: the bytes in use are the room of the point
    /// light and the meshes which are left, as [`Compiler::wf`] has it. The
    /// moves which closed the gaps are the only dirty state left.
    pub fn reset(&mut self)
        requires
            old(self).wf(),
        ensures
            final(self).wf(),
            final(self).rested_from(old(self)),
    {
        self.mesh_textures.clear();
        self.code.clear();

        // Reset the CPU/GPU dirty regions
        self.vertex_buf.clear_dirty();

        // Remove the least recently used line and light from the cache (LRU
        // == Not used this frame)
        self.compact_cache();
        let ghost compacted = self.vertex_buf.copies();
        let ghost swept = self.cached();

        // Finally, reset the "recently used" flags
        self.point_light_lru = false;
        rest(&mut self.line_lru);
        rest(&mut self.rect_light_lru);
        rest(&mut self.spotlight_lru);
        proof {
            assert(compacted.skip(0) =~= compacted);
            if self.end == old(self).end {
                assert(compacted =~= Seq::<CopyRange>::empty());
            }
            assert(self.wf());
            assert(order_kept(old(self).cached(), self.cached())) by {
                let first = old(self).cached();
                let last = self.cached();
                assert forall|x: Tagged<RectLightKey, SpotlightKey, LineKey>, y: Tagged<
                    RectLightKey,
                    SpotlightKey,
                    LineKey,
                >|
                    #![trigger last.dom().contains(x), last.dom().contains(y)]
                    last.dom().contains(x) && last.dom().contains(y) && first.dom().contains(x)
                        && first.dom().contains(y) && first[x].offset
                        < first[y].offset implies last[x].offset < last[y].offset by {
                    assert(swept.dom().contains(x) && swept.dom().contains(y));
                    assert(last[x].offset == swept[x].offset);
                    assert(last[y].offset == swept[y].offset);
                }
            }
        }
    }

    /// Returns the index of a given texture in the table of mesh textures,
    /// adding it as needed.
    pub fn mesh_texture_idx(&mut self, tex: u64) -> (idx: usize)
        requires
            old(self).wf(),
        ensures
            final(self).wf(),
            final(self).same_cache(old(self)),
            idx < final(self).textures().len(),
            idx <= old(self).textures().len(),
            final(self).textures()[idx as int] == tex,
            idx == slot(final(self).textures(), tex),
            old(self).textures().contains(tex) ==> final(self).textures() == old(self).textures(),
            !old(self).textures().contains(tex) ==> final(self).textures() == old(
                self,
            ).textures().insert(idx as int, tex),
    {
        match find_texture(&self.mesh_textures, tex) {
            Err(idx) => {
                // Not in the list - add and return the new index
                let ghost before = self.mesh_textures@;
                self.mesh_textures.insert(idx, tex);
                proof {
                    let after = self.mesh_textures@;
                    assert forall|a: int, b: int| 0 <= a < b < after.len() implies after[a]
                        < after[b] by {
                        if a < idx && b > idx {
                            assert(after[a] == before[a]);
                            assert(after[b] == before[b - 1]);
                        } else if a < idx && b < idx {
                            assert(after[a] == before[a]);
                            assert(after[b] == before[b]);
                        } else if a > idx {
                            assert(after[a] == before[a - 1]);
                            assert(after[b] == before[b - 1]);
                        } else if a == idx {
                            assert(after[b] == before[b - 1]);
                        } else {
                            assert(after[a] == before[a]);
                        }
                    }
                    crate::sort::lemma_slot(after, idx as int);
                }
                idx
            },
            Ok(idx) => {
                proof {
                    assert(self.mesh_textures@.contains(tex));
                }
                idx
            },
        }
    }

    /// Sorts commands into a predictable and efficient order for drawing.
    ///
    /// The textures of the meshes are entered into the table of mesh
    /// textures first; the order goes by the slots they have there.
    pub fn sort(&mut self, cmds: &mut Vec<Command>)
        requires
            old(self).wf(),
        ensures
            final(self).wf(),
            final(self).same_cache(old(self)),
            forall|tex: u64|
                final(self).textures().contains(tex) <==> old(self).textures().contains(tex)
                    || textured(old(cmds)@, tex),
            sorted_cmds(final(self).textures(), final(cmds)@),
            all_listed(final(self).textures(), final(cmds)@),
            final(cmds)@.to_multiset() == old(cmds)@.to_multiset(),
            final(cmds)@.len() == old(cmds)@.len(),
    {
        let n: usize = cmds.len();
        let mut i: usize = 0;
        while i < n
            invariant
                i <= n == cmds@.len(),
                cmds@ == old(cmds)@,
                self.wf(),
                self.same_cache(old(self)),
                forall|tex: u64|
                    self.textures().contains(tex) <==> old(self).textures().contains(tex)
                        || textured(cmds@.subrange(0, i as int), tex),
            decreases n - i,
        {
            let ghost table0 = self.textures();
            let ghost head = cmds@.subrange(0, i as int);
            let ghost next = cmds@.subrange(0, i as int + 1);
            match cmds[i] {
                Command::Mesh(c) => {
                    match c.mesh.textures {
                        MeshTextures::Single(a) => {
                            let at: usize = self.mesh_texture_idx(a);
                            proof {
                                assert(c.mesh.textures.list() =~= seq![a]);
                                assert forall|tex: u64|
                                    self.textures().contains(tex) <==> table0.contains(tex)
                                        || c.mesh.textures.list().contains(tex) by {
                                    lemma_entered(table0, self.textures(), a, at as int, tex);
                                    assert(seq![a][0] == a);
                                }
                            }
                        },
                        MeshTextures::Dual(a, b) => {
                            let at: usize = self.mesh_texture_idx(a);
                            let ghost mid = self.textures();
                            let to: usize = self.mesh_texture_idx(b);
                            proof {
                                assert(c.mesh.textures.list() =~= seq![a, b]);
                                assert forall|tex: u64|
                                    self.textures().contains(tex) <==> table0.contains(tex)
                                        || c.mesh.textures.list().contains(tex) by {
                                    lemma_entered(table0, mid, a, at as int, tex);
                                    lemma_entered(mid, self.textures(), b, to as int, tex);
                                    assert(seq![a, b][0] == a);
                                    assert(seq![a, b][1] == b);
                                }
                            }
                        },
                    }
                },
                _ => {},
            }
            proof {
                let table1 = self.textures();
                let cmd = cmds@[i as int];
                assert(next[i as int] == cmd);
                assert forall|tex: u64| textured(next, tex) <==> textured(head, tex) || (cmd is Mesh
                    && cmd->Mesh_0.mesh.textures.list().contains(tex)) by {
                    if textured(next, tex) {
                        let j = choose|j: int|
                            0 <= j < next.len() && (#[trigger] next[j]) is Mesh
                                && next[j]->Mesh_0.mesh.textures.list().contains(tex);
                        if j < i {
                            assert(head[j] == next[j]);
                        }
                    }
                    if textured(head, tex) {
                        let j = choose|j: int|
                            0 <= j < head.len() && (#[trigger] head[j]) is Mesh
                                && head[j]->Mesh_0.mesh.textures.list().contains(tex);
                        assert(next[j] == head[j]);
                    }
                }
                assert forall|tex: u64|
                    table1.contains(tex) <==> table0.contains(tex) || (cmd is Mesh
                        && cmd->Mesh_0.mesh.textures.list().contains(tex)) by {}
            }
            i = i + 1;
        }
        proof {
            assert(cmds@.subrange(0, n as int) =~= cmds@);
            assert forall|j: int| 0 <= j < cmds@.len() implies crate::sort::listed(
                self.textures(),
                #[trigger] cmds@[j],
            ) by {
                let cmd = cmds@[j];
                match cmd {
                    Command::Mesh(c) => {
                        match c.mesh.textures {
                            MeshTextures::Single(a) => {
                                assert(c.mesh.textures.list()[0] == a);
                                assert(textured(cmds@, a));
                            },
                            MeshTextures::Dual(a, b) => {
                                assert(c.mesh.textures.list()[0] == a);
                                assert(c.mesh.textures.list()[1] == b);
                                assert(textured(cmds@, a));
                                assert(textured(cmds@, b));
                            },
                        }
                    },
                    _ => {},
                }
            }
        }
        sort_commands(&self.mesh_textures, cmds);
    }
}

/// A reset which finds every cached mesh used evicts none: as many bytes are
/// in use as were, and no move is recorded.
pub proof fn lemma_nothing_evicted(before: &Compiler, rested: &Compiler)
    requires
        before.wf(),
        rested.wf(),
        rested.rested_from(before),
        forall|k: RectLightKey| #[trigger]
            before.rect_lights().dom().contains(k) ==> before.rect_lights()[k].recently_used,
        forall|k: SpotlightKey| #[trigger]
            before.spotlights().dom().contains(k) ==> before.spotlights()[k].recently_used,
        forall|k: LineKey| #[trigger]
            before.lines().dom().contains(k) ==> before.lines()[k].recently_used,
    ensures
        rested.used() == before.used(),
        rested.buffer().copies() == Seq::<CopyRange>::empty(),
        rested.rect_lights().dom() == before.rect_lights().dom(),
        rested.spotlights().dom() == before.spotlights().dom(),
        rested.lines().dom() == before.lines().dom(),
{
    before.lemma_used();
    rested.lemma_used();
    assert(rested.rect_lights().dom() =~= before.rect_lights().dom());
    assert(rested.spotlights().dom() =~= before.spotlights().dom());
    assert(rested.lines().dom() =~= before.lines().dom());
}

/// A frame after a frame which drew the same lights and lines, with a reset
/// between the two, finds the mesh of each of them in the cache: it marks it
/// as used and leaves it where it is and caches nothing new. Where the
/// frame is no longer than the first, the buffer has room for it and does
/// not grow, and no byte of it is written but the mesh of the point light,
/// if the frame draws one.
pub proof fn lemma_repeat_frame(
    start: &Compiler,
    drawn: &Compiler,
    rested: &Compiler,
    again: &Compiler,
    first: Seq<Command>,
    second: Seq<Command>,
)
    requires
        start.wf(),
        drawn.wf(),
        rested.wf(),
        again.wf(),
        drawn.filled(start, first),
        rested.rested_from(drawn),
        again.filled(rested, second),
        frame_len(second) <= frame_len(first),
        wanted::<RectLightKey>(second).subset_of(wanted::<RectLightKey>(first)),
        wanted::<SpotlightKey>(second).subset_of(wanted::<SpotlightKey>(first)),
        wanted::<LineKey>(second).subset_of(wanted::<LineKey>(first)),
    ensures
        again.rect_lights().dom() == rested.rect_lights().dom(),
        again.spotlights().dom() == rested.spotlights().dom(),
        again.lines().dom() == rested.lines().dom(),
        forall|k: RectLightKey| #[trigger]
            wanted::<RectLightKey>(second).contains(k) ==> again.rect_lights().dom().contains(k)
                && again.rect_lights()[k].recently_used && again.rect_lights()[k].offset
                == rested.rect_lights()[k].offset,
        forall|k: SpotlightKey| #[trigger]
            wanted::<SpotlightKey>(second).contains(k) ==> again.spotlights().dom().contains(k)
                && again.spotlights()[k].recently_used && again.spotlights()[k].offset
                == rested.spotlights()[k].offset,
        forall|k: LineKey| #[trigger]
            wanted::<LineKey>(second).contains(k) ==> again.lines().dom().contains(k)
                && again.lines()[k].recently_used && again.lines()[k].offset
                == rested.lines()[k].offset,
        again.used() == rested.used(),
        again.buffer().bytes().len() == rested.buffer().bytes().len(),
        again.buffer().copies() == rested.buffer().copies(),
        again.buffer().dirty() == if point_lit(second) {
            Some(ByteRange { start: 0, end: POINT_LIGHT_LEN })
        } else {
            None
        },
{
    lemma_kept(
        start.rect_lights(),
        drawn.rect_lights(),
        rested.rect_lights(),
        again.rect_lights(),
        wanted::<RectLightKey>(first),
        wanted::<RectLightKey>(second),
        start.used(),
        rested.used(),
    );
    lemma_kept(
        start.spotlights(),
        drawn.spotlights(),
        rested.spotlights(),
        again.spotlights(),
        wanted::<SpotlightKey>(first),
        wanted::<SpotlightKey>(second),
        start.used(),
        rested.used(),
    );
    lemma_kept(
        start.lines(),
        drawn.lines(),
        rested.lines(),
        again.lines(),
        wanted::<LineKey>(first),
        wanted::<LineKey>(second),
        start.used(),
        rested.used(),
    );
}

/// What was wanted and is wanted again is found where it was left.
proof fn lemma_kept<K: ShapeKey>(
    start: Map<K, Slot>,
    drawn: Map<K, Slot>,
    rested: Map<K, Slot>,
    again: Map<K, Slot>,
    first: Set<K>,
    second: Set<K>,
    end0: usize,
    end2: usize,
)
    requires
        refreshed(start, drawn, first, end0),
        forall|k: K|
            #![trigger rested.dom().contains(k)]
            rested.dom().contains(k) <==> drawn.dom().contains(k) && drawn[k].recently_used,
        refreshed(rested, again, second, end2),
        second.subset_of(first),
    ensures
        again.dom() == rested.dom(),
        !grown(rested, again),
        forall|k: K| #[trigger]
            second.contains(k) ==> again.dom().contains(k) && again[k].recently_used
                && again[k].offset == rested[k].offset,
{
    assert forall|k: K| #[trigger] second.contains(k) implies rested.dom().contains(k) by {
        assert(first.contains(k));
        assert(drawn.dom().contains(k));
        if start.dom().contains(k) {
        }
    }
    assert forall|k: K| again.dom().contains(k) <==> rested.dom().contains(k) by {
        if again.dom().contains(k) && !rested.dom().contains(k) {
            assert(second.contains(k));
        }
    }
    assert(again.dom() =~= rested.dom());
}

/// Whether `after` is `before` with `tex` entered at `at`, where it was not
/// there.
spec fn entered(before: Seq<u64>, after: Seq<u64>, tex: u64, at: int) -> bool {
    (before.contains(tex) && after == before) || (!before.contains(tex) && 0 <= at <= before.len()
        && after == before.insert(at, tex))
}

/// Entering a texture adds it to what the table holds and nothing else.
proof fn lemma_entered(before: Seq<u64>, after: Seq<u64>, tex: u64, at: int, other: u64)
    requires
        entered(before, after, tex, at),
    ensures
        after.contains(other) <==> before.contains(other) || other == tex,
{
    if !before.contains(tex) {
        assert(after[at] == tex);
        if before.contains(other) {
            let j = choose|j: int| 0 <= j < before.len() && before[j] == other;
            if j < at {
                assert(after[j] == other);
            } else {
                assert(after[j + 1] == other);
            }
        }
        if after.contains(other) && other != tex {
            let j = choose|j: int| 0 <= j < after.len() && after[j] == other;
            if j < at {
                assert(before[j] == other);
            } else {
                assert(before[j - 1] == other);
            }
        }
    }
}

} // verus!
