use vstd::prelude::*;
use vstd::arithmetic::div_mod::{lemma_fundamental_div_mod, lemma_fundamental_div_mod_converse, lemma_mod_bound};

use crate::block::{lemma_key_identifies_state, state_key, state_view, BlockState};
use crate::report::count_up_to;
use crate::lookup::strings_view;
use crate::order::pairs_view;
use crate::text::{chars_of, str_eq, string_from};

verus! {

/// A block position or a region size.
#[derive(Debug, Clone, Copy, PartialEq, Eq, Hash, Structural)]
pub struct BlockPos {
    pub x: i32,
    pub y: i32,
    pub z: i32,
}

impl BlockPos {
    pub fn new(x: i32, y: i32, z: i32) -> (r: BlockPos)
        ensures
            r == (BlockPos { x, y, z }),
    {
        BlockPos { x, y, z }
    }
}

/// The extent of a region along one axis (sizes may be negative).
pub open spec fn dim(v: i32) -> int {
    if v < 0 {
        -v
    } else {
        v as int
    }
}

pub open spec fn volume_of(size: BlockPos) -> int {
    dim(size.x) * dim(size.y) * dim(size.z)
}

/// A region shape the block grid can be indexed by: every extent is an
/// `i32` and so is every index. An axis may be empty; the grid is then
/// empty.
pub open spec fn valid_size(size: BlockPos) -> bool {
    &&& size.x != i32::MIN && size.y != i32::MIN && size.z != i32::MIN
    &&& volume_of(size) <= i32::MAX
}

/// Index of a local position in the block grid: x fastest, then z, then y.
pub open spec fn index_of(size: BlockPos, x: int, y: int, z: int) -> int {
    x + dim(size.x) * (z + dim(size.z) * y)
}

/// The local position of a grid index, as `(x, y, z)`.
pub open spec fn pos_of(size: BlockPos, i: int) -> (int, int, int) {
    (i % dim(size.x), (i / dim(size.x)) / dim(size.z), (i / dim(size.x)) % dim(size.z))
}

/// A local position inside a region of this size.
pub open spec fn in_bounds(size: BlockPos, p: BlockPos) -> bool {
    0 <= p.x < dim(size.x) && 0 <= p.y < dim(size.y) && 0 <= p.z < dim(size.z)
}

/// A volume is never negative, and it is positive exactly when no axis is
/// empty.
pub proof fn lemma_volume_nonneg(size: BlockPos)
    ensures
        volume_of(size) >= 0,
        (volume_of(size) > 0) == (dim(size.x) > 0 && dim(size.y) > 0 && dim(size.z) > 0),
{
    let (a, b, c) = (dim(size.x), dim(size.y), dim(size.z));
    assert(a * b * c >= 0) by (nonlinear_arith)
        requires
            a >= 0,
            b >= 0,
            c >= 0,
    ;
    assert((a * b * c > 0) == (a > 0 && b > 0 && c > 0)) by (nonlinear_arith)
        requires
            a >= 0,
            b >= 0,
            c >= 0,
    ;
}

pub proof fn lemma_volume_pos(size: BlockPos)
    requires
        valid_size(size),
        volume_of(size) > 0,
    ensures
        volume_of(size) > 0,
        dim(size.x) * dim(size.z) > 0,
        dim(size.x) * dim(size.y) > 0,
        dim(size.x) * dim(size.y) <= volume_of(size),
        dim(size.y) * dim(size.z) <= volume_of(size),
{
    lemma_volume_nonneg(size);
    let (a, b, c) = (dim(size.x), dim(size.y), dim(size.z));
    assert(a * b > 0) by (nonlinear_arith)
        requires
            a > 0,
            b > 0,
    ;
    assert(a * b * c > 0) by (nonlinear_arith)
        requires
            a * b > 0,
            c > 0,
    ;
    assert(a * c > 0) by (nonlinear_arith)
        requires
            a > 0,
            c > 0,
    ;
    assert(a * b <= a * b * c) by (nonlinear_arith)
        requires
            a * b > 0,
            c >= 1,
    ;
    assert(b * c <= a * b * c) by (nonlinear_arith)
        requires
            b > 0,
            c > 0,
            a >= 1,
    ;
}

/// Grid indices and in-bounds positions correspond one to one.
pub proof fn lemma_pos_of_index(size: BlockPos, i: int)
    requires
        valid_size(size),
        0 <= i < volume_of(size),
    ensures
        0 <= pos_of(size, i).0 < dim(size.x),
        0 <= pos_of(size, i).1 < dim(size.y),
        0 <= pos_of(size, i).2 < dim(size.z),
        index_of(size, pos_of(size, i).0, pos_of(size, i).1, pos_of(size, i).2) == i,
{
    let (a, b, c) = (dim(size.x), dim(size.y), dim(size.z));
    lemma_volume_pos(size);
    let q = i / a;
    let x = i % a;
    let z = q % c;
    let y = q / c;
    lemma_fundamental_div_mod(i, a);
    lemma_fundamental_div_mod(q, c);
    lemma_mod_bound(i, a);
    lemma_mod_bound(q, c);
    assert(q >= 0) by (nonlinear_arith)
        requires
            i == a * q + x,
            0 <= x < a,
            i >= 0,
    ;
    assert(q < b * c) by (nonlinear_arith)
        requires
            i == a * q + x,
            0 <= x,
            i < a * b * c,
            a > 0,
    ;
    assert(y >= 0 && y < b) by (nonlinear_arith)
        requires
            q == c * y + z,
            0 <= z < c,
            0 <= q < b * c,
    ;
    assert(x + a * (z + c * y) == i);
}

pub proof fn lemma_index_of_pos(size: BlockPos, x: int, y: int, z: int)
    requires
        valid_size(size),
        0 <= x < dim(size.x),
        0 <= y < dim(size.y),
        0 <= z < dim(size.z),
    ensures
        0 <= index_of(size, x, y, z) < volume_of(size),
        pos_of(size, index_of(size, x, y, z)) == (x, y, z),
        0 <= dim(size.z) * y <= z + dim(size.z) * y,
        z + dim(size.z) * y < volume_of(size),
        z + dim(size.z) * y <= dim(size.x) * (z + dim(size.z) * y),
{
    lemma_volume_nonneg(size);
    lemma_volume_pos(size);
    let (a, b, c) = (dim(size.x), dim(size.y), dim(size.z));
    let w = z + c * y;
    let i = x + a * w;
    assert(0 <= w < b * c) by (nonlinear_arith)
        requires
            0 <= z < c,
            0 <= y < b,
            w == z + c * y,
    ;
    assert(0 <= i < a * b * c) by (nonlinear_arith)
        requires
            0 <= x < a,
            0 <= w < b * c,
            i == x + a * w,
    ;
    assert(i == w * a + x) by (nonlinear_arith)
        requires
            i == x + a * w,
    ;
    assert(w == y * c + z) by (nonlinear_arith)
        requires
            w == z + c * y,
    ;
    assert(0 <= c * y) by (nonlinear_arith)
        requires
            c > 0,
            y >= 0,
    ;
    assert(w <= a * w) by (nonlinear_arith)
        requires
            a >= 1,
            w >= 0,
    ;
    lemma_fundamental_div_mod_converse(i, a, w, x);
    lemma_fundamental_div_mod_converse(w, c, y, z);
}

/// One region of a schematic: its name, placement, block entity positions,
/// and a grid of block states held as a palette plus one palette index per
/// position.
#[derive(Debug, Clone)]
pub struct SchematicRegion {
    name: String,
    position: BlockPos,
    size: BlockPos,
    /// Local positions of the region's block entities.
    block_entities: Vec<BlockPos>,
    palette: Vec<BlockState>,
    blocks: Vec<usize>,
}

/// The air block state.
pub fn air() -> (r: BlockState)
    ensures
        r.name@ == "minecraft:air"@,
        r.properties@.len() == 0,
{
    BlockState { name: crate::text::string_from(&crate::text::chars_of("minecraft:air")), properties: Vec::new() }
}

impl SchematicRegion {
    /// The palette index of every grid position.
    pub closed spec fn palette_indices(&self) -> Seq<usize> {
        self.blocks@
    }

    pub closed spec fn name_view(&self) -> Seq<char> {
        self.name@
    }

    pub closed spec fn entities_view(&self) -> Seq<BlockPos> {
        self.block_entities@
    }

    pub closed spec fn size_view(&self) -> BlockPos {
        self.size
    }

    pub closed spec fn position_view(&self) -> BlockPos {
        self.position
    }

    pub closed spec fn palette_view(&self) -> Seq<BlockState> {
        self.palette@
    }

    /// The block state at every grid index.
    pub closed spec fn grid(&self) -> Seq<BlockState> {
        self.blocks@.map_values(|i: usize| self.palette@[i as int])
    }

    pub closed spec fn wf(&self) -> bool {
        &&& valid_size(self.size)
        &&& self.palette@.len() > 0
        &&& self.blocks@.len() == volume_of(self.size)
        &&& forall|i: int| 0 <= i < self.blocks@.len() ==> (#[trigger] self.blocks@[i]) < self.palette@.len()
    }

    /// A well-formed region has a valid size and one grid entry per position.
    pub proof fn lemma_wf(&self)
        requires
            self.wf(),
        ensures
            valid_size(self.size_view()),
            self.grid().len() == volume_of(self.size_view()),
    {
    }

    /// Every grid state is a palette entry.
    pub proof fn lemma_grid_in_palette(&self, i: int)
        requires
            self.wf(),
            0 <= i < self.grid().len(),
        ensures
            exists|p: int| 0 <= p < self.palette_view().len() && self.palette_view()[p] == self.grid()[i],
    {
        let p = self.blocks@[i] as int;
        assert(0 <= p < self.palette@.len());
        assert(self.palette@[p] == self.grid()[i]);
        assert(self.palette_view()[p] == self.grid()[i]);
    }

    /// Create a region of air with the given name, position and size.
    pub fn new(name: String, position: BlockPos, size: BlockPos) -> (r: SchematicRegion)
        requires
            valid_size(size),
        ensures
            r.wf(),
            r.name_view() == name@,
            r.position_view() == position,
            r.size_view() == size,
            r.entities_view().len() == 0,
            r.grid().len() == volume_of(size),
            forall|i: int| 0 <= i < r.grid().len() ==> (#[trigger] r.grid()[i]).name@ == "minecraft:air"@
                && r.grid()[i].properties@.len() == 0,
    {
        let volume = match SchematicRegion::size_volume(size) {
            Some(v) => v,
            None => {
                proof {
                    assert(false);
                }
                0
            },
        };
        let mut blocks: Vec<usize> = Vec::new();
        let mut i: usize = 0;
        while i < volume
            invariant
                i <= volume,
                blocks@.len() == i,
                forall|j: int| 0 <= j < i ==> blocks@[j] == 0,
            decreases volume - i,
        {
            blocks.push(0);
            i += 1;
        }
        let palette = vec![air()];
        SchematicRegion { name, position, size, block_entities: Vec::new(), palette, blocks }
    }

    /// The volume of a region of this size, where its grid can be indexed.
    fn size_volume(size: BlockPos) -> (r: Option<usize>)
        ensures
            match r {
                Some(v) => valid_size(size) && v == volume_of(size),
                None => !valid_size(size),
            },
    {
        if size.x == i32::MIN || size.y == i32::MIN || size.z == i32::MIN {
            return None;
        }
        let a: u64 = if size.x < 0 { (-size.x) as u64 } else { size.x as u64 };
        let b: u64 = if size.y < 0 { (-size.y) as u64 } else { size.y as u64 };
        let c: u64 = if size.z < 0 { (-size.z) as u64 } else { size.z as u64 };
        assert(volume_of(size) == a * b * c);
        assert(a * b < 0x4000_0000_0000_0000) by (nonlinear_arith)
            requires
                a < 0x8000_0000,
                b < 0x8000_0000,
        ;
        let ab = a * b;
        if c == 0 {
            assert(a * b * c == 0) by (nonlinear_arith)
                requires
                    c == 0,
            ;
            return Some(0);
        }
        if ab > 0x7fff_ffff {
            assert(ab * c >= ab) by (nonlinear_arith)
                requires
                    c >= 1,
                    ab >= 0,
            ;
            return None;
        }
        assert(ab * c <= 0x7fff_ffff * 0x7fff_ffff) by (nonlinear_arith)
            requires
                ab <= 0x7fff_ffff,
                c <= 0x7fff_ffff,
        ;
        let volume = ab * c;
        if volume <= 0x7fff_ffff {
            Some(volume as usize)
        } else {
            None
        }
    }

    /// Whether a region of this size can be indexed: extents and volume fit
    /// an `i32`; an empty axis is allowed.
    pub fn is_valid_size(size: BlockPos) -> (r: bool)
        ensures
            r == valid_size(size),
    {
        SchematicRegion::size_volume(size).is_some()
    }

    /// A region from its parts as a file holds them: the palette, the
    /// palette index of every grid position (x fastest, then z, then y) and
    /// the local positions of its block entities. None where the parts do not
    /// fit together: an unindexable size, an empty palette, a grid of another
    /// length than the volume, or an index outside the palette.
    pub fn from_parts(
        name: String,
        position: BlockPos,
        size: BlockPos,
        palette: Vec<BlockState>,
        blocks: Vec<usize>,
        block_entities: Vec<BlockPos>,
    ) -> (r: Option<SchematicRegion>)
        ensures
            match r {
                Some(g) => {
                    &&& g.wf()
                    &&& g.name_view() == name@
                    &&& g.position_view() == position
                    &&& g.size_view() == size
                    &&& g.palette_view() == palette@
                    &&& g.palette_indices() == blocks@
                    &&& g.entities_view() == block_entities@
                },
                None => !(valid_size(size) && palette@.len() > 0 && blocks@.len() == volume_of(size) && forall|i: int|
                    0 <= i < blocks@.len() ==> #[trigger] blocks@[i] < palette@.len()),
            },
    {
        let volume = match SchematicRegion::size_volume(size) {
            Some(v) => v,
            None => return None,
        };
        if palette.len() == 0 || blocks.len() != volume {
            return None;
        }
        let mut i: usize = 0;
        while i < blocks.len()
            invariant
                i <= blocks@.len(),
                forall|j: int| 0 <= j < i ==> #[trigger] blocks@[j] < palette@.len(),
            decreases blocks@.len() - i,
        {
            if blocks[i] >= palette.len() {
                return None;
            }
            i += 1;
        }
        Some(SchematicRegion { name, position, size, block_entities, palette, blocks })
    }

    pub fn name(&self) -> (r: &str)
        ensures
            r@ == self.name_view(),
    {
        self.name.as_str()
    }

    pub fn set_name(&mut self, name: String)
        requires
            old(self).wf(),
        ensures
            final(self).wf(),
            final(self).name_view() == name@,
            final(self).size_view() == old(self).size_view(),
            final(self).position_view() == old(self).position_view(),
            final(self).entities_view() == old(self).entities_view(),
            final(self).grid() == old(self).grid(),
            final(self).palette_view() == old(self).palette_view(),
    {
        self.name = name;
    }

    /// Local positions of the region's block entities.
    pub fn block_entities(&self) -> (r: &[BlockPos])
        ensures
            r@ == self.entities_view(),
    {
        self.block_entities.as_slice()
    }

    /// Record a block entity at `pos`.
    pub fn add_block_entity(&mut self, pos: BlockPos)
        requires
            old(self).wf(),
        ensures
            final(self).wf(),
            final(self).name_view() == old(self).name_view(),
            final(self).size_view() == old(self).size_view(),
            final(self).position_view() == old(self).position_view(),
            final(self).entities_view() == old(self).entities_view().push(pos),
            final(self).grid() == old(self).grid(),
            final(self).palette_view() == old(self).palette_view(),
    {
        self.block_entities.push(pos);
    }

    pub fn position(&self) -> (r: BlockPos)
        ensures
            r == self.position_view(),
    {
        self.position
    }

    pub fn size(&self) -> (r: BlockPos)
        ensures
            r == self.size_view(),
    {
        self.size
    }

    /// `size` with each component made non-negative.
    pub fn abs_size(&self) -> (r: (i32, i32, i32))
        requires
            self.wf(),
        ensures
            r.0 == dim(self.size_view().x),
            r.1 == dim(self.size_view().y),
            r.2 == dim(self.size_view().z),
    {
        let s = self.size;
        (
            if s.x < 0 { -s.x } else { s.x },
            if s.y < 0 { -s.y } else { s.y },
            if s.z < 0 { -s.z } else { s.z },
        )
    }

    /// Number of grid positions.
    pub fn volume(&self) -> (r: usize)
        requires
            self.wf(),
        ensures
            r == volume_of(self.size_view()),
            r == self.grid().len(),
    {
        self.blocks.len()
    }

    /// The distinct block states the grid refers to, and possibly more.
    pub fn block_palette(&self) -> (r: &[BlockState])
        ensures
            r@ == self.palette_view(),
    {
        self.palette.as_slice()
    }

    /// The block state at grid index `i`.
    pub fn block_at_index(&self, i: usize) -> (r: &BlockState)
        requires
            self.wf(),
            i < self.grid().len(),
        ensures
            *r == self.grid()[i as int],
            self.palette_view().contains(*r),
    {
        let j = self.blocks[i];
        assert(self.palette@[j as int] == self.grid()[i as int]);
        &self.palette[j]
    }

    /// Grid index of an in-bounds local position.
    pub fn index(&self, pos: BlockPos) -> (r: usize)
        requires
            self.wf(),
            in_bounds(self.size_view(), pos),
        ensures
            r == index_of(self.size_view(), pos.x as int, pos.y as int, pos.z as int),
            r < self.grid().len(),
    {
        proof {
            lemma_index_of_pos(self.size, pos.x as int, pos.y as int, pos.z as int);
        }
        let (sx, _sy, sz) = self.abs_size();
        let w = (pos.z as usize) + (sz as usize) * (pos.y as usize);
        (pos.x as usize) + (sx as usize) * w
    }

    /// The local position of grid index `i`.
    pub fn position_of_index(&self, i: usize) -> (r: BlockPos)
        requires
            self.wf(),
            i < self.grid().len(),
        ensures
            in_bounds(self.size_view(), r),
            (r.x as int, r.y as int, r.z as int) == pos_of(self.size_view(), i as int),
            index_of(self.size_view(), r.x as int, r.y as int, r.z as int) == i,
    {
        proof {
            lemma_pos_of_index(self.size, i as int);
        }
        let (sx, _sy, sz) = self.abs_size();
        let q = i / (sx as usize);
        BlockPos { x: (i % (sx as usize)) as i32, y: (q / (sz as usize)) as i32, z: (q % (sz as usize)) as i32 }
    }

    /// Whether a local position is inside this region.
    pub fn is_in_bounds(&self, pos: BlockPos) -> (r: bool)
        requires
            self.wf(),
        ensures
            r == in_bounds(self.size_view(), pos),
    {
        let (sx, sy, sz) = self.abs_size();
        0 <= pos.x && pos.x < sx && 0 <= pos.y && pos.y < sy && 0 <= pos.z && pos.z < sz
    }

    /// The block state at a local position.
    pub fn get_block(&self, pos: BlockPos) -> (r: &BlockState)
        requires
            self.wf(),
            in_bounds(self.size_view(), pos),
        ensures
            *r == self.grid()[index_of(self.size_view(), pos.x as int, pos.y as int, pos.z as int)],
    {
        let i = self.index(pos);
        self.block_at_index(i)
    }

    /// The block state at a local position, if inside this region.
    pub fn get_block_opt(&self, pos: BlockPos) -> (r: Option<&BlockState>)
        requires
            self.wf(),
        ensures
            match r {
                Some(s) => in_bounds(self.size_view(), pos) && *s == self.grid()[index_of(
                    self.size_view(),
                    pos.x as int,
                    pos.y as int,
                    pos.z as int,
                )],
                None => !in_bounds(self.size_view(), pos),
            },
    {
        if self.is_in_bounds(pos) {
            Some(self.get_block(pos))
        } else {
            None
        }
    }

    /// Set the block state at grid index `i`, reusing an equal palette entry.
    pub fn set_block_at_index(&mut self, i: usize, block: BlockState)
        requires
            old(self).wf(),
            i < old(self).grid().len(),
        ensures
            final(self).wf(),
            final(self).name_view() == old(self).name_view(),
            final(self).size_view() == old(self).size_view(),
            final(self).position_view() == old(self).position_view(),
            final(self).entities_view() == old(self).entities_view(),
            final(self).grid().len() == old(self).grid().len(),
            state_view(final(self).grid()[i as int]) == state_view(block),
            forall|j: int| 0 <= j < final(self).grid().len() && j != i ==> #[trigger] final(self).grid()[j]
                == old(self).grid()[j],
            forall|s: BlockState| #[trigger] old(self).palette_view().contains(s) ==> final(self).palette_view().contains(s),
            final(self).palette_view().contains(final(self).grid()[i as int]),
    {
        let found = find_state(&self.palette, &block);
        let id = match found {
            Some(j) => j,
            None => {
                self.palette.push(block);
                self.palette.len() - 1
            },
        };
        let ghost old_blocks = self.blocks@;
        let ghost old_palette = old(self).palette@;
        self.blocks.set(i, id);
        proof {
            assert forall|k: int| 0 <= k < self.grid().len() && k != i implies #[trigger] self.grid()[k]
                == old(self).grid()[k] by {
                assert(self.blocks@[k] == old_blocks[k]);
                assert(old_blocks[k] < old_palette.len());
                assert(self.palette@[old_blocks[k] as int] == old_palette[old_blocks[k] as int]);
            }
            assert forall|s: BlockState| #[trigger] old_palette.contains(s) implies self.palette@.contains(s) by {
                let k = choose|k: int| 0 <= k < old_palette.len() && old_palette[k] == s;
                assert(self.palette@[k] == s);
            }
            assert(self.grid()[i as int] == self.palette@[id as int]);
        }
    }

    /// Set the block state at a local position.
    pub fn set_block(&mut self, pos: BlockPos, block: BlockState)
        requires
            old(self).wf(),
            in_bounds(old(self).size_view(), pos),
        ensures
            final(self).wf(),
            final(self).name_view() == old(self).name_view(),
            final(self).size_view() == old(self).size_view(),
            final(self).position_view() == old(self).position_view(),
            final(self).entities_view() == old(self).entities_view(),
            final(self).grid().len() == old(self).grid().len(),
            state_view(
                final(self).grid()[index_of(old(self).size_view(), pos.x as int, pos.y as int, pos.z as int)],
            ) == state_view(block),
            forall|j: int|
                0 <= j < final(self).grid().len() && j != index_of(
                    old(self).size_view(),
                    pos.x as int,
                    pos.y as int,
                    pos.z as int,
                ) ==> #[trigger] final(self).grid()[j] == old(self).grid()[j],
    {
        let i = self.index(pos);
        self.set_block_at_index(i, block);
    }

    /// Remove the first block entity at `pos`, if any.
    pub fn remove_block_entity(&mut self, pos: BlockPos) -> (r: Option<BlockPos>)
        requires
            old(self).wf(),
        ensures
            final(self).wf(),
            final(self).name_view() == old(self).name_view(),
            final(self).size_view() == old(self).size_view(),
            final(self).position_view() == old(self).position_view(),
            final(self).grid() == old(self).grid(),
            final(self).palette_view() == old(self).palette_view(),
            match r {
                Some(p) => p == pos && old(self).entities_view().contains(pos)
                    && final(self).entities_view().to_multiset() == old(self).entities_view().to_multiset().remove(pos),
                None => !old(self).entities_view().contains(pos) && final(self).entities_view()
                    == old(self).entities_view(),
            },
    {
        let mut k: usize = 0;
        while k < self.block_entities.len()
            invariant
                *self == *old(self),
                old(self).wf(),
                k <= self.block_entities.len(),
                forall|j: int| 0 <= j < k ==> self.block_entities@[j] != pos,
            decreases self.block_entities.len() - k,
        {
            if self.block_entities[k] == pos {
                let ghost old_be = self.block_entities@;
                let removed = self.block_entities.swap_remove(k);
                assert(self.palette == old(self).palette && self.blocks == old(self).blocks && self.size
                    == old(self).size);
                assert(self.wf());
                proof {
                    broadcast use vstd::seq_lib::group_to_multiset_ensures;
                    let last = old_be.len() - 1;
                    if k as int == last {
                        assert(self.block_entities@ =~= old_be.remove(k as int));
                    } else {
                        let moved = old_be.update(k as int, old_be[last]).drop_last();
                        assert(self.block_entities@ =~= moved);
                        assert(old_be.remove(k as int).to_multiset() == old_be.to_multiset().remove(pos));
                        // swapping the last element into place keeps the multiset
                        lemma_swap_remove_multiset(old_be, k as int);
                    }
                    assert(old_be.contains(pos));
                }
                return Some(removed);
            }
            k += 1;
        }
        None
    }

    /// Number of positions whose palette index is not the first entry.
    pub fn total_blocks(&self) -> (r: usize)
        requires
            self.wf(),
        ensures
            r == region_blocks(*self),
    {
        let ghost pred = |i: int| self.palette_indices()[i] != 0;
        let mut n: usize = 0;
        let mut i: usize = 0;
        while i < self.blocks.len()
            invariant
                i <= self.blocks.len(),
                pred == (|i: int| self.palette_indices()[i] != 0),
                n == crate::report::count_up_to(i as int, pred),
                n <= i,
            decreases self.blocks.len() - i,
        {
            if self.blocks[i] != 0 {
                n += 1;
            }
            i += 1;
        }
        n
    }
}

/// Position of the first palette entry equal to `block`: same name and same
/// properties; none when no entry is.
fn find_state(palette: &Vec<BlockState>, block: &BlockState) -> (r: Option<usize>)
    ensures
        match r {
            Some(j) => j < palette.len() && state_view(palette@[j as int]) == state_view(*block) && forall|k: int|
                0 <= k < j ==> state_view(#[trigger] palette@[k]) != state_view(*block),
            None => forall|k: int| 0 <= k < palette@.len() ==> state_view(#[trigger] palette@[k]) != state_view(*block),
        },
{
    let key = state_key(block);
    let mut j: usize = 0;
    while j < palette.len()
        invariant
            j <= palette.len(),
            crate::block::is_key_of(key@, state_view(*block).0, state_view(*block).1),
            forall|k: int| 0 <= k < j ==> state_view(#[trigger] palette@[k]) != state_view(*block),
        decreases palette.len() - j,
    {
        let other = state_key(&palette[j]);
        proof {
            lemma_key_identifies_state(
                other@,
                state_view(palette@[j as int]).0,
                state_view(palette@[j as int]).1,
                key@,
                state_view(*block).0,
                state_view(*block).1,
            );
        }
        if other.same(&key) {
            return Some(j);
        }
        j += 1;
    }
    None
}

pub proof fn lemma_swap_remove_multiset(s: Seq<BlockPos>, k: int)
    requires
        0 <= k < s.len() - 1,
    ensures
        s.update(k, s[s.len() - 1]).drop_last().to_multiset() == s.to_multiset().remove(s[k]),
{
    broadcast use vstd::seq_lib::group_to_multiset_ensures;
    let last = s.len() - 1;
    let t = s.update(k, s[last]);
    // t is s with positions k and last swapped, then truncated
    let u = s.remove(k);
    assert(u.to_multiset() == s.to_multiset().remove(s[k]));
    let v = u.remove(last - 1).insert(k, s[last]);
    assert(t.drop_last() =~= s.remove(last).update(k, s[last]));
    lemma_update_multiset(s.remove(last), k, s[last]);
    assert(s.remove(last).to_multiset() == s.to_multiset().remove(s[last]));
    assert(s.remove(last)[k] == s[k]);
    assert(s.to_multiset().count(s[last]) > 0) by {
        assert(s.contains(s[last]));
    }
    assert(s.to_multiset().remove(s[last]).insert(s[last]) =~= s.to_multiset());
    assert(s.to_multiset().remove(s[last]).remove(s[k]).insert(s[last]) =~= s.to_multiset().remove(s[k])) by {
        assert(s.to_multiset().count(s[k]) > 0) by {
            assert(s.contains(s[k]));
        }
    }
}

pub proof fn lemma_update_multiset(s: Seq<BlockPos>, k: int, x: BlockPos)
    requires
        0 <= k < s.len(),
    ensures
        s.update(k, x).to_multiset() == s.to_multiset().remove(s[k]).insert(x),
{
    broadcast use vstd::seq_lib::group_to_multiset_ensures;
    let t = s.update(k, x);
    assert(t.remove(k) =~= s.remove(k));
    assert(t.remove(k).to_multiset() == t.to_multiset().remove(x));
    assert(s.remove(k).to_multiset() == s.to_multiset().remove(s[k]));
    assert(t.to_multiset().count(x) > 0) by {
        assert(t.contains(x)) by {
            assert(t[k] == x);
        }
    }
    assert(t.to_multiset().remove(x).insert(x) =~= t.to_multiset());
}


/// What a schematic says of itself.
#[derive(Debug, Clone)]
pub struct SchematicMetadata {
    pub name: String,
    pub description: String,
    pub author: String,
    /// The litematica format version the schematic was created with.
    pub version: i32,
    /// An optional litematica format subversion.
    pub sub_version: Option<i32>,
    /// The Minecraft data version of its blocks.
    pub minecraft_data_version: i32,
}

/// A schematic: its metadata and its regions.
#[derive(Debug)]
pub struct Schematic {
    pub metadata: SchematicMetadata,
    pub regions: Vec<SchematicRegion>,
}

/// The names of the regions, in order.
pub open spec fn names_of(regions: Seq<SchematicRegion>) -> Seq<Seq<char>> {
    regions.map_values(|r: SchematicRegion| r.name_view())
}

/// Number of non-air blocks of a region: grid positions off the first
/// palette entry.
pub open spec fn region_blocks(r: SchematicRegion) -> nat {
    count_up_to(r.palette_indices().len() as int, |i: int| r.palette_indices()[i] != 0)
}

pub open spec fn blocks_total_of(regions: Seq<SchematicRegion>) -> int
    decreases regions.len(),
{
    if regions.len() == 0 {
        0
    } else {
        blocks_total_of(regions.drop_last()) + region_blocks(regions.last())
    }
}

pub open spec fn volume_total_of(regions: Seq<SchematicRegion>) -> int
    decreases regions.len(),
{
    if regions.len() == 0 {
        0
    } else {
        volume_total_of(regions.drop_last()) + volume_of(regions.last().size_view())
    }
}

/// The lowest and highest schematic coordinate a region covers along one
/// axis.
pub open spec fn axis_min(position: i32, size: i32) -> int {
    if position <= position + size + 1 {
        position as int
    } else {
        position + size + 1
    }
}

pub open spec fn axis_max(position: i32, size: i32) -> int {
    if position >= position + size - 1 {
        position as int
    } else {
        position + size - 1
    }
}

/// The box enclosing all regions and the origin, as
/// `(min x, max x, min y, max y, min z, max z)`.
pub open spec fn bounds_of(regions: Seq<SchematicRegion>) -> (int, int, int, int, int, int)
    decreases regions.len(),
{
    if regions.len() == 0 {
        (0, 0, 0, 0, 0, 0)
    } else {
        let b = bounds_of(regions.drop_last());
        let r = regions.last();
        let (p, s) = (r.position_view(), r.size_view());
        (
            min_int(b.0, axis_min(p.x, s.x)),
            max_int(b.1, axis_max(p.x, s.x)),
            min_int(b.2, axis_min(p.y, s.y)),
            max_int(b.3, axis_max(p.y, s.y)),
            min_int(b.4, axis_min(p.z, s.z)),
            max_int(b.5, axis_max(p.z, s.z)),
        )
    }
}

pub open spec fn min_int(a: int, b: int) -> int {
    if a <= b {
        a
    } else {
        b
    }
}

pub open spec fn max_int(a: int, b: int) -> int {
    if a >= b {
        a
    } else {
        b
    }
}

/// Global coordinates of every region stay in `i32` range.
pub open spec fn placements_fit(regions: Seq<SchematicRegion>) -> bool {
    forall|i: int|
        0 <= i < regions.len() ==> {
            let p = (#[trigger] regions[i]).position_view();
            let s = regions[i].size_view();
            &&& i32::MIN <= p.x + s.x - 1 && p.x + s.x + 1 <= i32::MAX
            &&& i32::MIN <= p.y + s.y - 1 && p.y + s.y + 1 <= i32::MAX
            &&& i32::MIN <= p.z + s.z - 1 && p.z + s.z + 1 <= i32::MAX
        }
}

proof fn lemma_bounds_range(regions: Seq<SchematicRegion>)
    requires
        placements_fit(regions),
    ensures
        i32::MIN <= bounds_of(regions).0 <= 0 <= bounds_of(regions).1 <= i32::MAX,
        i32::MIN <= bounds_of(regions).2 <= 0 <= bounds_of(regions).3 <= i32::MAX,
        i32::MIN <= bounds_of(regions).4 <= 0 <= bounds_of(regions).5 <= i32::MAX,
    decreases regions.len(),
{
    if regions.len() > 0 {
        assert(placements_fit(regions.drop_last())) by {
            assert forall|i: int| 0 <= i < regions.drop_last().len() implies #[trigger] regions.drop_last()[i]
                == regions[i] by {}
        }
        lemma_bounds_range(regions.drop_last());
        let last = regions.len() - 1;
        assert(regions.last() == regions[last]);
    }
}

fn axis_min_exec(position: i32, size: i32) -> (r: i32)
    requires
        i32::MIN <= position + size - 1,
        position + size + 1 <= i32::MAX,
    ensures
        r == axis_min(position, size),
{
    let other = position + size + 1;
    if position <= other {
        position
    } else {
        other
    }
}

fn axis_max_exec(position: i32, size: i32) -> (r: i32)
    requires
        i32::MIN <= position + size - 1,
        position + size + 1 <= i32::MAX,
    ensures
        r == axis_max(position, size),
{
    let other = position + size - 1;
    if position >= other {
        position
    } else {
        other
    }
}

impl Schematic {
    /// An empty schematic with the given name, description and author.
    pub fn new(name: String, description: String, author: String) -> (r: Schematic)
        ensures
            r.metadata.name == name,
            r.metadata.description == description,
            r.metadata.author == author,
            r.metadata.version == 6,
            r.metadata.sub_version == Some(1i32),
            r.metadata.minecraft_data_version == 2975,
            r.regions@.len() == 0,
    {
        Schematic {
            metadata: SchematicMetadata {
                name,
                description,
                author,
                version: 6,
                sub_version: Some(1),
                minecraft_data_version: 2975,
            },
            regions: Vec::new(),
        }
    }

    /// Number of non-air blocks across regions.
    pub fn total_blocks(&self) -> (r: i64)
        requires
            forall|i: int| 0 <= i < self.regions@.len() ==> (#[trigger] self.regions@[i]).wf(),
            volume_total_of(self.regions@) <= i64::MAX,
        ensures
            r == blocks_total_of(self.regions@),
    {
        let mut sum: i64 = 0;
        let mut i: usize = 0;
        while i < self.regions.len()
            invariant
                i <= self.regions@.len(),
                forall|j: int| 0 <= j < self.regions@.len() ==> (#[trigger] self.regions@[j]).wf(),
                volume_total_of(self.regions@) <= i64::MAX,
                sum == blocks_total_of(self.regions@.take(i as int)),
                sum <= volume_total_of(self.regions@.take(i as int)),
            decreases self.regions@.len() - i,
        {
            let region = &self.regions[i];
            proof {
                region.lemma_wf();
                lemma_volume_nonneg(region.size_view());
                assert(self.regions@.take(i + 1).drop_last() == self.regions@.take(i as int));
                assert(self.regions@.take(i + 1).last() == self.regions@[i as int]);
                lemma_volume_total_prefix(self.regions@, i + 1);
                crate::report::lemma_count_bound(region.palette_indices().len() as int, |k: int| region.palette_indices()[k] != 0);
            }
            let n = region.total_blocks();
            sum = sum + (n as i64);
            i += 1;
        }
        assert(self.regions@.take(i as int) == self.regions@);
        sum
    }

    /// Number of grid positions across regions.
    pub fn total_volume(&self) -> (r: i32)
        requires
            forall|i: int| 0 <= i < self.regions@.len() ==> (#[trigger] self.regions@[i]).wf(),
            volume_total_of(self.regions@) <= i32::MAX,
        ensures
            r == volume_total_of(self.regions@),
    {
        let mut sum: i32 = 0;
        let mut i: usize = 0;
        while i < self.regions.len()
            invariant
                i <= self.regions@.len(),
                forall|j: int| 0 <= j < self.regions@.len() ==> (#[trigger] self.regions@[j]).wf(),
                volume_total_of(self.regions@) <= i32::MAX,
                sum == volume_total_of(self.regions@.take(i as int)),
            decreases self.regions@.len() - i,
        {
            let region = &self.regions[i];
            proof {
                region.lemma_wf();
                lemma_volume_nonneg(region.size_view());
                assert(self.regions@.take(i + 1).drop_last() == self.regions@.take(i as int));
                assert(self.regions@.take(i + 1).last() == self.regions@[i as int]);
                lemma_volume_total_prefix(self.regions@, i + 1);
            }
            let v = region.volume();
            sum = sum + (v as i32);
            i += 1;
        }
        assert(self.regions@.take(i as int) == self.regions@);
        sum
    }

    /// Size of the box enclosing all regions and the origin.
    pub fn enclosing_size(&self) -> (r: BlockPos)
        requires
            placements_fit(self.regions@),
            bounds_of(self.regions@).1 - bounds_of(self.regions@).0 + 1 <= i32::MAX,
            bounds_of(self.regions@).3 - bounds_of(self.regions@).2 + 1 <= i32::MAX,
            bounds_of(self.regions@).5 - bounds_of(self.regions@).4 + 1 <= i32::MAX,
        ensures
            r.x == bounds_of(self.regions@).1 - bounds_of(self.regions@).0 + 1,
            r.y == bounds_of(self.regions@).3 - bounds_of(self.regions@).2 + 1,
            r.z == bounds_of(self.regions@).5 - bounds_of(self.regions@).4 + 1,
    {
        let mut b: (i32, i32, i32, i32, i32, i32) = (0, 0, 0, 0, 0, 0);
        let mut i: usize = 0;
        while i < self.regions.len()
            invariant
                i <= self.regions@.len(),
                placements_fit(self.regions@),
                (b.0 as int, b.1 as int, b.2 as int, b.3 as int, b.4 as int, b.5 as int) == bounds_of(
                    self.regions@.take(i as int),
                ),
            decreases self.regions@.len() - i,
        {
            let p = self.regions[i].position();
            let s = self.regions[i].size();
            proof {
                assert(self.regions@.take(i + 1).drop_last() == self.regions@.take(i as int));
                assert(self.regions@.take(i + 1).last() == self.regions@[i as int]);
                assert(self.regions@[i as int].position_view() == p);
            }
            let (x0, x1) = (axis_min_exec(p.x, s.x), axis_max_exec(p.x, s.x));
            let (y0, y1) = (axis_min_exec(p.y, s.y), axis_max_exec(p.y, s.y));
            let (z0, z1) = (axis_min_exec(p.z, s.z), axis_max_exec(p.z, s.z));
            b = (
                if b.0 <= x0 { b.0 } else { x0 },
                if b.1 >= x1 { b.1 } else { x1 },
                if b.2 <= y0 { b.2 } else { y0 },
                if b.3 >= y1 { b.3 } else { y1 },
                if b.4 <= z0 { b.4 } else { z0 },
                if b.5 >= z1 { b.5 } else { z1 },
            );
            i += 1;
        }
        assert(self.regions@.take(i as int) == self.regions@);
        proof {
            lemma_bounds_range(self.regions@);
        }
        BlockPos { x: b.1 - b.0 + 1, y: b.3 - b.2 + 1, z: b.5 - b.4 + 1 }
    }
}

proof fn lemma_volume_total_prefix(regions: Seq<SchematicRegion>, n: int)
    requires
        0 <= n <= regions.len(),
        forall|i: int| 0 <= i < regions.len() ==> (#[trigger] regions[i]).wf(),
    ensures
        0 <= volume_total_of(regions.take(n)) <= volume_total_of(regions),
    decreases regions.len() - n,
{
    if n < regions.len() {
        lemma_volume_total_prefix(regions, n + 1);
        assert(regions.take(n + 1).drop_last() == regions.take(n));
        assert(regions.take(n + 1).last() == regions[n]);
        regions[n].lemma_wf();
        lemma_volume_nonneg(regions[n].size_view());
        assert forall|i: int| 0 <= i < regions.take(n).len() implies (#[trigger] regions.take(n)[i]).wf() by {
            assert(regions.take(n)[i] == regions[i]);
        }
        lemma_volume_total_nonneg(regions.take(n));
    } else {
        assert(regions.take(n) == regions);
        lemma_volume_total_nonneg(regions);
    }
}

proof fn lemma_volume_total_nonneg(regions: Seq<SchematicRegion>)
    requires
        forall|i: int| 0 <= i < regions.len() ==> (#[trigger] regions[i]).wf(),
    ensures
        volume_total_of(regions) >= 0,
    decreases regions.len(),
{
    if regions.len() > 0 {
        assert forall|i: int| 0 <= i < regions.drop_last().len() implies (#[trigger] regions.drop_last()[i]).wf() by {
            assert(regions.drop_last()[i] == regions[i]);
        }
        lemma_volume_total_nonneg(regions.drop_last());
        regions[regions.len() - 1].lemma_wf();
        lemma_volume_nonneg(regions[regions.len() - 1].size_view());
    }
}


/// The names of the regions of a schematic, in order.
pub fn region_names(schematic: &Schematic) -> (r: Vec<String>)
    ensures
        strings_view(r@) == names_of(schematic.regions@),
{
    let mut names: Vec<String> = Vec::new();
    let mut i: usize = 0;
    while i < schematic.regions.len()
        invariant
            i <= schematic.regions@.len(),
            strings_view(names@) == names_of(schematic.regions@).take(i as int),
        decreases schematic.regions@.len() - i,
    {
        let name = string_from(&chars_of(schematic.regions[i].name()));
        names.push(name);
        proof {
            assert(names_of(schematic.regions@).take(i + 1) =~= names_of(schematic.regions@).take(i as int).push(
                schematic.regions@[i as int].name_view(),
            ));
            assert(strings_view(names@) =~= names_of(schematic.regions@).take(i + 1));
        }
        i += 1;
    }
    assert(names_of(schematic.regions@).take(i as int) =~= names_of(schematic.regions@));
    names
}

/// Why a region rename was refused.
#[derive(Debug, Clone, Copy, PartialEq, Eq, Structural)]
pub enum RenameErrorKind {
    /// The new name is the old one.
    Unchanged,
    /// A region already has the new name.
    Exists,
    /// No region has the old name.
    Missing,
}

/// A refused region rename.
#[derive(Debug, Clone)]
pub enum RenameError {
    Unchanged { old: String, new: String },
    Exists { new: String },
    /// With the names of the regions there are.
    Missing { old: String, available: Vec<String> },
}

impl RenameError {
    pub fn kind(&self) -> (r: RenameErrorKind)
        ensures
            r == rename_error_kind(*self),
    {
        match self {
            RenameError::Unchanged { .. } => RenameErrorKind::Unchanged,
            RenameError::Exists { .. } => RenameErrorKind::Exists,
            RenameError::Missing { .. } => RenameErrorKind::Missing,
        }
    }
}

pub open spec fn rename_error_kind(e: RenameError) -> RenameErrorKind {
    match e {
        RenameError::Unchanged { .. } => RenameErrorKind::Unchanged,
        RenameError::Exists { .. } => RenameErrorKind::Exists,
        RenameError::Missing { .. } => RenameErrorKind::Missing,
    }
}

/// The index of the first name equal to `n`.
pub open spec fn first_named(names: Seq<Seq<char>>, n: Seq<char>) -> int {
    choose|i: int| 0 <= i < names.len() && names[i] == n && forall|j: int| 0 <= j < i ==> names[j] != n
}

proof fn lemma_first_named(names: Seq<Seq<char>>, n: Seq<char>, k: int)
    requires
        0 <= k < names.len(),
        names[k] == n,
        forall|j: int| 0 <= j < k ==> names[j] != n,
    ensures
        first_named(names, n) == k,
{
    let f = first_named(names, n);
    assert(0 <= f < names.len() && names[f] == n && forall|j: int| 0 <= j < f ==> names[j] != n);
    if f < k {
        assert(names[f] != n);
    }
    if k < f {
        assert(names[k] != n);
    }
}

/// Region names after applying `renames` in order, stopping at the first
/// refused one, with that rename's index and why it was refused.
#[verifier::opaque]
pub open spec fn renamed(names: Seq<Seq<char>>, renames: Seq<(Seq<char>, Seq<char>)>) -> (
    Seq<Seq<char>>,
    Option<(int, RenameErrorKind)>,
)
    decreases renames.len(),
{
    if renames.len() == 0 {
        (names, None)
    } else {
        let (old, new) = renames[0];
        if old == new {
            (names, Some((0, RenameErrorKind::Unchanged)))
        } else if names.contains(new) {
            (names, Some((0, RenameErrorKind::Exists)))
        } else if !names.contains(old) {
            (names, Some((0, RenameErrorKind::Missing)))
        } else {
            let rest = renamed(names.update(first_named(names, old), new), renames.drop_first());
            (
                rest.0,
                match rest.1 {
                    Some((k, kind)) => Some((k + 1, kind)),
                    None => None,
                },
            )
        }
    }
}

/// A rename outcome of a later part of the list, with its failing index
/// moved by `by`.
pub open spec fn shifted(r: (Seq<Seq<char>>, Option<(int, RenameErrorKind)>), by: int) -> (
    Seq<Seq<char>>,
    Option<(int, RenameErrorKind)>,
) {
    (
        r.0,
        match r.1 {
            Some((k, kind)) => Some((k + by, kind)),
            None => None,
        },
    )
}

proof fn lemma_renamed_step(names: Seq<Seq<char>>, renames: Seq<(Seq<char>, Seq<char>)>, i: int)
    requires
        0 <= i,
        !(renames[0].0 == renames[0].1),
        !names.contains(renames[0].1),
        names.contains(renames[0].0),
        renames.len() > 0,
    ensures
        shifted(renamed(names, renames), i) == shifted(
            renamed(names.update(first_named(names, renames[0].0), renames[0].1), renames.drop_first()),
            i + 1,
        ),
{
    reveal(renamed);
}

/// A rename list that is refused at its first rename leaves the names as
/// they are.
proof fn lemma_renamed_refused(names: Seq<Seq<char>>, renames: Seq<(Seq<char>, Seq<char>)>, kind: RenameErrorKind)
    requires
        renames.len() > 0,
        kind == if renames[0].0 == renames[0].1 {
            RenameErrorKind::Unchanged
        } else if names.contains(renames[0].1) {
            RenameErrorKind::Exists
        } else {
            RenameErrorKind::Missing
        },
        renames[0].0 != renames[0].1 && !names.contains(renames[0].1) ==> !names.contains(renames[0].0),
    ensures
        renamed(names, renames) == (names, Some((0int, kind))),
{
    reveal(renamed);
}

proof fn lemma_renamed_done(names: Seq<Seq<char>>, renames: Seq<(Seq<char>, Seq<char>)>)
    requires
        renames.len() == 0,
    ensures
        renamed(names, renames) == (names, None::<(int, RenameErrorKind)>),
{
    reveal(renamed);
}

/// The regions differ at most in their names.
pub open spec fn same_but_names(a: Seq<SchematicRegion>, b: Seq<SchematicRegion>) -> bool {
    &&& a.len() == b.len()
    &&& forall|i: int|
        0 <= i < a.len() ==> {
            &&& (#[trigger] b[i]).wf() == a[i].wf()
            &&& b[i].size_view() == a[i].size_view()
            &&& b[i].position_view() == a[i].position_view()
            &&& b[i].entities_view() == a[i].entities_view()
            &&& b[i].grid() == a[i].grid()
            &&& b[i].palette_view() == a[i].palette_view()
        }
}

fn position_named(regions: &Vec<SchematicRegion>, name: &String) -> (r: Option<usize>)
    ensures
        match r {
            Some(i) => i < regions@.len() && names_of(regions@)[i as int] == name@ && forall|j: int|
                0 <= j < i ==> names_of(regions@)[j] != name@,
            None => !names_of(regions@).contains(name@),
        },
{
    let mut i: usize = 0;
    while i < regions.len()
        invariant
            i <= regions@.len(),
            forall|j: int| 0 <= j < i ==> names_of(regions@)[j] != name@,
        decreases regions@.len() - i,
    {
        if str_eq(regions[i].name(), name.as_str()) {
            return Some(i);
        }
        i += 1;
    }
    None
}

/// Rename the region at `index`, keeping everything else.
fn rename_at(regions: &mut Vec<SchematicRegion>, index: usize, name: String)
    requires
        index < old(regions)@.len(),
        old(regions)@[index as int].wf(),
    ensures
        final(regions)@.len() == old(regions)@.len(),
        forall|j: int| 0 <= j < old(regions)@.len() && j != index ==> #[trigger] final(regions)@[j] == old(regions)@[j],
        final(regions)@[index as int].wf(),
        final(regions)@[index as int].name_view() == name@,
        final(regions)@[index as int].size_view() == old(regions)@[index as int].size_view(),
        final(regions)@[index as int].position_view() == old(regions)@[index as int].position_view(),
        final(regions)@[index as int].entities_view() == old(regions)@[index as int].entities_view(),
        final(regions)@[index as int].grid() == old(regions)@[index as int].grid(),
        final(regions)@[index as int].palette_view() == old(regions)@[index as int].palette_view(),
{
    let mut region = regions.remove(index);
    region.set_name(name);
    regions.insert(index, region);
}

proof fn lemma_rename_at(
    start: Seq<SchematicRegion>,
    before: Seq<SchematicRegion>,
    after: Seq<SchematicRegion>,
    index: int,
    name: Seq<char>,
)
    requires
        same_but_names(start, before),
        0 <= index < before.len(),
        after.len() == before.len(),
        forall|j: int| 0 <= j < before.len() && j != index ==> #[trigger] after[j] == before[j],
        after[index].wf() == before[index].wf(),
        after[index].name_view() == name,
        after[index].size_view() == before[index].size_view(),
        after[index].position_view() == before[index].position_view(),
        after[index].entities_view() == before[index].entities_view(),
        after[index].grid() == before[index].grid(),
        after[index].palette_view() == before[index].palette_view(),
    ensures
        same_but_names(start, after),
        names_of(after) == names_of(before).update(index, name),
{
    assert(names_of(after) =~= names_of(before).update(index, name));
    assert forall|j: int| 0 <= j < start.len() implies {
        &&& (#[trigger] after[j]).wf() == start[j].wf()
        &&& after[j].size_view() == start[j].size_view()
        &&& after[j].position_view() == start[j].position_view()
        &&& after[j].entities_view() == start[j].entities_view()
        &&& after[j].grid() == start[j].grid()
        &&& after[j].palette_view() == start[j].palette_view()
    } by {
        assert(before[j].wf() == start[j].wf());
    }
}

/// One rename: refused when it keeps the name, when the new name is taken,
/// or when no region has the old name; otherwise the first region with the
/// old name takes the new one.
fn rename_one(schematic: &mut Schematic, old_name: &String, new_name: &String) -> (r: Result<(), RenameError>)
    requires
        forall|i: int| 0 <= i < old(schematic).regions@.len() ==> (#[trigger] old(schematic).regions@[i]).wf(),
    ensures
        final(schematic).metadata == old(schematic).metadata,
        same_but_names(old(schematic).regions@, final(schematic).regions@),
        ({
            let names = names_of(old(schematic).regions@);
            match r {
                Ok(()) => {
                    &&& old_name@ != new_name@
                    &&& !names.contains(new_name@)
                    &&& names.contains(old_name@)
                    &&& names_of(final(schematic).regions@) == names.update(first_named(names, old_name@), new_name@)
                },
                Err(e) => {
                    &&& names_of(final(schematic).regions@) == names
                    &&& match e {
                        RenameError::Unchanged { old, new } => old_name@ == new_name@ && old@ == old_name@ && new@
                            == new_name@,
                        RenameError::Exists { new } => old_name@ != new_name@ && names.contains(new_name@) && new@
                            == new_name@,
                        RenameError::Missing { old, available } => old_name@ != new_name@ && !names.contains(
                            new_name@,
                        ) && !names.contains(old_name@) && old@ == old_name@ && strings_view(available@) == names,
                    }
                },
            }
        }),
{
    let ghost start = schematic.regions@;
    let ghost names = names_of(schematic.regions@);
    assert(same_but_names(start, start));
    if *old_name == *new_name {
        return Err(RenameError::Unchanged { old: old_name.clone(), new: new_name.clone() });
    }
    if position_named(&schematic.regions, new_name).is_some() {
        return Err(RenameError::Exists { new: new_name.clone() });
    }
    let index = match position_named(&schematic.regions, old_name) {
        Some(index) => index,
        None => {
            let available = region_names(schematic);
            return Err(RenameError::Missing { old: old_name.clone(), available });
        },
    };
    proof {
        lemma_first_named(names, old_name@, index as int);
    }
    rename_at(&mut schematic.regions, index, new_name.clone());
    proof {
        lemma_rename_at(start, start, schematic.regions@, index as int, new_name@);
    }
    Ok(())
}

/// Rename regions according to `(old, new)` pairs, in order, validating
/// that every old name exists and no new name collides with another region.
/// The first refused rename ends the work; the renames before it stay.
#[verifier::rlimit(40)]
pub fn rename_regions(schematic: &mut Schematic, renames: &[(String, String)]) -> (r: Result<(), RenameError>)
    requires
        forall|i: int| 0 <= i < old(schematic).regions@.len() ==> (#[trigger] old(schematic).regions@[i]).wf(),
    ensures
        final(schematic).metadata == old(schematic).metadata,
        same_but_names(old(schematic).regions@, final(schematic).regions@),
        names_of(final(schematic).regions@) == renamed(names_of(old(schematic).regions@), pairs_view(renames@)).0,
        match r {
            Ok(()) => renamed(names_of(old(schematic).regions@), pairs_view(renames@)).1 is None,
            Err(e) => match renamed(names_of(old(schematic).regions@), pairs_view(renames@)).1 {
                Some((k, kind)) => 0 <= k < renames@.len() && rename_error_kind(e) == kind && match e {
                    RenameError::Unchanged { old, new } => old@ == renames@[k].0@ && new@ == renames@[k].1@,
                    RenameError::Exists { new } => new@ == renames@[k].1@,
                    RenameError::Missing { old, available } => old@ == renames@[k].0@ && strings_view(available@)
                        == names_of(final(schematic).regions@),
                },
                None => false,
            },
        },
{
    let ghost start = schematic.regions@;
    let ghost all = pairs_view(renames@);
    let mut i: usize = 0;
    proof {
        assert(all.skip(0) == all);
    }
    while i < renames.len()
        invariant
            i <= renames@.len(),
            all == pairs_view(renames@),
            schematic.metadata == old(schematic).metadata,
            same_but_names(start, schematic.regions@),
            start == old(schematic).regions@,
            forall|j: int| 0 <= j < start.len() ==> (#[trigger] start[j]).wf(),
            renamed(names_of(start), all) == shifted(renamed(names_of(schematic.regions@), all.skip(i as int)), i as int),
        decreases renames@.len() - i,
    {
        let ghost names = names_of(schematic.regions@);
        let ghost step = all.skip(i as int);
        assert(step[0] == (renames@[i as int].0@, renames@[i as int].1@));
        assert(step.drop_first() == all.skip(i + 1));
        let ghost before = schematic.regions@;
        match rename_one(schematic, &renames[i].0, &renames[i].1) {
            Err(e) => {
                proof {
                    lemma_renamed_refused(names, step, rename_error_kind(e));
                }
                return Err(e);
            },
            Ok(()) => {
                proof {
                    lemma_renamed_step(names, step, i as int);
                }
            },
        }
        i += 1;
    }
    proof {
        lemma_renamed_done(names_of(schematic.regions@), all.skip(i as int));
    }
    Ok(())
}

/// Renaming keeps region names distinct: a rename to a name already in use
/// is refused, so distinct names stay distinct whatever the renames.
pub proof fn law_renames_keep_names_distinct(names: Seq<Seq<char>>, renames: Seq<(Seq<char>, Seq<char>)>)
    requires
        names.no_duplicates(),
    ensures
        renamed(names, renames).0.no_duplicates(),
    decreases renames.len(),
{
    reveal(renamed);
    if renames.len() > 0 {
        let (old, new) = renames[0];
        if old != new && !names.contains(new) && names.contains(old) {
            let k = first_named(names, old);
            assert(exists|i: int| 0 <= i < names.len() && names[i] == old && forall|m: int| 0 <= m < i ==> names[m] != old) by {
                let f = choose|i: int| 0 <= i < names.len() && names[i] == old;
                assert(names.no_duplicates());
                assert(forall|m: int| 0 <= m < f ==> names[m] != old);
            }
            let updated = names.update(k, new);
            assert forall|a: int, b: int| 0 <= a < b < updated.len() implies updated[a] != updated[b] by {
                if a == k {
                    assert(names[b] != new);
                } else if b == k {
                    assert(names[a] != new);
                } else {
                    assert(names[a] != names[b]);
                }
            }
            law_renames_keep_names_distinct(updated, renames.drop_first());
        }
    }
}

} // verus!
