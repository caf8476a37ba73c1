//! Sparse, chunked, unbounded 2D grid of tiles.
//!
//! Tiles live in lazily allocated 8x8 chunks, stored in a hash map keyed by
//! the chunk's coordinates. A coordinate that was never written reads as
//! `Tile::Void` without allocating anything. A bounding rectangle grows to
//! enclose the full extent of every chunk ever touched and never shrinks.

use vstd::prelude::*;
use std::collections::HashMap;
use crate::geom::Rect;

verus! {

broadcast use vstd::std_specs::hash::group_hash_axioms;

/// One cell of the grid. Only `Wall` blocks vision; `Void` marks unexplored
/// space and behaves exactly like `Floor` for visibility purposes.
#[derive(Copy, Clone, PartialEq, Eq, Hash, Debug, Structural)]
pub enum Tile {
    Wall,
    Floor,
    Void,
}

impl Tile {
    /// Whether this tile stops sight lines.
    pub open spec fn spec_blocks_vision(self) -> bool {
        self == Tile::Wall
    }

    pub fn blocks_vision(&self) -> (r: bool)
        ensures
            r == self.spec_blocks_vision(),
    {
        match self {
            Tile::Wall => true,
            Tile::Floor => false,
            Tile::Void => false,
        }
    }
}

/// Chunks are 8x8; coordinates are split by Euclidean division so that
/// negative world coordinates land in the right chunk.
pub open spec fn spec_chunk(c: int) -> int {
    c / 8
}

/// The index of a cell inside its 8x8 chunk, row-major.
pub open spec fn spec_cell_off(x: int, y: int) -> int {
    (y % 8) * 8 + (x % 8)
}

/// Hash key of the chunk holding `(x, y)`: both chunk coordinates shifted
/// into the non-negative range and packed into one integer.
pub open spec fn spec_key(x: int, y: int) -> u64 {
    ((spec_chunk(x) + 0x1000_0000) * 0x1_0000_0000 + (spec_chunk(y) + 0x1000_0000)) as u64
}

/// For any i32 coordinate the shifted chunk coordinate lies in `[0, 2^29)`,
/// so the packed key fits in a `u64` without truncation.
proof fn lemma_key_parts_in_range(x: int)
    requires
        i32::MIN <= x <= i32::MAX,
    ensures
        0 <= spec_chunk(x) + 0x1000_0000 < 0x2000_0000,
{
    vstd::arithmetic::div_mod::lemma_div_is_ordered(i32::MIN as int, x, 8);
    vstd::arithmetic::div_mod::lemma_div_is_ordered(x, i32::MAX as int, 8);
}

/// Packing the two shifted chunk coordinates into one `u64` is injective.
proof fn lemma_key_injective(x1: int, y1: int, x2: int, y2: int)
    requires
        i32::MIN <= x1 <= i32::MAX,
        i32::MIN <= y1 <= i32::MAX,
        i32::MIN <= x2 <= i32::MAX,
        i32::MIN <= y2 <= i32::MAX,
        spec_key(x1, y1) == spec_key(x2, y2),
    ensures
        spec_chunk(x1) == spec_chunk(x2),
        spec_chunk(y1) == spec_chunk(y2),
{
    lemma_key_parts_in_range(x1);
    lemma_key_parts_in_range(y1);
    lemma_key_parts_in_range(x2);
    lemma_key_parts_in_range(y2);
    let a1 = spec_chunk(x1) + 0x1000_0000;
    let b1 = spec_chunk(y1) + 0x1000_0000;
    let a2 = spec_chunk(x2) + 0x1000_0000;
    let b2 = spec_chunk(y2) + 0x1000_0000;
    let k1 = a1 * 0x1_0000_0000 + b1;
    let k2 = a2 * 0x1_0000_0000 + b2;
    assert(k1 == k2);
    vstd::arithmetic::div_mod::lemma_fundamental_div_mod_converse(k1, 0x1_0000_0000, a1, b1);
    vstd::arithmetic::div_mod::lemma_fundamental_div_mod_converse(k2, 0x1_0000_0000, a2, b2);
}

/// Shifting a coordinate by 2^31 (a multiple of 8) moves the chunk
/// coordinate by 2^28 and leaves the in-chunk offset unchanged.
proof fn lemma_shifted_chunk(c: int)
    requires
        i32::MIN <= c <= i32::MAX,
    ensures
        (c + 0x8000_0000) / 8 == spec_chunk(c) + 0x1000_0000,
        (c + 0x8000_0000) % 8 == c % 8,
{
    vstd::arithmetic::div_mod::lemma_fundamental_div_mod(c, 8);
    vstd::arithmetic::div_mod::lemma_fundamental_div_mod_converse(
        c + 0x8000_0000,
        8,
        spec_chunk(c) + 0x1000_0000,
        c % 8,
    );
}

/// A world coordinate lies inside the 8-cell extent of its chunk.
proof fn lemma_chunk_extent(c: int)
    ensures
        8 * spec_chunk(c) <= c < 8 * spec_chunk(c) + 8,
{
    vstd::arithmetic::div_mod::lemma_fundamental_div_mod(c, 8);
}

/// Writes this far from the origin are accepted; the limit keeps the
/// bounding rectangle's `i32` width and height from overflowing.
pub const COORD_LIMIT: i32 = 0x1fff_ffff;

/// What one `set_tile(x, y, tile)` call records, stated over the models:
/// the cell reads back, nothing else moved, and the bounds grew to cover
/// the cell without giving anything up.
pub open spec fn records_write(pre: TileMap, post: TileMap, x: i32, y: i32, tile: Tile) -> bool {
    &&& post.spec_tile(x as int, y as int) == tile
    &&& forall|px: i32, py: i32|
        !(px == x && py == y) ==> #[trigger] post.spec_tile(px as int, py as int)
            == pre.spec_tile(px as int, py as int)
    &&& post.spec_bounds().spec_contains(x as int, y as int)
    &&& forall|px: int, py: int|
        pre.spec_bounds().spec_contains(px, py) ==> post.spec_bounds().spec_contains(px, py)
}

/// A history of writes: `states[0]` is the starting map and each later
/// state arose from its predecessor by one `set_tile` call.
pub open spec fn write_history(states: Seq<TileMap>, writes: Seq<(i32, i32, Tile)>) -> bool {
    &&& states.len() == writes.len() + 1
    &&& forall|i: int|
        0 <= i < writes.len() ==> records_write(
            states[i],
            states[i + 1],
            (#[trigger] writes[i]).0,
            writes[i].1,
            writes[i].2,
        )
}

/// Untouched coordinates always read Void, across any sequence of writes:
/// a coordinate that starts as Void and that no write of the history names
/// still reads Void at the end.
pub proof fn lemma_untouched_survives_writes(
    states: Seq<TileMap>,
    writes: Seq<(i32, i32, Tile)>,
    x: i32,
    y: i32,
)
    requires
        write_history(states, writes),
        states[0].spec_tile(x as int, y as int) == Tile::Void,
        forall|i: int|
            0 <= i < writes.len() ==> !((#[trigger] writes[i]).0 == x && writes[i].1 == y),
    ensures
        states.last().spec_tile(x as int, y as int) == Tile::Void,
    decreases writes.len(),
{
    if writes.len() > 0 {
        let n = writes.len() as int;
        assert(write_history(states.drop_last(), writes.drop_last()));
        lemma_untouched_survives_writes(states.drop_last(), writes.drop_last(), x, y);
        assert(states.drop_last().last() == states[n - 1]);
        assert(records_write(states[n - 1], states[n], writes[n - 1].0, writes[n - 1].1, writes[
            n
            - 1].2));
    }
}

/// The envelope covers every write ever made, across any sequence: after
/// the whole history, the bounds contain each written coordinate — even if
/// its cell was later overwritten with Void.
pub proof fn lemma_bounds_cover_writes(states: Seq<TileMap>, writes: Seq<(i32, i32, Tile)>, i: int)
    requires
        write_history(states, writes),
        0 <= i < writes.len(),
    ensures
        states.last().spec_bounds().spec_contains(writes[i].0 as int, writes[i].1 as int),
    decreases writes.len(),
{
    let n = writes.len() as int;
    assert(records_write(states[n - 1], states[n], writes[n - 1].0, writes[n - 1].1, writes[n
        - 1].2));
    if i == n - 1 {
        assert(states[n].spec_bounds().spec_contains(writes[i].0 as int, writes[i].1 as int));
    } else {
        assert(write_history(states.drop_last(), writes.drop_last()));
        lemma_bounds_cover_writes(states.drop_last(), writes.drop_last(), i);
        assert(states.drop_last().last() == states[n - 1]);
        assert(states[n - 1].spec_bounds().spec_contains(writes[i].0 as int, writes[i].1 as int));
    }
}

/// Sparse, chunked, unbounded 2D grid of `Tile` values with an
/// auto-expanding bounding rectangle.
pub struct TileMap {
    bounds: Rect,
    blocks: HashMap<u64, Vec<Tile>>,
}

impl TileMap {
    /// The tile stored at `(x, y)`: `Void` wherever nothing was written.
    pub closed spec fn spec_tile(self, x: int, y: int) -> Tile {
        if self.blocks@.contains_key(spec_key(x, y)) {
            self.blocks@[spec_key(x, y)]@[spec_cell_off(x, y)]
        } else {
            Tile::Void
        }
    }

    /// The current bounding rectangle.
    pub closed spec fn spec_bounds(self) -> Rect {
        self.bounds
    }

    /// Internal invariant: every allocated chunk holds exactly 64 cells,
    /// the bounding rectangle encloses every coordinate of every allocated
    /// chunk, and it stays inside the coordinate limit so that growing it
    /// never overflows.
    pub closed spec fn wf(self) -> bool {
        &&& forall|k: u64|
            #[trigger] self.blocks@.contains_key(k) ==> self.blocks@[k]@.len() == 64
        &&& forall|px: i32, py: i32|
            self.blocks@.contains_key(#[trigger] spec_key(px as int, py as int))
                ==> self.bounds.spec_contains(px as int, py as int)
        &&& -0x2000_0000 <= self.bounds.x
        &&& -0x2000_0000 <= self.bounds.y
        &&& self.bounds.x + self.bounds.w <= 0x2000_0000
        &&& self.bounds.y + self.bounds.h <= 0x2000_0000
        &&& self.bounds.w >= 1
        &&& self.bounds.h >= 1
    }

    /// An empty grid: every coordinate reads `Void`.
    pub fn new() -> (m: Self)
        ensures
            m.wf(),
            forall|px: i32, py: i32| m.spec_tile(px as int, py as int) == Tile::Void,
            m.spec_bounds() == (Rect { x: 0, y: 0, w: 1, h: 1 }),
    {
        Self { bounds: Rect::new(0, 0, 1, 1), blocks: HashMap::new() }
    }

    /// Hash key of the chunk holding `(x, y)` and the cell's index inside it.
    fn key_index(x: i32, y: i32) -> (r: (u64, usize))
        ensures
            r.0 == spec_key(x as int, y as int),
            r.1 == spec_cell_off(x as int, y as int),
            r.1 < 64,
    {
        proof {
            lemma_shifted_chunk(x as int);
            lemma_shifted_chunk(y as int);
            lemma_key_parts_in_range(x as int);
            lemma_key_parts_in_range(y as int);
        }
        let ux = ((x as i64) + 0x8000_0000) as u64;
        let uy = ((y as i64) + 0x8000_0000) as u64;
        let key = (ux / 8) * 0x1_0000_0000 + uy / 8;
        let idx = ((uy % 8) * 8 + ux % 8) as usize;
        (key, idx)
    }

    /// The chunk coordinate `c / 8`, rounded toward negative infinity.
    fn chunk_coord(c: i32) -> (k: i32)
        ensures
            k as int == spec_chunk(c as int),
    {
        proof {
            lemma_shifted_chunk(c as int);
            lemma_key_parts_in_range(c as int);
        }
        let shifted = (((c as i64) + 0x8000_0000) as u64) / 8;
        ((shifted as i64) - 0x1000_0000) as i32
    }

    /// The envelope of all chunks ever touched; it bounds iteration and
    /// never shrinks.
    pub fn get_bounds(&self) -> (r: &Rect)
        ensures
            *r == self.spec_bounds(),
    {
        &self.bounds
    }

    /// Total read: returns `Void` for any coordinate never written.
    pub fn get_tile(&self, x: i32, y: i32) -> (t: Tile)
        requires
            self.wf(),
        ensures
            t == self.spec_tile(x as int, y as int),
    {
        let (key, idx) = Self::key_index(x, y);
        match self.blocks.get(&key) {
            Some(block) => block[idx],
            None => Tile::Void,
        }
    }

    /// Writes one cell, allocating its 8x8 chunk (initialized to `Void`) on
    /// first touch and widening the bounding rectangle to the chunk's full
    /// extent. The rectangle only ever grows.
    pub fn set_tile(&mut self, x: i32, y: i32, tile: Tile)
        requires
            old(self).wf(),
            -COORD_LIMIT - 1 <= x <= COORD_LIMIT,
            -COORD_LIMIT - 1 <= y <= COORD_LIMIT,
        ensures
            final(self).wf(),
            final(self).spec_tile(x as int, y as int) == tile,
            forall|px: i32, py: i32|
                !(px == x && py == y)
                    ==> #[trigger] final(self).spec_tile(px as int, py as int)
                        == old(self).spec_tile(px as int, py as int),
            final(self).spec_bounds().spec_contains(x as int, y as int),
            forall|px: int, py: int|
                old(self).spec_bounds().spec_contains(px, py)
                    ==> final(self).spec_bounds().spec_contains(px, py),
            final(self).spec_bounds().x <= old(self).spec_bounds().x,
            final(self).spec_bounds().y <= old(self).spec_bounds().y,
            final(self).spec_bounds().x + final(self).spec_bounds().w >= old(
                self,
            ).spec_bounds().x + old(self).spec_bounds().w,
            final(self).spec_bounds().y + final(self).spec_bounds().h >= old(
                self,
            ).spec_bounds().y + old(self).spec_bounds().h,
            records_write(*old(self), *final(self), x, y, tile),
    {
        let (key, idx) = Self::key_index(x, y);
        let mut block: Vec<Tile>;
        match self.blocks.remove(&key) {
            Some(b) => {
                block = b;
            }
            None => {
                // First touch of this chunk: grow the bounds to its extent.
                let kx = Self::chunk_coord(x);
                let ky = Self::chunk_coord(y);
                proof {
                    lemma_chunk_extent(x as int);
                    lemma_chunk_extent(y as int);
                }
                let max_x = self.bounds.x + self.bounds.w;
                let max_y = self.bounds.y + self.bounds.h;
                let lo_x = kx * 8;
                let lo_y = ky * 8;
                if lo_x < self.bounds.x {
                    self.bounds.x = lo_x;
                }
                if lo_y < self.bounds.y {
                    self.bounds.y = lo_y;
                }
                let hi_x = if max_x >= lo_x + 8 { max_x } else { lo_x + 8 };
                let hi_y = if max_y >= lo_y + 8 { max_y } else { lo_y + 8 };
                self.bounds.w = hi_x - self.bounds.x;
                self.bounds.h = hi_y - self.bounds.y;
                block = Vec::new();
                let mut i: usize = 0;
                while i < 64
                    invariant
                        block@.len() == i,
                        i <= 64,
                        forall|j: int| 0 <= j < i ==> block@[j] == Tile::Void,
                    decreases 64 - i,
                {
                    block.push(Tile::Void);
                    i = i + 1;
                }
            }
        }
        block[idx] = tile;
        self.blocks.insert(key, block);
        proof {
            assert(self.blocks@.dom() =~= old(self).blocks@.dom().insert(
                spec_key(x as int, y as int),
            ));
            self.lemma_after_set(*old(self), x, y, tile);
        }
    }

    /// After `set_tile`'s writes, the invariant and the read-back contract
    /// hold again.
    proof fn lemma_after_set(self, prev: Self, x: i32, y: i32, tile: Tile)
        requires
            prev.wf(),
            -COORD_LIMIT - 1 <= x <= COORD_LIMIT,
            -COORD_LIMIT - 1 <= y <= COORD_LIMIT,
            self.blocks@.dom() == prev.blocks@.dom().insert(spec_key(x as int, y as int)),
            self.blocks@[spec_key(x as int, y as int)]@.len() == 64,
            self.blocks@[spec_key(x as int, y as int)]@[spec_cell_off(x as int, y as int)] == tile,
            forall|k: u64|
                #[trigger] prev.blocks@.contains_key(k) && k != spec_key(x as int, y as int)
                    ==> self.blocks@.contains_key(k) && self.blocks@[k] == prev.blocks@[k],
            forall|off: int|
                0 <= off < 64 && off != spec_cell_off(x as int, y as int)
                    ==> #[trigger] self.blocks@[spec_key(x as int, y as int)]@[off] == (
                    if prev.blocks@.contains_key(spec_key(x as int, y as int)) {
                        prev.blocks@[spec_key(x as int, y as int)]@[off]
                    } else {
                        Tile::Void
                    }),
            // How the bounds were grown, or left alone.
            prev.blocks@.contains_key(spec_key(x as int, y as int)) ==> self.bounds == prev.bounds,
            !prev.blocks@.contains_key(spec_key(x as int, y as int)) ==> {
                &&& self.bounds.x == if 8 * spec_chunk(x as int) < prev.bounds.x {
                    8 * spec_chunk(x as int)
                } else {
                    prev.bounds.x as int
                }
                &&& self.bounds.y == if 8 * spec_chunk(y as int) < prev.bounds.y {
                    8 * spec_chunk(y as int)
                } else {
                    prev.bounds.y as int
                }
                &&& self.bounds.x + self.bounds.w == if prev.bounds.x + prev.bounds.w >= 8
                    * spec_chunk(x as int) + 8 {
                    prev.bounds.x + prev.bounds.w
                } else {
                    8 * spec_chunk(x as int) + 8
                }
                &&& self.bounds.y + self.bounds.h == if prev.bounds.y + prev.bounds.h >= 8
                    * spec_chunk(y as int) + 8 {
                    prev.bounds.y + prev.bounds.h
                } else {
                    8 * spec_chunk(y as int) + 8
                }
            },
        ensures
            self.wf(),
            self.spec_tile(x as int, y as int) == tile,
            forall|px: i32, py: i32|
                !(px == x && py == y)
                    ==> #[trigger] self.spec_tile(px as int, py as int) == prev.spec_tile(
                    px as int,
                    py as int,
                ),
            self.spec_bounds().spec_contains(x as int, y as int),
            forall|px: int, py: int|
                prev.spec_bounds().spec_contains(px, py) ==> self.spec_bounds().spec_contains(
                    px,
                    py,
                ),
    {
        let kxy = spec_key(x as int, y as int);
        lemma_chunk_extent(x as int);
        lemma_chunk_extent(y as int);
        // The written cell reads back.
        assert(self.blocks@.contains_key(kxy));
        // Frame: every other coordinate reads what it read before.
        assert forall|px: i32, py: i32| !(px == x && py == y) implies #[trigger] self.spec_tile(
            px as int,
            py as int,
        ) == prev.spec_tile(px as int, py as int) by {
            let kp = spec_key(px as int, py as int);
            if kp == kxy {
                lemma_key_injective(px as int, py as int, x as int, y as int);
                lemma_chunk_extent(px as int);
                lemma_chunk_extent(py as int);
                assert(spec_cell_off(px as int, py as int) != spec_cell_off(x as int, y as int));
                assert(0 <= spec_cell_off(px as int, py as int) < 64);
            } else {
                assert(self.blocks@.contains_key(kp) == prev.blocks@.contains_key(kp));
            }
        }
        // The bounds cover the written cell and every chunk covered before.
        if !prev.blocks@.contains_key(kxy) {
            assert(self.bounds.spec_contains(x as int, y as int));
        } else {
            assert(prev.bounds.spec_contains(x as int, y as int));
        }
        // Invariant: chunk coverage by the grown bounds.
        assert forall|px: i32, py: i32|
            self.blocks@.contains_key(
                #[trigger] spec_key(px as int, py as int),
            ) implies self.bounds.spec_contains(px as int, py as int) by {
            let kp = spec_key(px as int, py as int);
            if prev.blocks@.contains_key(kp) {
                assert(prev.bounds.spec_contains(px as int, py as int));
            } else {
                assert(kp == kxy);
                lemma_key_injective(px as int, py as int, x as int, y as int);
                lemma_chunk_extent(px as int);
                lemma_chunk_extent(py as int);
            }
        }
    }
}

} // verus!
