//! World construction and the 3x3 pattern probe used by the map mutator.

use vstd::prelude::*;
use crate::tilemap::{Tile, TileMap};

verus! {

/// Side length of the generated starting world.
pub const WORLD_SIZE: i32 = 40;

/// A 3x3 window of tiles, row-major; the unit the pattern-synthesis mutator
/// compares frequencies of.
pub type Pattern = [Tile; 9];

/// Reads the 3x3 window of tiles whose top-left corner is `(x, y)`,
/// row-major.
pub fn get_pattern_at(map: &TileMap, x: i32, y: i32) -> (p: Pattern)
    requires
        map.wf(),
        x <= i32::MAX - 2,
        y <= i32::MAX - 2,
    ensures
        p@[0] == map.spec_tile(x as int, y as int),
        p@[1] == map.spec_tile(x as int + 1, y as int),
        p@[2] == map.spec_tile(x as int + 2, y as int),
        p@[3] == map.spec_tile(x as int, y as int + 1),
        p@[4] == map.spec_tile(x as int + 1, y as int + 1),
        p@[5] == map.spec_tile(x as int + 2, y as int + 1),
        p@[6] == map.spec_tile(x as int, y as int + 2),
        p@[7] == map.spec_tile(x as int + 1, y as int + 2),
        p@[8] == map.spec_tile(x as int + 2, y as int + 2),
{
    [
        map.get_tile(x, y),
        map.get_tile(x + 1, y),
        map.get_tile(x + 2, y),
        map.get_tile(x, y + 1),
        map.get_tile(x + 1, y + 1),
        map.get_tile(x + 2, y + 1),
        map.get_tile(x, y + 2),
        map.get_tile(x + 1, y + 2),
        map.get_tile(x + 2, y + 2),
    ]
}

/// Stamps a decoded RGB image onto a fresh map, one tile per pixel: a black
/// red-channel byte becomes `Wall`, anything else `Floor`. The pixel rows
/// are `width * 3` bytes each, top to bottom.
pub fn map_from_pixels(buf: &Vec<u8>, width: i32, height: i32) -> (m: TileMap)
    requires
        0 <= width <= 0x1fff_ffff,
        0 <= height <= 0x1fff_ffff,
        3 * (width as int) * (height as int) <= buf@.len(),
    ensures
        m.wf(),
        forall|px: i32, py: i32|
            #[trigger] m.spec_tile(px as int, py as int) == (if 0 <= px < width && 0 <= py
                < height {
                if buf@[3 * ((py as int) * (width as int) + (px as int))] == 0 {
                    Tile::Wall
                } else {
                    Tile::Floor
                }
            } else {
                Tile::Void
            }),
        forall|px: int, py: int|
            0 <= px < width && 0 <= py < height ==> #[trigger] m.spec_bounds().spec_contains(
                px,
                py,
            ),
{
    let buf_len: usize = buf.len();
    let mut map = TileMap::new();
    let mut y: i32 = 0;
    while y < height
        invariant
            map.wf(),
            0 <= y <= height,
            0 <= width <= 0x1fff_ffff,
            height <= 0x1fff_ffff,
            buf@.len() == buf_len,
            3 * (width as int) * (height as int) <= buf@.len(),
            forall|px: i32, py: i32|
                #[trigger] map.spec_tile(px as int, py as int) == (if 0 <= px < width && 0 <= py
                    < y {
                    if buf@[3 * ((py as int) * (width as int) + (px as int))] == 0 {
                        Tile::Wall
                    } else {
                        Tile::Floor
                    }
                } else {
                    Tile::Void
                }),
            forall|px: int, py: int|
                0 <= px < width && 0 <= py < y ==> #[trigger] map.spec_bounds().spec_contains(
                    px,
                    py,
                ),
        decreases height - y,
    {
        let mut x: i32 = 0;
        while x < width
            invariant
                map.wf(),
                0 <= y < height,
                0 <= x <= width,
                width <= 0x1fff_ffff,
                height <= 0x1fff_ffff,
                buf@.len() == buf_len,
                3 * (width as int) * (height as int) <= buf@.len(),
                forall|px: i32, py: i32|
                    #[trigger] map.spec_tile(px as int, py as int) == (if (0 <= px < width && 0
                        <= py < y) || (0 <= px < x && py == y) {
                        if buf@[3 * ((py as int) * (width as int) + (px as int))] == 0 {
                            Tile::Wall
                        } else {
                            Tile::Floor
                        }
                    } else {
                        Tile::Void
                    }),
                forall|px: int, py: int|
                    (0 <= px < width && 0 <= py < y) || (0 <= px < x && py == y)
                        ==> #[trigger] map.spec_bounds().spec_contains(px, py),
            decreases width - x,
        {
            proof {
                lemma_pixel_index(x as int, y as int, width as int, height as int);
            }
            let idx = 3 * ((y as i64) * (width as i64) + (x as i64));
            if buf[idx as usize] == 0 {
                map.set_tile(x, y, Tile::Wall);
            } else {
                map.set_tile(x, y, Tile::Floor);
            }
            x = x + 1;
        }
        y = y + 1;
    }
    map
}

/// The red-channel byte of pixel `(x, y)` lies inside a buffer of
/// `3 * width * height` bytes.
proof fn lemma_pixel_index(x: int, y: int, width: int, height: int)
    by (nonlinear_arith)
    requires
        0 <= x < width,
        0 <= y < height,
        width <= 0x1fff_ffff,
        height <= 0x1fff_ffff,
    ensures
        0 <= 3 * (y * width + x) < 3 * width * height,
        3 * width * height < 0x1000_0000_0000_0000,
{
}

/// Builds the starting world: a `WORLD_SIZE` x `WORLD_SIZE` square of
/// `Floor`, everything beyond it untouched `Void`.
pub fn make_world() -> (m: TileMap)
    ensures
        m.wf(),
        forall|px: i32, py: i32|
            #[trigger] m.spec_tile(px as int, py as int) == (if 0 <= px < WORLD_SIZE && 0 <= py
                < WORLD_SIZE {
                Tile::Floor
            } else {
                Tile::Void
            }),
        forall|px: int, py: int|
            0 <= px < WORLD_SIZE && 0 <= py < WORLD_SIZE
                ==> #[trigger] m.spec_bounds().spec_contains(px, py),
{
    let mut map = TileMap::new();
    let mut y: i32 = 0;
    while y < WORLD_SIZE
        invariant
            map.wf(),
            0 <= y <= WORLD_SIZE,
            forall|px: i32, py: i32|
                #[trigger] map.spec_tile(px as int, py as int) == (if 0 <= px < WORLD_SIZE && 0
                    <= py < y {
                    Tile::Floor
                } else {
                    Tile::Void
                }),
            forall|px: int, py: int|
                0 <= px < WORLD_SIZE && 0 <= py < y ==> #[trigger] map.spec_bounds().spec_contains(
                    px,
                    py,
                ),
        decreases WORLD_SIZE - y,
    {
        let mut x: i32 = 0;
        while x < WORLD_SIZE
            invariant
                map.wf(),
                0 <= y < WORLD_SIZE,
                0 <= x <= WORLD_SIZE,
                forall|px: i32, py: i32|
                    #[trigger] map.spec_tile(px as int, py as int) == (if (0 <= px < WORLD_SIZE
                        && 0 <= py < y) || (0 <= px < x && py == y) {
                        Tile::Floor
                    } else {
                        Tile::Void
                    }),
                forall|px: int, py: int|
                    (0 <= px < WORLD_SIZE && 0 <= py < y) || (0 <= px < x && py == y)
                        ==> #[trigger] map.spec_bounds().spec_contains(px, py),
            decreases WORLD_SIZE - x,
        {
            map.set_tile(x, y, Tile::Floor);
            x = x + 1;
        }
        y = y + 1;
    }
    map
}

} // verus!
