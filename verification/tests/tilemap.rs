use rogue_core::{Rect, Tile, TileMap};

#[test]
fn read_after_write_positive_coords() {
    let mut map = TileMap::new();
    map.set_tile(3, 4, Tile::Wall);
    assert_eq!(map.get_tile(3, 4), Tile::Wall);
    map.set_tile(3, 4, Tile::Floor);
    assert_eq!(map.get_tile(3, 4), Tile::Floor);
    map.set_tile(3, 4, Tile::Void);
    assert_eq!(map.get_tile(3, 4), Tile::Void);
}

#[test]
fn read_after_write_negative_coords() {
    let mut map = TileMap::new();
    map.set_tile(-1, -1, Tile::Wall);
    map.set_tile(-8, -9, Tile::Floor);
    map.set_tile(-100, 250, Tile::Wall);
    assert_eq!(map.get_tile(-1, -1), Tile::Wall);
    assert_eq!(map.get_tile(-8, -9), Tile::Floor);
    assert_eq!(map.get_tile(-100, 250), Tile::Wall);
}

#[test]
fn writes_do_not_disturb_neighbors() {
    let mut map = TileMap::new();
    map.set_tile(0, 0, Tile::Wall);
    map.set_tile(1, 0, Tile::Floor);
    map.set_tile(0, 1, Tile::Floor);
    map.set_tile(7, 7, Tile::Wall);
    map.set_tile(8, 8, Tile::Floor);
    assert_eq!(map.get_tile(0, 0), Tile::Wall);
    assert_eq!(map.get_tile(1, 0), Tile::Floor);
    assert_eq!(map.get_tile(0, 1), Tile::Floor);
    assert_eq!(map.get_tile(7, 7), Tile::Wall);
    assert_eq!(map.get_tile(8, 8), Tile::Floor);
    assert_eq!(map.get_tile(1, 1), Tile::Void);
}

#[test]
fn untouched_coordinates_read_void() {
    let map = TileMap::new();
    assert_eq!(map.get_tile(0, 0), Tile::Void);
    assert_eq!(map.get_tile(123, -456), Tile::Void);
    assert_eq!(map.get_tile(i32::MAX, i32::MIN), Tile::Void);
}

#[test]
fn untouched_chunk_reads_void_next_to_touched_chunk() {
    let mut map = TileMap::new();
    map.set_tile(0, 0, Tile::Wall);
    // Same chunk, untouched cell: Void.
    assert_eq!(map.get_tile(7, 7), Tile::Void);
    // Neighboring chunk, never touched: Void.
    assert_eq!(map.get_tile(8, 0), Tile::Void);
    assert_eq!(map.get_tile(-1, 0), Tile::Void);
}

#[test]
fn bounds_contain_every_written_coordinate() {
    let mut map = TileMap::new();
    let writes = [(0, 0), (19, 3), (-5, 40), (-33, -27), (100, -1)];
    for &(x, y) in writes.iter() {
        map.set_tile(x, y, Tile::Floor);
    }
    let b = map.get_bounds();
    for &(x, y) in writes.iter() {
        assert!(b.contains(x, y));
    }
}

#[test]
fn bounds_never_shrink() {
    let mut map = TileMap::new();
    map.set_tile(-20, -20, Tile::Wall);
    map.set_tile(20, 20, Tile::Wall);
    let before = *map.get_bounds();
    // Resetting tiles to Void must not shrink the envelope.
    map.set_tile(-20, -20, Tile::Void);
    map.set_tile(20, 20, Tile::Void);
    // Nor may further writes inside it.
    map.set_tile(0, 0, Tile::Floor);
    let after = *map.get_bounds();
    assert!(after.contains(before.x, before.y));
    assert!(after.contains(before.x + before.w - 1, before.y + before.h - 1));
    assert!(after.contains(-20, -20));
    assert!(after.contains(20, 20));
}

#[test]
fn bounds_cover_full_chunk_extent() {
    let mut map = TileMap::new();
    map.set_tile(9, 9, Tile::Wall);
    let b = map.get_bounds();
    // The whole 8x8 chunk of (9, 9) is inside the envelope.
    assert!(b.contains(8, 8));
    assert!(b.contains(15, 15));
}

#[test]
fn fresh_map_bounds() {
    let map = TileMap::new();
    let b = map.get_bounds();
    assert_eq!((b.x, b.y, b.w, b.h), (0, 0, 1, 1));
}

#[test]
fn blocks_vision_only_for_wall() {
    assert!(Tile::Wall.blocks_vision());
    assert!(!Tile::Floor.blocks_vision());
    assert!(!Tile::Void.blocks_vision());
}

#[test]
fn rect_contains_is_half_open() {
    let r = Rect::new(2, 3, 4, 5);
    assert!(r.contains(2, 3));
    assert!(r.contains(5, 7));
    assert!(!r.contains(6, 3));
    assert!(!r.contains(2, 8));
    assert!(!r.contains(1, 3));
    assert!(!r.contains(2, 2));
}

#[test]
fn rect_from_bounds_spans_corners() {
    let r = Rect::from_bounds(-2, -3, 4, 5);
    assert_eq!((r.x, r.y, r.w, r.h), (-2, -3, 6, 8));
    assert!(r.contains(-2, -3));
    assert!(r.contains(3, 4));
    assert!(!r.contains(4, 5));
}

#[test]
fn rect_empty_contains_nothing() {
    let r = Rect::new(0, 0, 0, 0);
    assert!(!r.contains(0, 0));
}
