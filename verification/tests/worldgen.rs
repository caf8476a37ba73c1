use rogue_core::worldgen::{get_pattern_at, map_from_pixels};
use rogue_core::{make_world, Tile, TileMap};

#[test]
fn pixels_become_walls_and_floors() {
    // A 2x2 RGB image, 3 bytes per pixel: a zero red channel means Wall.
    let buf = vec![0, 0, 0, 255, 10, 10, 7, 0, 0, 0, 1, 2];
    let map = map_from_pixels(&buf, 2, 2);
    assert_eq!(map.get_tile(0, 0), Tile::Wall);
    assert_eq!(map.get_tile(1, 0), Tile::Floor);
    assert_eq!(map.get_tile(0, 1), Tile::Floor);
    assert_eq!(map.get_tile(1, 1), Tile::Wall);
    assert_eq!(map.get_tile(2, 0), Tile::Void);
    assert_eq!(map.get_tile(-1, 0), Tile::Void);
}

#[test]
fn empty_image_leaves_the_map_untouched() {
    let buf: Vec<u8> = Vec::new();
    let map = map_from_pixels(&buf, 0, 0);
    assert_eq!(map.get_tile(0, 0), Tile::Void);
}

#[test]
fn make_world_fills_a_floor_square() {
    let map = make_world();
    for y in 0..40 {
        for x in 0..40 {
            assert_eq!(map.get_tile(x, y), Tile::Floor);
        }
    }
    assert_eq!(map.get_tile(40, 0), Tile::Void);
    assert_eq!(map.get_tile(0, 40), Tile::Void);
    assert_eq!(map.get_tile(-1, -1), Tile::Void);
}

#[test]
fn make_world_bounds_cover_the_square() {
    let map = make_world();
    let b = map.get_bounds();
    assert!(b.contains(0, 0));
    assert!(b.contains(39, 39));
}

#[test]
fn pattern_reads_row_major_window() {
    let mut map = TileMap::new();
    map.set_tile(10, 20, Tile::Wall);
    map.set_tile(11, 20, Tile::Floor);
    map.set_tile(12, 21, Tile::Wall);
    map.set_tile(10, 22, Tile::Floor);
    map.set_tile(12, 22, Tile::Wall);
    let p = get_pattern_at(&map, 10, 20);
    assert_eq!(
        p,
        [
            Tile::Wall,
            Tile::Floor,
            Tile::Void,
            Tile::Void,
            Tile::Void,
            Tile::Wall,
            Tile::Floor,
            Tile::Void,
            Tile::Wall,
        ]
    );
}

#[test]
fn pattern_on_untouched_map_is_all_void() {
    let map = TileMap::new();
    let p = get_pattern_at(&map, -3, 7);
    assert_eq!(p, [Tile::Void; 9]);
}
