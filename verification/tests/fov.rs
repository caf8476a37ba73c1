use rogue_core::{Tile, TileMap, Viewshed};

fn floor_square(x0: i32, y0: i32, x1: i32, y1: i32) -> TileMap {
    let mut map = TileMap::new();
    for y in y0..=y1 {
        for x in x0..=x1 {
            map.set_tile(x, y, Tile::Floor);
        }
    }
    map
}

/// On an all-Floor map, every cell whose Euclidean distance from the center
/// rounds to at most the radius is visible: no false negatives absent
/// obstruction.
#[test]
fn all_floor_marks_every_cell_in_range() {
    let r: i32 = 5;
    let map = floor_square(0, 0, 10, 10);
    let fov = Viewshed::new_at(r, 5, 5, &map);
    for dy in -7..=7 {
        for dx in -7..=7 {
            let d2 = dx * dx + dy * dy;
            // round(sqrt(d2)) <= r  <=>  d2 <= r*r + r
            let in_range = d2 <= r * r + r;
            assert_eq!(
                fov.contains(5 + dx, 5 + dy),
                in_range,
                "cell at offset ({}, {})",
                dx,
                dy
            );
        }
    }
}

/// A full-height wall column between the observer and a target: the wall is
/// visible, the target behind it is not.
#[test]
fn wall_column_hides_what_lies_behind() {
    let mut map = floor_square(0, 0, 8, 8);
    for y in 0..=8 {
        map.set_tile(4, y, Tile::Wall);
    }
    let fov = Viewshed::new_at(5, 2, 2, &map);
    // The wall cells facing the observer are visible.
    assert!(fov.contains(4, 2));
    assert!(fov.contains(4, 1));
    assert!(fov.contains(4, 3));
    // The floor directly behind the wall is not.
    assert!(!fov.contains(5, 2));
    assert!(!fov.contains(6, 2));
    assert!(!fov.contains(7, 2));
    // In front of the wall everything stays visible.
    assert!(fov.contains(3, 2));
    assert!(fov.contains(2, 5));
}

/// A wall with a single one-tile gap: cells aligned with the sightline
/// through the gap are visible, cells behind solid sections are not.
#[test]
fn gap_in_wall_admits_aligned_sightline() {
    let mut map = floor_square(0, 0, 9, 9);
    for y in 0..=9 {
        if y != 4 {
            map.set_tile(4, y, Tile::Wall);
        }
    }
    let fov = Viewshed::new_at(5, 2, 4, &map);
    // Straight through the gap.
    assert!(fov.contains(5, 4));
    assert!(fov.contains(6, 4));
    assert!(fov.contains(7, 4));
    // Behind solid wall sections.
    assert!(!fov.contains(6, 6));
    assert!(!fov.contains(6, 2));
    // The wall itself is visible.
    assert!(fov.contains(4, 3));
    assert!(fov.contains(4, 5));
}

/// Two consecutive updates with identical arguments and an unchanged map
/// yield identical visible sets.
#[test]
fn repeated_update_is_idempotent() {
    let mut map = floor_square(0, 0, 10, 10);
    map.set_tile(6, 5, Tile::Wall);
    map.set_tile(3, 3, Tile::Wall);
    map.set_tile(7, 2, Tile::Wall);
    let mut fov = Viewshed::new_at(5, 5, 5, &map);
    let first: Vec<bool> = (0..=10)
        .flat_map(|y| (0..=10).map(move |x| (x, y)))
        .map(|(x, y)| fov.contains(x, y))
        .collect();
    fov.update(5, 5, &map);
    let second: Vec<bool> = (0..=10)
        .flat_map(|y| (0..=10).map(move |x| (x, y)))
        .map(|(x, y)| fov.contains(x, y))
        .collect();
    assert_eq!(first, second);
}

/// Radius-1 viewshed on an all-Void map: Void does not block, so the origin
/// and all 8 neighbors are visible, and nothing else.
#[test]
fn radius_one_on_void_map() {
    let map = TileMap::new();
    let fov = Viewshed::new_at(1, 5, 5, &map);
    for y in 0..=10 {
        for x in 0..=10 {
            let expected = (4..=6).contains(&x) && (4..=6).contains(&y);
            assert_eq!(fov.contains(x, y), expected, "cell ({}, {})", x, y);
        }
    }
}

/// The observer's own cell is marked even when walled in; the enclosing
/// walls are visible and everything beyond them is not.
#[test]
fn walled_in_observer_sees_only_the_walls() {
    let mut map = floor_square(0, 0, 8, 8);
    for (x, y) in [
        (3, 3),
        (4, 3),
        (5, 3),
        (3, 4),
        (5, 4),
        (3, 5),
        (4, 5),
        (5, 5),
    ] {
        map.set_tile(x, y, Tile::Wall);
    }
    let fov = Viewshed::new_at(4, 4, 4, &map);
    assert!(fov.contains(4, 4));
    assert!(fov.contains(5, 4));
    assert!(fov.contains(4, 3));
    assert!(fov.contains(3, 3));
    assert!(!fov.contains(6, 4));
    assert!(!fov.contains(4, 6));
    assert!(!fov.contains(7, 7));
}

/// `contains` is total: coordinates outside the window are simply false.
#[test]
fn contains_is_false_outside_the_window() {
    let map = floor_square(0, 0, 10, 10);
    let fov = Viewshed::new_at(2, 5, 5, &map);
    assert!(!fov.contains(8, 5));
    assert!(!fov.contains(5, -100));
    assert!(!fov.contains(i32::MAX, i32::MIN));
}

/// `update` recenters the window on the new observer position.
#[test]
fn update_moves_the_window() {
    let map = floor_square(0, 0, 30, 30);
    let mut fov = Viewshed::new_at(2, 5, 5, &map);
    assert!(fov.contains(5, 5));
    assert!(!fov.contains(20, 20));
    fov.update(20, 20, &map);
    assert!(fov.contains(20, 20));
    assert!(!fov.contains(5, 5));
}

/// A wall stamped onto the map changes the next update: visibility follows
/// the map as it is at update time.
#[test]
fn update_follows_map_mutation() {
    let mut map = floor_square(0, 0, 10, 10);
    let mut fov = Viewshed::new_at(4, 2, 2, &map);
    assert!(fov.contains(6, 2));
    map.set_tile(4, 2, Tile::Wall);
    fov.update(2, 2, &map);
    assert!(fov.contains(4, 2));
    assert!(!fov.contains(6, 2));
}

/// A wall directly beside the observer hides the cell right behind it, in
/// every direction.
#[test]
fn adjacent_wall_hides_next_cell() {
    let mut map = floor_square(0, 0, 10, 10);
    map.set_tile(6, 5, Tile::Wall);
    map.set_tile(4, 5, Tile::Wall);
    map.set_tile(5, 6, Tile::Wall);
    map.set_tile(5, 4, Tile::Wall);
    let fov = Viewshed::new_at(4, 5, 5, &map);
    assert!(fov.contains(6, 5) && !fov.contains(7, 5));
    assert!(fov.contains(4, 5) && !fov.contains(3, 5));
    assert!(fov.contains(5, 6) && !fov.contains(5, 7));
    assert!(fov.contains(5, 4) && !fov.contains(5, 3));
}

/// Radius zero: only the observer's cell is visible.
#[test]
fn radius_zero_sees_only_the_origin() {
    let map = floor_square(0, 0, 6, 6);
    let fov = Viewshed::new_at(0, 3, 3, &map);
    for y in 0..=6 {
        for x in 0..=6 {
            assert_eq!(fov.contains(x, y), x == 3 && y == 3);
        }
    }
}
