use bomber::grid::{create_map, is_walkable, GameMap, Tile, COLS, ROWS};

fn count_tiles(map: &GameMap, t: Tile) -> usize {
    let mut n = 0;
    for y in 0..ROWS {
        for x in 0..COLS {
            if map.get(x, y) == t {
                n += 1;
            }
        }
    }
    n
}

#[test]
fn map_border_is_wall() {
    let map = create_map();
    for x in 0..COLS {
        assert_eq!(map.get(x, 0), Tile::Wall);
        assert_eq!(map.get(x, ROWS - 1), Tile::Wall);
    }
    for y in 0..ROWS {
        assert_eq!(map.get(0, y), Tile::Wall);
        assert_eq!(map.get(COLS - 1, y), Tile::Wall);
    }
}

#[test]
fn map_pillars_on_even_cells() {
    let map = create_map();
    assert_eq!(map.get(2, 2), Tile::Wall);
    assert_eq!(map.get(4, 2), Tile::Wall);
    assert_eq!(map.get(10, 8), Tile::Wall);
}

#[test]
fn map_bricks_where_sum_divisible_by_three() {
    let map = create_map();
    assert_eq!(map.get(3, 3), Tile::Brick);
    assert_eq!(map.get(5, 1), Tile::Brick);
    assert_eq!(map.get(1, 5), Tile::Brick);
    assert_eq!(map.get(3, 1), Tile::Empty);
    assert_eq!(map.get(11, 9), Tile::Empty);
}

#[test]
fn map_start_corner_is_clear() {
    let map = create_map();
    assert_eq!(map.get(1, 1), Tile::Empty);
    assert_eq!(map.get(2, 1), Tile::Empty);
    assert_eq!(map.get(1, 2), Tile::Empty);
}

#[test]
fn map_tile_counts() {
    let map = create_map();
    // 44 border cells, 20 pillars
    assert_eq!(count_tiles(&map, Tile::Wall), 64);
    assert_eq!(count_tiles(&map, Tile::Wall) + count_tiles(&map, Tile::Brick) + count_tiles(&map, Tile::Empty), 143);
}

#[test]
fn walkable_cells() {
    let map = create_map();
    assert!(is_walkable(&map, 1, 1));
    assert!(!is_walkable(&map, 0, 0));
    assert!(!is_walkable(&map, 3, 3));
    assert!(!is_walkable(&map, -1, 1));
    assert!(!is_walkable(&map, 1, -1));
    assert!(!is_walkable(&map, COLS as i32, 1));
    assert!(!is_walkable(&map, 1, ROWS as i32));
}

#[test]
fn set_changes_one_cell() {
    let mut map = create_map();
    map.set(3, 3, Tile::Empty);
    assert_eq!(map.get(3, 3), Tile::Empty);
    assert_eq!(map.get(5, 1), Tile::Brick);
    assert!(is_walkable(&map, 3, 3));
}
