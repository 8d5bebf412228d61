use bomber::blast::{compute_blast, create_explosion_area};
use bomber::entities::{Explosion, PowerUp, PowerUpKind, EXPLOSION_MS};
use bomber::grid::{create_map, Tile};

fn cells(explosions: &[Explosion]) -> Vec<(usize, usize)> {
    explosions.iter().map(|e| (e.x, e.y)).collect()
}

#[test]
fn blast_in_open_corner() {
    let mut map = create_map();
    let mut power_ups: Vec<PowerUp> = Vec::new();
    let fire = create_explosion_area(&mut map, &mut power_ups, 1, 1, 2);
    assert_eq!(cells(&fire), vec![(1, 1), (1, 2), (1, 3), (2, 1), (3, 1)]);
    assert!(fire.iter().all(|e| e.timer == EXPLOSION_MS));
    assert!(power_ups.is_empty());
}

#[test]
fn blast_breaks_first_brick_and_stops() {
    let mut map = create_map();
    let mut power_ups: Vec<PowerUp> = Vec::new();
    let fire = create_explosion_area(&mut map, &mut power_ups, 3, 1, 3);
    assert_eq!(
        cells(&fire),
        vec![(3, 1), (3, 2), (3, 3), (2, 1), (1, 1), (4, 1), (5, 1)]
    );
    assert_eq!(map.get(3, 3), Tile::Empty);
    assert_eq!(map.get(5, 1), Tile::Empty);
    // the cells behind the broken bricks are untouched
    assert_eq!(map.get(3, 5), create_map().get(3, 5));
    assert_eq!(map.get(6, 1), create_map().get(6, 1));
    assert!(power_ups.len() <= 2);
    for p in &power_ups {
        assert!((p.x, p.y) == (3, 3) || (p.x, p.y) == (5, 1));
    }
}

#[test]
fn blast_never_breaks_walls() {
    let mut map = create_map();
    let mut power_ups: Vec<PowerUp> = Vec::new();
    let fire = create_explosion_area(&mut map, &mut power_ups, 1, 1, 50);
    assert_eq!(map.get(0, 1), Tile::Wall);
    assert_eq!(map.get(1, 0), Tile::Wall);
    assert!(!cells(&fire).contains(&(0, 1)));
    assert!(!cells(&fire).contains(&(1, 0)));
}

#[test]
fn blast_of_zero_range_burns_only_its_cell() {
    let mut map = create_map();
    let mut power_ups: Vec<PowerUp> = Vec::new();
    let fire = create_explosion_area(&mut map, &mut power_ups, 1, 1, 0);
    assert_eq!(cells(&fire), vec![(1, 1)]);
    let fire = create_explosion_area(&mut map, &mut power_ups, 1, 1, -3);
    assert_eq!(cells(&fire), vec![(1, 1)]);
}

#[test]
fn compute_blast_reports_bricks() {
    let map = create_map();
    let (fire, bricks) = compute_blast(&map, 3, 1, 3);
    assert_eq!(fire.len(), 7);
    assert_eq!(bricks, vec![(3, 3), (5, 1)]);
    // reading the blast leaves the board alone
    assert_eq!(map.get(3, 3), Tile::Brick);
}

#[test]
fn blast_cells_are_distinct() {
    let mut map = create_map();
    // open a long corridor on row 1
    for x in 1..12 {
        map.set(x, 1, Tile::Empty);
    }
    let mut power_ups: Vec<PowerUp> = Vec::new();
    let fire = create_explosion_area(&mut map, &mut power_ups, 6, 1, 20);
    let c = cells(&fire);
    for i in 0..c.len() {
        for j in (i + 1)..c.len() {
            assert_ne!(c[i], c[j]);
        }
    }
    assert_eq!(c.len(), 11);
}

#[test]
fn broken_bricks_may_leave_power_ups() {
    // break many bricks: some of them leave a power-up, none leaves two
    let mut dropped = 0;
    let mut broken = 0;
    for _ in 0..200 {
        let mut map = create_map();
        let mut power_ups: Vec<PowerUp> = Vec::new();
        let _ = create_explosion_area(&mut map, &mut power_ups, 3, 1, 3);
        broken += 2;
        dropped += power_ups.len();
        assert!(power_ups.iter().all(|p| p.kind == PowerUpKind::Range || p.kind == PowerUpKind::Bomb));
    }
    assert!(dropped > 0);
    assert!(dropped < broken);
}
