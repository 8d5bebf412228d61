use bomber::bombs::{handle_bomb_input, has_bomb_at, queue_bombs_hit_by_explosions, update_bombs, update_explosions};
use bomber::entities::{Bomb, Explosion, Player, PowerUp, BOMB_FUSE_MS, EXPLOSION_MS};
use bomber::grid::{create_map, Tile};

fn player_at(x: usize, y: usize, max_bombs: usize) -> Player {
    Player { x, y, bomb_range: 2, max_bombs, move_timer: 0 }
}

fn bomb(x: usize, y: usize, timer: u32, range: i32) -> Bomb {
    Bomb { x, y, timer, range }
}

#[test]
fn bomb_key_lays_a_bomb() {
    let player = player_at(1, 1, 1);
    let mut bombs = Vec::new();
    handle_bomb_input(&player, &mut bombs, true);
    assert_eq!(bombs, vec![bomb(1, 1, BOMB_FUSE_MS, 2)]);
}

#[test]
fn no_bomb_without_key() {
    let player = player_at(1, 1, 1);
    let mut bombs = Vec::new();
    handle_bomb_input(&player, &mut bombs, false);
    assert!(bombs.is_empty());
}

#[test]
fn no_bomb_beyond_limit() {
    let player = player_at(1, 1, 1);
    let mut bombs = vec![bomb(3, 1, 500, 2)];
    handle_bomb_input(&player, &mut bombs, true);
    assert_eq!(bombs.len(), 1);
}

#[test]
fn no_second_bomb_on_a_cell() {
    let player = player_at(1, 1, 3);
    let mut bombs = vec![bomb(1, 1, 500, 2)];
    handle_bomb_input(&player, &mut bombs, true);
    assert_eq!(bombs, vec![bomb(1, 1, 500, 2)]);
}

#[test]
fn bomb_lookup() {
    let bombs = vec![bomb(3, 1, 500, 2), bomb(1, 2, 500, 2)];
    assert!(has_bomb_at(&bombs, 1, 2));
    assert!(has_bomb_at(&bombs, 3, 1));
    assert!(!has_bomb_at(&bombs, 2, 1));
    assert!(!has_bomb_at(&bombs, -1, 2));
    assert!(!has_bomb_at(&bombs, 3, -1));
}

#[test]
fn queue_moves_hit_bombs_in_order() {
    let mut bombs = vec![bomb(1, 1, 10, 1), bomb(2, 1, 20, 1), bomb(3, 1, 30, 1), bomb(5, 5, 40, 1)];
    let fire = vec![
        Explosion { x: 3, y: 1, timer: 400 },
        Explosion { x: 1, y: 1, timer: 400 },
    ];
    let mut queue = vec![bomb(9, 9, 0, 1)];
    queue_bombs_hit_by_explosions(&mut bombs, &fire, &mut queue);
    assert_eq!(bombs, vec![bomb(2, 1, 20, 1), bomb(5, 5, 40, 1)]);
    assert_eq!(queue, vec![bomb(9, 9, 0, 1), bomb(1, 1, 10, 1), bomb(3, 1, 30, 1)]);
}

#[test]
fn fuses_burn_down() {
    let mut map = create_map();
    let mut bombs = vec![bomb(1, 1, 2000, 2), bomb(11, 9, 100, 2)];
    let mut explosions = Vec::new();
    let mut power_ups: Vec<PowerUp> = Vec::new();
    update_bombs(&mut map, &mut bombs, &mut explosions, &mut power_ups, 16);
    assert_eq!(bombs, vec![bomb(1, 1, 1984, 2), bomb(11, 9, 84, 2)]);
    assert!(explosions.is_empty());
}

#[test]
fn burnt_out_bomb_goes_off() {
    let mut map = create_map();
    let mut bombs = vec![bomb(1, 1, 10, 2)];
    let mut explosions = vec![Explosion { x: 9, y: 9, timer: 5 }];
    let mut power_ups: Vec<PowerUp> = Vec::new();
    update_bombs(&mut map, &mut bombs, &mut explosions, &mut power_ups, 16);
    assert!(bombs.is_empty());
    let cells: Vec<(usize, usize)> = explosions.iter().map(|e| (e.x, e.y)).collect();
    assert_eq!(cells, vec![(9, 9), (1, 1), (1, 2), (1, 3), (2, 1), (3, 1)]);
    assert_eq!(explosions[0].timer, 5);
    assert!(explosions[1..].iter().all(|e| e.timer == EXPLOSION_MS));
}

#[test]
fn chain_reaction_sets_off_bombs_in_the_blast() {
    let mut map = create_map();
    // (1, 1) goes off now; (3, 1) lies in its fire; (11, 9) lies far away
    let mut bombs = vec![bomb(1, 1, 0, 2), bomb(3, 1, 1500, 1), bomb(11, 9, 1500, 1)];
    let mut explosions = Vec::new();
    let mut power_ups: Vec<PowerUp> = Vec::new();
    update_bombs(&mut map, &mut bombs, &mut explosions, &mut power_ups, 16);
    assert_eq!(bombs, vec![bomb(11, 9, 1484, 1)]);
    let cells: Vec<(usize, usize)> = explosions.iter().map(|e| (e.x, e.y)).collect();
    // first blast, then the blast of the bomb it reached
    assert_eq!(
        cells,
        vec![(1, 1), (1, 2), (1, 3), (2, 1), (3, 1), (3, 1), (3, 2), (2, 1), (4, 1)]
    );
    // no bomb left stands in the fire
    for b in &bombs {
        assert!(!cells.contains(&(b.x, b.y)));
    }
}

#[test]
fn chain_reaction_breaks_bricks_of_later_blasts() {
    let mut map = create_map();
    let mut bombs = vec![bomb(1, 1, 0, 2), bomb(3, 1, 1500, 2)];
    let mut explosions = Vec::new();
    let mut power_ups: Vec<PowerUp> = Vec::new();
    update_bombs(&mut map, &mut bombs, &mut explosions, &mut power_ups, 16);
    assert!(bombs.is_empty());
    // the second bomb (range 2) reaches the brick at (3, 3) and the one at (5, 1)
    assert_eq!(map.get(3, 3), Tile::Empty);
    assert_eq!(map.get(5, 1), Tile::Empty);
    assert!(power_ups.len() <= 2);
}

#[test]
fn fire_dies_down() {
    let mut explosions = vec![
        Explosion { x: 1, y: 1, timer: 400 },
        Explosion { x: 2, y: 1, timer: 10 },
        Explosion { x: 3, y: 1, timer: 16 },
        Explosion { x: 4, y: 1, timer: 17 },
    ];
    update_explosions(&mut explosions, 16);
    assert_eq!(
        explosions,
        vec![Explosion { x: 1, y: 1, timer: 384 }, Explosion { x: 4, y: 1, timer: 1 }]
    );
}
