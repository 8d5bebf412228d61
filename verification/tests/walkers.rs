use bomber::chance::{
    direction_from_roll, power_up_drops, power_up_kind_from_roll, random_direction, random_power_up_kind,
    roll_power_up_drop,
};
use bomber::enemies::{remove_enemies_hit_by_explosions, step_enemy, update_enemies};
use bomber::entities::{
    direction_delta, Bomb, Direction, Enemy, Explosion, Player, PowerUp, PowerUpKind, ENEMY_MOVE_DELAY_MS,
    PLAYER_MOVE_DELAY_MS,
};
use bomber::grid::create_map;
use bomber::player::{
    collect_power_ups, handle_player_input, player_hit_by_enemy, player_hit_by_explosion, try_move_player,
    MoveKeys,
};

fn player_at(x: usize, y: usize) -> Player {
    Player { x, y, bomb_range: 2, max_bombs: 1, move_timer: 0 }
}

const NO_KEYS: MoveKeys = MoveKeys { up: false, down: false, left: false, right: false };

#[test]
fn deltas_of_directions() {
    assert_eq!(direction_delta(Direction::Up), (0, -1));
    assert_eq!(direction_delta(Direction::Down), (0, 1));
    assert_eq!(direction_delta(Direction::Left), (-1, 0));
    assert_eq!(direction_delta(Direction::Right), (1, 0));
}

#[test]
fn player_moves_onto_empty_cell() {
    let map = create_map();
    let mut p = player_at(1, 1);
    assert!(try_move_player(&map, &[], &mut p, 1, 0));
    assert_eq!((p.x, p.y), (2, 1));
}

#[test]
fn player_blocked_by_wall_and_brick() {
    let map = create_map();
    let mut p = player_at(1, 1);
    assert!(!try_move_player(&map, &[], &mut p, 0, -1));
    assert_eq!((p.x, p.y), (1, 1));
    let mut q = player_at(2, 1);
    // (2, 2) is a pillar
    assert!(!try_move_player(&map, &[], &mut q, 0, 1));
    let mut r = player_at(4, 1);
    // (5, 1) is a brick
    assert!(!try_move_player(&map, &[], &mut r, 1, 0));
    assert_eq!((r.x, r.y), (4, 1));
}

#[test]
fn player_blocked_by_bomb() {
    let map = create_map();
    let bombs = vec![Bomb { x: 2, y: 1, timer: 1000, range: 2 }];
    let mut p = player_at(1, 1);
    assert!(!try_move_player(&map, &bombs, &mut p, 1, 0));
    assert_eq!((p.x, p.y), (1, 1));
}

#[test]
fn step_pause_runs_down_first() {
    let map = create_map();
    let mut p = Player { move_timer: 100, ..player_at(1, 1) };
    let keys = MoveKeys { right: true, ..NO_KEYS };
    handle_player_input(&map, &[], &mut p, 16, keys);
    assert_eq!((p.x, p.y, p.move_timer), (1, 1, 84));
}

#[test]
fn step_taken_when_pause_over() {
    let map = create_map();
    let mut p = Player { move_timer: 10, ..player_at(1, 1) };
    let keys = MoveKeys { right: true, ..NO_KEYS };
    handle_player_input(&map, &[], &mut p, 16, keys);
    assert_eq!((p.x, p.y, p.move_timer), (2, 1, PLAYER_MOVE_DELAY_MS));
}

#[test]
fn up_wins_over_other_keys() {
    let map = create_map();
    let mut p = player_at(1, 2);
    let keys = MoveKeys { up: true, down: true, left: true, right: true };
    handle_player_input(&map, &[], &mut p, 16, keys);
    assert_eq!((p.x, p.y), (1, 1));
    let mut q = player_at(1, 1);
    let keys = MoveKeys { down: true, right: true, ..NO_KEYS };
    handle_player_input(&map, &[], &mut q, 16, keys);
    assert_eq!((q.x, q.y), (1, 2));
}

#[test]
fn blocked_step_leaves_pause_at_zero() {
    let map = create_map();
    let mut p = player_at(1, 1);
    let keys = MoveKeys { up: true, ..NO_KEYS };
    handle_player_input(&map, &[], &mut p, 16, keys);
    assert_eq!((p.x, p.y, p.move_timer), (1, 1, 0));
}

#[test]
fn power_ups_collected_on_own_cell() {
    let mut p = player_at(1, 1);
    let mut power_ups = vec![
        PowerUp { x: 1, y: 1, kind: PowerUpKind::Range },
        PowerUp { x: 2, y: 1, kind: PowerUpKind::Bomb },
        PowerUp { x: 1, y: 1, kind: PowerUpKind::Bomb },
        PowerUp { x: 1, y: 1, kind: PowerUpKind::Range },
    ];
    collect_power_ups(&mut p, &mut power_ups);
    assert_eq!(p.bomb_range, 4);
    assert_eq!(p.max_bombs, 2);
    assert_eq!(power_ups, vec![PowerUp { x: 2, y: 1, kind: PowerUpKind::Bomb }]);
}

#[test]
fn player_caught_by_fire_or_enemy() {
    let p = player_at(1, 1);
    let fire = vec![Explosion { x: 2, y: 1, timer: 5 }];
    assert!(!player_hit_by_explosion(&p, &fire));
    let fire = vec![Explosion { x: 2, y: 1, timer: 5 }, Explosion { x: 1, y: 1, timer: 5 }];
    assert!(player_hit_by_explosion(&p, &fire));
    let enemies = vec![Enemy { x: 1, y: 2, direction: Direction::Up, move_timer: 0 }];
    assert!(!player_hit_by_enemy(&p, &enemies));
    let enemies = vec![Enemy { x: 1, y: 1, direction: Direction::Up, move_timer: 0 }];
    assert!(player_hit_by_enemy(&p, &enemies));
}

#[test]
fn enemy_waits_then_walks() {
    let map = create_map();
    let e = Enemy { x: 11, y: 9, direction: Direction::Left, move_timer: 100 };
    let (e1, blocked) = step_enemy(&map, &[], e, 16);
    assert!(!blocked);
    assert_eq!(e1, Enemy { move_timer: 84, ..e });
    let (e2, blocked) = step_enemy(&map, &[], Enemy { move_timer: 16, ..e }, 16);
    assert!(!blocked);
    assert_eq!(e2, Enemy { x: 10, y: 9, direction: Direction::Left, move_timer: ENEMY_MOVE_DELAY_MS });
}

#[test]
fn enemy_blocked_by_wall_or_bomb() {
    let map = create_map();
    let e = Enemy { x: 11, y: 9, direction: Direction::Right, move_timer: 0 };
    let (e1, blocked) = step_enemy(&map, &[], e, 16);
    assert!(blocked);
    assert_eq!(e1, Enemy { move_timer: ENEMY_MOVE_DELAY_MS, ..e });
    let bombs = vec![Bomb { x: 10, y: 9, timer: 100, range: 1 }];
    let e = Enemy { x: 11, y: 9, direction: Direction::Left, move_timer: 0 };
    let (e2, blocked) = step_enemy(&map, &bombs, e, 16);
    assert!(blocked);
    assert_eq!((e2.x, e2.y), (11, 9));
}

#[test]
fn enemies_walk_together() {
    let map = create_map();
    let mut enemies = vec![
        Enemy { x: 11, y: 9, direction: Direction::Left, move_timer: 0 },
        Enemy { x: 11, y: 9, direction: Direction::Right, move_timer: 0 },
        Enemy { x: 1, y: 1, direction: Direction::Down, move_timer: 300 },
    ];
    update_enemies(&map, &[], &mut enemies, 16);
    assert_eq!(enemies[0], Enemy { x: 10, y: 9, direction: Direction::Left, move_timer: ENEMY_MOVE_DELAY_MS });
    assert_eq!((enemies[1].x, enemies[1].y, enemies[1].move_timer), (11, 9, ENEMY_MOVE_DELAY_MS));
    assert_eq!(enemies[2], Enemy { x: 1, y: 1, direction: Direction::Down, move_timer: 284 });
}

#[test]
fn enemies_in_fire_are_removed() {
    let mut enemies = vec![
        Enemy { x: 1, y: 1, direction: Direction::Up, move_timer: 0 },
        Enemy { x: 2, y: 1, direction: Direction::Down, move_timer: 0 },
        Enemy { x: 3, y: 1, direction: Direction::Left, move_timer: 0 },
    ];
    let fire = vec![Explosion { x: 2, y: 1, timer: 100 }];
    remove_enemies_hit_by_explosions(&mut enemies, &fire);
    assert_eq!(enemies.len(), 2);
    assert_eq!((enemies[0].x, enemies[1].x), (1, 3));
}

#[test]
fn rolls_map_to_values() {
    assert_eq!(direction_from_roll(0), Direction::Up);
    assert_eq!(direction_from_roll(1), Direction::Down);
    assert_eq!(direction_from_roll(2), Direction::Left);
    assert_eq!(direction_from_roll(3), Direction::Right);
    assert_eq!(power_up_kind_from_roll(0), PowerUpKind::Range);
    assert_eq!(power_up_kind_from_roll(1), PowerUpKind::Bomb);
    assert!(power_up_drops(0));
    assert!(power_up_drops(29));
    assert!(!power_up_drops(30));
    assert!(!power_up_drops(99));
}

#[test]
fn dice_stay_in_range_and_vary() {
    let mut rolls = Vec::new();
    for _ in 0..500 {
        let r = roll_power_up_drop();
        assert!((0..100).contains(&r));
        rolls.push(r);
    }
    assert!(rolls.iter().any(|&r| r != rolls[0]));
    assert!(rolls.iter().any(|&r| r >= 50));
    let mut seen = Vec::new();
    for _ in 0..200 {
        let d = random_direction();
        if !seen.contains(&d) {
            seen.push(d);
        }
    }
    assert_eq!(seen.len(), 4);
    let mut kinds = Vec::new();
    for _ in 0..200 {
        let k = random_power_up_kind();
        if !kinds.contains(&k) {
            kinds.push(k);
        }
    }
    assert_eq!(kinds.len(), 2);
}
