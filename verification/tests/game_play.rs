use bomber::entities::{Bomb, Direction, Enemy, Explosion, Player, PowerUp, PowerUpKind};
use bomber::game::{hud_info, reset_game, FrameInput, Game};
use bomber::grid::{create_map, Tile};
use bomber::player::MoveKeys;

const NO_KEYS: MoveKeys = MoveKeys { up: false, down: false, left: false, right: false };

fn input(dt: u32) -> FrameInput {
    FrameInput { delta_ms: dt, keys: NO_KEYS, place_bomb: false, restart: false }
}

#[test]
fn new_game_starts_fresh() {
    let g = Game::new();
    assert_eq!(g.player, Player { x: 1, y: 1, bomb_range: 2, max_bombs: 1, move_timer: 0 });
    assert_eq!(g.enemies, vec![Enemy { x: 11, y: 9, direction: Direction::Left, move_timer: 0 }]);
    assert!(g.bombs.is_empty() && g.explosions.is_empty() && g.power_ups.is_empty());
    assert!(!g.game_over && !g.game_won);
    assert_eq!(g.map.get(3, 3), Tile::Brick);
}

#[test]
fn reset_puts_everything_back() {
    let mut map = create_map();
    map.set(3, 3, Tile::Empty);
    let mut player = Player { x: 5, y: 5, bomb_range: 7, max_bombs: 4, move_timer: 3 };
    let mut bombs = vec![Bomb { x: 5, y: 5, timer: 9, range: 7 }];
    let mut explosions = vec![Explosion { x: 1, y: 1, timer: 3 }];
    let mut power_ups = vec![PowerUp { x: 3, y: 3, kind: PowerUpKind::Bomb }];
    let mut over = true;
    let mut enemies = Vec::new();
    let mut won = true;
    reset_game(&mut map, &mut player, &mut bombs, &mut explosions, &mut power_ups, &mut over, &mut enemies, &mut won);
    assert_eq!(map.get(3, 3), Tile::Brick);
    assert_eq!(player, Player { x: 1, y: 1, bomb_range: 2, max_bombs: 1, move_timer: 0 });
    assert!(bombs.is_empty() && explosions.is_empty() && power_ups.is_empty());
    assert_eq!(enemies.len(), 1);
    assert!(!over && !won);
}

#[test]
fn hud_numbers() {
    let player = Player { x: 1, y: 1, bomb_range: 3, max_bombs: 2, move_timer: 0 };
    let bombs = vec![Bomb { x: 1, y: 1, timer: 9, range: 3 }];
    let h = hud_info(&player, &bombs, &[]);
    assert_eq!((h.bomb_range, h.available_bombs, h.max_bombs, h.enemies), (3, 1, 2, 0));
    let bombs = vec![bombs[0], Bomb { x: 2, y: 1, timer: 9, range: 3 }, Bomb { x: 3, y: 1, timer: 9, range: 3 }];
    assert_eq!(hud_info(&player, &bombs, &[]).available_bombs, 0);
}

#[test]
fn player_walks_and_lays_a_bomb() {
    let mut g = Game::new();
    g.step(FrameInput { keys: MoveKeys { right: true, ..NO_KEYS }, ..input(16) });
    assert_eq!((g.player.x, g.player.y), (2, 1));
    g.step(FrameInput { place_bomb: true, ..input(16) });
    assert_eq!(g.bombs.len(), 1);
    assert_eq!((g.bombs[0].x, g.bombs[0].y), (2, 1));
    // only one bomb at a time at the start
    g.step(FrameInput { place_bomb: true, ..input(16) });
    assert_eq!(g.bombs.len(), 1);
}

#[test]
fn own_bomb_ends_the_game() {
    let mut g = Game::new();
    g.step(FrameInput { place_bomb: true, ..input(16) });
    assert!(!g.game_over);
    // let the fuse burn out while standing on the bomb
    g.step(input(2000));
    assert!(g.game_over);
    assert!(!g.game_won);
    assert!(g.bombs.is_empty());
}

#[test]
fn finished_game_stays_until_restart() {
    let mut g = Game::new();
    g.game_over = true;
    g.step(FrameInput { keys: MoveKeys { right: true, ..NO_KEYS }, place_bomb: true, ..input(16) });
    assert_eq!((g.player.x, g.player.y), (1, 1));
    assert!(g.bombs.is_empty());
    assert!(g.game_over);
    g.step(FrameInput { restart: true, ..input(16) });
    assert!(!g.game_over);
    assert_eq!(g.enemies.len(), 1);
}

#[test]
fn no_enemies_left_wins() {
    let mut g = Game::new();
    g.enemies.clear();
    g.step(input(16));
    assert!(g.game_won);
    assert!(!g.game_over);
    // a won game does not move on
    g.step(FrameInput { keys: MoveKeys { down: true, ..NO_KEYS }, ..input(16) });
    assert_eq!((g.player.x, g.player.y), (1, 1));
}

#[test]
fn enemy_on_player_loses() {
    let mut g = Game::new();
    g.enemies = vec![Enemy { x: 1, y: 1, direction: Direction::Up, move_timer: 400 }];
    g.step(input(16));
    assert!(g.game_over);
}

#[test]
fn fire_kills_enemy_and_wins() {
    let mut g = Game::new();
    g.enemies = vec![Enemy { x: 3, y: 1, direction: Direction::Up, move_timer: 400 }];
    g.player.x = 1;
    g.player.y = 2;
    g.bombs = vec![Bomb { x: 2, y: 1, timer: 10, range: 1 }];
    g.step(input(16));
    assert!(g.enemies.is_empty());
    assert!(g.game_won);
    assert!(!g.game_over);
}

#[test]
fn power_up_picked_up_while_walking() {
    let mut g = Game::new();
    g.power_ups = vec![PowerUp { x: 2, y: 1, kind: PowerUpKind::Range }];
    g.step(FrameInput { keys: MoveKeys { right: true, ..NO_KEYS }, ..input(16) });
    assert_eq!(g.player.bomb_range, 3);
    assert!(g.power_ups.is_empty());
}

#[test]
fn board_only_loses_bricks_over_a_game() {
    let mut g = Game::new();
    let start = create_map();
    let moves = [
        MoveKeys { right: true, ..NO_KEYS },
        MoveKeys { right: true, ..NO_KEYS },
        MoveKeys { down: true, ..NO_KEYS },
        MoveKeys { left: true, ..NO_KEYS },
    ];
    for (i, keys) in moves.iter().enumerate() {
        g.step(FrameInput { delta_ms: 200, keys: *keys, place_bomb: i == 1, restart: false });
    }
    for _ in 0..20 {
        g.step(input(200));
    }
    for y in 0..11 {
        for x in 0..13 {
            let before = start.get(x, y);
            let after = g.map.get(x, y);
            assert!(after == before || (before == Tile::Brick && after == Tile::Empty));
        }
    }
    // the player, the enemies and the power-ups stand on empty cells
    assert_eq!(g.map.get(g.player.x, g.player.y), Tile::Empty);
    for e in &g.enemies {
        assert_eq!(g.map.get(e.x, e.y), Tile::Empty);
    }
    for p in &g.power_ups {
        assert_eq!(g.map.get(p.x, p.y), Tile::Empty);
    }
    assert!(g.bombs.len() <= g.player.max_bombs);
}

#[test]
fn bombs_never_share_a_cell() {
    let mut g = Game::new();
    g.player.max_bombs = 3;
    for _ in 0..3 {
        g.step(FrameInput { place_bomb: true, ..input(1) });
    }
    assert_eq!(g.bombs.len(), 1);
    g.step(FrameInput { keys: MoveKeys { right: true, ..NO_KEYS }, ..input(1) });
    // the player cannot step onto the bomb behind, but may lay a second one here
    g.step(FrameInput { place_bomb: true, ..input(1) });
    assert_eq!(g.bombs.len(), 2);
    assert_ne!((g.bombs[0].x, g.bombs[0].y), (g.bombs[1].x, g.bombs[1].y));
}
