//! The things that stand on the board, and the game's time constants.

use vstd::prelude::*;

verus! {

/// Fuse of a freshly placed bomb, in milliseconds.
pub const BOMB_FUSE_MS: u32 = 2000;

/// How long the fire of a blast stays on a cell, in milliseconds.
pub const EXPLOSION_MS: u32 = 400;

/// Pause between two steps of an enemy, in milliseconds.
pub const ENEMY_MOVE_DELAY_MS: u32 = 500;

/// Pause between two steps of the player, in milliseconds.
pub const PLAYER_MOVE_DELAY_MS: u32 = 150;

/// Blast range of the player's bombs at the start.
pub const START_BOMB_RANGE: i32 = 2;

/// Number of bombs the player may have on the board at the start.
pub const START_MAX_BOMBS: usize = 1;

/// What is left of a countdown after `dt` milliseconds; a countdown stops at zero.
pub open spec fn tick(timer: u32, dt: u32) -> u32 {
    if timer > dt {
        (timer - dt) as u32
    } else {
        0
    }
}

/// Counts a countdown down by `dt` milliseconds.
pub fn tick_timer(timer: u32, dt: u32) -> (r: u32)
    ensures
        r == tick(timer, dt),
{
    if timer > dt {
        timer - dt
    } else {
        0
    }
}

#[derive(Clone, Copy, PartialEq, Eq, Debug, Structural)]
pub struct Player {
    pub x: usize,
    pub y: usize,
    pub bomb_range: i32,
    pub max_bombs: usize,
    /// Time until the player may take the next step.
    pub move_timer: u32,
}

#[derive(Clone, Copy, PartialEq, Eq, Debug, Structural)]
pub struct Bomb {
    pub x: usize,
    pub y: usize,
    /// Time until the bomb goes off.
    pub timer: u32,
    pub range: i32,
}

#[derive(Clone, Copy, PartialEq, Eq, Debug, Structural)]
pub struct Explosion {
    pub x: usize,
    pub y: usize,
    /// Time until the fire on this cell dies out.
    pub timer: u32,
}

#[derive(Clone, Copy, PartialEq, Eq, Debug, Structural)]
pub enum Direction {
    Up,
    Down,
    Left,
    Right,
}

#[derive(Clone, Copy, PartialEq, Eq, Debug, Structural)]
pub struct Enemy {
    pub x: usize,
    pub y: usize,
    pub direction: Direction,
    /// Time until the enemy takes its next step.
    pub move_timer: u32,
}

#[derive(Clone, Copy, PartialEq, Eq, Debug, Structural)]
pub enum PowerUpKind {
    /// Makes the player's bombs reach one cell further.
    Range,
    /// Lets the player have one more bomb on the board.
    Bomb,
}

#[derive(Clone, Copy, PartialEq, Eq, Debug, Structural)]
pub struct PowerUp {
    pub x: usize,
    pub y: usize,
    pub kind: PowerUpKind,
}

/// The step `(dx, dy)` that one move in `direction` makes; `y` grows downwards.
pub open spec fn delta_of(direction: Direction) -> (i32, i32) {
    match direction {
        Direction::Up => (0i32, -1i32),
        Direction::Down => (0i32, 1i32),
        Direction::Left => (-1i32, 0i32),
        Direction::Right => (1i32, 0i32),
    }
}

/// The step that one move in `direction` makes.
pub fn direction_delta(direction: Direction) -> (d: (i32, i32))
    ensures
        d == delta_of(direction),
{
    match direction {
        Direction::Up => (0, -1),
        Direction::Down => (0, 1),
        Direction::Left => (-1, 0),
        Direction::Right => (1, 0),
    }
}

/// The cell on which a bomb lies.
pub open spec fn bomb_cell(b: Bomb) -> (int, int) {
    (b.x as int, b.y as int)
}

/// The cells that carry a bomb, in the order of the bombs.
pub open spec fn bomb_cells(bombs: Seq<Bomb>) -> Seq<(int, int)> {
    bombs.map_values(|b: Bomb| bomb_cell(b))
}

/// The cells on fire, in the order of the explosions.
pub open spec fn fire_cells(explosions: Seq<Explosion>) -> Seq<(int, int)> {
    explosions.map_values(|e: Explosion| (e.x as int, e.y as int))
}

/// Fresh fire, at full strength, on each of `cells` in order.
pub open spec fn fresh_fire(cells: Seq<(int, int)>) -> Seq<Explosion> {
    cells.map_values(|c: (int, int)| Explosion { x: c.0 as usize, y: c.1 as usize, timer: EXPLOSION_MS })
}

/// Whether a bomb lies on `(x, y)`.
pub open spec fn bomb_at(bombs: Seq<Bomb>, x: int, y: int) -> bool {
    bomb_cells(bombs).contains((x, y))
}

/// Whether fire burns on `(x, y)`.
pub open spec fn fire_at(explosions: Seq<Explosion>, x: int, y: int) -> bool {
    fire_cells(explosions).contains((x, y))
}

/// Whether an enemy stands on `(x, y)`.
pub open spec fn enemy_at(enemies: Seq<Enemy>, x: int, y: int) -> bool {
    exists|i: int| 0 <= i < enemies.len() && enemies[i].x == x && enemies[i].y == y
}

/// Looks for a bomb on `(x, y)` of the board.
pub fn bomb_on_cell(bombs: &[Bomb], x: usize, y: usize) -> (r: bool)
    ensures
        r == bomb_at(bombs@, x as int, y as int),
{
    let mut i: usize = 0;
    while i < bombs.len()
        invariant
            i <= bombs@.len(),
            forall|j: int| 0 <= j < i ==> bomb_cell(#[trigger] bombs@[j]) != (x as int, y as int),
        decreases bombs@.len() - i,
    {
        if bombs[i].x == x && bombs[i].y == y {
            assert(bomb_cells(bombs@)[i as int] == (x as int, y as int));
            return true;
        }
        i += 1;
    }
    proof {
        if bomb_cells(bombs@).contains((x as int, y as int)) {
            let j = choose|j: int| 0 <= j < bomb_cells(bombs@).len() && bomb_cells(bombs@)[j] == (x as int, y as int);
            assert(bomb_cell(bombs@[j]) == (x as int, y as int));
        }
    }
    false
}

/// Looks for fire on `(x, y)` of the board.
pub fn fire_on_cell(explosions: &[Explosion], x: usize, y: usize) -> (r: bool)
    ensures
        r == fire_at(explosions@, x as int, y as int),
{
    let mut i: usize = 0;
    while i < explosions.len()
        invariant
            i <= explosions@.len(),
            forall|j: int| 0 <= j < i ==> fire_cells(explosions@)[j] != (x as int, y as int),
        decreases explosions@.len() - i,
    {
        if explosions[i].x == x && explosions[i].y == y {
            assert(fire_cells(explosions@)[i as int] == (x as int, y as int));
            return true;
        }
        i += 1;
    }
    false
}

} // verus!
