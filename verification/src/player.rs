//! The player: walking, picking up power-ups, and getting caught.

use vstd::prelude::*;
use crate::grid::{is_walkable, walkable, GameMap};
use crate::entities::{
    bomb_at, bomb_cells, enemy_at, fire_at, fire_on_cell, tick, tick_timer, Bomb, Enemy, Explosion, Player,
    PowerUp, PowerUpKind, PLAYER_MOVE_DELAY_MS,
};
use crate::bombs::has_bomb_at;

verus! {

/// The arrow keys held down during a frame.
#[derive(Clone, Copy, PartialEq, Eq, Debug, Structural)]
pub struct MoveKeys {
    pub up: bool,
    pub down: bool,
    pub left: bool,
    pub right: bool,
}

/// The step that the held keys ask for; when several are held, up wins over
/// down, down over left, and left over right.
pub open spec fn requested_step(keys: MoveKeys) -> Option<(i32, i32)> {
    if keys.up {
        Some((0i32, -1i32))
    } else if keys.down {
        Some((0i32, 1i32))
    } else if keys.left {
        Some((-1i32, 0i32))
    } else if keys.right {
        Some((1i32, 0i32))
    } else {
        None
    }
}

/// Whether a walker on `(x, y)` may step by `(dx, dy)`: the target cell is
/// on the board, empty, and holds no bomb.
pub open spec fn can_step(tiles: Seq<crate::grid::Tile>, bombs: Seq<Bomb>, x: int, y: int, dx: int, dy: int) -> bool {
    walkable(tiles, x + dx, y + dy) && !bomb_at(bombs, x + dx, y + dy)
}

/// The player moved by `(dx, dy)`.
pub open spec fn moved(player: Player, dx: int, dy: int) -> Player {
    Player { x: (player.x + dx) as usize, y: (player.y + dy) as usize, ..player }
}

/// Moves the player by `(dx, dy)` when the target cell is free; tells
/// whether the player moved.
pub fn try_move_player(map: &GameMap, bombs: &[Bomb], player: &mut Player, dx: i32, dy: i32) -> (r: bool)
    requires
        map.wf(),
        old(player).x <= i32::MAX,
        old(player).y <= i32::MAX,
        i32::MIN <= old(player).x + dx <= i32::MAX,
        i32::MIN <= old(player).y + dy <= i32::MAX,
    ensures
        r == can_step(map@, bombs@, old(player).x as int, old(player).y as int, dx as int, dy as int),
        *final(player) == if r { moved(*old(player), dx as int, dy as int) } else { *old(player) },
{
    let next_x = player.x as i32 + dx;
    let next_y = player.y as i32 + dy;
    if is_walkable(map, next_x, next_y) && !has_bomb_at(bombs, next_x, next_y) {
        player.x = next_x as usize;
        player.y = next_y as usize;
        true
    } else {
        false
    }
}

/// What the player looks like after a frame of `dt` milliseconds with
/// `keys` held: the step pause runs down; once it has run out, a requested
/// step onto a free cell is taken and restarts the pause.
pub open spec fn player_after_input(
    tiles: Seq<crate::grid::Tile>,
    bombs: Seq<Bomb>,
    player: Player,
    dt: u32,
    keys: MoveKeys,
) -> Player {
    let waited = Player { move_timer: tick(player.move_timer, dt), ..player };
    if waited.move_timer > 0 {
        waited
    } else {
        match requested_step(keys) {
            Some(d) => if can_step(tiles, bombs, player.x as int, player.y as int, d.0 as int, d.1 as int) {
                Player { move_timer: PLAYER_MOVE_DELAY_MS, ..moved(waited, d.0 as int, d.1 as int) }
            } else {
                waited
            },
            None => waited,
        }
    }
}

/// Whether `(x2, y2)` is one of the four cells next to `(x1, y1)`.
pub open spec fn one_step_apart(x1: int, y1: int, x2: int, y2: int) -> bool {
    (x1 == x2 && (y2 == y1 + 1 || y2 == y1 - 1)) || (y1 == y2 && (x2 == x1 + 1 || x2 == x1 - 1))
}

/// Law of walking: after a frame the player stands where it stood, or has
/// taken one step onto an empty cell of the board that holds no bomb; a step
/// is taken only once the pause has run out, and restarts the pause; the
/// player's blast range and bomb limit stay.
pub proof fn lemma_walking(tiles: Seq<crate::grid::Tile>, bombs: Seq<Bomb>, player: Player, dt: u32, keys: MoveKeys)
    requires
        player.x < i32::MAX,
        player.y < i32::MAX,
    ensures
        ({
            let after = player_after_input(tiles, bombs, player, dt, keys);
            &&& (after.x == player.x && after.y == player.y) || {
                &&& walkable(tiles, after.x as int, after.y as int)
                &&& !bomb_cells(bombs).contains((after.x as int, after.y as int))
                &&& one_step_apart(player.x as int, player.y as int, after.x as int, after.y as int)
            }
            &&& (after.x != player.x || after.y != player.y) ==> player.move_timer <= dt
                && after.move_timer == PLAYER_MOVE_DELAY_MS
            &&& after.bomb_range == player.bomb_range
            &&& after.max_bombs == player.max_bombs
        }),
{
}

/// Lets the player walk one cell when the step pause has run out and an
/// arrow key is held.
pub fn handle_player_input(map: &GameMap, bombs: &[Bomb], player: &mut Player, delta_ms: u32, keys: MoveKeys)
    requires
        map.wf(),
        old(player).x < i32::MAX,
        old(player).y < i32::MAX,
    ensures
        *final(player) == player_after_input(map@, bombs@, *old(player), delta_ms, keys),
        // the player stays, or takes one step onto an empty cell of the board
        // that holds none of the bombs
        (final(player).x == old(player).x && final(player).y == old(player).y) || {
            &&& walkable(map@, final(player).x as int, final(player).y as int)
            &&& !bomb_cells(bombs@).contains((final(player).x as int, final(player).y as int))
            &&& one_step_apart(old(player).x as int, old(player).y as int, final(player).x as int, final(player).y as int)
        },
        // a step is taken only once the pause has run out, and restarts it
        (final(player).x != old(player).x || final(player).y != old(player).y) ==> old(player).move_timer
            <= delta_ms && final(player).move_timer == PLAYER_MOVE_DELAY_MS,
        final(player).bomb_range == old(player).bomb_range,
        final(player).max_bombs == old(player).max_bombs,
{
    if player.move_timer > 0 {
        player.move_timer = tick_timer(player.move_timer, delta_ms);
    }
    if player.move_timer > 0 {
        return;
    }
    let movement: Option<(i32, i32)> = if keys.up {
        Some((0, -1))
    } else if keys.down {
        Some((0, 1))
    } else if keys.left {
        Some((-1, 0))
    } else if keys.right {
        Some((1, 0))
    } else {
        None
    };
    if let Some((dx, dy)) = movement {
        if try_move_player(map, bombs, player, dx, dy) {
            player.move_timer = PLAYER_MOVE_DELAY_MS;
        }
    }
}

/// Whether the power-up lies on `(x, y)`.
pub open spec fn lies_on(x: usize, y: usize) -> spec_fn(PowerUp) -> bool {
    |p: PowerUp| p.x == x && p.y == y
}

/// Whether the power-up lies elsewhere than `(x, y)`.
pub open spec fn lies_off(x: usize, y: usize) -> spec_fn(PowerUp) -> bool {
    |p: PowerUp| !(p.x == x && p.y == y)
}

/// Whether the power-up lies on `(x, y)` and is of kind `kind`.
pub open spec fn lies_on_of_kind(x: usize, y: usize, kind: PowerUpKind) -> spec_fn(PowerUp) -> bool {
    |p: PowerUp| p.x == x && p.y == y && p.kind == kind
}

/// The player after picking up the power-ups on the player's cell: one
/// more cell of blast range per range power-up, one more bomb per bomb
/// power-up.
pub open spec fn collected(player: Player, power_ups: Seq<PowerUp>) -> Player {
    Player {
        bomb_range: (player.bomb_range + power_ups.filter(
            lies_on_of_kind(player.x, player.y, PowerUpKind::Range),
        ).len()) as i32,
        max_bombs: (player.max_bombs + power_ups.filter(
            lies_on_of_kind(player.x, player.y, PowerUpKind::Bomb),
        ).len()) as usize,
        ..player
    }
}

/// Picks up every power-up on the player's cell: each range power-up makes
/// the player's bombs reach one cell further, each bomb power-up allows one
/// more bomb; the other power-ups stay, in order.
pub fn collect_power_ups(player: &mut Player, power_ups: &mut Vec<PowerUp>)
    requires
        old(player).bomb_range + old(power_ups)@.len() <= i32::MAX,
        old(player).max_bombs + old(power_ups)@.len() <= usize::MAX,
    ensures
        final(power_ups)@ == old(power_ups)@.filter(lies_off(old(player).x, old(player).y)),
        *final(player) == collected(*old(player), old(power_ups)@),
        final(player).bomb_range == old(player).bomb_range + old(power_ups)@.filter(
            lies_on_of_kind(old(player).x, old(player).y, PowerUpKind::Range),
        ).len(),
        final(player).max_bombs == old(player).max_bombs + old(power_ups)@.filter(
            lies_on_of_kind(old(player).x, old(player).y, PowerUpKind::Bomb),
        ).len(),
{
    let ghost orig = power_ups@;
    let ghost p0 = *player;
    let ghost off = lies_off(player.x, player.y);
    let ghost on_range = lies_on_of_kind(player.x, player.y, PowerUpKind::Range);
    let ghost on_bomb = lies_on_of_kind(player.x, player.y, PowerUpKind::Bomb);
    let mut kept: Vec<PowerUp> = Vec::new();
    let mut i: usize = 0;
    while i < power_ups.len()
        invariant
            power_ups@ == orig,
            i <= orig.len(),
            player.x == p0.x,
            player.y == p0.y,
            player.move_timer == p0.move_timer,
            off == lies_off(p0.x, p0.y),
            on_range == lies_on_of_kind(p0.x, p0.y, PowerUpKind::Range),
            on_bomb == lies_on_of_kind(p0.x, p0.y, PowerUpKind::Bomb),
            p0.bomb_range + orig.len() <= i32::MAX,
            p0.max_bombs + orig.len() <= usize::MAX,
            kept@ == orig.take(i as int).filter(off),
            player.bomb_range == p0.bomb_range + orig.take(i as int).filter(on_range).len(),
            player.max_bombs == p0.max_bombs + orig.take(i as int).filter(on_bomb).len(),
        decreases orig.len() - i,
    {
        let power_up = power_ups[i];
        proof {
            orig.lemma_take_succ_push(i as int);
            orig.take(i as int).lemma_filter_push(power_up, off);
            orig.take(i as int).lemma_filter_push(power_up, on_range);
            orig.take(i as int).lemma_filter_push(power_up, on_bomb);
            orig.take(i as int).lemma_filter_len(on_range);
            orig.take(i as int).lemma_filter_len(on_bomb);
        }
        if power_up.x == player.x && power_up.y == player.y {
            match power_up.kind {
                PowerUpKind::Range => player.bomb_range += 1,
                PowerUpKind::Bomb => player.max_bombs += 1,
            }
        } else {
            kept.push(power_up);
        }
        i += 1;
    }
    assert(orig.take(orig.len() as int) =~= orig);
    *power_ups = kept;
}

/// Whether fire burns on the player's cell.
pub fn player_hit_by_explosion(player: &Player, explosions: &[Explosion]) -> (r: bool)
    ensures
        r == fire_at(explosions@, player.x as int, player.y as int),
{
    fire_on_cell(explosions, player.x, player.y)
}

/// Whether an enemy stands on the player's cell.
pub fn player_hit_by_enemy(player: &Player, enemies: &[Enemy]) -> (r: bool)
    ensures
        r == enemy_at(enemies@, player.x as int, player.y as int),
{
    let mut i: usize = 0;
    while i < enemies.len()
        invariant
            i <= enemies@.len(),
            forall|j: int| 0 <= j < i ==> !(enemies@[j].x == player.x && enemies@[j].y == player.y),
        decreases enemies@.len() - i,
    {
        if enemies[i].x == player.x && enemies[i].y == player.y {
            return true;
        }
        i += 1;
    }
    false
}

} // verus!
