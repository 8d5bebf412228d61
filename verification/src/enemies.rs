//! Enemies: walking in straight lines, turning at random when blocked, and
//! burning in fire.

use vstd::prelude::*;
use crate::grid::{is_walkable, GameMap, Tile};
use crate::entities::{
    delta_of, direction_delta, fire_at, fire_on_cell, tick, tick_timer, Bomb, Enemy, Explosion,
    ENEMY_MOVE_DELAY_MS,
};
use crate::bombs::has_bomb_at;
use crate::player::can_step;
use crate::chance::random_direction;

verus! {

/// One frame of `dt` milliseconds of an enemy's walk: the pause runs down;
/// once it has run out the pause restarts and the enemy steps on in its
/// direction if the next cell is free. The flag tells whether the enemy was
/// blocked (and must pick a new direction).
pub open spec fn enemy_step(tiles: Seq<Tile>, bombs: Seq<Bomb>, e: Enemy, dt: u32) -> (Enemy, bool) {
    let t = tick(e.move_timer, dt);
    if t > 0 {
        (Enemy { move_timer: t, ..e }, false)
    } else {
        let d = delta_of(e.direction);
        if can_step(tiles, bombs, e.x as int, e.y as int, d.0 as int, d.1 as int) {
            (
                Enemy {
                    x: (e.x + d.0) as usize,
                    y: (e.y + d.1) as usize,
                    move_timer: ENEMY_MOVE_DELAY_MS,
                    ..e
                },
                false,
            )
        } else {
            (Enemy { move_timer: ENEMY_MOVE_DELAY_MS, ..e }, true)
        }
    }
}

/// Every enemy satisfies the machine limit on its coordinates.
pub open spec fn enemies_addressable(enemies: Seq<Enemy>) -> bool {
    forall|i: int| 0 <= i < enemies.len() ==> (#[trigger] enemies[i]).x < i32::MAX && enemies[i].y < i32::MAX
}

/// Walks one enemy for one frame; tells whether it was blocked.
pub fn step_enemy(map: &GameMap, bombs: &[Bomb], enemy: Enemy, delta_ms: u32) -> (r: (Enemy, bool))
    requires
        map.wf(),
        enemy.x < i32::MAX,
        enemy.y < i32::MAX,
    ensures
        r == enemy_step(map@, bombs@, enemy, delta_ms),
{
    let mut enemy = enemy;
    enemy.move_timer = tick_timer(enemy.move_timer, delta_ms);
    if enemy.move_timer > 0 {
        return (enemy, false);
    }
    enemy.move_timer = ENEMY_MOVE_DELAY_MS;
    let (dx, dy) = direction_delta(enemy.direction);
    let next_x = enemy.x as i32 + dx;
    let next_y = enemy.y as i32 + dy;
    if is_walkable(map, next_x, next_y) && !has_bomb_at(bombs, next_x, next_y) {
        enemy.x = next_x as usize;
        enemy.y = next_y as usize;
        (enemy, false)
    } else {
        (enemy, true)
    }
}

/// Whether `after` is what one frame of `dt` milliseconds makes of the
/// enemies `before`: each enemy took its step, and only a blocked enemy may
/// have changed its direction.
pub open spec fn walked(tiles: Seq<Tile>, bombs: Seq<Bomb>, before: Seq<Enemy>, after: Seq<Enemy>, dt: u32) -> bool {
    &&& after.len() == before.len()
    &&& forall|i: int|
        0 <= i < before.len() ==> {
            let s = #[trigger] enemy_step(tiles, bombs, before[i], dt);
            &&& after[i].x == s.0.x
            &&& after[i].y == s.0.y
            &&& after[i].move_timer == s.0.move_timer
            &&& !s.1 ==> after[i].direction == s.0.direction
        }
}

/// Walks every enemy for one frame; a blocked enemy turns to a direction
/// picked at random (possibly the same one).
pub fn update_enemies(map: &GameMap, bombs: &[Bomb], enemies: &mut Vec<Enemy>, delta_ms: u32)
    requires
        map.wf(),
        enemies_addressable(old(enemies)@),
    ensures
        walked(map@, bombs@, old(enemies)@, final(enemies)@, delta_ms),
{
    let ghost orig = enemies@;
    let mut i: usize = 0;
    while i < enemies.len()
        invariant
            map.wf(),
            enemies@.len() == orig.len(),
            i <= orig.len(),
            enemies_addressable(orig),
            forall|j: int| i <= j < orig.len() ==> enemies@[j] == orig[j],
            forall|j: int|
                0 <= j < i ==> {
                    let s = #[trigger] enemy_step(map@, bombs@, orig[j], delta_ms);
                    &&& enemies@[j].x == s.0.x
                    &&& enemies@[j].y == s.0.y
                    &&& enemies@[j].move_timer == s.0.move_timer
                    &&& !s.1 ==> enemies@[j].direction == s.0.direction
                },
        decreases orig.len() - i,
    {
        let enemy = enemies[i];
        assert(enemy == orig[i as int]);
        let (mut next, blocked) = step_enemy(map, bombs, enemy, delta_ms);
        if blocked {
            next.direction = random_direction();
        }
        enemies.set(i, next);
        i += 1;
    }
}

/// Whether no fire burns on the enemy's cell.
pub open spec fn unburnt(explosions: Seq<Explosion>) -> spec_fn(Enemy) -> bool {
    |e: Enemy| !fire_at(explosions, e.x as int, e.y as int)
}

/// Removes every enemy on whose cell fire burns, keeping the order of the rest.
pub fn remove_enemies_hit_by_explosions(enemies: &mut Vec<Enemy>, explosions: &[Explosion])
    ensures
        final(enemies)@ == old(enemies)@.filter(unburnt(explosions@)),
{
    let ghost orig = enemies@;
    let ghost keep = unburnt(explosions@);
    let mut kept: Vec<Enemy> = Vec::new();
    let mut i: usize = 0;
    while i < enemies.len()
        invariant
            enemies@ == orig,
            i <= orig.len(),
            keep == unburnt(explosions@),
            kept@ == orig.take(i as int).filter(keep),
        decreases orig.len() - i,
    {
        let enemy = enemies[i];
        proof {
            orig.lemma_take_succ_push(i as int);
            orig.take(i as int).lemma_filter_push(enemy, keep);
        }
        if !fire_on_cell(explosions, enemy.x, enemy.y) {
            kept.push(enemy);
        }
        i += 1;
    }
    assert(orig.take(orig.len() as int) =~= orig);
    *enemies = kept;
}

} // verus!
