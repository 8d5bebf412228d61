//! The whole game: its state, a fresh start, and one frame of play.

use vstd::prelude::*;
use crate::grid::{create_map, in_bounds, initial_tile, walkable, GameMap, CELLS, COLS, ROWS};
use crate::entities::{
    enemy_at, fire_at, fire_cells, Bomb, Direction, Enemy, Explosion, Player, PowerUp, PowerUpKind, START_BOMB_RANGE,
    START_MAX_BOMBS,
};
use crate::player::{
    collect_power_ups, collected, handle_player_input, player_after_input, lies_off, lies_on_of_kind, player_hit_by_enemy,
    player_hit_by_explosion, MoveKeys,
};
use crate::bombs::{
    bombs_after_key, burning, burnt_out, chain_reaction, handle_bomb_input, still_burning, tick_explosion,
    ticked, update_bombs, update_explosions,
};
use crate::enemies::{remove_enemies_hit_by_explosions, unburnt, update_enemies, walked};
use crate::blast::dropped;
use crate::board_laws::{
    brick_count, lemma_brick_count_bound, lemma_chain_reaction_facts, lemma_dropped_facts,
    lemma_walkable_kept, only_bricks_broken, distinct_bomb_cells, lemma_chain_reaction_bombs,
    lemma_filter_distinct,
};

verus! {

/// The player as a game starts: in the top-left free corner.
pub open spec fn start_player() -> Player {
    Player { x: 1, y: 1, bomb_range: START_BOMB_RANGE, max_bombs: START_MAX_BOMBS, move_timer: 0 }
}

/// The enemy as a game starts: in the bottom-right corner, heading left.
pub open spec fn start_enemy() -> Enemy {
    Enemy { x: (COLS - 2) as usize, y: (ROWS - 2) as usize, direction: Direction::Left, move_timer: 0 }
}

/// Whether a board is the starting board.
pub open spec fn is_initial_board(map: GameMap) -> bool {
    &&& map.wf()
    &&& forall|x: int, y: int| in_bounds(x, y) ==> #[trigger] map.tile(x, y) == initial_tile(x, y)
}

fn start_player_value() -> (p: Player)
    ensures
        p == start_player(),
{
    Player { x: 1, y: 1, bomb_range: START_BOMB_RANGE, max_bombs: START_MAX_BOMBS, move_timer: 0 }
}

fn start_enemies() -> (v: Vec<Enemy>)
    ensures
        v@ == seq![start_enemy()],
{
    let mut v: Vec<Enemy> = Vec::new();
    v.push(Enemy { x: COLS - 2, y: ROWS - 2, direction: Direction::Left, move_timer: 0 });
    assert(v@ =~= seq![start_enemy()]);
    v
}

/// Puts every part of the game back to its start.
pub fn reset_game(
    map: &mut GameMap,
    player: &mut Player,
    bombs: &mut Vec<Bomb>,
    explosions: &mut Vec<Explosion>,
    power_ups: &mut Vec<PowerUp>,
    game_over: &mut bool,
    enemies: &mut Vec<Enemy>,
    game_won: &mut bool,
)
    ensures
        is_initial_board(*final(map)),
        *final(player) == start_player(),
        final(bombs)@ == Seq::<Bomb>::empty(),
        final(explosions)@ == Seq::<Explosion>::empty(),
        final(power_ups)@ == Seq::<PowerUp>::empty(),
        !*final(game_over),
        final(enemies)@ == seq![start_enemy()],
        !*final(game_won),
{
    *map = create_map();
    *player = start_player_value();
    bombs.clear();
    explosions.clear();
    power_ups.clear();
    *enemies = start_enemies();
    *game_over = false;
    *game_won = false;
}

/// What the HUD shows.
#[derive(Clone, Copy, PartialEq, Eq, Debug, Structural)]
pub struct HudInfo {
    pub bomb_range: i32,
    /// Bombs the player may still lay (never below zero).
    pub available_bombs: usize,
    pub max_bombs: usize,
    pub enemies: usize,
}

/// The numbers that the HUD shows.
pub fn hud_info(player: &Player, bombs: &[Bomb], enemies: &[Enemy]) -> (h: HudInfo)
    ensures
        h.bomb_range == player.bomb_range,
        h.available_bombs == if player.max_bombs > bombs@.len() { player.max_bombs - bombs@.len() } else { 0 },
        h.max_bombs == player.max_bombs,
        h.enemies == enemies@.len(),
{
    HudInfo {
        bomb_range: player.bomb_range,
        available_bombs: player.max_bombs.saturating_sub(bombs.len()),
        max_bombs: player.max_bombs,
        enemies: enemies.len(),
    }
}

/// What the player did during one frame.
#[derive(Clone, Copy, PartialEq, Eq, Debug, Structural)]
pub struct FrameInput {
    /// Length of the frame, in milliseconds.
    pub delta_ms: u32,
    /// Arrow keys held down.
    pub keys: MoveKeys,
    /// Whether the bomb key was pressed.
    pub place_bomb: bool,
    /// Whether the restart key was pressed.
    pub restart: bool,
}

/// The whole state of a game.
pub struct Game {
    pub map: GameMap,
    pub player: Player,
    pub bombs: Vec<Bomb>,
    pub explosions: Vec<Explosion>,
    pub enemies: Vec<Enemy>,
    pub power_ups: Vec<PowerUp>,
    pub game_over: bool,
    pub game_won: bool,
}

impl Game {
    /// Whether this is a game at its start.
    pub open spec fn is_fresh(&self) -> bool {
        &&& is_initial_board(self.map)
        &&& self.player == start_player()
        &&& self.bombs@ == Seq::<Bomb>::empty()
        &&& self.explosions@ == Seq::<Explosion>::empty()
        &&& self.power_ups@ == Seq::<PowerUp>::empty()
        &&& self.enemies@ == seq![start_enemy()]
        &&& !self.game_over
        &&& !self.game_won
    }

    /// What stays true of every state of a game: the player, every bomb,
    /// every enemy and every power-up stand on empty cells of the board;
    /// the player never has more bombs out than allowed, and no two bombs
    /// lie on the same cell; and the power-ups
    /// collected, lying around, or still hidden in bricks (at most one per
    /// brick) add up to no more than the board started with.
    pub open spec fn wf(&self) -> bool {
        &&& self.map.wf()
        &&& walkable(self.map@, self.player.x as int, self.player.y as int)
        &&& forall|i: int| 0 <= i < self.bombs@.len()
            ==> walkable(self.map@, (#[trigger] self.bombs@[i]).x as int, self.bombs@[i].y as int)
        &&& self.bombs@.len() <= self.player.max_bombs
        &&& distinct_bomb_cells(self.bombs@)
        &&& forall|i: int| 0 <= i < self.enemies@.len()
            ==> walkable(self.map@, (#[trigger] self.enemies@[i]).x as int, self.enemies@[i].y as int)
        &&& forall|i: int| 0 <= i < self.power_ups@.len()
            ==> walkable(self.map@, (#[trigger] self.power_ups@[i]).x as int, self.power_ups@[i].y as int)
        &&& self.player.bomb_range + self.power_ups@.len() + brick_count(self.map@) <= START_BOMB_RANGE + CELLS
        &&& self.player.max_bombs + self.power_ups@.len() + brick_count(self.map@) <= START_MAX_BOMBS + CELLS
    }

    /// Starts a game.
    pub fn new() -> (g: Game)
        ensures
            g.is_fresh(),
            g.wf(),
    {
        let mut g = Game {
            map: create_map(),
            player: start_player_value(),
            bombs: Vec::new(),
            explosions: Vec::new(),
            enemies: start_enemies(),
            power_ups: Vec::new(),
            game_over: false,
            game_won: false,
        };
        proof {
            lemma_fresh_is_wf(&g);
        }
        g
    }
}

/// Whether `after` is what one frame of play, with `input`, makes of the
/// running game `before`. The random choices of the frame (which broken
/// bricks leave which power-ups, where blocked enemies turn) are left open.
pub open spec fn frame_played(before: Game, after: Game, input: FrameInput) -> bool {
    let dt = input.delta_ms;
    // the player walks, lays a bomb, and picks up power-ups
    let walker = player_after_input(before.map@, before.bombs@, before.player, dt, input.keys);
    let laid = bombs_after_key(walker, before.bombs@, input.place_bomb);
    // fuses burn and bombs go off
    let t = ticked(laid, dt);
    let out = chain_reaction(before.map@, t.filter(burning()), t.filter(burnt_out()));
    let fire = before.explosions@ + out.fire;
    &&& after.player == collected(walker, before.power_ups@)
    &&& after.map@ == out.tiles
    &&& after.bombs@ == out.bombs
    &&& exists|kinds: Seq<Option<PowerUpKind>>|
        #![trigger dropped(out.bricks, kinds)]
        kinds.len() == out.bricks.len() && after.power_ups@ == before.power_ups@.filter(
            lies_off(walker.x, walker.y),
        ) + dropped(out.bricks, kinds)
    // enemies walk, then burn
    &&& exists|walkers: Seq<Enemy>|
        #![trigger walked(out.tiles, out.bombs, before.enemies@, walkers, dt)]
        walked(out.tiles, out.bombs, before.enemies@, walkers, dt) && after.enemies@ == walkers.filter(
            unburnt(fire),
        )
    // the game is lost when fire or an enemy reaches the player, won when no enemy is left
    &&& after.game_over == (fire_at(fire, after.player.x as int, after.player.y as int) || enemy_at(
        after.enemies@,
        after.player.x as int,
        after.player.y as int,
    ))
    &&& after.game_won == (!after.game_over && after.enemies@.len() == 0)
    // the fire dies down
    &&& after.explosions@ == fire.map_values(|e: Explosion| tick_explosion(e, dt)).filter(still_burning())
}

impl Game {
    /// Whether the game has ended, won or lost.
    pub open spec fn is_finished(&self) -> bool {
        self.game_over || self.game_won
    }

    /// One frame of the game: a finished game starts afresh when the
    /// restart key was pressed and otherwise stays as it is; a running (or
    /// restarted) game plays one frame.
    pub fn step(&mut self, input: FrameInput)
        requires
            old(self).wf(),
        ensures
            final(self).wf(),
            old(self).is_finished() && !input.restart ==> *final(self) == *old(self),
            !old(self).is_finished() ==> frame_played(*old(self), *final(self), input),
            old(self).is_finished() && input.restart ==> exists|fresh: Game|
                #![trigger frame_played(fresh, *final(self), input)]
                fresh.is_fresh() && frame_played(fresh, *final(self), input),
            !old(self).is_finished() ==> only_bricks_broken(old(self).map@, final(self).map@),
            !old(self).is_finished() || input.restart ==> {
                &&& final(self).game_won ==> final(self).enemies@.len() == 0 && !final(self).game_over
                &&& final(self).enemies@.len() == 0 ==> final(self).is_finished()
                &&& enemy_at(final(self).enemies@, final(self).player.x as int, final(self).player.y as int)
                    ==> final(self).game_over
                &&& fire_at(final(self).explosions@, final(self).player.x as int, final(self).player.y as int)
                    ==> final(self).game_over
            },
            !old(self).is_finished() && fire_at(
                old(self).explosions@,
                final(self).player.x as int,
                final(self).player.y as int,
            ) ==> final(self).game_over,
    {
        let ghost fresh_start: Game = *self;
        if (self.game_over || self.game_won) && input.restart {
            reset_game(
                &mut self.map,
                &mut self.player,
                &mut self.bombs,
                &mut self.explosions,
                &mut self.power_ups,
                &mut self.game_over,
                &mut self.enemies,
                &mut self.game_won,
            );
            proof {
                lemma_fresh_is_wf(self);
                fresh_start = *self;
            }
        }
        if !self.game_over && !self.game_won {
            self.play_frame(input);
        }
    }
}

/// Fire among the first explosions is fire among all of them.
pub proof fn lemma_fire_at_prefix(a: Seq<Explosion>, b: Seq<Explosion>, x: int, y: int)
    ensures
        fire_at(a, x, y) ==> fire_at(a + b, x, y),
{
    if fire_at(a, x, y) {
        let i = choose|i: int| 0 <= i < fire_cells(a).len() && fire_cells(a)[i] == (x, y);
        assert(fire_cells(a + b)[i] == (x, y));
    }
}

/// Fire that still burns after dying down burned before on the same cell.
pub proof fn lemma_fire_at_after_dying_down(fire: Seq<Explosion>, dt: u32, x: int, y: int)
    ensures
        fire_at(fire.map_values(|e: Explosion| tick_explosion(e, dt)).filter(still_burning()), x, y)
            ==> fire_at(fire, x, y),
{
    let t = fire.map_values(|e: Explosion| tick_explosion(e, dt));
    let left = t.filter(still_burning());
    if fire_at(left, x, y) {
        let i = choose|i: int| 0 <= i < fire_cells(left).len() && fire_cells(left)[i] == (x, y);
        assert(left.contains(left[i]));
        t.lemma_filter_contains_rev(still_burning(), left[i]);
        let k = choose|k: int| 0 <= k < t.len() && t[k] == left[i];
        assert(fire_cells(fire)[k] == (x, y));
    }
}

/// Law of catching fire: after a frame, the game is lost whenever fire burns
/// on the player's cell, whether the fire was left from earlier frames or
/// came from this frame's blasts; and no fire still burns on the cell of a
/// player who was not caught.
pub proof fn lemma_fire_catches_player(before: Game, after: Game, input: FrameInput)
    requires
        frame_played(before, after, input),
    ensures
        fire_at(before.explosions@, after.player.x as int, after.player.y as int) ==> after.game_over,
        fire_at(after.explosions@, after.player.x as int, after.player.y as int) ==> after.game_over,
{
    let dt = input.delta_ms;
    let walker = player_after_input(before.map@, before.bombs@, before.player, dt, input.keys);
    let laid = bombs_after_key(walker, before.bombs@, input.place_bomb);
    let t = ticked(laid, dt);
    let out = chain_reaction(before.map@, t.filter(burning()), t.filter(burnt_out()));
    let fire = before.explosions@ + out.fire;
    let (x, y) = (after.player.x as int, after.player.y as int);
    lemma_fire_at_prefix(before.explosions@, out.fire, x, y);
    lemma_fire_at_after_dying_down(fire, dt, x, y);
}

/// Splitting a list three ways by conditions of which exactly one holds
/// loses nothing.
pub proof fn lemma_filter_partition3<A>(
    s: Seq<A>,
    p: spec_fn(A) -> bool,
    q: spec_fn(A) -> bool,
    r: spec_fn(A) -> bool,
)
    requires
        forall|a: A| #[trigger] p(a) ==> !q(a) && !r(a),
        forall|a: A| #[trigger] q(a) ==> !r(a),
        forall|a: A| #[trigger] p(a) || q(a) || r(a),
    ensures
        s.filter(p).len() + s.filter(q).len() + s.filter(r).len() == s.len(),
    decreases s.len(),
{
    reveal(Seq::filter);
    if s.len() > 0 {
        lemma_filter_partition3(s.drop_last(), p, q, r);
        assert(p(s.last()) || q(s.last()) || r(s.last()));
    }
}

impl Game {
    /// One frame of play in a running game: the player walks, lays a bomb,
    /// picks up power-ups; fuses burn and bombs go off; enemies walk and
    /// burn; then the game is lost if fire or an enemy reaches the player,
    /// and won if no enemy is left; finally the fire dies down.
    pub fn play_frame(&mut self, input: FrameInput)
        requires
            old(self).wf(),
            !old(self).game_over,
            !old(self).game_won,
        ensures
            final(self).wf(),
            frame_played(*old(self), *final(self), input),
            only_bricks_broken(old(self).map@, final(self).map@),
            final(self).game_won ==> final(self).enemies@.len() == 0 && !final(self).game_over,
            final(self).enemies@.len() == 0 ==> final(self).game_over || final(self).game_won,
            enemy_at(final(self).enemies@, final(self).player.x as int, final(self).player.y as int)
                ==> final(self).game_over,
            // fire burning on the player's cell ends the game: fire left from earlier
            // frames as much as fire of this frame's blasts, and no fire still burns
            // on the cell of a player who is not caught
            fire_at(old(self).explosions@, final(self).player.x as int, final(self).player.y as int)
                ==> final(self).game_over,
            fire_at(final(self).explosions@, final(self).player.x as int, final(self).player.y as int)
                ==> final(self).game_over,
    {
        let ghost g0 = *self;
        let ghost g0_bombs = self.bombs@;
        let ghost g0_enemies = self.enemies@;
        let ghost g0_power_ups = self.power_ups@;
        let dt = input.delta_ms;

        // the player walks
        handle_player_input(&self.map, self.bombs.as_slice(), &mut self.player, dt, input.keys);
        let ghost p1 = self.player;
        assert(walkable(self.map@, p1.x as int, p1.y as int));

        // the player lays a bomb
        handle_bomb_input(&self.player, &mut self.bombs, input.place_bomb);
        let ghost b1 = self.bombs@;
        assert(forall|i: int| 0 <= i < b1.len() ==> walkable(self.map@, (#[trigger] b1[i]).x as int, b1[i].y as int)) by {
            assert forall|i: int| 0 <= i < b1.len() implies walkable(self.map@, (#[trigger] b1[i]).x as int, b1[i].y as int) by {
                if i < g0_bombs.len() {
                    assert(b1[i] == g0_bombs[i]);
                }
            }
        }
        assert(b1.len() <= p1.max_bombs);
        assert(distinct_bomb_cells(b1)) by {
            if b1.len() > g0_bombs.len() {
                assert forall|a: int, b: int| 0 <= a < b < b1.len() implies crate::entities::bomb_cell(b1[a])
                    != crate::entities::bomb_cell(b1[b]) by {
                    if b == b1.len() - 1 {
                        assert(b1[a] == g0_bombs[a]);
                        if crate::entities::bomb_cell(g0_bombs[a]) == (p1.x as int, p1.y as int) {
                            assert(crate::entities::bomb_cells(g0_bombs)[a] == (p1.x as int, p1.y as int));
                        }
                    } else {
                        assert(b1[a] == g0_bombs[a] && b1[b] == g0_bombs[b]);
                    }
                }
            }
        }

        // the player picks up power-ups
        collect_power_ups(&mut self.player, &mut self.power_ups);
        let ghost p2 = self.player;
        let ghost pu2 = self.power_ups@;
        proof {
            lemma_filter_partition3(
                g0_power_ups,
                lies_off(p1.x, p1.y),
                lies_on_of_kind(p1.x, p1.y, PowerUpKind::Range),
                lies_on_of_kind(p1.x, p1.y, PowerUpKind::Bomb),
            );
            assert forall|i: int| 0 <= i < pu2.len() implies walkable(self.map@, (#[trigger] pu2[i]).x as int, pu2[i].y as int) by {
                assert(pu2.contains(pu2[i]));
                g0_power_ups.lemma_filter_contains_rev(lies_off(p1.x, p1.y), pu2[i]);
                let k = choose|k: int| 0 <= k < g0_power_ups.len() && g0_power_ups[k] == pu2[i];
            }
        }

        // fuses burn and bombs go off
        let ghost m3_before = self.map@;
        update_bombs(&mut self.map, &mut self.bombs, &mut self.explosions, &mut self.power_ups, dt);
        let ghost m3 = self.map@;
        let ghost b3 = self.bombs@;
        let ghost pu3 = self.power_ups@;
        proof {
            let t = crate::bombs::ticked(b1, dt);
            let alive = t.filter(crate::bombs::burning());
            let out = crate::bombs::chain_reaction(m3_before, alive, t.filter(crate::bombs::burnt_out()));
            lemma_chain_reaction_facts(m3_before, alive, t.filter(crate::bombs::burnt_out()));
            lemma_chain_reaction_bombs(m3_before, alive, t.filter(crate::bombs::burnt_out()));
            assert(distinct_bomb_cells(t)) by {
                assert forall|a: int, b: int| 0 <= a < b < t.len() implies crate::entities::bomb_cell(t[a])
                    != crate::entities::bomb_cell(t[b]) by {
                    assert(crate::entities::bomb_cell(b1[a]) != crate::entities::bomb_cell(b1[b]));
                }
            }
            lemma_filter_distinct(t, crate::bombs::burning());
            let kinds = choose|kinds: Seq<Option<PowerUpKind>>|
                #![trigger crate::blast::dropped(out.bricks, kinds)]
                kinds.len() == out.bricks.len() && pu3 == pu2 + crate::blast::dropped(out.bricks, kinds);
            lemma_dropped_facts(out.bricks, kinds);
            let dr = crate::blast::dropped(out.bricks, kinds);
            alive.lemma_filter_len(crate::bombs::burning());
            // the player still stands on an empty cell
            lemma_walkable_kept(m3_before, m3, p2.x as int, p2.y as int);
            // the bombs left are bombs that were on empty cells
            assert forall|i: int| 0 <= i < b3.len() implies walkable(m3, (#[trigger] b3[i]).x as int, b3[i].y as int) by {
                assert(b3.contains(b3[i]));
                assert(alive.contains(b3[i]));
                t.lemma_filter_contains_rev(crate::bombs::burning(), b3[i]);
                let k = choose|k: int| 0 <= k < t.len() && t[k] == b3[i];
                assert(t[k].x == b1[k].x && t[k].y == b1[k].y);
                lemma_walkable_kept(m3_before, m3, b3[i].x as int, b3[i].y as int);
            }
            // the enemies still stand on empty cells
            assert forall|i: int| 0 <= i < g0_enemies.len() implies walkable(m3, (#[trigger] g0_enemies[i]).x as int, g0_enemies[i].y as int) by {
                lemma_walkable_kept(m3_before, m3, g0_enemies[i].x as int, g0_enemies[i].y as int);
            }
            // the power-ups lie on empty cells: the old ones stayed, the new ones lie on broken bricks
            assert forall|i: int| 0 <= i < pu3.len() implies walkable(m3, (#[trigger] pu3[i]).x as int, pu3[i].y as int) by {
                if i < pu2.len() {
                    assert(pu3[i] == pu2[i]);
                    lemma_walkable_kept(m3_before, m3, pu2[i].x as int, pu2[i].y as int);
                } else {
                    assert(pu3[i] == dr[i - pu2.len()]);
                    let k = choose|k: int| 0 <= k < out.bricks.len() && (#[trigger] dr[i - pu2.len()]).x == out.bricks[k].0 as usize
                        && dr[i - pu2.len()].y == out.bricks[k].1 as usize;
                    assert(in_bounds(out.bricks[k].0, out.bricks[k].1));
                }
            }
        }

        // enemies walk
        proof {
            assert forall|i: int| 0 <= i < self.enemies@.len() implies (#[trigger] self.enemies@[i]).x < i32::MAX
                && self.enemies@[i].y < i32::MAX by {
                assert(walkable(m3, g0_enemies[i].x as int, g0_enemies[i].y as int));
            }
        }
        update_enemies(&self.map, self.bombs.as_slice(), &mut self.enemies, dt);
        let ghost e4 = self.enemies@;
        proof {
            assert forall|i: int| 0 <= i < e4.len() implies walkable(m3, (#[trigger] e4[i]).x as int, e4[i].y as int) by {
                let s = crate::enemies::enemy_step(m3, b3, g0_enemies[i], dt);
                assert(walkable(m3, g0_enemies[i].x as int, g0_enemies[i].y as int));
            }
        }

        // enemies burn
        remove_enemies_hit_by_explosions(&mut self.enemies, self.explosions.as_slice());
        let ghost e5 = self.enemies@;
        proof {
            assert forall|i: int| 0 <= i < e5.len() implies walkable(m3, (#[trigger] e5[i]).x as int, e5[i].y as int) by {
                assert(e5.contains(e5[i]));
                e4.lemma_filter_contains_rev(crate::enemies::unburnt(self.explosions@), e5[i]);
                let k = choose|k: int| 0 <= k < e4.len() && e4[k] == e5[i];
            }
        }

        if player_hit_by_explosion(&self.player, self.explosions.as_slice())
            || player_hit_by_enemy(&self.player, self.enemies.as_slice()) {
            self.game_over = true;
        } else if self.enemies.is_empty() {
            self.game_won = true;
        }

        // the fire dies down
        update_explosions(&mut self.explosions, dt);
        proof {
            lemma_fire_catches_player(g0, *self, input);
        }
    }
}

/// A game at its start satisfies the game's invariant.
pub proof fn lemma_fresh_is_wf(g: &Game)
    requires
        g.is_fresh(),
    ensures
        g.wf(),
{
    assert(g.map.tile(1, 1) == initial_tile(1, 1));
    assert(g.map.tile(11, 9) == initial_tile(11, 9));
    assert(g.enemies@[0] == start_enemy());
    lemma_brick_count_bound(g.map@);
}

} // verus!
