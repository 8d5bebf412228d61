//! Bombs: placing them, their fuses, and the chain reaction of blasts.

use vstd::prelude::*;
use crate::grid::{GameMap, Tile};
use crate::entities::{
    bomb_at, fire_at, tick, tick_timer, Bomb, Explosion, Player, PowerUp, PowerUpKind, BOMB_FUSE_MS,
    bomb_on_cell, bomb_cells, fire_on_cell, fresh_fire,
};
use crate::blast::{blast, blast_bricks, cleared, create_explosion_area, dropped};

verus! {

/// Whether fire among `explosions` burns on the bomb's cell.
pub open spec fn caught_by(explosions: Seq<Explosion>) -> spec_fn(Bomb) -> bool {
    |b: Bomb| fire_at(explosions, b.x as int, b.y as int)
}

/// Whether no fire among `explosions` burns on the bomb's cell.
pub open spec fn spared_by(explosions: Seq<Explosion>) -> spec_fn(Bomb) -> bool {
    |b: Bomb| !fire_at(explosions, b.x as int, b.y as int)
}

/// Splitting a list by a condition and by its negation loses nothing.
pub proof fn lemma_filter_partition<A>(s: Seq<A>, p: spec_fn(A) -> bool, q: spec_fn(A) -> bool)
    requires
        forall|a: A| #[trigger] q(a) == !p(a),
    ensures
        s.filter(p).len() + s.filter(q).len() == s.len(),
    decreases s.len(),
{
    reveal(Seq::filter);
    if s.len() > 0 {
        lemma_filter_partition(s.drop_last(), p, q);
    }
}

/// Moves every bomb on which fire burns from `bombs` to the end of
/// `bombs_to_explode`, keeping the order of both lists.
pub fn queue_bombs_hit_by_explosions(
    bombs: &mut Vec<Bomb>,
    explosions: &[Explosion],
    bombs_to_explode: &mut Vec<Bomb>,
)
    ensures
        final(bombs)@ == old(bombs)@.filter(spared_by(explosions@)),
        final(bombs_to_explode)@ == old(bombs_to_explode)@ + old(bombs)@.filter(caught_by(explosions@)),
{
    let ghost orig = bombs@;
    let ghost q0 = bombs_to_explode@;
    let ghost spared = spared_by(explosions@);
    let ghost caught = caught_by(explosions@);
    let ghost mut done: int = 0;
    let mut index: usize = 0;
    while index < bombs.len()
        invariant
            0 <= done <= orig.len(),
            bombs@ == orig.take(done).filter(spared) + orig.skip(done),
            index as int == orig.take(done).filter(spared).len(),
            bombs_to_explode@ == q0 + orig.take(done).filter(caught),
            spared == spared_by(explosions@),
            caught == caught_by(explosions@),
        decreases bombs@.len() - index,
    {
        proof {
            assert(bombs@[index as int] == orig[done]);
            orig.lemma_take_succ_push(done);
            orig.take(done).lemma_filter_push(orig[done], spared);
            orig.take(done).lemma_filter_push(orig[done], caught);
        }
        let bomb = bombs[index];
        if fire_on_cell(explosions, bomb.x, bomb.y) {
            let removed = bombs.remove(index);
            bombs_to_explode.push(removed);
            assert(bombs@ =~= orig.take(done + 1).filter(spared) + orig.skip(done + 1));
        } else {
            index += 1;
            assert(bombs@ =~= orig.take(done + 1).filter(spared) + orig.skip(done + 1));
        }
        proof {
            done = done + 1;
        }
    }
    proof {
        assert(orig.take(done) =~= orig);
        assert(bombs@ =~= orig.filter(spared));
    }
}

/// A bomb whose fuse has burnt `dt` milliseconds further.
pub open spec fn tick_bomb(b: Bomb, dt: u32) -> Bomb {
    Bomb { x: b.x, y: b.y, timer: tick(b.timer, dt), range: b.range }
}

/// All bombs, with their fuses burnt `dt` milliseconds further.
pub open spec fn ticked(bombs: Seq<Bomb>, dt: u32) -> Seq<Bomb> {
    bombs.map_values(|b: Bomb| tick_bomb(b, dt))
}

/// Whether the bomb's fuse has burnt out.
pub open spec fn burnt_out() -> spec_fn(Bomb) -> bool {
    |b: Bomb| b.timer == 0
}

/// Whether the bomb's fuse still burns.
pub open spec fn burning() -> spec_fn(Bomb) -> bool {
    |b: Bomb| b.timer != 0
}

/// What a chain reaction leaves: the board, the bombs that did not go off,
/// the fire of all blasts in order, and the bricks broken in order.
pub struct ChainOutcome {
    pub tiles: Seq<Tile>,
    pub bombs: Seq<Bomb>,
    pub fire: Seq<Explosion>,
    pub bricks: Seq<(int, int)>,
}

/// The chain reaction that the bombs of `queue` start among `bombs`: the
/// last bomb of the queue goes off on the current board, the bricks it
/// reaches break, and every bomb its fire reaches joins the end of the
/// queue, until the queue is empty.
pub open spec fn chain_reaction(tiles: Seq<Tile>, bombs: Seq<Bomb>, queue: Seq<Bomb>) -> ChainOutcome
    decreases bombs.len() + queue.len(),
{
    if queue.len() == 0 {
        ChainOutcome { tiles, bombs, fire: Seq::empty(), bricks: Seq::empty() }
    } else {
        let b = queue.last();
        let fire = fresh_fire(blast(tiles, b.x as int, b.y as int, b.range as int));
        let bricks = blast_bricks(tiles, b.x as int, b.y as int, b.range as int);
        proof {
            lemma_filter_partition(bombs, caught_by(fire), spared_by(fire));
        }
        let next = chain_reaction(
            cleared(tiles, bricks),
            bombs.filter(spared_by(fire)),
            queue.drop_last() + bombs.filter(caught_by(fire)),
        );
        ChainOutcome {
            tiles: next.tiles,
            bombs: next.bombs,
            fire: fire + next.fire,
            bricks: bricks + next.bricks,
        }
    }
}

/// The power-ups left by two runs of broken bricks, one after the other.
pub proof fn lemma_dropped_concat(
    a: Seq<(int, int)>,
    ka: Seq<Option<PowerUpKind>>,
    b: Seq<(int, int)>,
    kb: Seq<Option<PowerUpKind>>,
)
    requires
        a.len() == ka.len(),
        b.len() == kb.len(),
    ensures
        dropped(a + b, ka + kb) == dropped(a, ka) + dropped(b, kb),
    decreases b.len(),
{
    if b.len() == 0 {
        assert(a + b =~= a);
        assert(ka + kb =~= ka);
        assert(dropped(b, kb) =~= Seq::<PowerUp>::empty());
        assert(dropped(a, ka) + dropped(b, kb) =~= dropped(a, ka));
    } else {
        lemma_dropped_concat(a, ka, b.drop_last(), kb.drop_last());
        assert((a + b).drop_last() =~= a + b.drop_last());
        assert((ka + kb).drop_last() =~= ka + kb.drop_last());
        let rest = dropped(b.drop_last(), kb.drop_last());
        match kb.last() {
            Some(k) => {
                assert(dropped(a, ka) + rest.push(
                    PowerUp { x: b.last().0 as usize, y: b.last().1 as usize, kind: k },
                ) =~= (dropped(a, ka) + rest).push(
                    PowerUp { x: b.last().0 as usize, y: b.last().1 as usize, kind: k },
                ));
            },
            None => {},
        }
    }
}

/// Every bomb satisfies the machine limit on its coordinates.
pub open spec fn bombs_addressable(bombs: Seq<Bomb>) -> bool {
    forall|i: int| 0 <= i < bombs.len() ==> (#[trigger] bombs[i]).x < i32::MAX && bombs[i].y < i32::MAX
}

/// Keeping some of the bombs keeps them addressable.
proof fn lemma_filter_addressable(bombs: Seq<Bomb>, p: spec_fn(Bomb) -> bool)
    requires
        bombs_addressable(bombs),
    ensures
        bombs_addressable(bombs.filter(p)),
{
    broadcast use vstd::seq_lib::group_filter_ensures;
    assert forall|i: int| 0 <= i < bombs.filter(p).len() implies (#[trigger] bombs.filter(p)[i]).x
        < i32::MAX && bombs.filter(p)[i].y < i32::MAX by {
        assert(bombs.filter(p).contains(bombs.filter(p)[i]));
        bombs.lemma_filter_contains_rev(p, bombs.filter(p)[i]);
    }
}

/// Burns every fuse `delta_ms` milliseconds further, then sets off every
/// bomb whose fuse has burnt out together with the chain reaction it
/// starts; the fire of all blasts is added to `explosions`.
pub fn update_bombs(
    map: &mut GameMap,
    bombs: &mut Vec<Bomb>,
    explosions: &mut Vec<Explosion>,
    power_ups: &mut Vec<PowerUp>,
    delta_ms: u32,
)
    requires
        old(map).wf(),
        bombs_addressable(old(bombs)@),
    ensures
        ({
            let t = ticked(old(bombs)@, delta_ms);
            let out = chain_reaction(old(map)@, t.filter(burning()), t.filter(burnt_out()));
            &&& final(map).wf()
            &&& final(map)@ == out.tiles
            &&& final(bombs)@ == out.bombs
            &&& final(explosions)@ == old(explosions)@ + out.fire
            &&& exists|kinds: Seq<Option<PowerUpKind>>|
                #![trigger dropped(out.bricks, kinds)]
                kinds.len() == out.bricks.len() && final(power_ups)@ == old(power_ups)@ + dropped(
                    out.bricks,
                    kinds,
                )
        }),
{
    let ghost orig = bombs@;
    let ghost t = ticked(orig, delta_ms);
    let mut i: usize = 0;
    while i < bombs.len()
        invariant
            bombs@.len() == orig.len(),
            i <= orig.len(),
            t == ticked(orig, delta_ms),
            forall|j: int| 0 <= j < i ==> bombs@[j] == t[j],
            forall|j: int| i <= j < orig.len() ==> bombs@[j] == orig[j],
        decreases orig.len() - i,
    {
        let mut bomb = bombs[i];
        bomb.timer = tick_timer(bomb.timer, delta_ms);
        bombs.set(i, bomb);
        i += 1;
    }
    assert(bombs@ =~= t);
    proof {
        assert(bombs_addressable(t));
    }

    // take the bombs whose fuse burnt out off the board, in order
    let mut bombs_to_explode: Vec<Bomb> = Vec::new();
    let ghost mut done: int = 0;
    let mut index: usize = 0;
    while index < bombs.len()
        invariant
            0 <= done <= t.len(),
            bombs@ == t.take(done).filter(burning()) + t.skip(done),
            index as int == t.take(done).filter(burning()).len(),
            bombs_to_explode@ == t.take(done).filter(burnt_out()),
        decreases bombs@.len() - index,
    {
        proof {
            assert(bombs@[index as int] == t[done]);
            t.lemma_take_succ_push(done);
            t.take(done).lemma_filter_push(t[done], burning());
            t.take(done).lemma_filter_push(t[done], burnt_out());
        }
        if bombs[index].timer == 0 {
            let removed = bombs.remove(index);
            bombs_to_explode.push(removed);
            assert(bombs@ =~= t.take(done + 1).filter(burning()) + t.skip(done + 1));
        } else {
            index += 1;
            assert(bombs@ =~= t.take(done + 1).filter(burning()) + t.skip(done + 1));
        }
        proof {
            done = done + 1;
        }
    }
    proof {
        assert(t.take(done) =~= t);
        assert(bombs@ =~= t.filter(burning()));
        lemma_filter_addressable(t, burning());
        lemma_filter_addressable(t, burnt_out());
    }

    let ghost out0 = chain_reaction(map@, bombs@, bombs_to_explode@);
    let ghost p0 = power_ups@;
    let ghost mut bricks_done: Seq<(int, int)> = Seq::empty();
    let ghost mut kinds: Seq<Option<PowerUpKind>> = Seq::empty();
    let mut new_explosions: Vec<Explosion> = Vec::new();
    loop
        invariant
            map.wf(),
            bombs_addressable(bombs@),
            bombs_addressable(bombs_to_explode@),
            chain_reaction(map@, bombs@, bombs_to_explode@).tiles == out0.tiles,
            chain_reaction(map@, bombs@, bombs_to_explode@).bombs == out0.bombs,
            new_explosions@ + chain_reaction(map@, bombs@, bombs_to_explode@).fire == out0.fire,
            bricks_done + chain_reaction(map@, bombs@, bombs_to_explode@).bricks == out0.bricks,
            kinds.len() == bricks_done.len(),
            power_ups@ == p0 + dropped(bricks_done, kinds),
        ensures
            bombs_to_explode@.len() == 0,
            map.wf(),
            chain_reaction(map@, bombs@, bombs_to_explode@).tiles == out0.tiles,
            chain_reaction(map@, bombs@, bombs_to_explode@).bombs == out0.bombs,
            new_explosions@ + chain_reaction(map@, bombs@, bombs_to_explode@).fire == out0.fire,
            bricks_done + chain_reaction(map@, bombs@, bombs_to_explode@).bricks == out0.bricks,
            kinds.len() == bricks_done.len(),
            power_ups@ == p0 + dropped(bricks_done, kinds),
        decreases bombs@.len() + bombs_to_explode@.len(),
    {
        let ghost m1 = map@;
        let ghost b1 = bombs@;
        let ghost q1 = bombs_to_explode@;
        let ghost pu1 = power_ups@;
        let ghost ne1 = new_explosions@;
        let ghost cur = chain_reaction(m1, b1, q1);
        match bombs_to_explode.pop() {
            None => {
                break;
            },
            Some(bomb) => {
                proof {
                    assert(q1.last() == bomb);
                    assert(bombs_addressable(q1));
                    assert(bomb == q1[q1.len() - 1]);
                }
                let mut current = create_explosion_area(map, power_ups, bomb.x, bomb.y, bomb.range);
                let ghost fire = current@;
                let ghost bricks = blast_bricks(m1, bomb.x as int, bomb.y as int, bomb.range as int);
                let ghost q2 = bombs_to_explode@;
                queue_bombs_hit_by_explosions(bombs, current.as_slice(), &mut bombs_to_explode);
                new_explosions.append(&mut current);
                proof {
                    let k = choose|k: Seq<Option<PowerUpKind>>|
                        #![trigger dropped(bricks, k)]
                        k.len() == bricks.len() && power_ups@ == pu1 + dropped(bricks, k);
                    lemma_dropped_concat(bricks_done, kinds, bricks, k);
                    assert(power_ups@ =~= p0 + dropped(bricks_done + bricks, kinds + k)) by {
                        assert(p0 + dropped(bricks_done, kinds) + dropped(bricks, k)
                            =~= p0 + (dropped(bricks_done, kinds) + dropped(bricks, k)));
                    }
                    assert(q2 =~= q1.drop_last());
                    let next = chain_reaction(map@, bombs@, bombs_to_explode@);
                    assert(cur.fire == fire + next.fire);
                    assert(cur.bricks == bricks + next.bricks);
                    assert(new_explosions@ + next.fire =~= ne1 + cur.fire);
                    assert((bricks_done + bricks) + next.bricks =~= bricks_done + cur.bricks);
                    bricks_done = bricks_done + bricks;
                    kinds = kinds + k;
                    lemma_filter_partition(b1, caught_by(fire), spared_by(fire));
                    lemma_filter_addressable(b1, caught_by(fire));
                    lemma_filter_addressable(b1, spared_by(fire));
                    let qa = bombs_to_explode@;
                    assert forall|i: int| 0 <= i < qa.len() implies (#[trigger] qa[i]).x < i32::MAX
                        && qa[i].y < i32::MAX by {
                        if i < q2.len() {
                            assert(qa[i] == q2[i]);
                        } else {
                            assert(qa[i] == b1.filter(caught_by(fire))[i - q2.len()]);
                        }
                    }
                }
            },
        }
    }
    explosions.append(&mut new_explosions);
}

/// The bomb that the player lays: on the player's cell, with a full fuse
/// and the player's blast range.
pub open spec fn laid_bomb(player: Player) -> Bomb {
    Bomb { x: player.x, y: player.y, timer: BOMB_FUSE_MS, range: player.bomb_range }
}

/// Whether pressing the bomb key lays a bomb: the player has bombs left and
/// no bomb lies on the player's cell yet.
pub open spec fn may_lay_bomb(player: Player, bombs: Seq<Bomb>) -> bool {
    bombs.len() < player.max_bombs && !bomb_at(bombs, player.x as int, player.y as int)
}

/// The bombs after the bomb key was (or was not) pressed.
pub open spec fn bombs_after_key(player: Player, bombs: Seq<Bomb>, bomb_pressed: bool) -> Seq<Bomb> {
    if bomb_pressed && may_lay_bomb(player, bombs) {
        bombs.push(laid_bomb(player))
    } else {
        bombs
    }
}

/// Lays a bomb on the player's cell when the bomb key was pressed and the
/// player may lay one.
pub fn handle_bomb_input(player: &Player, bombs: &mut Vec<Bomb>, bomb_pressed: bool)
    ensures
        final(bombs)@ == bombs_after_key(*player, old(bombs)@, bomb_pressed),
        // a bomb is added exactly when the key was pressed, the player has a bomb left,
        // and no bomb lies on the player's cell yet
        final(bombs)@.len() == old(bombs)@.len() + if bomb_pressed && old(bombs)@.len() < player.max_bombs
            && !bomb_cells(old(bombs)@).contains((player.x as int, player.y as int)) {
            1int
        } else {
            0int
        },
        // the bombs already out stay as they were
        forall|i: int| 0 <= i < old(bombs)@.len() ==> #[trigger] final(bombs)@[i] == old(bombs)@[i],
        // the new bomb lies on the player's cell, with a full fuse and the player's blast range
        final(bombs)@.len() > old(bombs)@.len() ==> {
            let b = final(bombs)@[old(bombs)@.len() as int];
            &&& b.x == player.x
            &&& b.y == player.y
            &&& b.timer == BOMB_FUSE_MS
            &&& b.range == player.bomb_range
        },
{
    if bomb_pressed {
        if bombs.len() >= player.max_bombs {
            return;
        }
        let already_has_bomb = bomb_on_cell(bombs.as_slice(), player.x, player.y);
        if !already_has_bomb {
            bombs.push(
                Bomb { x: player.x, y: player.y, timer: BOMB_FUSE_MS, range: player.bomb_range },
            );
        }
    }
}

/// Law of the bomb key: a bomb is laid exactly when the key was pressed,
/// the player has a bomb left and the player's cell holds no bomb yet; the
/// bombs already out stay; the new bomb lies on the player's cell with a full
/// fuse and carries the player's current blast range.
pub proof fn lemma_bomb_key(player: Player, bombs: Seq<Bomb>, bomb_pressed: bool)
    ensures
        ({
            let after = bombs_after_key(player, bombs, bomb_pressed);
            let lays = bomb_pressed && bombs.len() < player.max_bombs
                && !bomb_cells(bombs).contains((player.x as int, player.y as int));
            &&& after.len() == bombs.len() + if lays { 1int } else { 0int }
            &&& forall|i: int| 0 <= i < bombs.len() ==> #[trigger] after[i] == bombs[i]
            &&& lays ==> {
                &&& after[bombs.len() as int].x == player.x
                &&& after[bombs.len() as int].y == player.y
                &&& after[bombs.len() as int].timer == BOMB_FUSE_MS
                &&& after[bombs.len() as int].range == player.bomb_range
            }
        }),
{
}

/// Whether a bomb lies on `(x, y)`; cells with a negative coordinate hold none.
pub fn has_bomb_at(bombs: &[Bomb], x: i32, y: i32) -> (r: bool)
    ensures
        r == (x >= 0 && y >= 0 && bomb_at(bombs@, x as int, y as int)),
{
    if x < 0 || y < 0 {
        return false;
    }
    bomb_on_cell(bombs, x as usize, y as usize)
}

/// Fire whose countdown has run `dt` milliseconds further.
pub open spec fn tick_explosion(e: Explosion, dt: u32) -> Explosion {
    Explosion { x: e.x, y: e.y, timer: tick(e.timer, dt) }
}

/// Whether fire still burns.
pub open spec fn still_burning() -> spec_fn(Explosion) -> bool {
    |e: Explosion| e.timer > 0
}

/// Runs every fire's countdown `delta_ms` milliseconds further and puts out
/// the fire whose countdown has ended, keeping the order of the rest.
pub fn update_explosions(explosions: &mut Vec<Explosion>, delta_ms: u32)
    ensures
        final(explosions)@ == old(explosions)@.map_values(|e: Explosion| tick_explosion(e, delta_ms)).filter(
            still_burning(),
        ),
{
    let ghost t = explosions@.map_values(|e: Explosion| tick_explosion(e, delta_ms));
    let mut kept: Vec<Explosion> = Vec::new();
    let mut i: usize = 0;
    while i < explosions.len()
        invariant
            i <= explosions@.len(),
            t == explosions@.map_values(|e: Explosion| tick_explosion(e, delta_ms)),
            kept@ == t.take(i as int).filter(still_burning()),
        decreases explosions@.len() - i,
    {
        let e = explosions[i];
        let ticked_fire = Explosion { x: e.x, y: e.y, timer: tick_timer(e.timer, delta_ms) };
        proof {
            assert(t[i as int] == ticked_fire);
            t.lemma_take_succ_push(i as int);
            t.take(i as int).lemma_filter_push(ticked_fire, still_burning());
        }
        if ticked_fire.timer > 0 {
            kept.push(ticked_fire);
        }
        i += 1;
    }
    assert(t.take(explosions@.len() as int) =~= t);
    *explosions = kept;
}

} // verus!
