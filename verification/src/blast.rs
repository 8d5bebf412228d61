//! The blast of one bomb: which cells catch fire, which bricks break, and
//! which power-ups the broken bricks leave behind.

use vstd::prelude::*;
use crate::grid::{cell_index, in_bounds, tile_at, GameMap, Tile, COLS, ROWS};
use crate::entities::{fresh_fire, Explosion, PowerUp, PowerUpKind, EXPLOSION_MS};
use crate::chance::{power_up_drops, random_power_up_kind, roll_power_up_drop};

verus! {

/// The cells that fire reaches going from `(x, y)` in steps of `(dx, dy)`,
/// at most `steps` of them: it stops at the border and at a wall (neither is
/// burnt), and at a brick (which burns, and ends the ray).
pub open spec fn ray(tiles: Seq<Tile>, x: int, y: int, dx: int, dy: int, steps: int) -> Seq<(int, int)>
    decreases steps,
{
    if steps <= 0 || !in_bounds(x + dx, y + dy) {
        Seq::empty()
    } else {
        match tile_at(tiles, x + dx, y + dy) {
            Tile::Wall => Seq::empty(),
            Tile::Brick => seq![(x + dx, y + dy)],
            Tile::Empty => seq![(x + dx, y + dy)] + ray(tiles, x + dx, y + dy, dx, dy, steps - 1),
        }
    }
}

/// The brick that ends the ray from `(x, y)`, if the ray ends at a brick.
pub open spec fn ray_brick(tiles: Seq<Tile>, x: int, y: int, dx: int, dy: int, steps: int) -> Seq<(int, int)>
    decreases steps,
{
    if steps <= 0 || !in_bounds(x + dx, y + dy) {
        Seq::empty()
    } else {
        match tile_at(tiles, x + dx, y + dy) {
            Tile::Wall => Seq::empty(),
            Tile::Brick => seq![(x + dx, y + dy)],
            Tile::Empty => ray_brick(tiles, x + dx, y + dy, dx, dy, steps - 1),
        }
    }
}

/// The cells on fire after a bomb of range `range` goes off on `(bx, by)`:
/// the bomb's own cell, then the rays up, down, left and right.
pub open spec fn blast(tiles: Seq<Tile>, bx: int, by: int, range: int) -> Seq<(int, int)> {
    seq![(bx, by)]
        + ray(tiles, bx, by, 0, -1, range)
        + ray(tiles, bx, by, 0, 1, range)
        + ray(tiles, bx, by, -1, 0, range)
        + ray(tiles, bx, by, 1, 0, range)
}

/// The bricks that the blast breaks, in the order of the rays.
pub open spec fn blast_bricks(tiles: Seq<Tile>, bx: int, by: int, range: int) -> Seq<(int, int)> {
    ray_brick(tiles, bx, by, 0, -1, range)
        + ray_brick(tiles, bx, by, 0, 1, range)
        + ray_brick(tiles, bx, by, -1, 0, range)
        + ray_brick(tiles, bx, by, 1, 0, range)
}

/// The board with each of `cells` that lies on it made empty.
pub open spec fn cleared(tiles: Seq<Tile>, cells: Seq<(int, int)>) -> Seq<Tile>
    decreases cells.len(),
{
    if cells.len() == 0 {
        tiles
    } else {
        let rest = cleared(tiles, cells.drop_last());
        let c = cells.last();
        if in_bounds(c.0, c.1) {
            rest.update(cell_index(c.0, c.1), Tile::Empty)
        } else {
            rest
        }
    }
}

/// The power-ups that broken bricks leave behind: brick `cells[i]` leaves
/// one of kind `k` where `kinds[i]` is `Some(k)`, none where it is `None`.
pub open spec fn dropped(cells: Seq<(int, int)>, kinds: Seq<Option<PowerUpKind>>) -> Seq<PowerUp>
    decreases cells.len(),
{
    if cells.len() == 0 || kinds.len() == 0 {
        Seq::empty()
    } else {
        let rest = dropped(cells.drop_last(), kinds.drop_last());
        match kinds.last() {
            Some(k) => rest.push(PowerUp { x: cells.last().0 as usize, y: cells.last().1 as usize, kind: k }),
            None => rest,
        }
    }
}

/// Pairs of board coordinates, read as cells.
pub open spec fn as_cells(s: Seq<(usize, usize)>) -> Seq<(int, int)> {
    s.map_values(|c: (usize, usize)| (c.0 as int, c.1 as int))
}

/// Every cell of a ray and of its brick lies on the board.
pub proof fn lemma_ray_in_bounds(tiles: Seq<Tile>, x: int, y: int, dx: int, dy: int, steps: int)
    ensures
        forall|i: int| 0 <= i < ray(tiles, x, y, dx, dy, steps).len()
            ==> in_bounds(#[trigger] ray(tiles, x, y, dx, dy, steps)[i].0, ray(tiles, x, y, dx, dy, steps)[i].1),
        forall|i: int| 0 <= i < ray_brick(tiles, x, y, dx, dy, steps).len()
            ==> in_bounds(#[trigger] ray_brick(tiles, x, y, dx, dy, steps)[i].0, ray_brick(tiles, x, y, dx, dy, steps)[i].1),
        ray_brick(tiles, x, y, dx, dy, steps).len() <= 1,
    decreases steps,
{
    if steps > 0 && in_bounds(x + dx, y + dy) && tile_at(tiles, x + dx, y + dy) == Tile::Empty {
        lemma_ray_in_bounds(tiles, x + dx, y + dy, dx, dy, steps - 1);
        let rest = ray(tiles, x + dx, y + dy, dx, dy, steps - 1);
        let r = ray(tiles, x, y, dx, dy, steps);
        assert forall|i: int| 0 <= i < r.len() implies in_bounds(#[trigger] r[i].0, r[i].1) by {
            if i > 0 {
                assert(r[i] == rest[i - 1]);
            }
        }
    }
}

/// Follows one ray of a blast, adding its fire and its brick.
fn trace_ray(
    map: &GameMap,
    bx: usize,
    by: usize,
    dx: i64,
    dy: i64,
    range: i32,
    explosions: &mut Vec<Explosion>,
    bricks: &mut Vec<(usize, usize)>,
)
    requires
        map.wf(),
        bx < i32::MAX,
        by < i32::MAX,
        -1 <= dx <= 1,
        -1 <= dy <= 1,
    ensures
        final(explosions)@ == old(explosions)@ + fresh_fire(
            ray(map@, bx as int, by as int, dx as int, dy as int, range as int),
        ),
        as_cells(final(bricks)@) == as_cells(old(bricks)@) + ray_brick(
            map@,
            bx as int,
            by as int,
            dx as int,
            dy as int,
            range as int,
        ),
{
    let ghost e0 = explosions@;
    let ghost b0 = as_cells(bricks@);
    let ghost total = ray(map@, bx as int, by as int, dx as int, dy as int, range as int);
    let ghost total_brick = ray_brick(map@, bx as int, by as int, dx as int, dy as int, range as int);
    let mut x: i64 = bx as i64;
    let mut y: i64 = by as i64;
    let mut steps: i32 = range;
    loop
        invariant_except_break
            map.wf(),
            -1 <= dx <= 1,
            -1 <= dy <= 1,
            0 <= x <= i32::MAX,
            0 <= y <= i32::MAX,
            explosions@ + fresh_fire(ray(map@, x as int, y as int, dx as int, dy as int, steps as int))
                == e0 + fresh_fire(total),
            as_cells(bricks@) + ray_brick(map@, x as int, y as int, dx as int, dy as int, steps as int)
                == b0 + total_brick,
        ensures
            explosions@ == e0 + fresh_fire(total),
            as_cells(bricks@) == b0 + total_brick,
        decreases steps,
    {
        let ghost r = ray(map@, x as int, y as int, dx as int, dy as int, steps as int);
        let ghost rb = ray_brick(map@, x as int, y as int, dx as int, dy as int, steps as int);
        if steps <= 0 {
            assert(r =~= Seq::<(int, int)>::empty());
            assert(fresh_fire(r) =~= Seq::<Explosion>::empty());
            assert(explosions@ + fresh_fire(r) =~= explosions@);
            assert(as_cells(bricks@) + rb =~= as_cells(bricks@));
            break;
        }
        let nx = x + dx;
        let ny = y + dy;
        if nx < 0 || ny < 0 || nx >= COLS as i64 || ny >= ROWS as i64 {
            assert(r =~= Seq::<(int, int)>::empty());
            assert(fresh_fire(r) =~= Seq::<Explosion>::empty());
            assert(explosions@ + fresh_fire(r) =~= explosions@);
            assert(as_cells(bricks@) + rb =~= as_cells(bricks@));
            break;
        }
        let tile = map.get(nx as usize, ny as usize);
        let fire = Explosion { x: nx as usize, y: ny as usize, timer: EXPLOSION_MS };
        match tile {
            Tile::Wall => {
                assert(fresh_fire(r) =~= Seq::<Explosion>::empty());
                assert(explosions@ + fresh_fire(r) =~= explosions@);
                assert(as_cells(bricks@) + rb =~= as_cells(bricks@));
                break;
            },
            Tile::Brick => {
                let ghost before_e = explosions@;
                let ghost before_b = bricks@;
                explosions.push(fire);
                bricks.push((nx as usize, ny as usize));
                assert(fresh_fire(r) =~= seq![fire]);
                assert(before_e + fresh_fire(r) =~= explosions@);
                assert(as_cells(bricks@) =~= as_cells(before_b) + rb);
                break;
            },
            Tile::Empty => {
                let ghost before_e = explosions@;
                let ghost rest = ray(map@, nx as int, ny as int, dx as int, dy as int, steps - 1);
                explosions.push(fire);
                assert(r == seq![(nx as int, ny as int)] + rest);
                assert(fresh_fire(r) =~= seq![fire] + fresh_fire(rest));
                assert(explosions@ + fresh_fire(rest) =~= before_e + fresh_fire(r));
                x = nx;
                y = ny;
                steps = steps - 1;
            },
        }
    }
}

/// The fire and the broken bricks of a bomb of range `bomb_range` on
/// `(bomb_x, bomb_y)`, read off the board without changing it.
pub fn compute_blast(map: &GameMap, bomb_x: usize, bomb_y: usize, bomb_range: i32) -> (r: (
    Vec<Explosion>,
    Vec<(usize, usize)>,
))
    requires
        map.wf(),
        bomb_x < i32::MAX,
        bomb_y < i32::MAX,
    ensures
        r.0@ == fresh_fire(blast(map@, bomb_x as int, bomb_y as int, bomb_range as int)),
        as_cells(r.1@) == blast_bricks(map@, bomb_x as int, bomb_y as int, bomb_range as int),
{
    let ghost (bx, by, range) = (bomb_x as int, bomb_y as int, bomb_range as int);
    let mut explosions: Vec<Explosion> = Vec::new();
    let mut bricks: Vec<(usize, usize)> = Vec::new();
    explosions.push(Explosion { x: bomb_x, y: bomb_y, timer: EXPLOSION_MS });
    assert(explosions@ =~= fresh_fire(seq![(bx, by)]));
    assert(as_cells(bricks@) =~= Seq::<(int, int)>::empty());
    trace_ray(map, bomb_x, bomb_y, 0, -1, bomb_range, &mut explosions, &mut bricks);
    trace_ray(map, bomb_x, bomb_y, 0, 1, bomb_range, &mut explosions, &mut bricks);
    trace_ray(map, bomb_x, bomb_y, -1, 0, bomb_range, &mut explosions, &mut bricks);
    trace_ray(map, bomb_x, bomb_y, 1, 0, bomb_range, &mut explosions, &mut bricks);
    proof {
        let up = ray(map@, bx, by, 0, -1, range);
        let down = ray(map@, bx, by, 0, 1, range);
        let left = ray(map@, bx, by, -1, 0, range);
        let right = ray(map@, bx, by, 1, 0, range);
        assert(fresh_fire(blast(map@, bx, by, range)) =~= fresh_fire(seq![(bx, by)]) + fresh_fire(up)
            + fresh_fire(down) + fresh_fire(left) + fresh_fire(right));
        assert(explosions@ =~= fresh_fire(blast(map@, bx, by, range)));
        assert(as_cells(bricks@) =~= blast_bricks(map@, bx, by, range));
    }
    (explosions, bricks)
}

/// Every broken brick of a blast lies on the board.
pub proof fn lemma_blast_bricks_in_bounds(tiles: Seq<Tile>, bx: int, by: int, range: int)
    ensures
        forall|i: int| 0 <= i < blast_bricks(tiles, bx, by, range).len()
            ==> in_bounds(#[trigger] blast_bricks(tiles, bx, by, range)[i].0, blast_bricks(tiles, bx, by, range)[i].1),
{
    lemma_ray_in_bounds(tiles, bx, by, 0, -1, range);
    lemma_ray_in_bounds(tiles, bx, by, 0, 1, range);
    lemma_ray_in_bounds(tiles, bx, by, -1, 0, range);
    lemma_ray_in_bounds(tiles, bx, by, 1, 0, range);
    let a = ray_brick(tiles, bx, by, 0, -1, range);
    let b = ray_brick(tiles, bx, by, 0, 1, range);
    let c = ray_brick(tiles, bx, by, -1, 0, range);
    let d = ray_brick(tiles, bx, by, 1, 0, range);
    let all = blast_bricks(tiles, bx, by, range);
    assert forall|i: int| 0 <= i < all.len() implies in_bounds(#[trigger] all[i].0, all[i].1) by {
        if i < a.len() {
            assert(all[i] == a[i]);
        } else if i < a.len() + b.len() {
            assert(all[i] == b[i - a.len()]);
        } else if i < a.len() + b.len() + c.len() {
            assert(all[i] == c[i - a.len() - b.len()]);
        } else {
            assert(all[i] == d[i - a.len() - b.len() - c.len()]);
        }
    }
}

/// Sets off a bomb of range `bomb_range` on `(bomb_x, bomb_y)`: returns the
/// fire of the blast, makes every brick it reaches empty, and lets each
/// broken brick leave a power-up behind at random.
pub fn create_explosion_area(
    map: &mut GameMap,
    power_ups: &mut Vec<PowerUp>,
    bomb_x: usize,
    bomb_y: usize,
    bomb_range: i32,
) -> (explosions: Vec<Explosion>)
    requires
        old(map).wf(),
        bomb_x < i32::MAX,
        bomb_y < i32::MAX,
    ensures
        explosions@ == fresh_fire(blast(old(map)@, bomb_x as int, bomb_y as int, bomb_range as int)),
        final(map).wf(),
        final(map)@ == cleared(
            old(map)@,
            blast_bricks(old(map)@, bomb_x as int, bomb_y as int, bomb_range as int),
        ),
        exists|kinds: Seq<Option<PowerUpKind>>|
            #![trigger dropped(blast_bricks(old(map)@, bomb_x as int, bomb_y as int, bomb_range as int), kinds)]
            kinds.len() == blast_bricks(old(map)@, bomb_x as int, bomb_y as int, bomb_range as int).len()
                && final(power_ups)@ == old(power_ups)@ + dropped(
                blast_bricks(old(map)@, bomb_x as int, bomb_y as int, bomb_range as int),
                kinds,
            ),
{
    let ghost m0 = map@;
    let ghost p0 = power_ups@;
    let (explosions, bricks) = compute_blast(map, bomb_x, bomb_y, bomb_range);
    let ghost all = as_cells(bricks@);
    proof {
        lemma_blast_bricks_in_bounds(m0, bomb_x as int, bomb_y as int, bomb_range as int);
    }
    let ghost mut kinds: Seq<Option<PowerUpKind>> = Seq::empty();
    let mut i: usize = 0;
    while i < bricks.len()
        invariant
            i <= bricks@.len(),
            all == as_cells(bricks@),
            forall|k: int| 0 <= k < all.len() ==> in_bounds(#[trigger] all[k].0, all[k].1),
            map.wf(),
            map@ == cleared(m0, all.take(i as int)),
            kinds.len() == i,
            power_ups@ == p0 + dropped(all.take(i as int), kinds),
        decreases bricks@.len() - i,
    {
        let (x, y) = bricks[i];
        assert(all[i as int] == (x as int, y as int));
        assert(all.take(i + 1).drop_last() =~= all.take(i as int));
        map.set(x, y, Tile::Empty);
        let roll = roll_power_up_drop();
        let ghost old_kinds = kinds;
        if power_up_drops(roll) {
            let kind = random_power_up_kind();
            power_ups.push(PowerUp { x, y, kind });
            proof {
                kinds = kinds.push(Some(kind));
            }
        } else {
            proof {
                kinds = kinds.push(None);
            }
        }
        assert(kinds.drop_last() =~= old_kinds);
        assert(power_ups@ =~= p0 + dropped(all.take(i + 1), kinds)) by {
            assert(dropped(all.take(i + 1).drop_last(), kinds.drop_last()) == dropped(all.take(i as int), old_kinds));
            assert(all.take(i + 1).last() == (x as int, y as int));
        }
        i += 1;
    }
    assert(all.take(bricks@.len() as int) =~= all);
    explosions
}

} // verus!
