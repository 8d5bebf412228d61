//! Laws of the board under blasts: blasts only ever turn bricks into empty
//! cells, each broken brick is counted once, and a chain reaction keeps
//! these facts.

use vstd::prelude::*;
use crate::grid::{walkable, cell_index, in_bounds, lemma_cell_index_bounds, lemma_cell_index_injective, tile_at, Tile, CELLS};
use crate::blast::{blast, blast_bricks, cleared, dropped, ray, ray_brick};
use crate::bombs::{caught_by, chain_reaction, spared_by};
use crate::entities::{bomb_cell, fire_at, fire_cells, fresh_fire, Bomb, PowerUpKind};

verus! {

/// Whether the board `after` arose from `before` by breaking bricks only:
/// every cell is unchanged, or was a brick and is empty now.
pub open spec fn only_bricks_broken(before: Seq<Tile>, after: Seq<Tile>) -> bool {
    &&& after.len() == before.len()
    &&& forall|i: int| 0 <= i < before.len() ==> #[trigger] after[i] == before[i]
        || (before[i] == Tile::Brick && after[i] == Tile::Empty)
}

/// A cell that one may stand on stays so while only bricks break.
pub proof fn lemma_walkable_kept(before: Seq<Tile>, after: Seq<Tile>, x: int, y: int)
    requires
        before.len() == CELLS,
        only_bricks_broken(before, after),
        walkable(before, x, y),
    ensures
        walkable(after, x, y),
{
    lemma_cell_index_bounds(x, y);
    assert(after[cell_index(x, y)] == before[cell_index(x, y)]
        || (before[cell_index(x, y)] == Tile::Brick && after[cell_index(x, y)] == Tile::Empty));
}

/// Number of bricks on a board.
pub open spec fn brick_count(tiles: Seq<Tile>) -> nat
    decreases tiles.len(),
{
    if tiles.len() == 0 {
        0
    } else {
        brick_count(tiles.drop_last()) + if tiles.last() == Tile::Brick { 1nat } else { 0nat }
    }
}

/// A board holds no more bricks than cells.
pub proof fn lemma_brick_count_bound(tiles: Seq<Tile>)
    ensures
        brick_count(tiles) <= tiles.len(),
    decreases tiles.len(),
{
    if tiles.len() > 0 {
        lemma_brick_count_bound(tiles.drop_last());
    }
}

/// Breaking one brick lowers the brick count by one.
pub proof fn lemma_brick_count_break(tiles: Seq<Tile>, i: int)
    requires
        0 <= i < tiles.len(),
        tiles[i] == Tile::Brick,
    ensures
        brick_count(tiles.update(i, Tile::Empty)) + 1 == brick_count(tiles),
    decreases tiles.len(),
{
    let u = tiles.update(i, Tile::Empty);
    if i == tiles.len() - 1 {
        assert(u.drop_last() =~= tiles.drop_last());
    } else {
        assert(u.drop_last() =~= tiles.drop_last().update(i, Tile::Empty));
        lemma_brick_count_break(tiles.drop_last(), i);
    }
}

/// Whether one of `cells` is the board cell stored at position `i`.
pub open spec fn covers(cells: Seq<(int, int)>, i: int) -> bool {
    exists|k: int|
        0 <= k < cells.len() && in_bounds(cells[k].0, cells[k].1) && #[trigger] cell_index(cells[k].0, cells[k].1) == i
}

/// Clearing cells makes exactly the covered positions empty.
pub proof fn lemma_cleared_at(tiles: Seq<Tile>, cells: Seq<(int, int)>, i: int)
    requires
        tiles.len() == CELLS,
        0 <= i < CELLS,
    ensures
        cleared(tiles, cells).len() == CELLS,
        cleared(tiles, cells)[i] == if covers(cells, i) { Tile::Empty } else { tiles[i] },
    decreases cells.len(),
{
    if cells.len() > 0 {
        let init = cells.drop_last();
        let c = cells.last();
        lemma_cleared_at(tiles, init, i);
        if in_bounds(c.0, c.1) {
            lemma_cell_index_bounds(c.0, c.1);
        }
        if covers(init, i) {
            let k = choose|k: int|
                0 <= k < init.len() && in_bounds(init[k].0, init[k].1) && #[trigger] cell_index(init[k].0, init[k].1) == i;
            assert(cells[k] == init[k]);
            assert(covers(cells, i));
        }
        if covers(cells, i) {
            let k = choose|k: int|
                0 <= k < cells.len() && in_bounds(cells[k].0, cells[k].1) && #[trigger] cell_index(cells[k].0, cells[k].1) == i;
            if k < init.len() {
                assert(init[k] == cells[k]);
                assert(covers(init, i));
            }
        }
    }
}

/// Whether no cell occurs twice in `cells`.
pub open spec fn distinct_cells(cells: Seq<(int, int)>) -> bool {
    forall|a: int, b: int| 0 <= a < b < cells.len() ==> cells[a] != cells[b]
}

/// Whether every one of `cells` is a brick on the board.
pub open spec fn all_bricks(tiles: Seq<Tile>, cells: Seq<(int, int)>) -> bool {
    forall|k: int| 0 <= k < cells.len() ==> in_bounds(#[trigger] cells[k].0, cells[k].1)
        && tile_at(tiles, cells[k].0, cells[k].1) == Tile::Brick
}

/// Clearing distinct bricks lowers the brick count by their number, and
/// changes no other cell.
pub proof fn lemma_cleared_bricks(tiles: Seq<Tile>, cells: Seq<(int, int)>)
    requires
        tiles.len() == CELLS,
        distinct_cells(cells),
        all_bricks(tiles, cells),
    ensures
        cleared(tiles, cells).len() == CELLS,
        brick_count(cleared(tiles, cells)) + cells.len() == brick_count(tiles),
        forall|i: int| 0 <= i < CELLS ==> #[trigger] cleared(tiles, cells)[i] == tiles[i]
            || (tiles[i] == Tile::Brick && cleared(tiles, cells)[i] == Tile::Empty),
        forall|k: int| 0 <= k < cells.len() ==> tile_at(cleared(tiles, cells), #[trigger] cells[k].0, cells[k].1) == Tile::Empty,
    decreases cells.len(),
{
    let out = cleared(tiles, cells);
    assert forall|i: int| 0 <= i < CELLS implies #[trigger] out[i] == tiles[i]
        || (tiles[i] == Tile::Brick && out[i] == Tile::Empty) by {
        lemma_cleared_at(tiles, cells, i);
        if covers(cells, i) {
            let k = choose|k: int|
                0 <= k < cells.len() && in_bounds(cells[k].0, cells[k].1) && #[trigger] cell_index(cells[k].0, cells[k].1) == i;
            assert(tile_at(tiles, cells[k].0, cells[k].1) == Tile::Brick);
        }
    }
    assert forall|k: int| 0 <= k < cells.len() implies tile_at(out, #[trigger] cells[k].0, cells[k].1) == Tile::Empty by {
        let i = cell_index(cells[k].0, cells[k].1);
        lemma_cell_index_bounds(cells[k].0, cells[k].1);
        lemma_cleared_at(tiles, cells, i);
        assert(covers(cells, i));
    }
    if cells.len() == 0 {
    } else {
        let init = cells.drop_last();
        let c = cells.last();
        assert(distinct_cells(init)) by {
            assert forall|a: int, b: int| 0 <= a < b < init.len() implies init[a] != init[b] by {
                assert(init[a] == cells[a] && init[b] == cells[b]);
            }
        }
        assert(all_bricks(tiles, init)) by {
            assert forall|k: int| 0 <= k < init.len() implies in_bounds(#[trigger] init[k].0, init[k].1)
                && tile_at(tiles, init[k].0, init[k].1) == Tile::Brick by {
                assert(init[k] == cells[k]);
            }
        }
        lemma_cleared_bricks(tiles, init);
        assert(all_bricks(tiles, cells));
        assert(in_bounds(cells[cells.len() - 1].0, cells[cells.len() - 1].1));
        let i = cell_index(c.0, c.1);
        lemma_cell_index_bounds(c.0, c.1);
        lemma_cleared_at(tiles, init, i);
        if covers(init, i) {
            let k = choose|k: int|
                0 <= k < init.len() && in_bounds(init[k].0, init[k].1) && #[trigger] cell_index(init[k].0, init[k].1) == i;
            lemma_cell_index_injective(init[k].0, init[k].1, c.0, c.1);
            assert(init[k] == cells[k]);
            assert(cells[k] == cells[cells.len() - 1]);
        }
        assert(cleared(tiles, init)[i] == Tile::Brick);
        lemma_brick_count_break(cleared(tiles, init), i);
    }
}

/// The brick that ends a ray lies on the board, is a brick, and lies in the
/// ray's direction from its start.
pub proof fn lemma_ray_brick_facts(tiles: Seq<Tile>, x: int, y: int, dx: int, dy: int, steps: int)
    requires
        -1 <= dx <= 1,
        -1 <= dy <= 1,
    ensures
        ray_brick(tiles, x, y, dx, dy, steps).len() <= 1,
        forall|k: int| #![trigger ray_brick(tiles, x, y, dx, dy, steps)[k]]
            0 <= k < ray_brick(tiles, x, y, dx, dy, steps).len() ==> {
                let c = ray_brick(tiles, x, y, dx, dy, steps)[k];
                &&& in_bounds(c.0, c.1)
                &&& tile_at(tiles, c.0, c.1) == Tile::Brick
                &&& (dx == 0 ==> c.0 == x)
                &&& (dx > 0 ==> c.0 > x)
                &&& (dx < 0 ==> c.0 < x)
                &&& (dy == 0 ==> c.1 == y)
                &&& (dy > 0 ==> c.1 > y)
                &&& (dy < 0 ==> c.1 < y)
            },
    decreases steps,
{
    if steps > 0 && in_bounds(x + dx, y + dy) && tile_at(tiles, x + dx, y + dy) == Tile::Empty {
        lemma_ray_brick_facts(tiles, x + dx, y + dy, dx, dy, steps - 1);
    }
}

/// The bricks that one blast breaks are distinct bricks of the board.
pub proof fn lemma_blast_bricks_facts(tiles: Seq<Tile>, bx: int, by: int, range: int)
    ensures
        distinct_cells(blast_bricks(tiles, bx, by, range)),
        all_bricks(tiles, blast_bricks(tiles, bx, by, range)),
{
    lemma_ray_brick_facts(tiles, bx, by, 0, -1, range);
    lemma_ray_brick_facts(tiles, bx, by, 0, 1, range);
    lemma_ray_brick_facts(tiles, bx, by, -1, 0, range);
    lemma_ray_brick_facts(tiles, bx, by, 1, 0, range);
    let a = ray_brick(tiles, bx, by, 0, -1, range);
    let b = ray_brick(tiles, bx, by, 0, 1, range);
    let c = ray_brick(tiles, bx, by, -1, 0, range);
    let d = ray_brick(tiles, bx, by, 1, 0, range);
    let all = blast_bricks(tiles, bx, by, range);
    // every broken brick, with the side of the bomb on which it lies
    assert forall|i: int| 0 <= i < all.len() implies {
        &&& in_bounds(#[trigger] all[i].0, all[i].1)
        &&& tile_at(tiles, all[i].0, all[i].1) == Tile::Brick
        &&& (i < a.len() ==> all[i].0 == bx && all[i].1 < by)
        &&& (a.len() <= i < a.len() + b.len() ==> all[i].0 == bx && all[i].1 > by)
        &&& (a.len() + b.len() <= i < a.len() + b.len() + c.len() ==> all[i].1 == by && all[i].0 < bx)
        &&& (a.len() + b.len() + c.len() <= i ==> all[i].1 == by && all[i].0 > bx)
    } by {
        if i < a.len() {
            assert(all[i] == a[i]);
        } else if i < a.len() + b.len() {
            assert(all[i] == b[i - a.len()]);
        } else if i < a.len() + b.len() + c.len() {
            assert(all[i] == c[i - a.len() - b.len()]);
        } else {
            assert(all[i] == d[i - a.len() - b.len() - c.len()]);
        }
    }
}

/// The power-ups that broken bricks leave: no more than the bricks, each on
/// the cell of one of them.
pub proof fn lemma_dropped_facts(cells: Seq<(int, int)>, kinds: Seq<Option<PowerUpKind>>)
    ensures
        dropped(cells, kinds).len() <= cells.len(),
        forall|j: int| 0 <= j < dropped(cells, kinds).len() ==> exists|k: int|
            0 <= k < cells.len() && (#[trigger] dropped(cells, kinds)[j]).x == cells[k].0 as usize
                && dropped(cells, kinds)[j].y == cells[k].1 as usize,
    decreases cells.len(),
{
    if cells.len() > 0 && kinds.len() > 0 {
        let init = cells.drop_last();
        lemma_dropped_facts(init, kinds.drop_last());
        let rest = dropped(init, kinds.drop_last());
        let out = dropped(cells, kinds);
        assert forall|j: int| 0 <= j < out.len() implies exists|k: int|
            0 <= k < cells.len() && (#[trigger] out[j]).x == cells[k].0 as usize && out[j].y == cells[k].1 as usize by {
            if j < rest.len() {
                assert(out[j] == rest[j]);
                let k = choose|k: int|
                    0 <= k < init.len() && (#[trigger] rest[j]).x == init[k].0 as usize && rest[j].y == init[k].1 as usize;
                assert(init[k] == cells[k]);
            } else {
                assert(out[j].x == cells[cells.len() - 1].0 as usize);
            }
        }
    }
}

/// What a chain reaction does to the board and the bombs: it only turns
/// bricks into empty cells, it lowers the brick count by the number of
/// bricks it reports broken, every reported brick is an empty cell of the
/// board afterwards, and the bombs left are some of the bombs it started
/// among.
pub proof fn lemma_chain_reaction_facts(tiles: Seq<Tile>, bombs: Seq<Bomb>, queue: Seq<Bomb>)
    requires
        tiles.len() == CELLS,
    ensures
        ({
            let out = chain_reaction(tiles, bombs, queue);
            &&& out.tiles.len() == CELLS
            &&& only_bricks_broken(tiles, out.tiles)
            &&& brick_count(out.tiles) + out.bricks.len() == brick_count(tiles)
            &&& forall|k: int| 0 <= k < out.bricks.len() ==> in_bounds(#[trigger] out.bricks[k].0, out.bricks[k].1)
                && tile_at(out.tiles, out.bricks[k].0, out.bricks[k].1) == Tile::Empty
            &&& forall|b: Bomb| #[trigger] out.bombs.contains(b) ==> bombs.contains(b)
            &&& out.bombs.len() <= bombs.len()
        }),
    decreases bombs.len() + queue.len(),
{
    if queue.len() > 0 {
        let b = queue.last();
        let fire = fresh_fire(blast(tiles, b.x as int, b.y as int, b.range as int));
        let bricks = blast_bricks(tiles, b.x as int, b.y as int, b.range as int);
        let t1 = cleared(tiles, bricks);
        let spared = bombs.filter(spared_by(fire));
        let caught = bombs.filter(caught_by(fire));
        crate::bombs::lemma_filter_partition(bombs, caught_by(fire), spared_by(fire));
        lemma_blast_bricks_facts(tiles, b.x as int, b.y as int, b.range as int);
        lemma_cleared_bricks(tiles, bricks);
        lemma_chain_reaction_facts(t1, spared, queue.drop_last() + caught);
        let next = chain_reaction(t1, spared, queue.drop_last() + caught);
        let out = chain_reaction(tiles, bombs, queue);
        assert(out.tiles == next.tiles);
        assert(out.bricks == bricks + next.bricks);
        assert forall|i: int| 0 <= i < CELLS implies #[trigger] out.tiles[i] == tiles[i]
            || (tiles[i] == Tile::Brick && out.tiles[i] == Tile::Empty) by {
            assert(t1[i] == tiles[i] || (tiles[i] == Tile::Brick && t1[i] == Tile::Empty));
            assert(next.tiles[i] == t1[i] || (t1[i] == Tile::Brick && next.tiles[i] == Tile::Empty));
        }
        assert forall|k: int| 0 <= k < out.bricks.len() implies in_bounds(#[trigger] out.bricks[k].0, out.bricks[k].1)
            && tile_at(out.tiles, out.bricks[k].0, out.bricks[k].1) == Tile::Empty by {
            if k < bricks.len() {
                assert(out.bricks[k] == bricks[k]);
                let c = bricks[k];
                crate::grid::lemma_cell_index_bounds(c.0, c.1);
                assert(tile_at(t1, c.0, c.1) == Tile::Empty);
                assert(next.tiles[cell_index(c.0, c.1)] == t1[cell_index(c.0, c.1)]
                    || (t1[cell_index(c.0, c.1)] == Tile::Brick && next.tiles[cell_index(c.0, c.1)] == Tile::Empty));
            } else {
                assert(out.bricks[k] == next.bricks[k - bricks.len()]);
            }
        }
        assert forall|bb: Bomb| #[trigger] out.bombs.contains(bb) implies bombs.contains(bb) by {
            assert(spared.contains(bb));
            bombs.lemma_filter_contains_rev(spared_by(fire), bb);
        }
    }
}

/// Whether no two bombs lie on the same cell.
pub open spec fn distinct_bomb_cells(bombs: Seq<Bomb>) -> bool {
    forall|a: int, b: int| 0 <= a < b < bombs.len() ==> bomb_cell(bombs[a]) != bomb_cell(bombs[b])
}

/// Keeping some of the bombs keeps them on distinct cells.
pub proof fn lemma_filter_distinct(bombs: Seq<Bomb>, p: spec_fn(Bomb) -> bool)
    requires
        distinct_bomb_cells(bombs),
    ensures
        distinct_bomb_cells(bombs.filter(p)),
    decreases bombs.len(),
{
    reveal(Seq::filter);
    if bombs.len() > 0 {
        let init = bombs.drop_last();
        assert(distinct_bomb_cells(init)) by {
            assert forall|a: int, b: int| 0 <= a < b < init.len() implies bomb_cell(init[a]) != bomb_cell(init[b]) by {
                assert(init[a] == bombs[a] && init[b] == bombs[b]);
            }
        }
        lemma_filter_distinct(init, p);
        let f0 = init.filter(p);
        if p(bombs.last()) {
            let f = f0.push(bombs.last());
            assert forall|a: int, b: int| 0 <= a < b < f.len() implies bomb_cell(f[a]) != bomb_cell(f[b]) by {
                if b == f.len() - 1 {
                    assert(f0.contains(f0[a]));
                    init.lemma_filter_contains_rev(p, f0[a]);
                    let k = choose|k: int| 0 <= k < init.len() && init[k] == f0[a];
                    assert(bombs[k] == f0[a]);
                } else {
                    assert(f[a] == f0[a] && f[b] == f0[b]);
                }
            }
        }
    }
}

/// After a chain reaction no bomb left lies in its fire, and bombs that
/// lay on distinct cells still do.
pub proof fn lemma_chain_reaction_bombs(tiles: Seq<Tile>, bombs: Seq<Bomb>, queue: Seq<Bomb>)
    requires
        tiles.len() == CELLS,
    ensures
        ({
            let out = chain_reaction(tiles, bombs, queue);
            &&& forall|b: Bomb| #[trigger] out.bombs.contains(b) ==> !fire_at(out.fire, b.x as int, b.y as int)
            &&& distinct_bomb_cells(bombs) ==> distinct_bomb_cells(out.bombs)
        }),
    decreases bombs.len() + queue.len(),
{
    if queue.len() > 0 {
        let b = queue.last();
        let fire = fresh_fire(blast(tiles, b.x as int, b.y as int, b.range as int));
        let bricks = blast_bricks(tiles, b.x as int, b.y as int, b.range as int);
        let t1 = cleared(tiles, bricks);
        let spared = bombs.filter(spared_by(fire));
        let caught = bombs.filter(caught_by(fire));
        crate::bombs::lemma_filter_partition(bombs, caught_by(fire), spared_by(fire));
        lemma_blast_bricks_facts(tiles, b.x as int, b.y as int, b.range as int);
        lemma_cleared_bricks(tiles, bricks);
        lemma_chain_reaction_bombs(t1, spared, queue.drop_last() + caught);
        lemma_chain_reaction_facts(t1, spared, queue.drop_last() + caught);
        let next = chain_reaction(t1, spared, queue.drop_last() + caught);
        let out = chain_reaction(tiles, bombs, queue);
        assert(out.bombs == next.bombs);
        assert(out.fire == fire + next.fire);
        assert(fire_cells(out.fire) =~= fire_cells(fire) + fire_cells(next.fire));
        assert forall|bb: Bomb| #[trigger] out.bombs.contains(bb) implies !fire_at(out.fire, bb.x as int, bb.y as int) by {
            assert(spared.contains(bb));
            let k = choose|k: int| 0 <= k < spared.len() && spared[k] == bb;
            bombs.lemma_filter_pred(spared_by(fire), k);
            if fire_cells(out.fire).contains((bb.x as int, bb.y as int)) {
                let i = choose|i: int| 0 <= i < fire_cells(out.fire).len()
                    && fire_cells(out.fire)[i] == (bb.x as int, bb.y as int);
                if i < fire_cells(fire).len() {
                    assert(fire_cells(fire)[i] == (bb.x as int, bb.y as int));
                    assert(fire_cells(fire).contains((bb.x as int, bb.y as int)));
                } else {
                    assert(fire_cells(next.fire)[i - fire_cells(fire).len()] == (bb.x as int, bb.y as int));
                    assert(fire_cells(next.fire).contains((bb.x as int, bb.y as int)));
                }
            }
        }
        if distinct_bomb_cells(bombs) {
            lemma_filter_distinct(bombs, spared_by(fire));
        }
    }
}

/// A ray of fire: no longer than its range, on the board, never on a wall,
/// each cell strictly further in the ray's direction, no cell twice.
pub proof fn lemma_ray_facts(tiles: Seq<Tile>, x: int, y: int, dx: int, dy: int, steps: int)
    requires
        -1 <= dx <= 1,
        -1 <= dy <= 1,
        dx != 0 || dy != 0,
    ensures
        ray(tiles, x, y, dx, dy, steps).len() <= if steps > 0 { steps } else { 0 },
        distinct_cells(ray(tiles, x, y, dx, dy, steps)),
        forall|k: int| #![trigger ray(tiles, x, y, dx, dy, steps)[k]]
            0 <= k < ray(tiles, x, y, dx, dy, steps).len() ==> {
                let c = ray(tiles, x, y, dx, dy, steps)[k];
                &&& in_bounds(c.0, c.1)
                &&& tile_at(tiles, c.0, c.1) != Tile::Wall
                &&& (dx == 0 ==> c.0 == x)
                &&& (dx > 0 ==> c.0 > x)
                &&& (dx < 0 ==> c.0 < x)
                &&& (dy == 0 ==> c.1 == y)
                &&& (dy > 0 ==> c.1 > y)
                &&& (dy < 0 ==> c.1 < y)
            },
    decreases steps,
{
    if steps > 0 && in_bounds(x + dx, y + dy) && tile_at(tiles, x + dx, y + dy) == Tile::Empty {
        lemma_ray_facts(tiles, x + dx, y + dy, dx, dy, steps - 1);
        let rest = ray(tiles, x + dx, y + dy, dx, dy, steps - 1);
        let r = ray(tiles, x, y, dx, dy, steps);
        assert(r == seq![(x + dx, y + dy)] + rest);
        assert forall|k: int| 0 < k < r.len() implies r[k] == rest[k - 1] by {}
        assert(distinct_cells(r)) by {
            assert forall|a: int, b: int| 0 <= a < b < r.len() implies r[a] != r[b] by {
                assert(r[b] == rest[b - 1]);
                if a > 0 {
                    assert(r[a] == rest[a - 1]);
                }
            }
        }
    }
}

/// The fire of one blast: the bomb's cell first, then cells on the board
/// in the bomb's row and column that are not walls; no cell burns twice.
pub proof fn lemma_blast_facts(tiles: Seq<Tile>, bx: int, by: int, range: int)
    ensures
        blast(tiles, bx, by, range)[0] == (bx, by),
        distinct_cells(blast(tiles, bx, by, range)),
        blast(tiles, bx, by, range).len() <= 1 + 4 * (if range > 0 { range } else { 0 }),
        forall|k: int| 0 < k < blast(tiles, bx, by, range).len() ==> {
            let c = #[trigger] blast(tiles, bx, by, range)[k];
            &&& in_bounds(c.0, c.1)
            &&& tile_at(tiles, c.0, c.1) != Tile::Wall
            &&& (c.0 == bx || c.1 == by)
        },
{
    lemma_ray_facts(tiles, bx, by, 0, -1, range);
    lemma_ray_facts(tiles, bx, by, 0, 1, range);
    lemma_ray_facts(tiles, bx, by, -1, 0, range);
    lemma_ray_facts(tiles, bx, by, 1, 0, range);
    let a = ray(tiles, bx, by, 0, -1, range);
    let b = ray(tiles, bx, by, 0, 1, range);
    let c = ray(tiles, bx, by, -1, 0, range);
    let d = ray(tiles, bx, by, 1, 0, range);
    let all = blast(tiles, bx, by, range);
    let la = 1 + a.len();
    let lb = la + b.len();
    let lc = lb + c.len();
    assert forall|i: int| 0 <= i < all.len() implies {
        &&& (i == 0 ==> all[i] == (bx, by))
        &&& (0 < i ==> in_bounds(#[trigger] all[i].0, all[i].1) && tile_at(tiles, all[i].0, all[i].1) != Tile::Wall)
        &&& (0 < i < la ==> all[i].0 == bx && all[i].1 < by)
        &&& (la <= i < lb ==> all[i].0 == bx && all[i].1 > by)
        &&& (lb <= i < lc ==> all[i].1 == by && all[i].0 < bx)
        &&& (lc <= i ==> all[i].1 == by && all[i].0 > bx)
    } by {
        if i == 0 {
        } else if i < la {
            assert(all[i] == a[i - 1]);
        } else if i < lb {
            assert(all[i] == b[i - la]);
        } else if i < lc {
            assert(all[i] == c[i - lb]);
        } else {
            assert(all[i] == d[i - lc]);
        }
    }
    assert forall|i: int, j: int| 0 <= i < j < all.len() implies all[i] != all[j] by {
        if 0 < i && j < la {
            assert(all[i] == a[i - 1] && all[j] == a[j - 1]);
        } else if la <= i && j < lb {
            assert(all[i] == b[i - la] && all[j] == b[j - la]);
        } else if lb <= i && j < lc {
            assert(all[i] == c[i - lb] && all[j] == c[j - lb]);
        } else if lc <= i {
            assert(all[i] == d[i - lc] && all[j] == d[j - lc]);
        }
    }
}

} // verus!
