//! The board: a fixed-size grid of tiles stored row by row.

use vstd::prelude::*;

verus! {

/// Number of rows of the board.
pub const ROWS: usize = 11;

/// Number of columns of the board.
pub const COLS: usize = 13;

/// Number of cells of the board.
pub const CELLS: usize = 143;

#[derive(Clone, Copy, PartialEq, Eq, Debug, Structural)]
pub enum Tile {
    Empty,
    Wall,
    Brick,
}

/// Whether `(x, y)` names a cell of the board.
pub open spec fn in_bounds(x: int, y: int) -> bool {
    0 <= x < COLS && 0 <= y < ROWS
}

/// Position of cell `(x, y)` in the row-by-row storage.
pub open spec fn cell_index(x: int, y: int) -> int {
    y * (COLS as int) + x
}

/// The tile at `(x, y)` of a board stored row by row.
pub open spec fn tile_at(tiles: Seq<Tile>, x: int, y: int) -> Tile {
    tiles[cell_index(x, y)]
}

/// Whether a walker may stand on `(x, y)`: inside the board and empty.
pub open spec fn walkable(tiles: Seq<Tile>, x: int, y: int) -> bool {
    in_bounds(x, y) && tile_at(tiles, x, y) == Tile::Empty
}

/// The regular pattern of the board: walls on the border and on every cell
/// whose two coordinates are even, bricks on the other cells whose
/// coordinate sum is a multiple of three.
pub open spec fn pattern_tile(x: int, y: int) -> Tile {
    if y == 0 || y == ROWS - 1 || x == 0 || x == COLS - 1 {
        Tile::Wall
    } else if x % 2 == 0 && y % 2 == 0 {
        Tile::Wall
    } else if (x + y) % 3 == 0 {
        Tile::Brick
    } else {
        Tile::Empty
    }
}

/// The tile that a freshly built board holds at `(x, y)`: the regular
/// pattern, with the three cells of the player's starting corner cleared.
pub open spec fn initial_tile(x: int, y: int) -> Tile {
    if (x == 1 && y == 1) || (x == 2 && y == 1) || (x == 1 && y == 2) {
        Tile::Empty
    } else {
        pattern_tile(x, y)
    }
}

/// Law of the starting board: on every cell of the board, the tile of the
/// starting board is the one its coordinates call for: empty in the
/// player's corner, a wall on the border and where both coordinates are
/// even, a brick on the other cells whose coordinate sum is a multiple of
/// three, and empty elsewhere.
pub proof fn lemma_starting_board(x: int, y: int)
    requires
        in_bounds(x, y),
    ensures
        ((x == 1 && y == 1) || (x == 2 && y == 1) || (x == 1 && y == 2)) ==> initial_tile(x, y) == Tile::Empty,
        !((x == 1 && y == 1) || (x == 2 && y == 1) || (x == 1 && y == 2)) ==> {
            &&& (x == 0 || y == 0 || x == COLS - 1 || y == ROWS - 1) ==> initial_tile(x, y) == Tile::Wall
            &&& (x % 2 == 0 && y % 2 == 0) ==> initial_tile(x, y) == Tile::Wall
            &&& (0 < x < COLS - 1 && 0 < y < ROWS - 1 && !(x % 2 == 0 && y % 2 == 0)) ==> (initial_tile(x, y)
                == Tile::Brick <==> (x + y) % 3 == 0)
            &&& (0 < x < COLS - 1 && 0 < y < ROWS - 1 && !(x % 2 == 0 && y % 2 == 0) && (x + y) % 3 != 0)
                ==> initial_tile(x, y) == Tile::Empty
        },
{
}

/// Distinct cells of the board have distinct storage positions.
pub proof fn lemma_cell_index_injective(x1: int, y1: int, x2: int, y2: int)
    requires
        in_bounds(x1, y1),
        in_bounds(x2, y2),
        cell_index(x1, y1) == cell_index(x2, y2),
    ensures
        x1 == x2,
        y1 == y2,
{
}

/// Every cell of the board is stored inside the storage.
pub proof fn lemma_cell_index_bounds(x: int, y: int)
    requires
        in_bounds(x, y),
    ensures
        0 <= cell_index(x, y) < CELLS,
{
}

/// The board of tiles.
pub struct GameMap {
    tiles: Vec<Tile>,
}

impl View for GameMap {
    type V = Seq<Tile>;

    closed spec fn view(&self) -> Seq<Tile> {
        self.tiles@
    }
}

impl GameMap {
    /// A board holds exactly one tile per cell.
    pub open spec fn wf(&self) -> bool {
        self@.len() == CELLS
    }

    /// The tile at `(x, y)`.
    pub open spec fn tile(&self, x: int, y: int) -> Tile {
        tile_at(self@, x, y)
    }

    /// Reads the tile at `(x, y)`.
    pub fn get(&self, x: usize, y: usize) -> (t: Tile)
        requires
            self.wf(),
            in_bounds(x as int, y as int),
        ensures
            t == self.tile(x as int, y as int),
    {
        proof { lemma_cell_index_bounds(x as int, y as int); }
        self.tiles[y * COLS + x]
    }

    /// Writes `t` at `(x, y)`, leaving every other cell as it was.
    pub fn set(&mut self, x: usize, y: usize, t: Tile)
        requires
            old(self).wf(),
            in_bounds(x as int, y as int),
        ensures
            final(self).wf(),
            final(self)@ == old(self)@.update(cell_index(x as int, y as int), t),
    {
        proof { lemma_cell_index_bounds(x as int, y as int); }
        self.tiles.set(y * COLS + x, t);
    }
}

/// Builds the starting board.
pub fn create_map() -> (map: GameMap)
    ensures
        map.wf(),
        forall|x: int, y: int| in_bounds(x, y) ==> #[trigger] map.tile(x, y) == initial_tile(x, y),
        // every cell holds the tile its coordinates call for
        forall|x: int, y: int| #![trigger map.tile(x, y)] in_bounds(x, y) ==> {
            &&& ((x == 1 && y == 1) || (x == 2 && y == 1) || (x == 1 && y == 2)) ==> map.tile(x, y) == Tile::Empty
            &&& !((x == 1 && y == 1) || (x == 2 && y == 1) || (x == 1 && y == 2)) ==> {
                &&& (x == 0 || y == 0 || x == COLS - 1 || y == ROWS - 1) ==> map.tile(x, y) == Tile::Wall
                &&& (x % 2 == 0 && y % 2 == 0) ==> map.tile(x, y) == Tile::Wall
                &&& (0 < x < COLS - 1 && 0 < y < ROWS - 1 && !(x % 2 == 0 && y % 2 == 0)) ==> (map.tile(x, y)
                    == Tile::Brick <==> (x + y) % 3 == 0)
                &&& (0 < x < COLS - 1 && 0 < y < ROWS - 1 && !(x % 2 == 0 && y % 2 == 0) && (x + y) % 3 != 0)
                    ==> map.tile(x, y) == Tile::Empty
            }
        },
{
    let mut tiles: Vec<Tile> = Vec::new();
    let mut y: usize = 0;
    while y < ROWS
        invariant
            y <= ROWS,
            tiles@.len() == y * COLS,
            forall|xx: int, yy: int|
                0 <= xx < COLS && 0 <= yy < y ==> #[trigger] tiles@[cell_index(xx, yy)]
                    == pattern_tile(xx, yy),
        decreases ROWS - y,
    {
        let mut x: usize = 0;
        while x < COLS
            invariant
                y < ROWS,
                x <= COLS,
                tiles@.len() == y * COLS + x,
                forall|xx: int, yy: int|
                    0 <= xx < COLS && 0 <= yy < y ==> #[trigger] tiles@[cell_index(xx, yy)]
                        == pattern_tile(xx, yy),
                forall|xx: int| 0 <= xx < x ==> #[trigger] tiles@[cell_index(xx, y as int)]
                    == pattern_tile(xx, y as int),
            decreases COLS - x,
        {
            let tile = if y == 0 || y == ROWS - 1 || x == 0 || x == COLS - 1 {
                Tile::Wall
            } else if x % 2 == 0 && y % 2 == 0 {
                Tile::Wall
            } else if (x + y) % 3 == 0 {
                Tile::Brick
            } else {
                Tile::Empty
            };
            let ghost before = tiles@;
            tiles.push(tile);
            proof {
                assert forall|xx: int, yy: int|
                    0 <= xx < COLS && 0 <= yy < y implies #[trigger] tiles@[cell_index(xx, yy)]
                        == pattern_tile(xx, yy) by {
                    assert(tiles@[cell_index(xx, yy)] == before[cell_index(xx, yy)]);
                }
                assert forall|xx: int| 0 <= xx < x + 1 implies #[trigger] tiles@[cell_index(
                    xx,
                    y as int,
                )] == pattern_tile(xx, y as int) by {
                    if xx < x {
                        assert(tiles@[cell_index(xx, y as int)] == before[cell_index(xx, y as int)]);
                    }
                }
            }
            x += 1;
        }
        y += 1;
    }
    let mut map = GameMap { tiles };
    // keep the starting corner free, so that the player can move at once
    map.set(1, 1, Tile::Empty);
    map.set(2, 1, Tile::Empty);
    map.set(1, 2, Tile::Empty);
    proof {
        assert forall|x: int, y: int| in_bounds(x, y) implies #[trigger] map.tile(x, y)
            == initial_tile(x, y) by {
            assert(tiles@[cell_index(x, y)] == pattern_tile(x, y));
        }
        assert forall|x: int, y: int| #![trigger map.tile(x, y)] in_bounds(x, y) implies {
                &&& ((x == 1 && y == 1) || (x == 2 && y == 1) || (x == 1 && y == 2)) ==> map.tile(x, y) == Tile::Empty
                &&& !((x == 1 && y == 1) || (x == 2 && y == 1) || (x == 1 && y == 2)) ==> {
                    &&& (x == 0 || y == 0 || x == COLS - 1 || y == ROWS - 1) ==> map.tile(x, y) == Tile::Wall
                    &&& (x % 2 == 0 && y % 2 == 0) ==> map.tile(x, y) == Tile::Wall
                    &&& (0 < x < COLS - 1 && 0 < y < ROWS - 1 && !(x % 2 == 0 && y % 2 == 0)) ==> (map.tile(x, y)
                        == Tile::Brick <==> (x + y) % 3 == 0)
                    &&& (0 < x < COLS - 1 && 0 < y < ROWS - 1 && !(x % 2 == 0 && y % 2 == 0) && (x + y) % 3 != 0)
                        ==> map.tile(x, y) == Tile::Empty
                }
        } by {
            assert(map.tile(x, y) == initial_tile(x, y));
            lemma_starting_board(x, y);
        }
    }
    map
}

/// Whether a walker may step onto `(x, y)`: inside the board and empty.
pub fn is_walkable(map: &GameMap, x: i32, y: i32) -> (r: bool)
    requires
        map.wf(),
    ensures
        r == walkable(map@, x as int, y as int),
{
    if x < 0 || y < 0 || x >= COLS as i32 || y >= ROWS as i32 {
        return false;
    }
    match map.get(x as usize, y as usize) {
        Tile::Empty => true,
        _ => false,
    }
}

} // verus!
