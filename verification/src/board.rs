//! Static board vocabulary: tiles, the grid, the ship-length table, and
//! counting of ship segments on a grid.

use vstd::prelude::*;

verus! {

/// The side length of the square grid.
pub const BOARD_SIZE: usize = 10;

/// The number of ships each player owns.
pub const NUM_SHIPS: usize = 7;

/// The state of one grid cell. Transitions are one-way:
/// `Water -> Miss` and `Ship(id) -> Hit(id)`; `Hit` and `Miss` are terminal.
#[derive(Clone, Copy, Debug, PartialEq, Eq, Structural)]
pub enum Tile {
    Water,
    Ship(u8),
    Hit(u8),
    Miss,
}

/// A player's grid, indexed `[x][y]`; well-formed boards are 10 x 10.
pub type Board = Vec<Vec<Tile>>;

/// Length of the ship with the given id. A ship's identity is its index in
/// the fixed table `[2, 2, 2, 3, 3, 4, 5]`.
pub open spec fn ship_len(id: int) -> int {
    if id == 0 { 2 }
    else if id == 1 { 2 }
    else if id == 2 { 2 }
    else if id == 3 { 3 }
    else if id == 4 { 3 }
    else if id == 5 { 4 }
    else if id == 6 { 5 }
    else { 0 }
}

/// Executable ship-length table lookup.
pub fn ship_len_at(id: usize) -> (l: u8)
    requires
        id < NUM_SHIPS,
    ensures
        l as int == ship_len(id as int),
{
    if id == 0 { 2 }
    else if id == 1 { 2 }
    else if id == 2 { 2 }
    else if id == 3 { 3 }
    else if id == 4 { 3 }
    else if id == 5 { 4 }
    else { 5 }
}

/// The mathematical value of a board: a sequence of columns of tiles.
pub open spec fn grid_of(b: Board) -> Seq<Seq<Tile>> {
    Seq::new(b@.len(), |x: int| b@[x]@)
}

/// A grid has exactly `BOARD_SIZE` columns of `BOARD_SIZE` tiles each.
pub open spec fn grid_wf(g: Seq<Seq<Tile>>) -> bool {
    &&& g.len() == BOARD_SIZE
    &&& forall|x: int| 0 <= x < g.len() ==> (#[trigger] g[x]).len() == BOARD_SIZE
}

/// Whether a coordinate lies on the board.
pub open spec fn in_bounds(x: int, y: int) -> bool {
    0 <= x < BOARD_SIZE && 0 <= y < BOARD_SIZE
}

/// Every `Ship` or `Hit` tile carries a ship id below `NUM_SHIPS`.
pub open spec fn tile_id_ok(t: Tile) -> bool {
    match t {
        Tile::Ship(id) => id < NUM_SHIPS,
        Tile::Hit(id) => id < NUM_SHIPS,
        _ => true,
    }
}

/// How many cells of one column hold `Ship(id)`.
pub open spec fn col_count(col: Seq<Tile>, id: u8) -> int
    decreases col.len(),
{
    if col.len() == 0 {
        0
    } else {
        col_count(col.drop_last(), id) + if col.last() == Tile::Ship(id) { 1int } else { 0int }
    }
}

/// How many cells of the whole grid hold `Ship(id)`.
pub open spec fn grid_count(g: Seq<Seq<Tile>>, id: u8) -> int
    decreases g.len(),
{
    if g.len() == 0 {
        0
    } else {
        grid_count(g.drop_last(), id) + col_count(g.last(), id)
    }
}

/// The grid with one cell replaced.
pub open spec fn grid_set(g: Seq<Seq<Tile>>, x: int, y: int, t: Tile) -> Seq<Seq<Tile>> {
    g.update(x, g[x].update(y, t))
}

/// Whether a tile is a segment of ship `id`, intact or hit.
pub open spec fn is_segment(t: Tile, id: u8) -> bool {
    t == Tile::Ship(id) || t == Tile::Hit(id)
}

/// How many cells of one column belong to ship `id`, intact or hit.
pub open spec fn col_segments(col: Seq<Tile>, id: u8) -> int
    decreases col.len(),
{
    if col.len() == 0 {
        0
    } else {
        col_segments(col.drop_last(), id) + if is_segment(col.last(), id) { 1int } else { 0int }
    }
}

/// How many cells of the whole grid belong to ship `id`, intact or hit.
pub open spec fn grid_segments(g: Seq<Seq<Tile>>, id: u8) -> int
    decreases g.len(),
{
    if g.len() == 0 {
        0
    } else {
        grid_segments(g.drop_last(), id) + col_segments(g.last(), id)
    }
}

proof fn lemma_col_segments_update(col: Seq<Tile>, id: u8, j: int, t: Tile)
    requires
        0 <= j < col.len(),
    ensures
        col_segments(col.update(j, t), id) == col_segments(col, id)
            - (if is_segment(col[j], id) { 1int } else { 0int })
            + (if is_segment(t, id) { 1int } else { 0int }),
    decreases col.len(),
{
    if j == col.len() - 1 {
        assert(col.update(j, t).drop_last() =~= col.drop_last());
    } else {
        lemma_col_segments_update(col.drop_last(), id, j, t);
        assert(col.update(j, t).drop_last() =~= col.drop_last().update(j, t));
        assert(col.update(j, t).last() == col.last());
    }
}

pub proof fn lemma_grid_segments_set(g: Seq<Seq<Tile>>, id: u8, x: int, y: int, t: Tile)
    requires
        0 <= x < g.len(),
        0 <= y < g[x].len(),
    ensures
        grid_segments(grid_set(g, x, y, t), id) == grid_segments(g, id)
            - (if is_segment(g[x][y], id) { 1int } else { 0int })
            + (if is_segment(t, id) { 1int } else { 0int }),
    decreases g.len(),
{
    if x == g.len() - 1 {
        assert(grid_set(g, x, y, t).drop_last() =~= g.drop_last());
        lemma_col_segments_update(g[x], id, y, t);
    } else {
        lemma_grid_segments_set(g.drop_last(), id, x, y, t);
        assert(grid_set(g, x, y, t).drop_last() =~= grid_set(g.drop_last(), x, y, t));
        assert(grid_set(g, x, y, t).last() == g.last());
    }
}

/// On a grid without hit segments of ship `id`, its segment count is its
/// intact-segment count.
pub proof fn lemma_segments_without_hits(g: Seq<Seq<Tile>>, id: u8)
    requires
        forall|x: int| 0 <= x < g.len() ==>
            forall|y: int| 0 <= y < (#[trigger] g[x]).len() ==> g[x][y] != Tile::Hit(id),
    ensures
        grid_segments(g, id) == grid_count(g, id),
    decreases g.len(),
{
    if g.len() > 0 {
        lemma_segments_without_hits(g.drop_last(), id);
        lemma_col_segments_without_hits(g.last(), id);
    }
}

proof fn lemma_col_segments_without_hits(col: Seq<Tile>, id: u8)
    requires
        forall|y: int| 0 <= y < col.len() ==> col[y] != Tile::Hit(id),
    ensures
        col_segments(col, id) == col_count(col, id),
    decreases col.len(),
{
    if col.len() > 0 {
        lemma_col_segments_without_hits(col.drop_last(), id);
    }
}

pub proof fn lemma_col_count_nonneg(col: Seq<Tile>, id: u8)
    ensures
        col_count(col, id) >= 0,
    decreases col.len(),
{
    if col.len() > 0 {
        lemma_col_count_nonneg(col.drop_last(), id);
    }
}

pub proof fn lemma_grid_count_nonneg(g: Seq<Seq<Tile>>, id: u8)
    ensures
        grid_count(g, id) >= 0,
    decreases g.len(),
{
    if g.len() > 0 {
        lemma_grid_count_nonneg(g.drop_last(), id);
        lemma_col_count_nonneg(g.last(), id);
    }
}

pub proof fn lemma_col_count_update(col: Seq<Tile>, id: u8, j: int, t: Tile)
    requires
        0 <= j < col.len(),
    ensures
        col_count(col.update(j, t), id) == col_count(col, id)
            - (if col[j] == Tile::Ship(id) { 1int } else { 0int })
            + (if t == Tile::Ship(id) { 1int } else { 0int }),
    decreases col.len(),
{
    if j == col.len() - 1 {
        assert(col.update(j, t).drop_last() =~= col.drop_last());
    } else {
        lemma_col_count_update(col.drop_last(), id, j, t);
        assert(col.update(j, t).drop_last() =~= col.drop_last().update(j, t));
        assert(col.update(j, t).last() == col.last());
    }
}

pub proof fn lemma_grid_count_set(g: Seq<Seq<Tile>>, id: u8, x: int, y: int, t: Tile)
    requires
        0 <= x < g.len(),
        0 <= y < g[x].len(),
    ensures
        grid_count(grid_set(g, x, y, t), id) == grid_count(g, id)
            - (if g[x][y] == Tile::Ship(id) { 1int } else { 0int })
            + (if t == Tile::Ship(id) { 1int } else { 0int }),
    decreases g.len(),
{
    if x == g.len() - 1 {
        assert(grid_set(g, x, y, t).drop_last() =~= g.drop_last());
        lemma_col_count_update(g[x], id, y, t);
    } else {
        lemma_grid_count_set(g.drop_last(), id, x, y, t);
        assert(grid_set(g, x, y, t).drop_last() =~= grid_set(g.drop_last(), x, y, t));
        assert(grid_set(g, x, y, t).last() == g.last());
    }
}

pub proof fn lemma_col_cell_count_pos(col: Seq<Tile>, id: u8, j: int)
    requires
        0 <= j < col.len(),
        col[j] == Tile::Ship(id),
    ensures
        col_count(col, id) >= 1,
    decreases col.len(),
{
    if j == col.len() - 1 {
        lemma_col_count_nonneg(col.drop_last(), id);
    } else {
        lemma_col_cell_count_pos(col.drop_last(), id, j);
    }
}

pub proof fn lemma_grid_cell_count_pos(g: Seq<Seq<Tile>>, id: u8, x: int, y: int)
    requires
        0 <= x < g.len(),
        0 <= y < g[x].len(),
        g[x][y] == Tile::Ship(id),
    ensures
        grid_count(g, id) >= 1,
    decreases g.len(),
{
    if x == g.len() - 1 {
        lemma_grid_count_nonneg(g.drop_last(), id);
        lemma_col_cell_count_pos(g[x], id, y);
    } else {
        lemma_grid_cell_count_pos(g.drop_last(), id, x, y);
        lemma_col_count_nonneg(g.last(), id);
    }
}

/// An all-`Water` board of the fixed size.
pub fn empty_board() -> (b: Board)
    ensures
        grid_wf(grid_of(b)),
        forall|x: int, y: int| in_bounds(x, y) ==> (#[trigger] grid_of(b)[x][y]) == Tile::Water,
{
    let mut b: Board = Vec::new();
    let mut x: usize = 0;
    while x < BOARD_SIZE
        invariant
            x <= BOARD_SIZE,
            b@.len() == x,
            forall|i: int| 0 <= i < x ==> (#[trigger] b@[i])@.len() == BOARD_SIZE,
            forall|i: int, j: int| 0 <= i < x && 0 <= j < BOARD_SIZE ==> b@[i]@[j] == Tile::Water,
        decreases BOARD_SIZE - x,
    {
        let mut col: Vec<Tile> = Vec::new();
        let mut y: usize = 0;
        while y < BOARD_SIZE
            invariant
                y <= BOARD_SIZE,
                col@.len() == y,
                forall|j: int| 0 <= j < y ==> col@[j] == Tile::Water,
            decreases BOARD_SIZE - y,
        {
            col.push(Tile::Water);
            y = y + 1;
        }
        b.push(col);
        x = x + 1;
    }
    b
}

} // verus!
