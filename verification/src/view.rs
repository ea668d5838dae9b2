//! Visibility filter: a redacted, player-specific projection of canonical
//! state.

use vstd::prelude::*;
use crate::board::{
    BOARD_SIZE, NUM_SHIPS, Tile, Board, grid_of, grid_wf, in_bounds, tile_id_ok,
};
use crate::state::{State, sgrid, shits, state_shape, state_wf};
use crate::placement::{is_ship, ship_id_of};

verus! {

/// How one cell of a board not owned by the viewer is shown: undiscovered
/// ship segments look like water; a hit segment reveals its ship only once
/// that ship is fully sunk; resolved misses pass through.
pub open spec fn view_tile(t: Tile, hits: Seq<u8>) -> Tile {
    match t {
        Tile::Ship(_) => Tile::Water,
        Tile::Hit(id) => if hits[id as int] == 0 { Tile::Ship(id) } else { Tile::Hit(id) },
        _ => t,
    }
}

/// Executable cell filter.
fn view_tile_at(t: Tile, hits: &Vec<u8>) -> (r: Tile)
    requires
        match t {
            Tile::Hit(id) => id < hits@.len(),
            _ => true,
        },
    ensures
        r == view_tile(t, hits@),
{
    match t {
        Tile::Ship(_) => Tile::Water,
        Tile::Hit(id) => {
            if hits[id as usize] == 0 {
                Tile::Ship(id)
            } else {
                Tile::Hit(id)
            }
        },
        _ => t,
    }
}

/// Copy one board cell for cell.
#[verifier::loop_isolation(false)]
fn copy_board(b: &Board) -> (r: Board)
    requires
        grid_wf(grid_of(*b)),
    ensures
        grid_of(r) =~~= grid_of(*b),
        grid_wf(grid_of(r)),
{
    let mut r: Board = Vec::new();
    let mut x: usize = 0;
    while x < BOARD_SIZE
        invariant
            x <= BOARD_SIZE,
            grid_wf(grid_of(*b)),
            r@.len() == x,
            forall|i: int| 0 <= i < x ==> (#[trigger] r@[i])@ == grid_of(*b)[i],
        decreases BOARD_SIZE - x,
    {
        let mut col: Vec<Tile> = Vec::new();
        let mut y: usize = 0;
        proof {
            assert(grid_of(*b)[x as int].len() == BOARD_SIZE);
        }
        while y < BOARD_SIZE
            invariant
                y <= BOARD_SIZE,
                x < BOARD_SIZE,
                grid_wf(grid_of(*b)),
                col@.len() == y,
                forall|j: int| 0 <= j < y ==> col@[j] == grid_of(*b)[x as int][j],
            decreases BOARD_SIZE - y,
        {
            col.push(b[x][y]);
            y = y + 1;
        }
        proof {
            assert(col@ =~= grid_of(*b)[x as int]);
        }
        r.push(col);
        x = x + 1;
    }
    proof {
        assert forall|i: int| 0 <= i < BOARD_SIZE implies #[trigger] grid_of(r)[i] == grid_of(*b)[i] by {
            assert(grid_of(r)[i] == r@[i]@);
        }
        assert(grid_of(r) =~= grid_of(*b));
    }
    r
}

/// Filter one board that the viewer does not own.
#[verifier::loop_isolation(false)]
fn filter_board(b: &Board, hits: &Vec<u8>) -> (r: Board)
    requires
        grid_wf(grid_of(*b)),
        hits@.len() == NUM_SHIPS,
        forall|x: int, y: int| in_bounds(x, y) ==>
            (match #[trigger] grid_of(*b)[x][y] {
                Tile::Hit(id) => id < NUM_SHIPS,
                _ => true,
            }),
    ensures
        grid_wf(grid_of(r)),
        forall|x: int, y: int| in_bounds(x, y) ==>
            (#[trigger] grid_of(r)[x][y]) == view_tile(grid_of(*b)[x][y], hits@),
{
    let mut r: Board = Vec::new();
    let mut x: usize = 0;
    while x < BOARD_SIZE
        invariant
            x <= BOARD_SIZE,
            r@.len() == x,
            forall|i: int| 0 <= i < x ==> (#[trigger] r@[i])@.len() == BOARD_SIZE,
            forall|i: int, j: int| 0 <= i < x && 0 <= j < BOARD_SIZE ==>
                r@[i]@[j] == view_tile(grid_of(*b)[i][j], hits@),
        decreases BOARD_SIZE - x,
    {
        let mut col: Vec<Tile> = Vec::new();
        let mut y: usize = 0;
        proof {
            assert(grid_of(*b)[x as int].len() == BOARD_SIZE);
        }
        while y < BOARD_SIZE
            invariant
                y <= BOARD_SIZE,
                x < BOARD_SIZE,
                col@.len() == y,
                forall|j: int| 0 <= j < y ==> col@[j] == view_tile(grid_of(*b)[x as int][j], hits@),
            decreases BOARD_SIZE - y,
        {
            let t = b[x][y];
            proof {
                assert(in_bounds(x as int, y as int));
            }
            col.push(view_tile_at(t, hits));
            y = y + 1;
        }
        r.push(col);
        x = x + 1;
    }
    proof {
        assert(grid_of(r).len() == BOARD_SIZE);
        assert forall|x2: int, y2: int| in_bounds(x2, y2) implies
            (#[trigger] grid_of(r)[x2][y2]) == view_tile(grid_of(*b)[x2][y2], hits@) by {
            assert(grid_of(r)[x2] == r@[x2]@);
        }
        assert forall|i: int| 0 <= i < grid_of(r).len() implies
            (#[trigger] grid_of(r)[i]).len() == BOARD_SIZE by {
            assert(grid_of(r)[i] == r@[i]@);
        }
    }
    r
}

/// Copy one `hits_left` table.
#[verifier::loop_isolation(false)]
fn copy_hits(h: &Vec<u8>) -> (r: Vec<u8>)
    ensures
        r@ =~= h@,
{
    let mut r: Vec<u8> = Vec::new();
    let mut j: usize = 0;
    while j < h.len()
        invariant
            j <= h@.len(),
            r@.len() == j,
            forall|i: int| 0 <= i < j ==> r@[i] == h@[i],
        decreases h@.len() - j,
    {
        r.push(h[j]);
        j = j + 1;
    }
    r
}

/// An all-zero `hits_left` table.
fn zero_hits() -> (r: Vec<u8>)
    ensures
        r@.len() == NUM_SHIPS,
        forall|i: int| 0 <= i < NUM_SHIPS ==> r@[i] == 0,
{
    let mut r: Vec<u8> = Vec::new();
    let mut j: usize = 0;
    while j < NUM_SHIPS
        invariant
            j <= NUM_SHIPS,
            r@.len() == j,
            forall|i: int| 0 <= i < j ==> r@[i] == 0,
        decreases NUM_SHIPS - j,
    {
        r.push(0);
        j = j + 1;
    }
    r
}

/// Produce the redacted copy of the state that may be sent to `viewer`.
///
/// The viewer's own board and table pass through unchanged. On the other
/// player's board undiscovered ship segments are shown as water and a hit
/// segment reveals its ship only once that ship is sunk; the other
/// player's `hits_left` table is zeroed. Canonical state is not touched.
pub fn view_for(s: &State, viewer: u16) -> (v: State)
    requires
        state_wf(*s),
        viewer == 1 || viewer == 2,
    ensures
        state_shape(v),
        sgrid(v, viewer as int - 1) =~~= sgrid(*s, viewer as int - 1),
        shits(v, viewer as int - 1) =~= shits(*s, viewer as int - 1),
        forall|x: int, y: int| in_bounds(x, y) ==>
            (#[trigger] sgrid(v, 2 - viewer as int)[x][y])
                == view_tile(sgrid(*s, 2 - viewer as int)[x][y], shits(*s, 2 - viewer as int)),
        forall|j: int| 0 <= j < NUM_SHIPS ==> #[trigger] shits(v, 2 - viewer as int)[j] == 0,
{
    let own: usize = (viewer - 1) as usize;
    let other: usize = if own == 0 { 1 } else { 0 };
    proof {
        assert(other as int == 2 - viewer as int);
        assert(grid_wf(sgrid(*s, own as int)));
        assert(grid_wf(sgrid(*s, other as int)));
        assert(shits(*s, own as int).len() == NUM_SHIPS);
        assert(shits(*s, other as int).len() == NUM_SHIPS);
        assert forall|x: int, y: int| in_bounds(x, y) implies
            (match #[trigger] sgrid(*s, other as int)[x][y] {
                Tile::Hit(id) => id < NUM_SHIPS,
                _ => true,
            }) by {
            assert(tile_id_ok(sgrid(*s, other as int)[x][y]));
        }
    }
    let own_board = copy_board(&s.boards[own]);
    let other_board = filter_board(&s.boards[other], &s.hits_left[other]);
    let own_hits = copy_hits(&s.hits_left[own]);
    let other_hits = zero_hits();
    let mut boards: Vec<Board> = Vec::new();
    let mut hits_left: Vec<Vec<u8>> = Vec::new();
    if own == 0 {
        boards.push(own_board);
        boards.push(other_board);
        hits_left.push(own_hits);
        hits_left.push(other_hits);
    } else {
        boards.push(other_board);
        boards.push(own_board);
        hits_left.push(other_hits);
        hits_left.push(own_hits);
    }
    let v = State { boards, hits_left };
    v
}

/// Visibility non-leakage: the filtered view of a board not owned by the
/// viewer shows `Ship(id)` only where the canonical state has that ship
/// fully sunk.
pub proof fn lemma_view_no_leak(s: State, v: State, viewer: int)
    requires
        state_wf(s),
        viewer == 1 || viewer == 2,
        forall|x: int, y: int| in_bounds(x, y) ==>
            (#[trigger] sgrid(v, 2 - viewer)[x][y])
                == view_tile(sgrid(s, 2 - viewer)[x][y], shits(s, 2 - viewer)),
    ensures
        forall|x: int, y: int| in_bounds(x, y)
            && is_ship(#[trigger] sgrid(v, 2 - viewer)[x][y])
            ==> ship_id_of(sgrid(v, 2 - viewer)[x][y]) < NUM_SHIPS
                && shits(s, 2 - viewer)[ship_id_of(sgrid(v, 2 - viewer)[x][y]) as int] == 0,
{
    assert forall|x: int, y: int| in_bounds(x, y)
        && is_ship(#[trigger] sgrid(v, 2 - viewer)[x][y])
        implies ship_id_of(sgrid(v, 2 - viewer)[x][y]) < NUM_SHIPS
            && shits(s, 2 - viewer)[ship_id_of(sgrid(v, 2 - viewer)[x][y]) as int] == 0 by {
        assert(sgrid(v, 2 - viewer)[x][y] == view_tile(sgrid(s, 2 - viewer)[x][y], shits(s, 2 - viewer)));
        assert(tile_id_ok(sgrid(s, 2 - viewer)[x][y]));
    }
}

} // verus!
