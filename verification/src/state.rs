//! Canonical match state: one board and one `hits_left` table per player.

use vstd::prelude::*;
use crate::board::{
    BOARD_SIZE, NUM_SHIPS, Tile, Board, ship_len, ship_len_at, grid_of, grid_wf, in_bounds,
    tile_id_ok, grid_count, grid_segments, lemma_segments_without_hits, empty_board,
};
use crate::placement::{
    generate, spec_generate, placement_complete, sep_ok, gen_inv, tile_gen_ok,
};

verus! {

/// The single source of truth for a match: a board and a per-ship
/// "hits remaining" table for each of the two players.
pub struct State {
    pub boards: Vec<Board>,
    pub hits_left: Vec<Vec<u8>>,
}

/// The grid of player `p`'s board.
pub open spec fn sgrid(s: State, p: int) -> Seq<Seq<Tile>> {
    grid_of(s.boards@[p])
}

/// Player `p`'s `hits_left` table.
pub open spec fn shits(s: State, p: int) -> Seq<u8> {
    s.hits_left@[p]@
}

/// Both players' tables have one entry per ship.
pub open spec fn state_shape(s: State) -> bool {
    &&& s.boards@.len() == 2
    &&& s.hits_left@.len() == 2
    &&& forall|p: int| 0 <= p < 2 ==> grid_wf(#[trigger] sgrid(s, p))
    &&& forall|p: int| 0 <= p < 2 ==> (#[trigger] shits(s, p)).len() == NUM_SHIPS
}

/// Well-formedness of canonical state: the shape above, every tile carries
/// a valid ship id, and each `hits_left` entry equals the number of
/// still-intact segments of that ship on that player's board.
pub open spec fn state_wf(s: State) -> bool {
    &&& state_shape(s)
    &&& forall|p: int, x: int, y: int| 0 <= p < 2 && in_bounds(x, y)
            ==> tile_id_ok(#[trigger] sgrid(s, p)[x][y])
    &&& forall|p: int, j: u8| 0 <= p < 2 && j < NUM_SHIPS
            ==> shits(s, p)[j as int] as int == #[trigger] grid_count(sgrid(s, p), j)
    &&& forall|p: int, j: u8| 0 <= p < 2 && j < NUM_SHIPS
            ==> #[trigger] grid_segments(sgrid(s, p), j) == ship_len(j as int)
}

/// The per-player generation stream: each player's board comes from its own
/// seed derived from the match seed, so neither board can be predicted from
/// the other.
pub open spec fn player_seed(seed: u64, p: int) -> u64 {
    if p == 0 { seed } else { seed ^ 0x9E3779B97F4A7C15u64 }
}

fn player_seed_at(seed: u64, p: usize) -> (r: u64)
    requires
        p < 2,
    ensures
        r == player_seed(seed, p as int),
{
    if p == 0 { seed } else { seed ^ 0x9E3779B97F4A7C15u64 }
}

/// A fresh `hits_left` table: one entry per ship, at its declared length.
fn full_hits() -> (h: Vec<u8>)
    ensures
        h@.len() == NUM_SHIPS,
        forall|j: int| 0 <= j < NUM_SHIPS ==> h@[j] as int == ship_len(j),
{
    let mut h: Vec<u8> = Vec::new();
    let mut j: usize = 0;
    while j < NUM_SHIPS
        invariant
            j <= NUM_SHIPS,
            h@.len() == j,
            forall|i: int| 0 <= i < j ==> h@[i] as int == ship_len(i),
        decreases NUM_SHIPS - j,
    {
        h.push(ship_len_at(j));
        j = j + 1;
    }
    h
}

/// Create the canonical state for a new match: both boards are generated
/// from streams derived from the match seed, and every `hits_left` entry
/// starts at its ship's declared length.
pub fn initial_state(seed: u64) -> (s: State)
    ensures
        state_wf(s),
        sgrid(s, 0) == spec_generate(player_seed(seed, 0)),
        sgrid(s, 1) == spec_generate(player_seed(seed, 1)),
        placement_complete(sgrid(s, 0)),
        placement_complete(sgrid(s, 1)),
        sep_ok(sgrid(s, 0)),
        sep_ok(sgrid(s, 1)),
        forall|p: int, j: u8| 0 <= p < 2 && j < NUM_SHIPS
            ==> #[trigger] shits(s, p)[j as int] as int == ship_len(j as int),
{
    let s0 = player_seed_at(seed, 0);
    let s1 = player_seed_at(seed, 1);
    let b0 = generate(s0);
    let b1 = generate(s1);
    let mut boards: Vec<Board> = Vec::new();
    boards.push(b0);
    boards.push(b1);
    let h0 = full_hits();
    let h1 = full_hits();
    let mut hits_left: Vec<Vec<u8>> = Vec::new();
    hits_left.push(h0);
    hits_left.push(h1);
    let s = State { boards, hits_left };
    proof {
        assert(s.boards@[0] == b0 && s.boards@[1] == b1);
        assert(s.hits_left@[0] == h0 && s.hits_left@[1] == h1);
        assert(placement_complete(sgrid(s, 0)) && placement_complete(sgrid(s, 1)));
        assert forall|p: int, x: int, y: int| 0 <= p < 2 && in_bounds(x, y)
            implies tile_id_ok(#[trigger] sgrid(s, p)[x][y]) by {
            assert(gen_inv(sgrid(s, p), 0));
        }
        assert forall|p: int, j: u8| 0 <= p < 2 && j < NUM_SHIPS
            implies shits(s, p)[j as int] as int == #[trigger] grid_count(sgrid(s, p), j) by {
            assert(shits(s, p)[j as int] as int == ship_len(j as int));
            assert(grid_count(sgrid(s, p), j) == ship_len(j as int));
        }
        assert forall|p: int, j: u8| 0 <= p < 2 && j < NUM_SHIPS
            implies #[trigger] grid_segments(sgrid(s, p), j) == ship_len(j as int) by {
            let g = sgrid(s, p);
            assert(gen_inv(g, 0));
            assert forall|x: int| 0 <= x < g.len() implies
                forall|y: int| 0 <= y < (#[trigger] g[x]).len() ==> g[x][y] != Tile::Hit(j) by {
                assert forall|y: int| 0 <= y < g[x].len() implies g[x][y] != Tile::Hit(j) by {
                    assert(in_bounds(x, y));
                    assert(tile_gen_ok(g[x][y], 0));
                }
            }
            lemma_segments_without_hits(g, j);
        }
    }
    s
}

impl Default for State {
    /// A pre-placement state: two empty boards and full `hits_left`
    /// tables.
    fn default() -> (s: Self)
        ensures
            state_shape(s),
            forall|p: int, x: int, y: int| 0 <= p < 2 && in_bounds(x, y)
                ==> #[trigger] sgrid(s, p)[x][y] == Tile::Water,
            forall|p: int, j: u8| 0 <= p < 2 && j < NUM_SHIPS
                ==> #[trigger] shits(s, p)[j as int] as int == ship_len(j as int),
    {
        let mut boards: Vec<Board> = Vec::new();
        boards.push(empty_board());
        boards.push(empty_board());
        let mut hits_left: Vec<Vec<u8>> = Vec::new();
        hits_left.push(full_hits());
        hits_left.push(full_hits());
        State { boards, hits_left }
    }
}

} // verus!
