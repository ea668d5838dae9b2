//! Move processor: validate and apply one attack move.

use vstd::prelude::*;
use crate::board::{
    BOARD_SIZE, NUM_SHIPS, Tile, ship_len, grid_of, grid_wf, in_bounds, tile_id_ok, grid_count,
    grid_set, grid_segments, lemma_grid_count_set, lemma_grid_segments_set,
    lemma_grid_cell_count_pos,
};
use crate::state::{State, sgrid, shits, state_shape, state_wf};
use crate::placement::{is_ship, ship_id_of};

verus! {

/// Error kinds for rejected moves.
#[derive(Clone, Copy, Debug, PartialEq, Eq, Structural)]
pub enum Errors {
    InvalidTile,
}

/// The mathematical value of a move argument: absent, or a sequence of
/// entries of which only the numeric ones count.
pub open spec fn args_view(a: Option<Vec<Option<u64>>>) -> Option<Seq<Option<u64>>> {
    match a {
        None => None,
        Some(v) => Some(v@),
    }
}

/// The numeric entries of a move argument, in order; non-numeric entries
/// are dropped.
pub open spec fn kept_coords(s: Seq<Option<u64>>) -> Seq<u64>
    decreases s.len(),
{
    if s.len() == 0 {
        Seq::empty()
    } else {
        let rest = kept_coords(s.drop_last());
        match s.last() {
            Some(c) => rest.push(c),
            None => rest,
        }
    }
}

/// The board a move by `player` targets: each player attacks the other's
/// board.
pub open spec fn target_of(player: int) -> int {
    if player == 1 { 1 } else { 0 }
}

/// The attacked column, where the argument decodes to two coordinates.
pub open spec fn mcx(a: Option<Seq<Option<u64>>>) -> int {
    match a {
        Some(s) => kept_coords(s)[0] as int,
        None => 0,
    }
}

/// The attacked row, where the argument decodes to two coordinates.
pub open spec fn mcy(a: Option<Seq<Option<u64>>>) -> int {
    match a {
        Some(s) => kept_coords(s)[1] as int,
        None => 0,
    }
}

/// The argument decodes to exactly two on-board coordinates.
pub open spec fn coords_valid(a: Option<Seq<Option<u64>>>) -> bool {
    match a {
        Some(s) => kept_coords(s).len() == 2 && 0 <= mcx(a) < BOARD_SIZE && 0 <= mcy(a) < BOARD_SIZE,
        None => false,
    }
}

/// A move is accepted exactly when its argument decodes to two on-board
/// coordinates and the targeted cell has not been attacked before.
pub open spec fn move_accepted(s: State, player: int, a: Option<Seq<Option<u64>>>) -> bool {
    coords_valid(a) && match sgrid(s, target_of(player))[mcx(a)][mcy(a)] {
        Tile::Water => true,
        Tile::Ship(_) => true,
        _ => false,
    }
}

/// How one call of the move processor relates the state before (`s1`) to
/// the state after (`s2`): a rejected move changes nothing; an accepted
/// move flips exactly the targeted cell (`Water` to `Miss`, or `Ship` to
/// `Hit` with the owner's `hits_left` entry decremented) and nothing else.
pub open spec fn move_rel(s1: State, s2: State, player: int, a: Option<Seq<Option<u64>>>, r: Result<(), Errors>) -> bool {
    let t = target_of(player);
    let x = mcx(a);
    let y = mcy(a);
    &&& (r is Ok <==> move_accepted(s1, player, a))
    &&& (r is Err ==> r == Result::<(), Errors>::Err(Errors::InvalidTile) && s2 == s1)
    &&& (move_accepted(s1, player, a) ==> {
        &&& s2.boards@.len() == s1.boards@.len()
        &&& s2.hits_left@.len() == s1.hits_left@.len()
        &&& forall|p: int| 0 <= p < s1.boards@.len() && p != t ==> #[trigger] sgrid(s2, p) == sgrid(s1, p)
        &&& forall|p: int| 0 <= p < s1.hits_left@.len() && p != t ==> #[trigger] shits(s2, p) == shits(s1, p)
        &&& (sgrid(s1, t)[x][y] == Tile::Water ==> {
            &&& sgrid(s2, t) == grid_set(sgrid(s1, t), x, y, Tile::Miss)
            &&& shits(s2, t) == shits(s1, t)
        })
        &&& (is_ship(sgrid(s1, t)[x][y]) ==> {
            let id = ship_id_of(sgrid(s1, t)[x][y]);
            &&& sgrid(s2, t) == grid_set(sgrid(s1, t), x, y, Tile::Hit(id))
            &&& shits(s1, t)[id as int] >= 1
            &&& shits(s2, t) == shits(s1, t).update(id as int, (shits(s1, t)[id as int] - 1) as u8)
        })
    })
}

/// Collect the numeric entries of the argument list.
fn decode_kept(v: &Vec<Option<u64>>) -> (kept: Vec<u64>)
    ensures
        kept@ == kept_coords(v@),
{
    let mut kept: Vec<u64> = Vec::new();
    let mut i: usize = 0;
    while i < v.len()
        invariant
            i <= v@.len(),
            kept@ == kept_coords(v@.take(i as int)),
        decreases v@.len() - i,
    {
        let e = v[i];
        proof {
            assert(v@.take(i as int + 1).drop_last() =~= v@.take(i as int));
            assert(v@.take(i as int + 1).last() == v@[i as int]);
        }
        match e {
            Some(c) => kept.push(c),
            None => {}
        }
        i = i + 1;
    }
    proof {
        assert(v@.take(v@.len() as int) =~= v@);
    }
    kept
}

/// Validate and apply one attack by `player`.
///
/// On success the targeted cell is resolved in place; on any failure —
/// absent or malformed argument, out-of-range coordinates, or a cell
/// already `Hit` or `Miss` — the state is left completely unchanged and
/// `Errors::InvalidTile` is returned. `hits_left` entries never increase.
pub fn apply_move(s: &mut State, player: u16, args: &Option<Vec<Option<u64>>>) -> (r: Result<(), Errors>)
    requires
        state_wf(*old(s)),
        player == 1 || player == 2,
    ensures
        state_wf(*final(s)),
        move_rel(*old(s), *final(s), player as int, args_view(*args), r),
        forall|p: int, j: int| 0 <= p < 2 && 0 <= j < NUM_SHIPS
            ==> #[trigger] shits(*final(s), p)[j] <= shits(*old(s), p)[j],
{
    let ghost av = args_view(*args);
    let v = match args {
        None => {
            return Err(Errors::InvalidTile);
        },
        Some(v) => v,
    };
    let kept = decode_kept(v);
    if kept.len() != 2 {
        return Err(Errors::InvalidTile);
    }
    let x = kept[0];
    let y = kept[1];
    if x > 9 || y > 9 {
        return Err(Errors::InvalidTile);
    }
    let xu = x as usize;
    let yu = y as usize;
    let ti: usize = if player == 1 { 1 } else { 0 };
    proof {
        assert(coords_valid(av));
        assert(xu as int == mcx(av) && yu as int == mcy(av));
        assert(ti as int == target_of(player as int));
        assert(grid_wf(sgrid(*s, ti as int)));
    }
    let t: Tile = s.boards[ti][xu][yu];
    proof {
        assert(t == sgrid(*s, ti as int)[xu as int][yu as int]);
    }
    match t {
        Tile::Water => {
            let ghost spre = *s;
            set_cell(s, ti, xu, yu, Tile::Miss);
            proof {
                lemma_move_wf(spre, *s, ti as int, xu as int, yu as int, Tile::Water, Tile::Miss);
            }
            Ok(())
        },
        Tile::Ship(id) => {
            let ghost spre = *s;
            proof {
                assert(tile_id_ok(sgrid(*s, ti as int)[xu as int][yu as int]));
                lemma_grid_cell_count_pos(sgrid(*s, ti as int), id, xu as int, yu as int);
                assert(shits(*s, ti as int)[id as int] >= 1);
            }
            let h = s.hits_left[ti][id as usize];
            s.hits_left[ti][id as usize] = h - 1;
            proof {
                assert(s.boards == spre.boards);
                assert(shits(*s, ti as int) == shits(spre, ti as int).update(id as int, (h - 1) as u8));
                assert(shits(*s, 1 - ti as int) == shits(spre, 1 - ti as int));
                assert forall|p: int| 0 <= p < 2 implies #[trigger] sgrid(*s, p) == sgrid(spre, p) by {
                    assert(s.boards@[p] == spre.boards@[p]);
                }
                assert forall|p: int| 0 <= p < 2 implies (#[trigger] shits(*s, p)).len() == NUM_SHIPS by {
                    assert(shits(spre, p).len() == NUM_SHIPS);
                }
                assert(state_shape(*s));
            }
            let ghost smid = *s;
            set_cell(s, ti, xu, yu, Tile::Hit(id));
            proof {
                assert(shits(*s, ti as int) == shits(smid, ti as int));
                lemma_move_wf(spre, *s, ti as int, xu as int, yu as int, Tile::Ship(id), Tile::Hit(id));
            }
            Ok(())
        },
        _ => Err(Errors::InvalidTile),
    }
}

/// Write one cell of one board, leaving everything else unchanged.
fn set_cell(s: &mut State, p: usize, x: usize, y: usize, t: Tile)
    requires
        state_shape(*old(s)),
        p < 2,
        x < BOARD_SIZE,
        y < BOARD_SIZE,
    ensures
        final(s).boards@.len() == old(s).boards@.len(),
        final(s).hits_left == old(s).hits_left,
        sgrid(*final(s), p as int) == grid_set(sgrid(*old(s), p as int), x as int, y as int, t),
        forall|q: int| 0 <= q < 2 && q != p ==> #[trigger] sgrid(*final(s), q) == sgrid(*old(s), q),
{
    let ghost gpre = sgrid(*old(s), p as int);
    let ghost bpre = old(s).boards@[p as int]@;
    proof {
        assert(grid_wf(gpre));
        assert(gpre[x as int].len() == BOARD_SIZE);
        assert(s.boards@[p as int]@[x as int]@.len() == BOARD_SIZE);
    }
    s.boards[p][x][y] = t;
    proof {
        assert(s.boards@[p as int]@[x as int]@ == bpre[x as int]@.update(y as int, t));
        assert forall|i: int| 0 <= i < s.boards@[p as int]@.len() implies
            #[trigger] sgrid(*s, p as int)[i] == grid_set(gpre, x as int, y as int, t)[i] by {
            assert(gpre[i] == bpre[i]@);
            assert(sgrid(*s, p as int)[i] == s.boards@[p as int]@[i]@);
        }
        assert(sgrid(*s, p as int) =~= grid_set(gpre, x as int, y as int, t));
        assert forall|q: int| 0 <= q < 2 && q != p implies
            #[trigger] sgrid(*s, q) == sgrid(*old(s), q) by {
            assert(s.boards@[q] == old(s).boards@[q]);
        }
    }
}

/// Idempotence of rejection: once an accepted move has resolved a `Water`
/// cell to `Miss`, a second move on the same coordinates is rejected, and
/// every rejected move returns `InvalidTile` and leaves the state exactly
/// as it was.
pub proof fn lemma_repeat_attack_rejected(s1: State, s2: State, player: int, a: Option<Seq<Option<u64>>>, r: Result<(), Errors>)
    requires
        state_wf(s1),
        player == 1 || player == 2,
        move_accepted(s1, player, a),
        sgrid(s1, target_of(player))[mcx(a)][mcy(a)] == Tile::Water,
        move_rel(s1, s2, player, a, r),
    ensures
        !move_accepted(s2, player, a),
        forall|s3: State, r2: Result<(), Errors>| #[trigger] move_rel(s2, s3, player, a, r2)
            ==> r2 == Result::<(), Errors>::Err(Errors::InvalidTile) && s3 == s2,
{
    let t = target_of(player);
    assert(sgrid(s2, t) == grid_set(sgrid(s1, t), mcx(a), mcy(a), Tile::Miss));
    assert(grid_wf(sgrid(s1, t)));
    assert(sgrid(s2, t)[mcx(a)][mcy(a)] == Tile::Miss);
}

/// One entry of a move history: the acting player, the argument handed in,
/// and the result the engine returned.
pub struct MoveStep {
    pub player: int,
    pub args: Option<Seq<Option<u64>>>,
    pub r: Result<(), Errors>,
}

/// `s2` arises from `s1` through the given history of move-processor
/// calls, accepted and rejected ones alike.
pub open spec fn moves_rel(s1: State, s2: State, h: Seq<MoveStep>) -> bool
    decreases h.len(),
{
    if h.len() == 0 {
        s2 == s1
    } else {
        exists|mid: State| #[trigger] move_rel(s1, mid, h[0].player, h[0].args, h[0].r)
            && moves_rel(mid, s2, h.drop_first())
    }
}

/// One processed move keeps the state well formed and never increases any
/// `hits_left` entry.
proof fn lemma_move_hits_monotonic(s1: State, s2: State, player: int, a: Option<Seq<Option<u64>>>, r: Result<(), Errors>)
    requires
        state_wf(s1),
        player == 1 || player == 2,
        move_rel(s1, s2, player, a, r),
    ensures
        state_wf(s2),
        forall|p: int, j: int| 0 <= p < 2 && 0 <= j < NUM_SHIPS
            ==> #[trigger] shits(s2, p)[j] <= shits(s1, p)[j],
{
    if move_accepted(s1, player, a) {
        let t = target_of(player);
        let x = mcx(a);
        let y = mcy(a);
        match sgrid(s1, t)[x][y] {
            Tile::Water => {
                lemma_move_wf(s1, s2, t, x, y, Tile::Water, Tile::Miss);
            },
            Tile::Ship(id) => {
                assert(tile_id_ok(sgrid(s1, t)[x][y]));
                assert(ship_id_of(sgrid(s1, t)[x][y]) == id);
                lemma_move_wf(s1, s2, t, x, y, Tile::Ship(id), Tile::Hit(id));
            },
            _ => {
                assert(false);
            },
        }
    }
}

/// Monotonic damage: across any history of processed moves no `hits_left`
/// entry ever increases; the entries are unsigned, so none is ever
/// negative.
pub proof fn lemma_hits_monotonic(s1: State, s2: State, h: Seq<MoveStep>)
    requires
        state_wf(s1),
        forall|i: int| 0 <= i < h.len() ==> ((#[trigger] h[i].player) == 1 || h[i].player == 2),
        moves_rel(s1, s2, h),
    ensures
        state_wf(s2),
        forall|p: int, j: int| 0 <= p < 2 && 0 <= j < NUM_SHIPS
            ==> #[trigger] shits(s2, p)[j] <= shits(s1, p)[j],
    decreases h.len(),
{
    if h.len() > 0 {
        let mid = choose|mid: State| #[trigger] move_rel(s1, mid, h[0].player, h[0].args, h[0].r)
            && moves_rel(mid, s2, h.drop_first());
        lemma_move_hits_monotonic(s1, mid, h[0].player, h[0].args, h[0].r);
        assert forall|i: int| 0 <= i < h.drop_first().len()
            implies ((#[trigger] h.drop_first()[i].player) == 1 || h.drop_first()[i].player == 2) by {
            assert(h.drop_first()[i] == h[i + 1]);
        }
        lemma_hits_monotonic(mid, s2, h.drop_first());
    }
}

/// After an accepted move the state is still well formed: the targeted
/// ship's count and `hits_left` entry fall together, everything else is
/// untouched.
proof fn lemma_move_wf(s1: State, s2: State, t: int, x: int, y: int, was: Tile, now: Tile)
    requires
        state_wf(s1),
        0 <= t < 2,
        in_bounds(x, y),
        sgrid(s1, t)[x][y] == was,
        sgrid(s2, t) == grid_set(sgrid(s1, t), x, y, now),
        s2.boards@.len() == 2,
        s2.hits_left@.len() == 2,
        forall|q: int| 0 <= q < 2 && q != t ==> #[trigger] sgrid(s2, q) == sgrid(s1, q),
        forall|q: int| 0 <= q < 2 && q != t ==> #[trigger] shits(s2, q) == shits(s1, q),
        match (was, now) {
            (Tile::Water, Tile::Miss) => shits(s2, t) == shits(s1, t),
            (Tile::Ship(id1), Tile::Hit(id2)) => id1 == id2 && shits(s1, t)[id1 as int] >= 1
                && shits(s2, t) == shits(s1, t).update(id1 as int, (shits(s1, t)[id1 as int] - 1) as u8),
            _ => false,
        },
    ensures
        state_wf(s2),
        forall|p: int, j: int| 0 <= p < 2 && 0 <= j < NUM_SHIPS
            ==> #[trigger] shits(s2, p)[j] <= shits(s1, p)[j],
{
    let g1 = sgrid(s1, t);
    let g2 = sgrid(s2, t);
    assert(grid_wf(g2)) by {
        assert forall|i: int| 0 <= i < g2.len() implies (#[trigger] g2[i]).len() == BOARD_SIZE by {
            assert(g1[i].len() == BOARD_SIZE);
        }
    }
    assert forall|p: int, xx: int, yy: int| 0 <= p < 2 && in_bounds(xx, yy)
        implies tile_id_ok(#[trigger] sgrid(s2, p)[xx][yy]) by {
        if p == t && xx == x && yy == y {
            assert(tile_id_ok(sgrid(s1, t)[x][y]));
        } else {
            assert(sgrid(s2, p)[xx][yy] == sgrid(s1, p)[xx][yy]);
        }
    }
    assert forall|p: int, j: u8| 0 <= p < 2 && j < NUM_SHIPS
        implies shits(s2, p)[j as int] as int == #[trigger] grid_count(sgrid(s2, p), j) by {
        if p == t {
            lemma_grid_count_set(g1, j, x, y, now);
        }
    }
    assert forall|p: int, j: u8| 0 <= p < 2 && j < NUM_SHIPS
        implies #[trigger] grid_segments(sgrid(s2, p), j) == ship_len(j as int) by {
        if p == t {
            lemma_grid_segments_set(g1, j, x, y, now);
        }
    }
}

} // verus!
