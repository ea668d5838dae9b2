//! Placement generator: random, seed-deterministic ship placement under the
//! no-touching constraint, with a fixed fallback layout that bounds the
//! otherwise unbounded rejection sampling.

use vstd::prelude::*;
use crate::board::{
    BOARD_SIZE, NUM_SHIPS, Tile, Board, ship_len, ship_len_at, grid_of, grid_wf, in_bounds,
    grid_set, grid_count, col_count, lemma_grid_count_set, empty_board,
};
use crate::rng::{rng_seed, rng_trace, chacha_draw, rng_new, rng_draw};

verus! {

/// How often one ship is sampled before the generator gives up on random
/// placement and falls back to the fixed layout.
pub const MAX_TRIES: usize = 1000;

/// x coordinate of the `k`-th cell of a run anchored at `x0`.
pub open spec fn cell_x(x0: int, hor: bool, k: int) -> int {
    if hor { x0 + k } else { x0 }
}

/// y coordinate of the `k`-th cell of a run anchored at `y0`.
pub open spec fn cell_y(y0: int, hor: bool, k: int) -> int {
    if hor { y0 } else { y0 + k }
}

/// Whether `(x, y)` lies on the contiguous single-orientation run of `len`
/// cells anchored at `(x0, y0)`.
pub open spec fn in_run(x0: int, y0: int, hor: bool, len: int, x: int, y: int) -> bool {
    if hor {
        y == y0 && x0 <= x < x0 + len
    } else {
        x == x0 && y0 <= y < y0 + len
    }
}

/// Whether the whole run lies on the board.
pub open spec fn run_fits(x0: int, y0: int, hor: bool, len: int) -> bool {
    &&& len >= 1
    &&& 0 <= x0
    &&& 0 <= y0
    &&& if hor {
            x0 + len <= BOARD_SIZE && y0 < BOARD_SIZE
        } else {
            x0 < BOARD_SIZE && y0 + len <= BOARD_SIZE
        }
}

pub open spec fn is_ship(t: Tile) -> bool {
    match t {
        Tile::Ship(_) => true,
        _ => false,
    }
}

/// A ship segment of a ship other than `id`.
pub open spec fn is_other_ship(t: Tile, id: u8) -> bool {
    match t {
        Tile::Ship(j) => j != id,
        _ => false,
    }
}

pub open spec fn ship_id_of(t: Tile) -> u8 {
    match t {
        Tile::Ship(j) => j,
        Tile::Hit(j) => j,
        _ => 0,
    }
}

/// The Moore neighborhood of `(x, y)` (the cell and its 8 neighbors, clipped
/// at the edges) holds no segment of a ship other than `id`.
pub open spec fn cell_clear(g: Seq<Seq<Tile>>, id: u8, x: int, y: int) -> bool {
    forall|u: int, v: int|
        in_bounds(u, v) && x - 1 <= u <= x + 1 && y - 1 <= v <= y + 1
            ==> !is_other_ship(#[trigger] g[u][v], id)
}

/// Every cell of the run, together with its Moore neighborhood, is free of
/// other ships: the acceptance test of the placement generator.
pub open spec fn placement_ok(g: Seq<Seq<Tile>>, id: u8, x0: int, y0: int, hor: bool, len: int) -> bool {
    forall|k: int| 0 <= k < len
        ==> #[trigger] cell_clear(g, id, cell_x(x0, hor, k), cell_y(y0, hor, k))
}

/// The grid with the first `n` cells of the run written as `Ship(id)`.
pub open spec fn place_ship(g: Seq<Seq<Tile>>, id: u8, x0: int, y0: int, hor: bool, n: int) -> Seq<Seq<Tile>>
    decreases n,
{
    if n <= 0 {
        g
    } else {
        let gp = place_ship(g, id, x0, y0, hor, n - 1);
        grid_set(gp, cell_x(x0, hor, n - 1), cell_y(y0, hor, n - 1), Tile::Ship(id))
    }
}

/// Writing a run onto ship-free cells changes exactly those cells, and adds
/// exactly `n` segments of ship `id` and none of any other ship.
pub proof fn lemma_place_ship_props(g: Seq<Seq<Tile>>, id: u8, x0: int, y0: int, hor: bool, n: int)
    requires
        grid_wf(g),
        n >= 0,
        forall|k: int| 0 <= k < n ==> in_bounds(cell_x(x0, hor, k), cell_y(y0, hor, k)),
        forall|k: int| 0 <= k < n ==> !is_ship(g[cell_x(x0, hor, k)][cell_y(y0, hor, k)]),
    ensures
        grid_wf(place_ship(g, id, x0, y0, hor, n)),
        forall|x: int, y: int| in_bounds(x, y) ==>
            place_ship(g, id, x0, y0, hor, n)[x][y]
                == (if in_run(x0, y0, hor, n, x, y) { Tile::Ship(id) } else { g[x][y] }),
        grid_count(place_ship(g, id, x0, y0, hor, n), id) == grid_count(g, id) + n,
        forall|j: u8| j != id ==>
            grid_count(#[trigger] place_ship(g, id, x0, y0, hor, n), j) == grid_count(g, j),
    decreases n,
{
    if n > 0 {
        lemma_place_ship_props(g, id, x0, y0, hor, n - 1);
        let gp = place_ship(g, id, x0, y0, hor, n - 1);
        let cx = cell_x(x0, hor, n - 1);
        let cy = cell_y(y0, hor, n - 1);
        assert(in_bounds(cx, cy));
        assert(!in_run(x0, y0, hor, n - 1, cx, cy));
        assert(gp[cx][cy] == g[cx][cy]);
        lemma_grid_count_set(gp, id, cx, cy, Tile::Ship(id));
        assert forall|j: u8| j != id implies
            grid_count(#[trigger] place_ship(g, id, x0, y0, hor, n), j) == grid_count(g, j) by {
            lemma_grid_count_set(gp, j, cx, cy, Tile::Ship(id));
        }
        assert forall|x: int, y: int| in_bounds(x, y) implies
            place_ship(g, id, x0, y0, hor, n)[x][y]
                == (if in_run(x0, y0, hor, n, x, y) { Tile::Ship(id) } else { g[x][y] }) by {
            if x == cx && y == cy {
                assert(in_run(x0, y0, hor, n, x, y));
            } else {
                assert(place_ship(g, id, x0, y0, hor, n)[x][y] == gp[x][y]);
                assert(in_run(x0, y0, hor, n, x, y) == in_run(x0, y0, hor, n - 1, x, y));
            }
        }
    }
}

/// A grid that holds no segment of ship `id` counts zero for it.
pub proof fn lemma_no_ship_count_zero(g: Seq<Seq<Tile>>, id: u8)
    requires
        forall|x: int| 0 <= x < g.len() ==>
            forall|y: int| 0 <= y < (#[trigger] g[x]).len() ==> g[x][y] != Tile::Ship(id),
    ensures
        grid_count(g, id) == 0,
    decreases g.len(),
{
    if g.len() > 0 {
        lemma_no_ship_count_zero(g.drop_last(), id);
        lemma_no_ship_col_zero(g.last(), id);
    }
}

proof fn lemma_no_ship_col_zero(col: Seq<Tile>, id: u8)
    requires
        forall|y: int| 0 <= y < col.len() ==> col[y] != Tile::Ship(id),
    ensures
        col_count(col, id) == 0,
    decreases col.len(),
{
    if col.len() > 0 {
        lemma_no_ship_col_zero(col.drop_last(), id);
    }
}

/// Chebyshev distance at most 1.
pub open spec fn near(x1: int, y1: int, x2: int, y2: int) -> bool {
    -1 <= x1 - x2 <= 1 && -1 <= y1 - y2 <= 1
}

/// No two segments of different ships are within Chebyshev distance 1.
pub open spec fn sep_ok(g: Seq<Seq<Tile>>) -> bool {
    forall|x1: int, y1: int, x2: int, y2: int|
        in_bounds(x1, y1) && in_bounds(x2, y2)
            && is_ship(#[trigger] g[x1][y1]) && is_ship(#[trigger] g[x2][y2])
            && ship_id_of(g[x1][y1]) != ship_id_of(g[x2][y2])
            ==> !near(x1, y1, x2, y2)
}

/// Ship `id` occupies exactly one contiguous single-orientation run of its
/// declared length.
pub open spec fn has_run(g: Seq<Seq<Tile>>, id: u8) -> bool {
    exists|x0: int, y0: int, hor: bool|
        #[trigger] run_fits(x0, y0, hor, ship_len(id as int))
            && forall|x: int, y: int| in_bounds(x, y) ==>
                ((#[trigger] g[x][y] == Tile::Ship(id)) <==> in_run(x0, y0, hor, ship_len(id as int), x, y))
}

/// During generation only `Water` and already placed ships appear.
pub open spec fn tile_gen_ok(t: Tile, next: int) -> bool {
    match t {
        Tile::Water => true,
        Tile::Ship(j) => next <= j < NUM_SHIPS,
        _ => false,
    }
}

/// Invariant of the placement generator once every ship with id `>= next`
/// has been placed (ships are placed from the longest, id 6, downward).
pub open spec fn gen_inv(g: Seq<Seq<Tile>>, next: int) -> bool {
    &&& grid_wf(g)
    &&& forall|x: int, y: int| in_bounds(x, y) ==> tile_gen_ok(#[trigger] g[x][y], next)
    &&& forall|j: u8| next <= j < NUM_SHIPS ==> grid_count(g, j) == ship_len(j as int)
    &&& sep_ok(g)
    &&& forall|j: u8| next <= j < NUM_SHIPS ==> has_run(g, j)
}

/// Placing the next ship on an accepted sample preserves the generation
/// invariant.
pub proof fn lemma_place_step(g: Seq<Seq<Tile>>, id: u8, x0: int, y0: int, hor: bool)
    requires
        id < NUM_SHIPS,
        gen_inv(g, id + 1),
        run_fits(x0, y0, hor, ship_len(id as int)),
        placement_ok(g, id, x0, y0, hor, ship_len(id as int)),
    ensures
        gen_inv(place_ship(g, id, x0, y0, hor, ship_len(id as int)), id as int),
        forall|x: int, y: int| in_bounds(x, y) ==>
            place_ship(g, id, x0, y0, hor, ship_len(id as int))[x][y]
                == (if in_run(x0, y0, hor, ship_len(id as int), x, y) { Tile::Ship(id) } else { g[x][y] }),
{
    let len = ship_len(id as int);
    let gp = place_ship(g, id, x0, y0, hor, len);
    assert forall|k: int| 0 <= k < len implies in_bounds(cell_x(x0, hor, k), cell_y(y0, hor, k)) by {}
    assert forall|k: int| 0 <= k < len implies !is_ship(g[cell_x(x0, hor, k)][cell_y(y0, hor, k)]) by {
        let cx = cell_x(x0, hor, k);
        let cy = cell_y(y0, hor, k);
        assert(cell_clear(g, id, cx, cy));
        assert(in_bounds(cx, cy) && cx - 1 <= cx <= cx + 1 && cy - 1 <= cy <= cy + 1);
        assert(!is_other_ship(g[cx][cy], id));
        assert(tile_gen_ok(g[cx][cy], id + 1));
    }
    lemma_place_ship_props(g, id, x0, y0, hor, len);
    lemma_no_ship_count_zero(g, id);
    // tiles
    assert forall|x: int, y: int| in_bounds(x, y) implies tile_gen_ok(#[trigger] gp[x][y], id as int) by {
        assert(tile_gen_ok(g[x][y], id + 1));
    }
    // counts
    assert forall|j: u8| id <= j < NUM_SHIPS implies grid_count(gp, j) == ship_len(j as int) by {
        if j == id {
            assert(grid_count(gp, id) == grid_count(g, id) + len);
        }
    }
    // separation
    assert forall|x1: int, y1: int, x2: int, y2: int|
        in_bounds(x1, y1) && in_bounds(x2, y2)
            && is_ship(#[trigger] gp[x1][y1]) && is_ship(#[trigger] gp[x2][y2])
            && ship_id_of(gp[x1][y1]) != ship_id_of(gp[x2][y2])
        implies !near(x1, y1, x2, y2) by {
        if in_run(x0, y0, hor, len, x1, y1) && in_run(x0, y0, hor, len, x2, y2) {
            // both are the new ship: same id, contradiction with the premise
        } else if !in_run(x0, y0, hor, len, x1, y1) && !in_run(x0, y0, hor, len, x2, y2) {
            // both are old segments: the old separation applies
            assert(gp[x1][y1] == g[x1][y1] && gp[x2][y2] == g[x2][y2]);
        } else if in_run(x0, y0, hor, len, x1, y1) {
            // (x1, y1) is new, (x2, y2) is an old segment of another ship
            lemma_sep_new_old(g, id, x0, y0, hor, x1, y1, x2, y2);
        } else {
            lemma_sep_new_old(g, id, x0, y0, hor, x2, y2, x1, y1);
        }
    }
    // the new ship occupies exactly its run
    assert forall|j: u8| id <= j < NUM_SHIPS implies has_run(gp, j) by {
        if j == id {
            assert(run_fits(x0, y0, hor, ship_len(id as int))
                && forall|x: int, y: int| in_bounds(x, y) ==>
                    ((#[trigger] gp[x][y] == Tile::Ship(id)) <==> in_run(x0, y0, hor, ship_len(id as int), x, y)));
        } else {
            assert(has_run(g, j));
            let (ax, ay, ah): (int, int, bool) = choose|ax: int, ay: int, ah: bool|
                #[trigger] run_fits(ax, ay, ah, ship_len(j as int))
                    && forall|x: int, y: int| in_bounds(x, y) ==>
                        ((#[trigger] g[x][y] == Tile::Ship(j)) <==> in_run(ax, ay, ah, ship_len(j as int), x, y));
            assert forall|x: int, y: int| in_bounds(x, y) implies
                ((#[trigger] gp[x][y] == Tile::Ship(j)) <==> in_run(ax, ay, ah, ship_len(j as int), x, y)) by {
                assert(gp[x][y] == (if in_run(x0, y0, hor, len, x, y) { Tile::Ship(id) } else { g[x][y] }));
                assert((g[x][y] == Tile::Ship(j)) <==> in_run(ax, ay, ah, ship_len(j as int), x, y));
                if in_run(x0, y0, hor, len, x, y) {
                    let k = if hor { x - x0 } else { y - y0 };
                    assert(0 <= k < len);
                    assert(cell_x(x0, hor, k) == x && cell_y(y0, hor, k) == y);
                    assert(!is_ship(g[cell_x(x0, hor, k)][cell_y(y0, hor, k)]));
                    assert(g[x][y] != Tile::Ship(j));
                }
            }
            assert(run_fits(ax, ay, ah, ship_len(j as int)));
        }
    }
}

/// A newly placed segment is never within distance 1 of an old segment of a
/// different ship: the acceptance test inspected exactly that neighborhood.
proof fn lemma_sep_new_old(g: Seq<Seq<Tile>>, id: u8, x0: int, y0: int, hor: bool, nx: int, ny: int, ox: int, oy: int)
    requires
        grid_wf(g),
        placement_ok(g, id, x0, y0, hor, ship_len(id as int)),
        in_run(x0, y0, hor, ship_len(id as int), nx, ny),
        in_bounds(nx, ny),
        in_bounds(ox, oy),
        is_ship(g[ox][oy]),
        ship_id_of(g[ox][oy]) != id,
    ensures
        !near(nx, ny, ox, oy),
{
    let len = ship_len(id as int);
    let k = if hor { nx - x0 } else { ny - y0 };
    assert(0 <= k < len);
    assert(cell_x(x0, hor, k) == nx && cell_y(y0, hor, k) == ny);
    assert(cell_clear(g, id, nx, ny));
    if near(nx, ny, ox, oy) {
        assert(nx - 1 <= ox <= nx + 1 && ny - 1 <= oy <= ny + 1);
        assert(!is_other_ship(g[ox][oy], id));
        assert(false);
    }
}

/// The all-`Water` starting grid.
pub open spec fn empty_grid() -> Seq<Seq<Tile>> {
    Seq::new(BOARD_SIZE as nat, |x: int| Seq::new(BOARD_SIZE as nat, |y: int| Tile::Water))
}

/// Outcome of a (partial) placement computation: the grid, the draws
/// consumed so far, and whether every ship found a spot.
pub struct PlaceOut {
    pub g: Seq<Seq<Tile>>,
    pub tr: Seq<(u8, u8)>,
    pub ok: bool,
}

/// A drawn value folded into its range; the identity on every value an
/// actual draw can yield.
pub open spec fn clamp_draw(r: u8, hi: u8) -> u8 {
    if r < hi { r } else { 0 }
}

/// One bounded rejection-sampling search for a spot for ship `id`: sample an
/// orientation and an anchor that fits, accept if the run and its
/// neighborhood are free of other ships, else resample, at most `tries`
/// times.
pub open spec fn spec_try_place(seed: u64, g: Seq<Seq<Tile>>, tr: Seq<(u8, u8)>, id: u8, tries: nat) -> PlaceOut
    decreases tries,
{
    if tries == 0 {
        PlaceOut { g, tr, ok: false }
    } else {
        let len = ship_len(id as int);
        let hor = chacha_draw(seed, tr, 0, 2) == 1;
        let tr1 = tr.push((0, 2));
        let hx: u8 = if hor { (BOARD_SIZE + 1 - len) as u8 } else { BOARD_SIZE as u8 };
        let x0 = clamp_draw(chacha_draw(seed, tr1, 0, hx), hx);
        let tr2 = tr1.push((0, hx));
        let hy: u8 = if hor { BOARD_SIZE as u8 } else { (BOARD_SIZE + 1 - len) as u8 };
        let y0 = clamp_draw(chacha_draw(seed, tr2, 0, hy), hy);
        let tr3 = tr2.push((0, hy));
        if placement_ok(g, id, x0 as int, y0 as int, hor, len) {
            PlaceOut { g: place_ship(g, id, x0 as int, y0 as int, hor, len), tr: tr3, ok: true }
        } else {
            spec_try_place(seed, g, tr3, id, (tries - 1) as nat)
        }
    }
}

/// Place the ships with id below `n`, longest (highest id) first.
pub open spec fn spec_place_from(seed: u64, g: Seq<Seq<Tile>>, tr: Seq<(u8, u8)>, n: nat) -> PlaceOut
    decreases n,
{
    if n == 0 {
        PlaceOut { g, tr, ok: true }
    } else {
        let id = (n - 1) as u8;
        let o = spec_try_place(seed, g, tr, id, MAX_TRIES as nat);
        if !o.ok {
            o
        } else {
            spec_place_from(seed, o.g, o.tr, (n - 1) as nat)
        }
    }
}

/// The fixed fallback layout, used when random search gives a ship up:
/// every ship lies along x on its own stretch, rows two apart.
pub open spec fn fallback_grid() -> Seq<Seq<Tile>> {
    let g6 = place_ship(empty_grid(), 6, 0, 0, true, 5);
    let g5 = place_ship(g6, 5, 0, 2, true, 4);
    let g4 = place_ship(g5, 4, 0, 4, true, 3);
    let g3 = place_ship(g4, 3, 4, 4, true, 3);
    let g2 = place_ship(g3, 2, 0, 6, true, 2);
    let g1 = place_ship(g2, 1, 3, 6, true, 2);
    place_ship(g1, 0, 0, 8, true, 2)
}

/// The board one player's ships are placed on for a given seed.
pub open spec fn spec_generate(seed: u64) -> Seq<Seq<Tile>> {
    let o = spec_place_from(seed, empty_grid(), Seq::<(u8, u8)>::empty(), NUM_SHIPS as nat);
    if o.ok { o.g } else { fallback_grid() }
}

/// The sum of ship-segment counts over the ships with id below `n`.
pub open spec fn sum_counts(g: Seq<Seq<Tile>>, n: int) -> int
    decreases n,
{
    if n <= 0 { 0 } else { sum_counts(g, n - 1) + grid_count(g, (n - 1) as u8) }
}

/// The sum of the declared ship lengths below `n`.
pub open spec fn sum_ship_len(n: int) -> int
    decreases n,
{
    if n <= 0 { 0 } else { sum_ship_len(n - 1) + ship_len(n - 1) }
}

/// Placement completeness: each ship occupies exactly one contiguous
/// single-orientation run of its declared length, and the total number of
/// ship segments equals the sum of the ship-length table.
pub open spec fn placement_complete(g: Seq<Seq<Tile>>) -> bool {
    &&& forall|j: u8| j < NUM_SHIPS ==> grid_count(g, j) == ship_len(j as int)
    &&& sum_counts(g, NUM_SHIPS as int) == sum_ship_len(NUM_SHIPS as int)
    &&& forall|j: u8| j < NUM_SHIPS ==> has_run(g, j)
}

proof fn lemma_sum_counts(g: Seq<Seq<Tile>>, n: int)
    requires
        n <= NUM_SHIPS,
        forall|j: u8| j < n ==> grid_count(g, j) == ship_len(j as int),
    ensures
        sum_counts(g, n) == sum_ship_len(n),
    decreases n,
{
    if n > 0 {
        lemma_sum_counts(g, n - 1);
        assert(((n - 1) as u8) < n);
        assert(grid_count(g, (n - 1) as u8) == ship_len(((n - 1) as u8) as int));
    }
}

/// A board that satisfies the full generation invariant is complete.
pub proof fn lemma_gen_inv_complete(g: Seq<Seq<Tile>>)
    requires
        gen_inv(g, 0),
    ensures
        placement_complete(g),
        sep_ok(g),
{
    lemma_sum_counts(g, NUM_SHIPS as int);
}

/// Whether the run and its Moore neighborhood are free of other ships.
#[verifier::loop_isolation(false)]
fn check_placement(b: &Board, id: u8, x0: u8, y0: u8, hor: bool, len: u8) -> (ok: bool)
    requires
        grid_wf(grid_of(*b)),
        run_fits(x0 as int, y0 as int, hor, len as int),
    ensures
        ok == placement_ok(grid_of(*b), id, x0 as int, y0 as int, hor, len as int),
{
    let ghost gv = grid_of(*b);
    let mut k: usize = 0;
    while k < len as usize
        invariant
            k <= len as usize,
            forall|kk: int| 0 <= kk < k ==>
                #[trigger] cell_clear(gv, id, cell_x(x0 as int, hor, kk), cell_y(y0 as int, hor, kk)),
        decreases len as usize - k,
    {
        let cx: usize = if hor { x0 as usize + k } else { x0 as usize };
        let cy: usize = if hor { y0 as usize } else { y0 as usize + k };
        let mut dx: usize = 0;
        while dx < 3
            invariant
                dx <= 3,
                forall|u: int, v: int|
                    in_bounds(u, v) && cx as int - 1 <= u < cx as int + dx as int - 1
                        && cy as int - 1 <= v <= cy as int + 1
                        ==> !is_other_ship(#[trigger] gv[u][v], id),
            decreases 3 - dx,
        {
            let mut dy: usize = 0;
            while dy < 3
                invariant
                    dy <= 3,
                    forall|v: int|
                        in_bounds(cx as int + dx as int - 1, v)
                            && cy as int - 1 <= v < cy as int + dy as int - 1
                            ==> !is_other_ship(#[trigger] gv[cx as int + dx as int - 1][v], id),
                decreases 3 - dy,
            {
                let ux: i64 = cx as i64 + dx as i64 - 1;
                let vy: i64 = cy as i64 + dy as i64 - 1;
                if ux >= 0 && vy >= 0 && ux < 10 && vy < 10 {
                    let t: Tile = b[ux as usize][vy as usize];
                    let hit_other: bool = match t {
                        Tile::Ship(j) => j != id,
                        _ => false,
                    };
                    if hit_other {
                        proof {
                            assert(t == gv[ux as int][vy as int]);
                            assert(is_other_ship(gv[ux as int][vy as int], id));
                            assert(in_bounds(ux as int, vy as int));
                            assert(!cell_clear(gv, id, cx as int, cy as int));
                            if placement_ok(gv, id, x0 as int, y0 as int, hor, len as int) {
                                assert(cell_clear(gv, id, cell_x(x0 as int, hor, k as int),
                                    cell_y(y0 as int, hor, k as int)));
                                assert(false);
                            }
                        }
                        return false;
                    }
                }
                dy = dy + 1;
            }
            proof {
                assert forall|u: int, v: int|
                    in_bounds(u, v) && cx as int - 1 <= u < cx as int + dx as int
                        && cy as int - 1 <= v <= cy as int + 1
                    implies !is_other_ship(#[trigger] gv[u][v], id) by {
                    if u == cx as int + dx as int - 1 {
                        assert(!is_other_ship(gv[cx as int + dx as int - 1][v], id));
                    }
                }
            }
            dx = dx + 1;
        }
        proof {
            assert(cell_clear(gv, id, cell_x(x0 as int, hor, k as int), cell_y(y0 as int, hor, k as int)));
        }
        k = k + 1;
    }
    proof {
        assert(placement_ok(gv, id, x0 as int, y0 as int, hor, len as int));
    }
    true
}

/// Write the accepted run onto the board.
#[verifier::loop_isolation(false)]
fn write_ship(b: &mut Board, id: u8, x0: u8, y0: u8, hor: bool, len: u8)
    requires
        grid_wf(grid_of(*old(b))),
        run_fits(x0 as int, y0 as int, hor, len as int),
    ensures
        grid_of(*final(b)) == place_ship(grid_of(*old(b)), id, x0 as int, y0 as int, hor, len as int),
        grid_wf(grid_of(*final(b))),
{
    let mut k: usize = 0;
    while k < len as usize
        invariant
            k <= len as usize,
            b@.len() == old(b)@.len(),
            forall|i: int| 0 <= i < b@.len() ==> (#[trigger] b@[i])@.len() == old(b)@[i]@.len(),
            grid_of(*b) == place_ship(grid_of(*old(b)), id, x0 as int, y0 as int, hor, k as int),
        decreases len as usize - k,
    {
        let cx: usize = if hor { x0 as usize + k } else { x0 as usize };
        let cy: usize = if hor { y0 as usize } else { y0 as usize + k };
        let ghost gprev = grid_of(*b);
        let ghost bpre = b@;
        proof {
            assert(old(b)@.len() == grid_of(*old(b)).len());
            assert(grid_of(*old(b))[cx as int].len() == BOARD_SIZE);
            assert(b@[cx as int]@.len() == BOARD_SIZE);
        }
        b[cx][cy] = Tile::Ship(id);
        proof {
            assert(b@[cx as int]@ == bpre[cx as int]@.update(cy as int, Tile::Ship(id)));
            assert forall|i: int| 0 <= i < b@.len() implies
                #[trigger] grid_of(*b)[i] == grid_set(gprev, cx as int, cy as int, Tile::Ship(id))[i] by {
                assert(gprev[i] == bpre[i]@);
                assert(grid_of(*b)[i] == b@[i]@);
            }
            assert(grid_of(*b) =~= grid_set(gprev, cx as int, cy as int, Tile::Ship(id)));
            assert(cell_x(x0 as int, hor, k as int) == cx as int);
            assert(cell_y(y0 as int, hor, k as int) == cy as int);
        }
        k = k + 1;
    }
    proof {
        assert forall|x: int| 0 <= x < grid_of(*b).len() implies
            (#[trigger] grid_of(*b)[x]).len() == BOARD_SIZE by {
            assert(grid_of(*b)[x] == b@[x]@);
            assert(grid_of(*old(b))[x].len() == BOARD_SIZE);
        }
    }
}

/// One bounded search for a spot for ship `id`; mirrors `spec_try_place`.
fn try_place(rng: &mut rand_chacha::ChaCha20Rng, b: &mut Board, id: u8, tries: usize) -> (ok: bool)
    requires
        id < NUM_SHIPS,
        gen_inv(grid_of(*old(b)), id as int + 1),
    ensures
        rng_seed(*final(rng)) == rng_seed(*old(rng)),
        ({
            let o = spec_try_place(rng_seed(*old(rng)), grid_of(*old(b)), rng_trace(*old(rng)), id,
                tries as nat);
            grid_of(*final(b)) == o.g && rng_trace(*final(rng)) == o.tr && ok == o.ok
        }),
        ok ==> gen_inv(grid_of(*final(b)), id as int),
        !ok ==> grid_of(*final(b)) == grid_of(*old(b)),
    decreases tries,
{
    if tries == 0 {
        return false;
    }
    let ghost seed = rng_seed(*rng);
    let ghost tr = rng_trace(*rng);
    let len = ship_len_at(id as usize);
    let o = rng_draw(rng, 0, 2);
    let hor = o == 1;
    let hx: u8 = if hor { 11 - len } else { 10 };
    let x0 = rng_draw(rng, 0, hx);
    let hy: u8 = if hor { 10 } else { 11 - len };
    let y0 = rng_draw(rng, 0, hy);
    proof {
        assert(x0 == clamp_draw(chacha_draw(seed, tr.push((0u8, 2u8)), 0, hx), hx));
        assert(y0 == clamp_draw(chacha_draw(seed, tr.push((0u8, 2u8)).push((0u8, hx)), 0, hy), hy));
        assert(run_fits(x0 as int, y0 as int, hor, len as int));
    }
    let ok1 = check_placement(b, id, x0, y0, hor, len);
    if ok1 {
        proof {
            lemma_place_step(grid_of(*b), id, x0 as int, y0 as int, hor);
        }
        write_ship(b, id, x0, y0, hor, len);
        true
    } else {
        try_place(rng, b, id, tries - 1)
    }
}

/// Place the ships with id below `n`, longest first; mirrors
/// `spec_place_from`.
fn place_all(rng: &mut rand_chacha::ChaCha20Rng, b: &mut Board, n: usize) -> (ok: bool)
    requires
        n <= NUM_SHIPS,
        gen_inv(grid_of(*old(b)), n as int),
    ensures
        rng_seed(*final(rng)) == rng_seed(*old(rng)),
        ({
            let o = spec_place_from(rng_seed(*old(rng)), grid_of(*old(b)), rng_trace(*old(rng)),
                n as nat);
            grid_of(*final(b)) == o.g && rng_trace(*final(rng)) == o.tr && ok == o.ok
        }),
        ok ==> gen_inv(grid_of(*final(b)), 0),
    decreases n,
{
    if n == 0 {
        true
    } else {
        let id = (n - 1) as u8;
        let ok1 = try_place(rng, b, id, MAX_TRIES);
        if !ok1 {
            false
        } else {
            place_all(rng, b, n - 1)
        }
    }
}

/// The fixed fallback layout satisfies the full generation invariant.
pub proof fn lemma_fallback_valid()
    ensures
        gen_inv(fallback_grid(), 0),
{
    let g7 = empty_grid();
    assert forall|x: int, y: int| in_bounds(x, y) implies g7[x][y] == Tile::Water by {}
    assert(grid_wf(g7));
    assert(gen_inv(g7, NUM_SHIPS as int));

    // ship 6, length 5, along x at (0, 0)
    assert forall|k: int| 0 <= k < ship_len(6) implies
        #[trigger] cell_clear(g7, 6, cell_x(0, true, k), cell_y(0, true, k)) by {
        let cx = cell_x(0, true, k);
        let cy = cell_y(0, true, k);
        assert forall|u: int, v: int|
            in_bounds(u, v) && cx - 1 <= u <= cx + 1 && cy - 1 <= v <= cy + 1
            implies !is_other_ship(#[trigger] g7[u][v], 6) by {
            assert(g7[u][v] == Tile::Water);
        }
    }
    lemma_place_step(g7, 6, 0, 0, true);
    let g6 = place_ship(g7, 6, 0, 0, true, ship_len(6));

    // ship 5, length 4, along x at (0, 2)
    assert forall|k: int| 0 <= k < ship_len(5) implies
        #[trigger] cell_clear(g6, 5, cell_x(0, true, k), cell_y(2, true, k)) by {
        let cx = cell_x(0, true, k);
        let cy = cell_y(2, true, k);
        assert forall|u: int, v: int|
            in_bounds(u, v) && cx - 1 <= u <= cx + 1 && cy - 1 <= v <= cy + 1
            implies !is_other_ship(#[trigger] g6[u][v], 5) by {
            assert(g6[u][v] == (if in_run(0, 0, true, ship_len(6), u, v) { Tile::Ship(6) } else { g7[u][v] }));
            assert(v >= 1);
            assert(g6[u][v] == Tile::Water);
        }
    }
    lemma_place_step(g6, 5, 0, 2, true);
    let g5 = place_ship(g6, 5, 0, 2, true, ship_len(5));

    // ship 4, length 3, along x at (0, 4)
    assert forall|k: int| 0 <= k < ship_len(4) implies
        #[trigger] cell_clear(g5, 4, cell_x(0, true, k), cell_y(4, true, k)) by {
        let cx = cell_x(0, true, k);
        let cy = cell_y(4, true, k);
        assert forall|u: int, v: int|
            in_bounds(u, v) && cx - 1 <= u <= cx + 1 && cy - 1 <= v <= cy + 1
            implies !is_other_ship(#[trigger] g5[u][v], 4) by {
            assert(g5[u][v] == (if in_run(0, 2, true, ship_len(5), u, v) { Tile::Ship(5) } else { g6[u][v] }));
            assert(g6[u][v] == (if in_run(0, 0, true, ship_len(6), u, v) { Tile::Ship(6) } else { g7[u][v] }));
            assert(v >= 3);
            assert(g5[u][v] == Tile::Water);
        }
    }
    lemma_place_step(g5, 4, 0, 4, true);
    let g4 = place_ship(g5, 4, 0, 4, true, ship_len(4));

    // ship 3, length 3, along x at (4, 4): two columns right of ship 4
    assert forall|k: int| 0 <= k < ship_len(3) implies
        #[trigger] cell_clear(g4, 3, cell_x(4, true, k), cell_y(4, true, k)) by {
        let cx = cell_x(4, true, k);
        let cy = cell_y(4, true, k);
        assert forall|u: int, v: int|
            in_bounds(u, v) && cx - 1 <= u <= cx + 1 && cy - 1 <= v <= cy + 1
            implies !is_other_ship(#[trigger] g4[u][v], 3) by {
            assert(g4[u][v] == (if in_run(0, 4, true, ship_len(4), u, v) { Tile::Ship(4) } else { g5[u][v] }));
            assert(g5[u][v] == (if in_run(0, 2, true, ship_len(5), u, v) { Tile::Ship(5) } else { g6[u][v] }));
            assert(g6[u][v] == (if in_run(0, 0, true, ship_len(6), u, v) { Tile::Ship(6) } else { g7[u][v] }));
            assert(u >= 3 && v >= 3);
            assert(g4[u][v] == Tile::Water);
        }
    }
    lemma_place_step(g4, 3, 4, 4, true);
    let g3 = place_ship(g4, 3, 4, 4, true, ship_len(3));

    // ship 2, length 2, along x at (0, 6)
    assert forall|k: int| 0 <= k < ship_len(2) implies
        #[trigger] cell_clear(g3, 2, cell_x(0, true, k), cell_y(6, true, k)) by {
        let cx = cell_x(0, true, k);
        let cy = cell_y(6, true, k);
        assert forall|u: int, v: int|
            in_bounds(u, v) && cx - 1 <= u <= cx + 1 && cy - 1 <= v <= cy + 1
            implies !is_other_ship(#[trigger] g3[u][v], 2) by {
            assert(g3[u][v] == (if in_run(4, 4, true, ship_len(3), u, v) { Tile::Ship(3) } else { g4[u][v] }));
            assert(g4[u][v] == (if in_run(0, 4, true, ship_len(4), u, v) { Tile::Ship(4) } else { g5[u][v] }));
            assert(g5[u][v] == (if in_run(0, 2, true, ship_len(5), u, v) { Tile::Ship(5) } else { g6[u][v] }));
            assert(g6[u][v] == (if in_run(0, 0, true, ship_len(6), u, v) { Tile::Ship(6) } else { g7[u][v] }));
            assert(v >= 5);
            assert(g3[u][v] == Tile::Water);
        }
    }
    lemma_place_step(g3, 2, 0, 6, true);
    let g2 = place_ship(g3, 2, 0, 6, true, ship_len(2));

    // ship 1, length 2, along x at (3, 6): two columns right of ship 2
    assert forall|k: int| 0 <= k < ship_len(1) implies
        #[trigger] cell_clear(g2, 1, cell_x(3, true, k), cell_y(6, true, k)) by {
        let cx = cell_x(3, true, k);
        let cy = cell_y(6, true, k);
        assert forall|u: int, v: int|
            in_bounds(u, v) && cx - 1 <= u <= cx + 1 && cy - 1 <= v <= cy + 1
            implies !is_other_ship(#[trigger] g2[u][v], 1) by {
            assert(g2[u][v] == (if in_run(0, 6, true, ship_len(2), u, v) { Tile::Ship(2) } else { g3[u][v] }));
            assert(g3[u][v] == (if in_run(4, 4, true, ship_len(3), u, v) { Tile::Ship(3) } else { g4[u][v] }));
            assert(g4[u][v] == (if in_run(0, 4, true, ship_len(4), u, v) { Tile::Ship(4) } else { g5[u][v] }));
            assert(g5[u][v] == (if in_run(0, 2, true, ship_len(5), u, v) { Tile::Ship(5) } else { g6[u][v] }));
            assert(g6[u][v] == (if in_run(0, 0, true, ship_len(6), u, v) { Tile::Ship(6) } else { g7[u][v] }));
            assert(u >= 2 && v >= 5);
            assert(g2[u][v] == Tile::Water);
        }
    }
    lemma_place_step(g2, 1, 3, 6, true);
    let g1 = place_ship(g2, 1, 3, 6, true, ship_len(1));

    // ship 0, length 2, along x at (0, 8)
    assert forall|k: int| 0 <= k < ship_len(0) implies
        #[trigger] cell_clear(g1, 0, cell_x(0, true, k), cell_y(8, true, k)) by {
        let cx = cell_x(0, true, k);
        let cy = cell_y(8, true, k);
        assert forall|u: int, v: int|
            in_bounds(u, v) && cx - 1 <= u <= cx + 1 && cy - 1 <= v <= cy + 1
            implies !is_other_ship(#[trigger] g1[u][v], 0) by {
            assert(g1[u][v] == (if in_run(3, 6, true, ship_len(1), u, v) { Tile::Ship(1) } else { g2[u][v] }));
            assert(g2[u][v] == (if in_run(0, 6, true, ship_len(2), u, v) { Tile::Ship(2) } else { g3[u][v] }));
            assert(g3[u][v] == (if in_run(4, 4, true, ship_len(3), u, v) { Tile::Ship(3) } else { g4[u][v] }));
            assert(g4[u][v] == (if in_run(0, 4, true, ship_len(4), u, v) { Tile::Ship(4) } else { g5[u][v] }));
            assert(g5[u][v] == (if in_run(0, 2, true, ship_len(5), u, v) { Tile::Ship(5) } else { g6[u][v] }));
            assert(g6[u][v] == (if in_run(0, 0, true, ship_len(6), u, v) { Tile::Ship(6) } else { g7[u][v] }));
            assert(v >= 7);
            assert(g1[u][v] == Tile::Water);
        }
    }
    lemma_place_step(g1, 0, 0, 8, true);
}

/// Build the fallback layout.
fn fallback_board() -> (b: Board)
    ensures
        grid_of(b) == fallback_grid(),
        gen_inv(grid_of(b), 0),
{
    let mut b = empty_board();
    proof {
        assert(grid_of(b) =~~= empty_grid());
    }
    write_ship(&mut b, 6, 0, 0, true, 5);
    write_ship(&mut b, 5, 0, 2, true, 4);
    write_ship(&mut b, 4, 0, 4, true, 3);
    write_ship(&mut b, 3, 4, 4, true, 3);
    write_ship(&mut b, 2, 0, 6, true, 2);
    write_ship(&mut b, 1, 3, 6, true, 2);
    write_ship(&mut b, 0, 0, 8, true, 2);
    proof {
        lemma_fallback_valid();
        assert(grid_of(b) == fallback_grid());
    }
    b
}

/// Generate one player's starting board from a seed.
///
/// The board is a function of the seed alone; every ship occupies exactly
/// one contiguous single-orientation run of its declared length; and no two
/// ships touch, not even diagonally. If the bounded random search cannot
/// place some ship, the fixed fallback layout is used, so generation always
/// terminates.
pub fn generate(seed: u64) -> (b: Board)
    ensures
        grid_of(b) == spec_generate(seed),
        gen_inv(grid_of(b), 0),
        placement_complete(grid_of(b)),
        sep_ok(grid_of(b)),
{
    let mut rng = rng_new(seed);
    let mut b = empty_board();
    proof {
        assert(grid_of(b) =~~= empty_grid());
        assert(gen_inv(grid_of(b), NUM_SHIPS as int));
    }
    let ok = place_all(&mut rng, &mut b, NUM_SHIPS);
    if ok {
        proof {
            lemma_gen_inv_complete(grid_of(b));
        }
        b
    } else {
        let fb = fallback_board();
        proof {
            lemma_gen_inv_complete(grid_of(fb));
        }
        fb
    }
}

/// Determinism of the placement generator: the board is a function of the
/// seed alone, so two generation runs from equal seeds yield equal boards.
pub proof fn lemma_generate_deterministic(seed1: u64, seed2: u64)
    requires
        seed1 == seed2,
    ensures
        spec_generate(seed1) == spec_generate(seed2),
{
}

} // verus!
