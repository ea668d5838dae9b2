use battleship::board::Tile;
use battleship::moves::{apply_move, Errors};
use battleship::placement::generate;
use battleship::state::{initial_state, State};
use battleship::victory::winner;
use battleship::view::view_for;

const SHIPS: [u8; 7] = [2, 2, 2, 3, 3, 4, 5];

#[test]
fn it_works() {
    assert_eq!(2 + 2, 4);
}

#[test]
fn lib_it_works() {
    assert_eq!(2 + 2, 4);
}

#[test]
fn generate_is_deterministic() {
    let a = generate(42);
    let b = generate(42);
    assert_eq!(a, b);
}

#[test]
fn different_seeds_differ() {
    let a = generate(42);
    let b = generate(43);
    assert_ne!(a, b);
}

#[test]
fn placement_total_and_per_ship_counts() {
    let b = generate(42);
    let mut per_ship = [0usize; 7];
    let mut total = 0usize;
    for x in 0..10 {
        for y in 0..10 {
            if let Tile::Ship(id) = b[x][y] {
                assert!((id as usize) < 7);
                per_ship[id as usize] += 1;
                total += 1;
            }
        }
    }
    assert_eq!(total, 21);
    for id in 0..7 {
        assert_eq!(per_ship[id], SHIPS[id] as usize);
    }
}

#[test]
fn placement_ships_are_contiguous_single_orientation() {
    let b = generate(99);
    for id in 0..7u8 {
        let mut cells: Vec<(usize, usize)> = Vec::new();
        for x in 0..10 {
            for y in 0..10 {
                if b[x][y] == Tile::Ship(id) {
                    cells.push((x, y));
                }
            }
        }
        assert_eq!(cells.len(), SHIPS[id as usize] as usize);
        let same_x = cells.iter().all(|c| c.0 == cells[0].0);
        let same_y = cells.iter().all(|c| c.1 == cells[0].1);
        assert!(same_x || same_y);
        // cells come out in scan order, so a run is consecutive
        if same_x {
            for w in cells.windows(2) {
                assert_eq!(w[1].1, w[0].1 + 1);
            }
        } else {
            for w in cells.windows(2) {
                assert_eq!(w[1].0, w[0].0 + 1);
            }
        }
    }
}

#[test]
fn placement_ships_never_touch() {
    let b = generate(7);
    for x1 in 0..10usize {
        for y1 in 0..10usize {
            let id1 = match b[x1][y1] {
                Tile::Ship(i) => i,
                _ => continue,
            };
            for x2 in 0..10usize {
                for y2 in 0..10usize {
                    let id2 = match b[x2][y2] {
                        Tile::Ship(i) => i,
                        _ => continue,
                    };
                    if id1 != id2 {
                        let dx = (x1 as i32 - x2 as i32).abs();
                        let dy = (y1 as i32 - y2 as i32).abs();
                        assert!(dx.max(dy) > 1, "ships {} and {} touch", id1, id2);
                    }
                }
            }
        }
    }
}

#[test]
fn initial_state_shape_and_hits() {
    let s = initial_state(42);
    assert_eq!(s.boards.len(), 2);
    assert_eq!(s.hits_left.len(), 2);
    for p in 0..2 {
        assert_eq!(s.hits_left[p].len(), 7);
        for j in 0..7 {
            assert_eq!(s.hits_left[p][j], SHIPS[j]);
        }
    }
    // the two players' boards come from independent streams
    assert_ne!(s.boards[0], s.boards[1]);
}

#[test]
fn default_state_is_empty_with_full_hits() {
    let s = State::default();
    assert_eq!(s.boards.len(), 2);
    for p in 0..2 {
        for x in 0..10 {
            for y in 0..10 {
                assert_eq!(s.boards[p][x][y], Tile::Water);
            }
        }
        assert_eq!(s.hits_left[p], SHIPS.to_vec());
    }
}

fn coords(x: u64, y: u64) -> Option<Vec<Option<u64>>> {
    Some(vec![Some(x), Some(y)])
}

#[test]
fn example_fixed_seed_move() {
    // 10x10 board, ship lengths [2,2,2,3,3,4,5], fixed seed 42; player 1
    // attacks (3,4) on the opponent board (index 1)
    let mut s = initial_state(42);
    let before = s.boards[1][3][4];
    let r = apply_move(&mut s, 1, &coords(3, 4));
    match before {
        Tile::Water => {
            assert_eq!(r, Ok(()));
            assert_eq!(s.boards[1][3][4], Tile::Miss);
            let r2 = apply_move(&mut s, 1, &coords(3, 4));
            assert_eq!(r2, Err(Errors::InvalidTile));
            assert_eq!(s.boards[1][3][4], Tile::Miss);
        }
        Tile::Ship(id) => {
            assert_eq!(r, Ok(()));
            assert_eq!(s.boards[1][3][4], Tile::Hit(id));
        }
        _ => unreachable!(),
    }
}

#[test]
fn water_attack_then_repeat_is_rejected() {
    let mut s = initial_state(42);
    // find a water cell on the target board
    let mut wx = 0u64;
    let mut wy = 0u64;
    'search: for x in 0..10 {
        for y in 0..10 {
            if s.boards[1][x][y] == Tile::Water {
                wx = x as u64;
                wy = y as u64;
                break 'search;
            }
        }
    }
    let snapshot = (s.boards.clone(), s.hits_left.clone());
    let r = apply_move(&mut s, 1, &coords(wx, wy));
    assert_eq!(r, Ok(()));
    assert_eq!(s.boards[1][wx as usize][wy as usize], Tile::Miss);
    assert_eq!(s.hits_left, snapshot.1);
    let mid = (s.boards.clone(), s.hits_left.clone());
    let r2 = apply_move(&mut s, 1, &coords(wx, wy));
    assert_eq!(r2, Err(Errors::InvalidTile));
    assert_eq!((s.boards.clone(), s.hits_left.clone()), mid);
}

#[test]
fn malformed_arguments_are_rejected_unchanged() {
    let mut s = initial_state(5);
    let snapshot = (s.boards.clone(), s.hits_left.clone());
    assert_eq!(apply_move(&mut s, 1, &None), Err(Errors::InvalidTile));
    assert_eq!(apply_move(&mut s, 1, &Some(vec![])), Err(Errors::InvalidTile));
    assert_eq!(apply_move(&mut s, 1, &Some(vec![Some(1)])), Err(Errors::InvalidTile));
    assert_eq!(
        apply_move(&mut s, 1, &Some(vec![Some(1), Some(2), Some(3)])),
        Err(Errors::InvalidTile)
    );
    assert_eq!(apply_move(&mut s, 1, &Some(vec![Some(10), Some(0)])), Err(Errors::InvalidTile));
    assert_eq!(apply_move(&mut s, 1, &Some(vec![Some(0), Some(10)])), Err(Errors::InvalidTile));
    assert_eq!(apply_move(&mut s, 2, &Some(vec![None, None])), Err(Errors::InvalidTile));
    assert_eq!((s.boards.clone(), s.hits_left.clone()), snapshot);
}

#[test]
fn non_numeric_entries_are_dropped() {
    // only the numeric entries count: [None, 3, 4] decodes to (3, 4)
    let mut s = initial_state(42);
    let before = s.boards[1][3][4];
    let r = apply_move(&mut s, 1, &Some(vec![None, Some(3), Some(4)]));
    assert_eq!(r.is_ok(), matches!(before, Tile::Water | Tile::Ship(_)));
}

#[test]
fn hits_left_is_monotonic_over_moves() {
    let mut s = initial_state(1);
    let mut prev = s.hits_left.clone();
    for x in 0..10u64 {
        for y in 0..10u64 {
            let _ = apply_move(&mut s, 2, &coords(x, y));
            for p in 0..2 {
                for j in 0..7 {
                    assert!(s.hits_left[p][j] <= prev[p][j]);
                }
            }
            prev = s.hits_left.clone();
        }
    }
}

#[test]
fn player_two_attacks_board_zero() {
    let mut s = initial_state(11);
    // find a ship cell on board 0
    let mut sx = 0u64;
    let mut sy = 0u64;
    let mut sid = 0u8;
    'search: for x in 0..10 {
        for y in 0..10 {
            if let Tile::Ship(id) = s.boards[0][x][y] {
                sx = x as u64;
                sy = y as u64;
                sid = id;
                break 'search;
            }
        }
    }
    let before = s.hits_left[0][sid as usize];
    let r = apply_move(&mut s, 2, &coords(sx, sy));
    assert_eq!(r, Ok(()));
    assert_eq!(s.boards[0][sx as usize][sy as usize], Tile::Hit(sid));
    assert_eq!(s.hits_left[0][sid as usize], before - 1);
    // board 1 untouched
    assert_eq!(s.hits_left[1], SHIPS.to_vec());
}

#[test]
fn winner_none_at_start_then_player_one_wins() {
    let mut s = initial_state(42);
    assert_eq!(winner(&s), None);
    // player 1 attacks every cell of the opponent's board once
    for x in 0..10u64 {
        for y in 0..10u64 {
            let _ = apply_move(&mut s, 1, &coords(x, y));
        }
    }
    for j in 0..7 {
        assert_eq!(s.hits_left[1][j], 0);
    }
    assert_eq!(winner(&s), Some(1));
}

#[test]
fn winner_from_tables() {
    let mut s = State::default();
    s.hits_left[0] = vec![0; 7];
    assert_eq!(winner(&s), Some(2));
    let mut s2 = State::default();
    s2.hits_left[1] = vec![0; 7];
    assert_eq!(winner(&s2), Some(1));
}

#[test]
fn view_hides_unsunk_ships() {
    let s = initial_state(42);
    let v = view_for(&s, 1);
    // own board passes through
    assert_eq!(v.boards[0], s.boards[0]);
    assert_eq!(v.hits_left[0], s.hits_left[0]);
    // nothing is sunk, so the opponent board shows no ship at all
    for x in 0..10 {
        for y in 0..10 {
            assert!(!matches!(v.boards[1][x][y], Tile::Ship(_)));
            assert_eq!(v.boards[1][x][y], Tile::Water);
        }
    }
    // opponent hit counters are withheld
    assert_eq!(v.hits_left[1], vec![0; 7]);
}

#[test]
fn view_reveals_only_sunk_ships() {
    let mut s = initial_state(3);
    // sink ship 0 (length 2) on board 1, and damage ship 6 once
    let mut ship0: Vec<(u64, u64)> = Vec::new();
    let mut ship6: Vec<(u64, u64)> = Vec::new();
    for x in 0..10 {
        for y in 0..10 {
            match s.boards[1][x][y] {
                Tile::Ship(0) => ship0.push((x as u64, y as u64)),
                Tile::Ship(6) => ship6.push((x as u64, y as u64)),
                _ => {}
            }
        }
    }
    for &(x, y) in &ship0 {
        assert_eq!(apply_move(&mut s, 1, &coords(x, y)), Ok(()));
    }
    let (hx, hy) = ship6[0];
    assert_eq!(apply_move(&mut s, 1, &coords(hx, hy)), Ok(()));
    assert_eq!(s.hits_left[1][0], 0);

    let v = view_for(&s, 1);
    // the sunk ship is disclosed in full
    for &(x, y) in &ship0 {
        assert_eq!(v.boards[1][x as usize][y as usize], Tile::Ship(0));
    }
    // the damaged but unsunk ship shows the hit, not the ship
    assert_eq!(v.boards[1][hx as usize][hy as usize], Tile::Hit(6));
    // its remaining extent stays hidden
    for &(x, y) in &ship6[1..] {
        assert_eq!(v.boards[1][x as usize][y as usize], Tile::Water);
    }
}

#[test]
fn view_for_player_two_mirrors() {
    let s = initial_state(8);
    let v = view_for(&s, 2);
    assert_eq!(v.boards[1], s.boards[1]);
    assert_eq!(v.hits_left[1], s.hits_left[1]);
    assert_eq!(v.hits_left[0], vec![0; 7]);
    for x in 0..10 {
        for y in 0..10 {
            assert!(!matches!(v.boards[0][x][y], Tile::Ship(_)));
        }
    }
}
