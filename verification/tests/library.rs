use puzzle15::board::{manhattan_dist, Board, DynamicBoard, PackedBoard};
use puzzle15::input::{parse_numbers, parse_puzzle, InputError};
use puzzle15::inversions::count;
use puzzle15::solver::{bidirectional, bucket_dfs};

#[test]
fn count_inversions_of_small_arrays() {
    let mut a: Vec<u8> = vec![3, 1, 2];
    assert_eq!(count(&mut a), 2);
    assert_eq!(a, vec![1, 2, 3]);

    let mut b: Vec<u8> = vec![5, 4, 3, 2, 1];
    assert_eq!(count(&mut b), 10);
    assert_eq!(b, vec![1, 2, 3, 4, 5]);

    let mut c: Vec<u8> = vec![];
    assert_eq!(count(&mut c), 0);

    let mut d: Vec<u8> = vec![7];
    assert_eq!(count(&mut d), 0);

    let mut e: Vec<u8> = vec![2, 2, 1];
    assert_eq!(count(&mut e), 2);
    assert_eq!(e, vec![1, 2, 2]);
}

#[test]
fn count_ignores_zeros() {
    let mut a: Vec<u8> = vec![2, 0, 1];
    assert_eq!(count(&mut a), 1);
    assert_eq!(a, vec![0, 1, 2]);

    let mut b: Vec<u8> = vec![0, 3, 0, 1, 2];
    assert_eq!(count(&mut b), 2);
    assert_eq!(b, vec![0, 0, 1, 2, 3]);

    let mut c: Vec<u8> = vec![5, 0, 0, 0];
    assert_eq!(count(&mut c), 0);
    assert_eq!(c, vec![0, 0, 0, 5]);
}

#[test]
fn manhattan_dist_on_grids() {
    assert_eq!(manhattan_dist(0, 8, 3), 4);
    assert_eq!(manhattan_dist(5, 3, 3), 2);
    assert_eq!(manhattan_dist(6, 6, 4), 0);
    assert_eq!(manhattan_dist(15, 0, 4), 6);
    assert_eq!(manhattan_dist(1, 2, 1), 1);
}

#[test]
fn goal_boards_are_solved() {
    let d = DynamicBoard::goal(3);
    assert!(d.is_goal());
    assert_eq!(d.n(), 3);
    assert_eq!(d.empty_index(), 8);
    for i in 0..8 {
        assert_eq!(d.tile_at(i), (i + 1) as u8);
    }
    assert_eq!(d.tile_at(8), 0);
    assert!(d.is_solvable());

    let p = PackedBoard::goal(4);
    assert!(p.is_goal());
    assert_eq!(p.key(), 0x0FED_CBA9_8765_4321u64);
    assert_eq!(p.empty_index(), 15);
    assert!(p.is_solvable());
}

#[test]
fn keys_rebuild_the_same_board() {
    let tiles: Vec<u8> = vec![4, 1, 3, 0, 2, 5, 7, 8, 6];
    let d = DynamicBoard::from_tiles(3, &tiles);
    assert_eq!(d.key(), tiles);
    assert_eq!(DynamicBoard::rebuild(&d.key(), 3), d);

    let ptiles: Vec<u8> = vec![5, 1, 3, 4, 2, 6, 7, 8, 9, 10, 11, 12, 13, 14, 15, 0];
    let p = PackedBoard::from_tiles(4, &ptiles);
    assert_eq!(PackedBoard::rebuild(&p.key(), 4), p);
    for i in 0..16 {
        assert_eq!(p.tile_at(i), ptiles[i]);
    }
}

#[test]
fn packed_tiles_overlap_when_too_large() {
    // A tile of 16 spills into the next nibble: packing ORs the bits in.
    let tiles: Vec<u8> = vec![16, 2, 3, 4, 5, 6, 7, 8, 9, 10, 11, 12, 13, 14, 15, 0];
    let p = PackedBoard::from_tiles(4, &tiles);
    assert_eq!(p.tile_at(0), 0);
    assert_eq!(p.tile_at(1), 3);
    assert_eq!(p.empty_index(), 15);
}

#[test]
fn dynamic_blank_is_the_first_zero() {
    let d = DynamicBoard::from_tiles(2, &[1, 0, 0, 3]);
    assert_eq!(d.empty_index(), 1);
}

#[test]
fn manhattan_to_counts_every_tile() {
    let goal = DynamicBoard::goal(3);
    let b = DynamicBoard::from_tiles(3, &[1, 2, 3, 4, 5, 6, 7, 0, 8]);
    assert_eq!(b.manhattan_to(&goal), 1);
    let c = DynamicBoard::from_tiles(3, &[8, 1, 3, 4, 0, 2, 7, 6, 5]);
    assert_eq!(c.manhattan_to(&goal), 10);
    let pg = PackedBoard::goal(4);
    let pb = PackedBoard::from_tiles(4, &[5, 1, 3, 4, 2, 6, 7, 8, 9, 10, 11, 12, 13, 14, 15, 0]);
    assert_eq!(pb.manhattan_to(&pg), 4);
}

#[test]
fn neighbors_in_direction_order_with_deltas() {
    let goal = DynamicBoard::goal(3);
    let b = DynamicBoard::from_tiles(3, &[1, 2, 3, 4, 5, 6, 7, 0, 8]);
    let ns = b.neighbors(&goal);
    assert_eq!(ns.len(), 3);
    // up: tile 5 moves down
    assert_eq!(ns[0].board.empty_index(), 4);
    assert_eq!(ns[0].manhattan_delta, 1);
    assert!(ns[0].is_next_box);
    // left: tile 7 moves right
    assert_eq!(ns[1].board.empty_index(), 6);
    assert_eq!(ns[1].manhattan_delta, 1);
    assert!(ns[1].is_next_box);
    // right: tile 8 moves home
    assert_eq!(ns[2].board.empty_index(), 8);
    assert_eq!(ns[2].manhattan_delta, -1);
    assert!(!ns[2].is_next_box);
    assert!(ns[2].board.is_goal());
}

#[test]
fn neighbor_delta_is_the_whole_change() {
    let target = DynamicBoard::goal(3);
    let b = DynamicBoard::from_tiles(3, &[8, 1, 3, 4, 0, 2, 7, 6, 5]);
    let h = b.manhattan_to(&target) as i64;
    let ns = b.neighbors(&target);
    assert_eq!(ns.len(), 4);
    for nb in &ns {
        let d = nb.manhattan_delta as i64;
        assert!(d == 1 || d == -1);
        assert_eq!(nb.board.manhattan_to(&target) as i64, h + d);
        assert_eq!(nb.is_next_box, d == 1);
    }

    let ptarget = PackedBoard::goal(4);
    let p = PackedBoard::from_tiles(4, &[5, 1, 3, 4, 2, 6, 7, 8, 9, 10, 0, 12, 13, 14, 11, 15]);
    let ph = p.manhattan_to(&ptarget) as i64;
    for nb in &p.neighbors(&ptarget) {
        let d = nb.manhattan_delta as i64;
        assert!(d == 1 || d == -1);
        assert_eq!(nb.board.manhattan_to(&ptarget) as i64, ph + d);
        assert_eq!(nb.is_next_box, d == 1);
    }
}

#[test]
fn moves_can_be_undone() {
    let target = DynamicBoard::goal(3);
    let b = DynamicBoard::from_tiles(3, &[8, 1, 3, 4, 0, 2, 7, 6, 5]);
    for nb in b.neighbors(&target) {
        let back = nb.board.neighbors(&target);
        assert!(back.iter().any(|m| m.board == b));
    }
}

#[test]
fn moves_keep_the_parity_verdict() {
    let target = DynamicBoard::goal(3);
    let solvable = DynamicBoard::from_tiles(3, &[8, 1, 3, 4, 0, 2, 7, 6, 5]);
    let unsolvable = DynamicBoard::from_tiles(3, &[1, 8, 3, 4, 0, 2, 7, 6, 5]);
    assert!(solvable.is_solvable());
    assert!(!unsolvable.is_solvable());
    for nb in solvable.neighbors(&target) {
        assert!(nb.board.is_solvable());
    }
    for nb in unsolvable.neighbors(&target) {
        assert!(!nb.board.is_solvable());
    }
    let p = PackedBoard::from_tiles(4, &[1, 2, 3, 4, 5, 6, 7, 8, 9, 10, 11, 12, 13, 14, 0, 15]);
    assert!(p.is_solvable());
    for nb in p.neighbors(&PackedBoard::goal(4)) {
        assert!(nb.board.is_solvable());
    }
}

#[test]
fn solutions_start_at_the_initial_board() {
    let tiles: Vec<u8> = vec![1, 2, 3, 4, 0, 5, 7, 8, 6];
    let b = DynamicBoard::from_tiles(3, &tiles);
    let s1 = bucket_dfs::solve(b.clone()).unwrap();
    let s2 = bidirectional::solve(b.clone()).unwrap();
    assert_eq!(s1.path[0], b);
    assert_eq!(s2.path[0].key(), b.key());
    assert!(s1.path.last().unwrap().is_goal());
    assert!(s2.path.last().unwrap().is_goal());
    assert_eq!(s2.moves, 2);
}

#[test]
fn two_by_two_boards() {
    let b = DynamicBoard::from_tiles(2, &[1, 2, 0, 3]);
    let s = bidirectional::solve(b.clone()).unwrap();
    assert_eq!(s.moves, 1);
    let s = bucket_dfs::solve(b).unwrap();
    assert_eq!(s.moves, 1);
    let u = DynamicBoard::from_tiles(2, &[2, 1, 3, 0]);
    assert!(!u.is_solvable());
    assert!(bucket_dfs::solve(u.clone()).is_none());
    assert!(bidirectional::solve(u).is_none());
}

#[test]
fn unsolvable_positions_are_not_searched() {
    // The parity rule says no: both solvers stop at once.
    let p = PackedBoard::from_tiles(4, &[2, 1, 3, 4, 5, 6, 7, 8, 9, 10, 11, 12, 13, 14, 15, 0]);
    assert!(!p.is_solvable());
    assert!(bucket_dfs::solve(p.clone()).is_none());
    assert!(bidirectional::solve(p).is_none());
}

#[test]
fn parse_numbers_skips_what_is_not_a_byte() {
    assert_eq!(parse_numbers(b"3 1 2"), vec![3, 1, 2]);
    assert_eq!(parse_numbers(b"  +7\t\n08 256 -1 x 255"), vec![7, 8, 255]);
    assert_eq!(parse_numbers(b""), Vec::<u8>::new());
    assert_eq!(parse_numbers(b"+ ++1 1a"), Vec::<u8>::new());
    // Unicode white space separates tokens too.
    assert_eq!(parse_numbers("1\u{00A0}2\u{3000}3".as_bytes()), vec![1, 2, 3]);
    // Other non-ASCII bytes do not.
    assert_eq!(parse_numbers("1\u{00E9}2 4".as_bytes()), vec![4]);
}

#[test]
fn parse_puzzle_reads_side_and_tiles() {
    let r = parse_puzzle(b"3\n1 2 3\n4 5 6\n7 8 0\n");
    assert_eq!(r, Ok((3usize, vec![1u8, 2, 3, 4, 5, 6, 7, 8, 0])));
    let r = parse_puzzle(b"2 1 2 3 0 junk");
    assert_eq!(r, Ok((2usize, vec![1u8, 2, 3, 0])));
}

#[test]
fn parse_puzzle_reports_empty_text() {
    assert_eq!(parse_puzzle(b""), Err(InputError::Empty));
    assert_eq!(parse_puzzle(b"no numbers here"), Err(InputError::Empty));
}

#[test]
fn parse_puzzle_reports_wrong_tile_count() {
    assert_eq!(
        parse_puzzle(b"2 1 2 3"),
        Err(InputError::WrongTileCount { side: 2, got: 3 })
    );
    assert_eq!(
        parse_puzzle(b"0 5"),
        Err(InputError::WrongTileCount { side: 0, got: 1 })
    );
}

fn distances_from_goal_3x3() -> std::collections::HashMap<Vec<u8>, u32> {
    let goal: Vec<u8> = vec![1, 2, 3, 4, 5, 6, 7, 8, 0];
    let mut dist = std::collections::HashMap::new();
    dist.insert(goal.clone(), 0u32);
    let mut queue = std::collections::VecDeque::new();
    queue.push_back(goal);
    while let Some(c) = queue.pop_front() {
        let d = dist[&c];
        let e = c.iter().position(|&t| t == 0).unwrap();
        let mut targets = vec![];
        if e >= 3 {
            targets.push(e - 3);
        }
        if e + 3 < 9 {
            targets.push(e + 3);
        }
        if e % 3 > 0 {
            targets.push(e - 1);
        }
        if e % 3 < 2 {
            targets.push(e + 1);
        }
        for t in targets {
            let mut m = c.clone();
            m.swap(e, t);
            if !dist.contains_key(&m) {
                dist.insert(m.clone(), d + 1);
                queue.push_back(m);
            }
        }
    }
    dist
}

#[test]
fn both_solvers_find_shortest_solutions() {
    let dist = distances_from_goal_3x3();
    let mut keys: Vec<&Vec<u8>> = dist.keys().collect();
    keys.sort();
    let mut seed: u64 = 2024;
    for _ in 0..150 {
        seed = seed.wrapping_mul(6364136223846793005).wrapping_add(1442695040888963407);
        let tiles = keys[((seed >> 33) as usize) % keys.len()];
        let shortest = dist[tiles];
        let b = DynamicBoard::from_tiles(3, tiles);
        let s1 = bucket_dfs::solve(b.clone()).unwrap();
        let s2 = bidirectional::solve(b).unwrap();
        assert_eq!(s1.moves, shortest);
        assert_eq!(s2.moves, shortest);
    }
}

#[test]
fn six_move_position_is_solved_in_six() {
    // 4 1 3 / 7 2 6 / _ 5 8: its Manhattan distance is already six.
    let b = DynamicBoard::from_tiles(3, &[4, 1, 3, 7, 2, 6, 0, 5, 8]);
    assert_eq!(b.manhattan_to(&DynamicBoard::goal(3)), 6);
    assert_eq!(bucket_dfs::solve(b.clone()).unwrap().moves, 6);
    assert_eq!(bidirectional::solve(b).unwrap().moves, 6);
}

#[test]
fn counting_sorted_output_again_gives_zero() {
    let mut a: Vec<u8> = vec![4, 0, 2, 7, 0, 1];
    assert_eq!(count(&mut a), 4);
    let sorted = a.clone();
    assert_eq!(count(&mut a), 0);
    assert_eq!(a, sorted);
}

#[test]
fn manhattan_is_symmetric_and_zero_only_on_equal_boards() {
    let a = DynamicBoard::from_tiles(3, &[8, 1, 3, 4, 0, 2, 7, 6, 5]);
    let b = DynamicBoard::from_tiles(3, &[1, 2, 3, 4, 5, 6, 0, 7, 8]);
    assert_eq!(a.manhattan_to(&b), b.manhattan_to(&a));
    assert!(a.manhattan_to(&b) > 0);
    assert_eq!(a.manhattan_to(&a), 0);
    let p = PackedBoard::from_tiles(4, &[5, 1, 2, 3, 0, 6, 7, 4, 9, 10, 11, 8, 13, 14, 15, 12]);
    let q = PackedBoard::goal(4);
    assert_eq!(p.manhattan_to(&q), q.manhattan_to(&p));
    assert_eq!(q.manhattan_to(&q), 0);
}

#[test]
fn packed_and_dynamic_neighbors_agree() {
    let t: [u8; 16] = [5, 1, 2, 3, 9, 6, 7, 4, 0, 10, 11, 8, 13, 14, 15, 12];
    let u: [u8; 16] = [1, 2, 3, 4, 5, 6, 7, 8, 9, 10, 11, 12, 13, 14, 15, 0];
    let p = PackedBoard::from_tiles(4, &t).neighbors(&PackedBoard::from_tiles(4, &u));
    let d = DynamicBoard::from_tiles(4, &t).neighbors(&DynamicBoard::from_tiles(4, &u));
    assert_eq!(p.len(), d.len());
    for (x, y) in p.iter().zip(d.iter()) {
        for i in 0..16 {
            assert_eq!(x.board.tile_at(i), y.board.tile_at(i));
        }
        assert_eq!(x.board.empty_index(), y.board.empty_index());
        assert_eq!(x.is_next_box, y.is_next_box);
        assert_eq!(x.manhattan_delta, y.manhattan_delta);
    }
}

#[test]
fn neighbors_rebuild_from_their_keys() {
    let b = DynamicBoard::from_tiles(3, &[1, 2, 3, 4, 0, 5, 7, 8, 6]);
    let goal = DynamicBoard::goal(3);
    for nb in b.neighbors(&goal) {
        assert_eq!(DynamicBoard::rebuild(&nb.board.key(), 3), nb.board);
        let mut tiles: Vec<u8> = (0..9).map(|i| nb.board.tile_at(i)).collect();
        assert_eq!(nb.board.tile_at(nb.board.empty_index()), 0);
        tiles.sort();
        assert_eq!(tiles, (0..9).collect::<Vec<u8>>());
    }
    let p = PackedBoard::from_tiles(4, &[1, 2, 3, 4, 5, 6, 7, 8, 9, 10, 0, 11, 13, 14, 15, 12]);
    for nb in p.neighbors(&PackedBoard::goal(4)) {
        assert_eq!(PackedBoard::rebuild(&nb.board.key(), 4), nb.board);
    }
}

#[test]
fn manhattan_never_exceeds_the_moves_needed() {
    let b = DynamicBoard::from_tiles(3, &[8, 1, 3, 4, 0, 2, 7, 6, 5]);
    let goal = DynamicBoard::goal(3);
    let sol = bucket_dfs::solve(b.clone()).unwrap();
    assert!(b.manhattan_to(&goal) <= sol.moves);
    for (i, x) in sol.path.iter().enumerate() {
        assert!(x.manhattan_to(&goal) as usize <= sol.path.len() - 1 - i);
    }
}

#[test]
fn every_two_by_two_position_is_solved_exactly_when_the_parity_rule_accepts_it() {
    let mut checked = 0;
    for a in 0u8..4 {
        for b in 0u8..4 {
            for c in 0u8..4 {
                for d in 0u8..4 {
                    let t = [a, b, c, d];
                    let mut s = t.to_vec();
                    s.sort();
                    if s != vec![0, 1, 2, 3] {
                        continue;
                    }
                    checked += 1;
                    let board = DynamicBoard::from_tiles(2, &t);
                    let solvable = board.is_solvable();
                    let bucket = bucket_dfs::solve(board.clone());
                    let bidir = bidirectional::solve(board.clone());
                    assert_eq!(bucket.is_some(), solvable);
                    assert_eq!(bidir.is_some(), solvable);
                    if let (Some(x), Some(y)) = (bucket, bidir) {
                        assert_eq!(x.moves, y.moves);
                    }
                }
            }
        }
    }
    assert_eq!(checked, 24);
}
