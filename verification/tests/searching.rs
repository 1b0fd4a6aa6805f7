use othello_core::command::Move;
use othello_core::endgame::{pick_solved, read_final, read_final_action, solve_worker};
use othello_core::eval::evaluate;
use othello_core::ordering::{
    calc_move_ordering_value, get_move_ordering_score, sort_by_score, Candidate,
};
use othello_core::play::{do_move, get_result, init_board, valid_moves, Board};
use othello_core::root::{
    best_action, ladder_goes_on, nega_scout_action, nega_scout_actions, raise_bound,
    rank_candidates, round_robin, score_first, scout_worker, shared_bound,
};
use othello_core::search::{is_cancelled, nega_scout, INF};
use rand::rngs::StdRng;
use rand::{Rng, SeedableRng};
use std::sync::atomic::{AtomicBool, AtomicI32, AtomicI8};

fn random_board(rng: &mut StdRng, plies: usize) -> (Board, bool) {
    let mut board = init_board();
    let mut color = true;
    let mut passes = 0;
    let mut played = 0;
    while played < plies && passes < 2 {
        let moves = valid_moves(&board, color);
        if moves.is_empty() {
            passes += 1;
        } else {
            passes = 0;
            let m = moves[rng.gen_range(0..moves.len())];
            do_move(&mut board, &Move::Mv(m.0, m.1), color);
            played += 1;
        }
        color = !color;
    }
    (board, color)
}

fn full_search(board: &Board, before: &Board, color: bool, depth: i8, leaf: i8, passed: bool) -> i64 {
    if depth == 0 {
        return evaluate(board, before, color, leaf) as i64;
    }
    let moves = valid_moves(board, color);
    if moves.is_empty() {
        if passed {
            return get_result(board, color) as i64 * INF as i64;
        }
        return -full_search(board, before, !color, depth - 1, leaf, true);
    }
    let mut best = i64::MIN;
    for m in moves {
        let mut next = *board;
        do_move(&mut next, &Move::Mv(m.0, m.1), color);
        let v = -full_search(&next, board, !color, depth - 1, leaf, false);
        if v > best {
            best = v;
        }
    }
    best
}

fn play_out(board: &Board, color: bool, passed: bool) -> i8 {
    let moves = valid_moves(board, color);
    if moves.is_empty() {
        if passed {
            return get_result(board, color);
        }
        return -play_out(board, !color, true);
    }
    let mut best = -1;
    for m in moves {
        let mut next = *board;
        do_move(&mut next, &Move::Mv(m.0, m.1), color);
        let v = -play_out(&next, !color, false);
        if v > best {
            best = v;
        }
    }
    best
}

#[test]
fn ordering_value_is_the_negated_mobility_of_the_other_side() {
    let board = init_board();
    assert_eq!(calc_move_ordering_value(&board, true), -4);
    assert_eq!(calc_move_ordering_value(&board, false), -4);
    assert_eq!(calc_move_ordering_value(&(1, 0), true), 0);
}

#[test]
fn candidates_come_sorted_and_complete() {
    let board = init_board();
    let nodes = get_move_ordering_score(&board, true);
    assert_eq!(nodes.len(), 4);
    let moves: Vec<(i8, i8)> = nodes.iter().map(|n| n.1).collect();
    assert_eq!(moves, vec![(2, 3), (3, 2), (4, 5), (5, 4)]);
    for n in &nodes {
        assert_eq!(n.0, -3);
        let mut next = board;
        do_move(&mut next, &Move::Mv((n.1).0, (n.1).1), true);
        assert_eq!(n.2, next);
    }
    let mut rng = StdRng::seed_from_u64(21);
    for round in 0..60 {
        let (board, color) = random_board(&mut rng, 4 + round % 50);
        let nodes = get_move_ordering_score(&board, color);
        let mut expected: Vec<Candidate> = Vec::new();
        for m in valid_moves(&board, color) {
            let mut next = board;
            do_move(&mut next, &Move::Mv(m.0, m.1), color);
            expected.push((calc_move_ordering_value(&next, color), m, next));
        }
        expected.sort_by(|a, b| b.0.cmp(&a.0));
        assert_eq!(nodes, expected);
    }
}

#[test]
fn sorting_is_stable_and_falling() {
    let b: Board = (0, 0);
    let mut v: Vec<Candidate> = vec![
        (1, (0, 0), b),
        (3, (0, 1), b),
        (1, (0, 2), b),
        (3, (0, 3), b),
        (2, (0, 4), b),
        (-5, (0, 5), b),
        (3, (0, 6), b),
    ];
    sort_by_score(&mut v);
    let order: Vec<(i32, i8)> = v.iter().map(|c| (c.0, (c.1).1)).collect();
    assert_eq!(order, vec![(3, 1), (3, 3), (3, 6), (2, 4), (1, 0), (1, 2), (-5, 5)]);
    let mut empty: Vec<Candidate> = Vec::new();
    sort_by_score(&mut empty);
    assert!(empty.is_empty());
}

#[test]
fn search_matches_full_search_without_pruning() {
    let mut rng = StdRng::seed_from_u64(31);
    let cancel = AtomicBool::new(false);
    for round in 0..40 {
        let (board, color) = random_board(&mut rng, 12 + round % 40);
        let before = init_board();
        for depth in 0..4i8 {
            for count in [6u8, 40] {
                let expected = full_search(&board, &before, color, depth, count as i8 - depth, false);
                let found =
                    nega_scout(&board, &before, color, -INF, INF, depth, depth, false, count, &cancel);
                assert_eq!(found.map(|v| v as i64), Some(expected));
            }
        }
    }
}

#[test]
fn search_inside_a_window_bounds_the_value() {
    let mut rng = StdRng::seed_from_u64(32);
    let cancel = AtomicBool::new(false);
    for round in 0..40 {
        let (board, color) = random_board(&mut rng, 15 + round % 35);
        let before = init_board();
        let exact = full_search(&board, &before, color, 3, 37, false);
        for (alpha, beta) in [(-50, 50), (-1, 0), (0, 1), (-INF, 0), (0, INF), (100, 400)] {
            let v = nega_scout(&board, &before, color, alpha, beta, 3, 3, false, 40, &cancel)
                .unwrap() as i64;
            if v <= alpha as i64 {
                assert!(exact <= v);
            } else if v >= beta as i64 {
                assert!(exact >= v);
            } else {
                assert_eq!(exact, v);
            }
        }
    }
}

#[test]
fn two_passes_end_the_game() {
    let cancel = AtomicBool::new(false);
    let won: Board = (0b111, 0);
    assert_eq!(nega_scout(&won, &won, true, -INF, INF, 3, 3, true, 40, &cancel), Some(INF));
    assert_eq!(nega_scout(&won, &won, false, -INF, INF, 3, 3, true, 40, &cancel), Some(-INF));
    assert_eq!(nega_scout(&won, &won, true, -INF, INF, 3, 3, false, 40, &cancel), Some(INF));
    assert_eq!(nega_scout(&won, &won, false, -INF, INF, 2, 2, false, 40, &cancel), Some(-INF));
    let tie: Board = (0b11, 0b1100_0000);
    assert_eq!(nega_scout(&tie, &tie, true, -INF, INF, 5, 5, true, 40, &cancel), Some(0));
    assert_eq!(nega_scout(&tie, &tie, true, -7, 9, 5, 5, true, 40, &cancel), Some(0));
    assert_eq!(read_final(&won, true, true, &cancel), Some(1));
    assert_eq!(read_final(&won, false, true, &cancel), Some(-1));
    assert_eq!(read_final(&won, false, false, &cancel), Some(-1));
    assert_eq!(read_final(&tie, true, false, &cancel), Some(0));
    let mut rng = StdRng::seed_from_u64(33);
    let mut ended = 0;
    for _ in 0..30 {
        let (board, color) = random_board(&mut rng, 64);
        if valid_moves(&board, color).is_empty() && valid_moves(&board, !color).is_empty() {
            ended += 1;
            let sign = (board.0.count_ones() as i32 - board.1.count_ones() as i32).signum();
            let sign = if color { sign } else { -sign };
            let v = nega_scout(&board, &board, color, -INF, INF, 4, 4, true, 10, &cancel).unwrap();
            assert_eq!(v.signum(), sign);
            assert_eq!(read_final(&board, color, true, &cancel), Some(sign as i8));
        }
    }
    assert!(ended > 0);
}

#[test]
fn a_cancelled_search_gives_up() {
    let cancel = AtomicBool::new(true);
    assert!(is_cancelled(&cancel));
    let board = init_board();
    assert_eq!(nega_scout(&board, &board, true, -INF, INF, 3, 3, false, 40, &cancel), None);
    assert_eq!(nega_scout(&board, &board, true, -INF, INF, 0, 0, false, 40, &cancel), None);
    assert_eq!(read_final(&board, true, false, &cancel), None);
    let nodes = get_move_ordering_score(&board, true);
    assert_eq!(score_first(&board, true, 2, 40, &nodes[0], &cancel), None);
    assert_eq!(nega_scout_actions(&board, true, 2, &nodes, 40, &cancel), vec![nodes[0]]);
    assert_eq!(nega_scout_action(&board, true, vec![2, 3], 40, &cancel), nodes[0].1);
    assert_eq!(read_final_action(true, &nodes, &cancel), nodes[0].1);
    let alpha = AtomicI32::new(-INF);
    assert!(scout_worker(&nodes, &board, true, 2, 40, &alpha, &cancel).is_empty());
    let best = AtomicI8::new(-1);
    assert!(solve_worker(&nodes, true, &best, &cancel).is_empty());
    let open = AtomicBool::new(false);
    assert!(!is_cancelled(&open));
}

#[test]
fn exact_search_matches_playing_out() {
    let mut rng = StdRng::seed_from_u64(34);
    let cancel = AtomicBool::new(false);
    for _ in 0..25 {
        let (board, color) = random_board(&mut rng, 53);
        for passed in [false, true] {
            assert_eq!(read_final(&board, color, passed, &cancel), Some(play_out(&board, color, passed)));
        }
    }
}

#[test]
fn candidates_are_dealt_out_in_turn() {
    let b: Board = (0, 0);
    let items: Vec<Candidate> = (0..10).map(|i| (i, (0, i as i8), b)).collect();
    let chunks = round_robin(&items, 4);
    let firsts: Vec<Vec<i32>> = chunks.iter().map(|c| c.iter().map(|x| x.0).collect()).collect();
    assert_eq!(firsts, vec![vec![0, 4, 8], vec![1, 5, 9], vec![2, 6], vec![3, 7]]);
    let chunks = round_robin(&items, 1);
    assert_eq!(chunks, vec![items.clone()]);
    let chunks = round_robin(&Vec::new(), 3);
    assert_eq!(chunks, vec![Vec::new(), Vec::new(), Vec::new()]);
    let two: Vec<Candidate> = items[..2].to_vec();
    let chunks = round_robin(&two, 4);
    assert_eq!(chunks, vec![vec![items[0]], vec![items[1]], vec![], vec![]]);
}

#[test]
fn shared_bound_only_rises() {
    let alpha = AtomicI32::new(5);
    assert_eq!(shared_bound(&alpha), 5);
    assert_eq!(raise_bound(&alpha, 3), 5);
    assert_eq!(raise_bound(&alpha, 9), 9);
    assert_eq!(shared_bound(&alpha), 9);
    let low = AtomicI32::new(i32::MIN);
    assert_eq!(shared_bound(&low), -INF);
}

#[test]
fn ranking_orders_all_scored_candidates() {
    let b: Board = (0, 0);
    let first: Candidate = (-3, (1, 1), b);
    let results: Vec<Vec<Candidate>> = vec![
        vec![(4, (2, 2), b), (7, (3, 3), b)],
        vec![],
        vec![(7, (4, 4), b)],
    ];
    let ranked = rank_candidates(first, 7, &results);
    let order: Vec<(i32, (i8, i8))> = ranked.iter().map(|c| (c.0, c.1)).collect();
    assert_eq!(order, vec![(7, (1, 1)), (7, (3, 3)), (7, (4, 4)), (4, (2, 2))]);
    assert_eq!(rank_candidates(first, 1, &Vec::new()), vec![(1, (1, 1), b)]);
}

#[test]
fn root_search_finds_the_value_and_a_best_move() {
    let mut rng = StdRng::seed_from_u64(35);
    let cancel = AtomicBool::new(false);
    for round in 0..25 {
        let (board, color) = random_board(&mut rng, 14 + round % 36);
        let nodes = get_move_ordering_score(&board, color);
        for depth in [0i8, 1, 2, 3] {
            let ranked = nega_scout_actions(&board, color, depth, &nodes, 40, &cancel);
            if nodes.is_empty() {
                assert!(ranked.is_empty());
                continue;
            }
            assert!(!ranked.is_empty());
            let mut best = i64::MIN;
            for n in &nodes {
                let v = -full_search(&n.2, &board, !color, depth, 40 - depth, false);
                if v > best {
                    best = v;
                }
            }
            assert_eq!(ranked[0].0 as i64, best);
            let top = -full_search(&ranked[0].2, &board, !color, depth, 40 - depth, false);
            assert_eq!(top, best);
            for w in ranked.windows(2) {
                assert!(w[0].0 >= w[1].0);
            }
            for r in &ranked {
                assert!(nodes.iter().any(|n| n.1 == r.1 && n.2 == r.2));
                let v = -full_search(&r.2, &board, !color, depth, 40 - depth, false);
                assert!(v <= r.0 as i64);
            }
            let v = score_first(&board, color, depth, 40, &nodes[0], &cancel).unwrap();
            assert_eq!(
                v as i64,
                -full_search(&nodes[0].2, &board, !color, depth, 40 - depth, false)
            );
        }
    }
}

#[test]
fn ladder_picks_a_legal_move() {
    let mut rng = StdRng::seed_from_u64(36);
    let cancel = AtomicBool::new(false);
    for round in 0..20 {
        let (board, color) = random_board(&mut rng, 10 + round * 2);
        let moves = valid_moves(&board, color);
        let action = nega_scout_action(&board, color, vec![1, 2, 3], 40, &cancel);
        if moves.is_empty() {
            assert_eq!(action, (-1, -1));
        } else {
            assert!(moves.contains(&action));
        }
        assert_eq!(nega_scout_action(&board, color, Vec::new(), 40, &cancel), {
            let nodes = get_move_ordering_score(&board, color);
            best_action(&nodes)
        });
    }
    let stuck: Board = (1, 0);
    assert_eq!(nega_scout_action(&stuck, true, vec![2], 40, &cancel), (-1, -1));
}

#[test]
fn ladder_stops_on_a_win_or_a_cancel() {
    let b: Board = (0, 0);
    let win: Vec<Candidate> = vec![(INF, (1, 1), b), (3, (2, 2), b)];
    let open: Vec<Candidate> = vec![(INF - 1, (1, 1), b)];
    assert!(!ladder_goes_on(&win, false));
    assert!(!ladder_goes_on(&win, true));
    assert!(ladder_goes_on(&open, false));
    assert!(!ladder_goes_on(&open, true));
    assert!(ladder_goes_on(&Vec::new(), false));
    assert_eq!(best_action(&win), (1, 1));
    assert_eq!(best_action(&Vec::new()), (-1, -1));
}

#[test]
fn exact_root_search_plays_a_best_move() {
    let mut rng = StdRng::seed_from_u64(37);
    let cancel = AtomicBool::new(false);
    for _ in 0..20 {
        let (board, color) = random_board(&mut rng, 54);
        let nodes = get_move_ordering_score(&board, color);
        let action = read_final_action(color, &nodes, &cancel);
        if nodes.is_empty() {
            assert_eq!(action, (-1, -1));
            continue;
        }
        let best = play_out(&board, color, false);
        let chosen = nodes.iter().find(|n| n.1 == action).unwrap();
        let value = -play_out(&chosen.2, !color, false);
        assert_eq!(value, best);
    }
}

#[test]
fn solved_moves_are_picked_first_best() {
    let b: Board = (0, 0);
    let scores: Vec<Candidate> = vec![(0, (9, 9), b)];
    assert_eq!(pick_solved(&Vec::new(), &vec![vec![(1, (1, 1))]]), (-1, -1));
    assert_eq!(pick_solved(&scores, &Vec::new()), (9, 9));
    assert_eq!(pick_solved(&scores, &vec![vec![(-1, (1, 1)), (-1, (2, 2))]]), (9, 9));
    assert_eq!(
        pick_solved(&scores, &vec![vec![(-1, (1, 1)), (0, (2, 2))], vec![(0, (3, 3))]]),
        (2, 2)
    );
    assert_eq!(
        pick_solved(&scores, &vec![vec![(0, (1, 1))], vec![], vec![(1, (3, 3)), (1, (4, 4))]]),
        (3, 3)
    );
}

#[test]
fn workers_score_their_candidates_in_order() {
    let mut rng = StdRng::seed_from_u64(38);
    let cancel = AtomicBool::new(false);
    let (board, color) = random_board(&mut rng, 30);
    let nodes = get_move_ordering_score(&board, color);
    let alpha = AtomicI32::new(-INF);
    let scored = scout_worker(&nodes, &board, color, 2, 40, &alpha, &cancel);
    assert_eq!(scored.len(), nodes.len());
    let mut best = i64::MIN;
    for (s, n) in scored.iter().zip(nodes.iter()) {
        assert_eq!((s.1, s.2), (n.1, n.2));
        let v = -full_search(&n.2, &board, !color, 2, 38, false);
        assert!(v <= s.0 as i64);
        best = best.max(v);
    }
    assert_eq!(shared_bound(&alpha) as i64, best);
    let (late, side) = random_board(&mut rng, 54);
    let nodes = get_move_ordering_score(&late, side);
    let level = AtomicI8::new(-1);
    let solved = solve_worker(&nodes, side, &level, &cancel);
    for (s, n) in solved.iter().zip(nodes.iter()) {
        assert_eq!(s.1, n.1);
        assert_eq!(s.0, -play_out(&n.2, !side, false));
    }
}
