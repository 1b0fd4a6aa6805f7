use othello_core::command::Move;
use othello_core::endgame::{
    higher_level, raise_level, read_final, read_final_node, solve_candidate, solve_worker,
};
use othello_core::eval::evaluate;
use othello_core::ordering::{get_move_ordering_score, Candidate};
use othello_core::play::{do_move, get_result, init_board, valid_moves, Board};
use othello_core::root::{
    bound_of, higher, raise_bound, root_score, score_first, scout_candidate, scout_worker,
    shared_bound, Scouted,
};
use othello_core::search::{nega_scout, nega_scout_node, INF};
use rand::rngs::StdRng;
use rand::{Rng, SeedableRng};
use std::sync::atomic::{AtomicBool, AtomicI32, AtomicI8, Ordering};

fn some_board(seed: u64, plies: usize) -> (Board, bool) {
    let mut rng = StdRng::seed_from_u64(seed);
    let mut board = init_board();
    let mut color = true;
    let mut passes = 0;
    let mut played = 0;
    while played < plies && passes < 2 {
        let moves = valid_moves(&board, color);
        if moves.is_empty() {
            passes += 1;
        } else {
            passes = 0;
            let m = moves[rng.gen_range(0..moves.len())];
            do_move(&mut board, &Move::Mv(m.0, m.1), color);
            played += 1;
        }
        color = !color;
    }
    (board, color)
}

#[test]
fn a_search_found_cancelled_gives_up_whatever_the_flag_says_later() {
    let open = AtomicBool::new(false);
    let start = init_board();
    for depth in 0..3i8 {
        assert_eq!(
            nega_scout_node(&start, &start, true, -INF, INF, depth, depth, false, 40, true, &open),
            None
        );
        assert_eq!(root_score(&start, &start, true, depth, 40, -5, 5, true, &open), None);
    }
    assert_eq!(read_final_node(&(0b111, 0), true, true, true, &open), None);
    let cand: Candidate = (0, (0, 0), (0b111, 0));
    assert_eq!(solve_candidate(&cand, true, true, &open), None);
    let alpha = AtomicI32::new(0);
    assert!(matches!(
        scout_candidate(&cand, &start, true, 2, 40, 0, true, &alpha, &open),
        Scouted::Stop
    ));
    assert_eq!(alpha.load(Ordering::SeqCst), 0);
}

#[test]
fn a_search_that_goes_on_scores_the_leaf() {
    let closed = AtomicBool::new(true);
    for seed in 0..20 {
        let (board, color) = some_board(seed, 10 + seed as usize * 2);
        let before = init_board();
        for count in [3u8, 40] {
            let leaf = evaluate(&board, &before, color, count as i8);
            for (alpha, beta) in [(-INF, INF), (-1, 0), (5, 9)] {
                assert_eq!(
                    nega_scout_node(&board, &before, color, alpha, beta, 0, 0, false, count, false, &closed),
                    Some(leaf)
                );
            }
            let worth = -evaluate(&board, &before, !color, count as i8);
            assert_eq!(root_score(&board, &before, color, 0, count, -3, 4, false, &closed), Some(worth));
            assert_eq!(root_score(&board, &before, color, 0, count, -INF, INF, false, &closed), Some(worth));
        }
    }
}

#[test]
fn a_search_that_goes_on_scores_the_ended_game() {
    let closed = AtomicBool::new(true);
    let won: Board = (0b111, 0);
    assert_eq!(nega_scout_node(&won, &won, true, -INF, INF, 3, 3, true, 40, false, &closed), Some(INF));
    assert_eq!(nega_scout_node(&won, &won, false, -2, 7, 1, 4, true, 40, false, &closed), Some(-INF));
    assert_eq!(nega_scout_node(&(0b11, 0b1100_0000), &won, true, -2, 7, 1, 4, true, 40, false, &closed), Some(0));
    assert_eq!(nega_scout_node(&won, &won, true, -INF, INF, 3, 3, false, 40, false, &closed), None);
    assert_eq!(read_final_node(&won, true, true, false, &closed), Some(1));
    assert_eq!(read_final_node(&won, false, true, false, &closed), Some(-1));
    assert_eq!(read_final_node(&(0b11, 0b1100_0000), false, true, false, &closed), Some(0));
    assert_eq!(read_final_node(&won, true, false, false, &closed), None);
    for seed in 0..10 {
        let (board, color) = some_board(100 + seed, 64);
        if valid_moves(&board, color).is_empty() {
            assert_eq!(
                read_final_node(&board, color, true, false, &closed),
                Some(get_result(&board, color))
            );
        }
    }
}

#[test]
fn looking_at_the_flag_first_changes_nothing_while_it_is_clear() {
    let open = AtomicBool::new(false);
    for seed in 0..15 {
        let (board, color) = some_board(200 + seed, 20 + seed as usize * 2);
        let before = init_board();
        for depth in 0..3i8 {
            assert_eq!(
                nega_scout_node(&board, &before, color, -40, 60, depth, depth, false, 40, false, &open),
                nega_scout(&board, &before, color, -40, 60, depth, depth, false, 40, &open)
            );
        }
        let nodes = get_move_ordering_score(&board, color);
        if let Some(first) = nodes.first() {
            assert_eq!(
                score_first(&board, color, 2, 40, first, &open),
                root_score(&first.2, &board, color, 2, 40, -INF, INF, false, &open)
            );
        }
    }
    for seed in 0..8 {
        let (board, color) = some_board(300 + seed, 54);
        assert_eq!(
            read_final_node(&board, color, false, false, &open),
            read_final(&board, color, false, &open)
        );
        for n in get_move_ordering_score(&board, color) {
            let solved = solve_candidate(&n, color, false, &open).unwrap();
            assert_eq!(solved.1, n.1);
            assert_eq!(Some(-solved.0), read_final(&n.2, !color, false, &open));
        }
    }
}

#[test]
fn a_bound_found_is_kept_above_the_lowest_score() {
    assert_eq!(bound_of(5), 5);
    assert_eq!(bound_of(-INF), -INF);
    assert_eq!(bound_of(i32::MIN), -INF);
    assert_eq!(bound_of(INF), INF);
    assert_eq!(higher(3, 9), 9);
    assert_eq!(higher(9, 3), 9);
    assert_eq!(higher(-4, -4), -4);
    assert_eq!(higher_level(-1, 0), 0);
    assert_eq!(higher_level(1, 0), 1);
    assert_eq!(higher_level(0, 0), 0);
    let best = AtomicI8::new(-1);
    assert_eq!(raise_level(&best, 0), 0);
    assert_eq!(raise_level(&best, -1), 0);
    assert_eq!(raise_level(&best, 1), 1);
    assert_eq!(best.load(Ordering::SeqCst), 1);
    let alpha = AtomicI32::new(-7);
    assert_eq!(shared_bound(&alpha), -7);
    assert_eq!(raise_bound(&alpha, -9), -7);
    assert_eq!(raise_bound(&alpha, 12), 12);
    assert_eq!(alpha.load(Ordering::SeqCst), 12);
}

#[test]
fn one_candidate_is_scored_stopped_or_the_last() {
    let open = AtomicBool::new(false);
    let closed = AtomicBool::new(true);
    for seed in 0..12 {
        let (board, color) = some_board(400 + seed, 16 + seed as usize * 3);
        for cand in get_move_ordering_score(&board, color) {
            let worth = -evaluate(&cand.2, &board, !color, 40);
            let alpha = AtomicI32::new(worth);
            match scout_candidate(&cand, &board, color, 0, 40, worth, false, &alpha, &closed) {
                Scouted::Scored(c) => assert_eq!(c, (worth, cand.1, cand.2)),
                other => panic!("{:?}", other),
            }
            assert_eq!(alpha.load(Ordering::SeqCst), worth);
            let low = AtomicI32::new(worth - 1);
            assert!(matches!(
                scout_candidate(&cand, &board, color, 0, 40, worth - 1, false, &low, &closed),
                Scouted::Stop
            ));
            assert_eq!(low.load(Ordering::SeqCst), worth);
            let low = AtomicI32::new(worth - 1);
            match scout_candidate(&cand, &board, color, 0, 40, worth - 1, false, &low, &open) {
                Scouted::Scored(c) => assert_eq!(c, (worth, cand.1, cand.2)),
                other => panic!("{:?}", other),
            }
        }
    }
    let won: Candidate = (0, (0, 2), (0b111, 0));
    let alpha = AtomicI32::new(0);
    match scout_candidate(&won, &(0b11, 0), true, 2, 40, 0, false, &alpha, &open) {
        Scouted::Last(c) => assert_eq!(c, (INF, (0, 2), (0b111, 0))),
        other => panic!("{:?}", other),
    }
    assert_eq!(alpha.load(Ordering::SeqCst), INF);
    let lost: Candidate = (0, (0, 2), (0, 0b111));
    let alpha = AtomicI32::new(INF);
    assert!(matches!(
        scout_candidate(&lost, &(0, 0b11), true, 2, 40, 5, false, &alpha, &open),
        Scouted::Scored((s, (0, 2), (0, 0b111))) if s == -INF
    ));
    let chunk = vec![won, lost];
    let alpha = AtomicI32::new(0);
    assert_eq!(
        scout_worker(&chunk, &(0b11, 0), true, 2, 40, &alpha, &open),
        vec![(INF, (0, 2), (0b111, 0))]
    );
    let best = AtomicI8::new(-1);
    assert_eq!(solve_worker(&chunk, true, &best, &open), vec![(1, (0, 2))]);
    let best = AtomicI8::new(-1);
    assert_eq!(
        solve_worker(&vec![lost, won, lost], true, &best, &open),
        vec![(-1, (0, 2)), (1, (0, 2))]
    );
}
