use othello_core::ai::{
    finish_turn, init_ai, play, set_time_remain, Phase, Session, DEPTH,
};
use othello_core::book::{
    apply_joseki, book_candidates, is_qualified, key_of, pick_weighted, OpeningBook,
};
use othello_core::command::Move;
use othello_core::logbook::{boards_from_words, parse_line, record_game, split_plies};
use othello_core::play::{do_move, init_board, valid_moves, Board};
use othello_core::symmetry::expand;
use rand::rngs::StdRng;
use rand::{Rng, SeedableRng};
use std::sync::atomic::AtomicBool;

fn after(board: Board, color: bool, m: (i8, i8)) -> Board {
    let mut next = board;
    do_move(&mut next, &Move::Mv(m.0, m.1), color);
    next
}

fn late_board(seed: u64, plies: usize) -> (Board, bool) {
    let mut rng = StdRng::seed_from_u64(seed);
    let mut board = init_board();
    let mut color = true;
    let mut passes = 0;
    let mut played = 0;
    while played < plies && passes < 2 {
        let moves = valid_moves(&board, color);
        if moves.is_empty() {
            passes += 1;
        } else {
            passes = 0;
            let m = moves[rng.gen_range(0..moves.len())];
            do_move(&mut board, &Move::Mv(m.0, m.1), color);
            played += 1;
        }
        color = !color;
    }
    (board, color)
}

#[test]
fn boards_are_filed_under_their_masks() {
    assert_eq!(key_of(&(0, 0)), 0);
    assert_eq!(key_of(&(0, 5)), 5);
    assert_eq!(key_of(&(1, 0)), 1u128 << 64);
    assert_eq!(key_of(&(u64::MAX, u64::MAX)), u128::MAX);
    let mut book = OpeningBook::new();
    assert_eq!(book.lookup(&(1, 2)), None);
    book.set(&(1, 2), 3, 4);
    assert_eq!(book.lookup(&(1, 2)), Some((3, 4)));
    assert_eq!(book.lookup(&(2, 1)), None);
    book.set(&(1, 2), 9, 0);
    assert_eq!(book.lookup(&(1, 2)), Some((9, 0)));
}

#[test]
fn games_are_counted() {
    let mut book = OpeningBook::new();
    book.add_game(&(1, 2), true);
    assert_eq!(book.lookup(&(1, 2)), Some((1, 0)));
    book.add_game(&(1, 2), false);
    book.add_game(&(1, 2), true);
    assert_eq!(book.lookup(&(1, 2)), Some((2, 1)));
    book.add_game(&(4, 8), false);
    assert_eq!(book.lookup(&(4, 8)), Some((0, 1)));
    book.set(&(7, 8), i32::MAX, i32::MAX);
    book.add_game(&(7, 8), true);
    book.add_game(&(7, 8), false);
    assert_eq!(book.lookup(&(7, 8)), Some((i32::MAX, i32::MAX)));
    let mut other = OpeningBook::new();
    record_game(&mut other, &vec![(1, 2), (4, 8), (1, 2)], &vec![(4, 8), (16, 32)]);
    assert_eq!(other.lookup(&(1, 2)), Some((2, 0)));
    assert_eq!(other.lookup(&(4, 8)), Some((1, 1)));
    assert_eq!(other.lookup(&(16, 32)), Some((0, 1)));
}

#[test]
fn a_record_speaks_for_a_move_from_half_the_games() {
    assert!(is_qualified((1, 0)));
    assert!(is_qualified((1, 1)));
    assert!(is_qualified((5, 4)));
    assert!(!is_qualified((4, 5)));
    assert!(!is_qualified((0, 1)));
    assert!(!is_qualified((0, 0)));
    assert!(is_qualified((i32::MAX, i32::MAX)));
    assert!(!is_qualified((-1, -5)));
}

#[test]
fn the_book_proposes_only_what_it_speaks_for() {
    let start = init_board();
    let mut book = OpeningBook::new();
    assert!(book_candidates(&book, &start, true).is_empty());
    assert_eq!(apply_joseki(&book, &start, true), (-1, -1));
    book.set(&after(start, true, (2, 3)), 1, 2);
    assert!(book_candidates(&book, &start, true).is_empty());
    assert_eq!(apply_joseki(&book, &start, true), (-1, -1));
    book.set(&after(start, true, (5, 4)), 6, 2);
    let hits = book_candidates(&book, &start, true);
    assert!(!hits.is_empty());
    for h in &hits {
        assert_eq!(h.1, 6);
        assert!(valid_moves(&start, true).contains(&h.0));
    }
    for _ in 0..50 {
        let m = apply_joseki(&book, &start, true);
        assert!(hits.iter().any(|h| h.0 == m));
    }
}

#[test]
fn the_book_finds_symmetric_images() {
    let start = init_board();
    let target = after(start, true, (2, 3));
    for image in expand(&target) {
        let mut book = OpeningBook::new();
        book.set(&image, 3, 1);
        let hits = book_candidates(&book, &start, true);
        assert!(hits.iter().any(|h| h.0 == (2, 3) && h.1 == 3));
        let mut expected = Vec::new();
        for m in valid_moves(&start, true) {
            for b in expand(&after(start, true, m)) {
                if b == image {
                    expected.push((m, 3u32));
                }
            }
        }
        assert_eq!(hits, expected);
    }
}

#[test]
fn the_draw_falls_into_the_stretch_of_one_move() {
    let hits = vec![((1, 1), 1u32), ((2, 2), 3), ((3, 3), 2)];
    let picks: Vec<(i8, i8)> = (0..13).map(|rd| pick_weighted(&hits, rd)).collect();
    assert_eq!(
        picks,
        vec![
            (1, 1),
            (2, 2),
            (2, 2),
            (2, 2),
            (3, 3),
            (3, 3),
            (1, 1),
            (2, 2),
            (2, 2),
            (2, 2),
            (3, 3),
            (3, 3),
            (1, 1)
        ]
    );
    assert_eq!(pick_weighted(&vec![((4, 4), 9)], 123456), (4, 4));
    assert_eq!(pick_weighted(&hits, u32::MAX), hits[[0, 1, 1, 1, 2, 2][(u32::MAX % 6) as usize]].0);
    let big = vec![((0, 0), u32::MAX), ((1, 1), u32::MAX)];
    assert_eq!(pick_weighted(&big, u32::MAX - 1), (0, 0));
    assert_eq!(pick_weighted(&big, u32::MAX), (1, 1));
}

#[test]
fn moves_are_drawn_in_proportion_to_their_wins() {
    let hits = vec![((1, 1), 1u32), ((2, 2), 2), ((3, 3), 7)];
    let mut rng = StdRng::seed_from_u64(4242);
    let mut seen = [0u32; 3];
    let trials = 200000;
    for _ in 0..trials {
        let m = pick_weighted(&hits, rng.gen::<u32>());
        let i = hits.iter().position(|h| h.0 == m).unwrap();
        seen[i] += 1;
    }
    for i in 0..3 {
        let share = seen[i] as f64 / trials as f64;
        let due = hits[i].1 as f64 / 10.0;
        assert!((share - due).abs() < 0.01);
    }
}

#[test]
fn a_line_of_a_record_is_replayed() {
    let text = "+d3-c3+c4-e3+f5-c5+f4-d6+e6-b4+a4-f7+e7 +10";
    let pieces = split_plies(&"+d3-c3+c4".to_string());
    let pieces: Vec<String> = pieces.iter().map(|p| p.iter().collect()).collect();
    assert_eq!(pieces, vec!["", "d3", "c3", "c4"]);
    assert_eq!(split_plies(&"".to_string()), vec![Vec::<char>::new()]);
    assert_eq!(split_plies(&"-".to_string()), vec![Vec::<char>::new(), Vec::new()]);
    assert_eq!(parse_line(&text.to_string()), None);
    assert_eq!(parse_line(&"".to_string()), None);
    assert_eq!(parse_line(&"+d3".to_string()), None);
    assert_eq!(parse_line(&"+a1-c3 +2".to_string()), None);
    let mut board = init_board();
    let mut color = true;
    let mut line = String::new();
    let mut first = Vec::new();
    let mut second = Vec::new();
    let mut rng = StdRng::seed_from_u64(77);
    for _ in 0..24 {
        let moves = valid_moves(&board, color);
        let m = moves[rng.gen_range(0..moves.len())];
        line.push(if color { '+' } else { '-' });
        line.push((b'a' + m.0 as u8) as char);
        line.push((b'1' + m.1 as u8) as char);
        board = after(board, color, m);
        if first.len() + second.len() < 20 {
            if color {
                first.push(board);
            } else {
                second.push(board);
            }
        }
        color = !color;
    }
    let won = format!("{} +12", line);
    assert_eq!(parse_line(&won), Some((first.clone(), second.clone())));
    let lost = format!("  {}   -04  extra", line);
    assert_eq!(parse_line(&lost), Some((second.clone(), first.clone())));
    assert_eq!(parse_line(&line), None);
    assert_eq!(
        boards_from_words(&vec![line.clone(), "+0".to_string()]),
        Some((first, second))
    );
}

#[test]
fn the_time_for_a_move_keeps_a_reserve() {
    let mut session = Session::new();
    assert_eq!(session.count, 60);
    set_time_remain(&mut session, 100000);
    assert_eq!(session.budget, 100000 - (60 * 900 + 5000));
    init_ai(&mut session, true);
    assert_eq!(session.count, 64);
    assert!(session.color);
    assert!(!session.book_exhausted);
    assert_eq!(session.budget, 41000);
    set_time_remain(&mut session, 100000);
    assert_eq!(session.budget, 37400);
    set_time_remain(&mut session, 62600);
    assert_eq!(session.budget, 0);
    set_time_remain(&mut session, 62601);
    assert_eq!(session.budget, 1);
    set_time_remain(&mut session, 0);
    assert_eq!(session.budget, 0);
    set_time_remain(&mut session, u64::MAX);
    assert_eq!(session.budget, u64::MAX - 62600);
}

#[test]
fn the_phase_follows_the_count() {
    let mut session = Session::new();
    init_ai(&mut session, false);
    assert_eq!(DEPTH, 10);
    for (count, exhausted, phase) in [
        (64u8, false, Phase::Book),
        (41, false, Phase::Book),
        (41, true, Phase::Ladder),
        (64, true, Phase::Ladder),
        (40, false, Phase::Ladder),
        (25, false, Phase::Ladder),
        (24, false, Phase::RankThenSolve),
        (11, true, Phase::RankThenSolve),
        (10, false, Phase::Solve),
        (0, false, Phase::Solve),
    ] {
        session.count = count;
        session.book_exhausted = exhausted;
        assert_eq!(session.phase(), phase);
    }
}

#[test]
fn a_turn_takes_two_plies_off_the_count() {
    let mut session = Session::new();
    init_ai(&mut session, true);
    assert_eq!(finish_turn(&mut session, (2, 3)), Move::Mv(2, 3));
    assert_eq!(session.count, 62);
    assert_eq!(finish_turn(&mut session, (-1, -1)), Move::Pass);
    assert_eq!(session.count, 60);
    assert_eq!(finish_turn(&mut session, (0, 0)), Move::Mv(0, 0));
    assert_eq!(session.count, 58);
}

#[test]
fn play_follows_the_book_while_it_lasts() {
    let start = init_board();
    let mut book = OpeningBook::new();
    book.set(&after(start, true, (3, 2)), 4, 1);
    let cancel = AtomicBool::new(true);
    let mut session = Session::new();
    init_ai(&mut session, true);
    let m = play(&mut session, &book, &start, true, false, &cancel);
    match m {
        Move::Mv(i, j) => assert!(valid_moves(&start, true).contains(&(i, j))),
        _ => panic!("no move from the book"),
    }
    let reply = after(after(start, true, (3, 2)), false, (2, 2));
    let mut narrow = OpeningBook::new();
    narrow.set(&after(reply, true, (1, 2)), 2, 2);
    let hits = book_candidates(&narrow, &reply, true);
    assert!(!hits.is_empty());
    session.count = 64;
    match play(&mut session, &narrow, &reply, true, false, &cancel) {
        Move::Mv(i, j) => assert!(hits.iter().any(|h| h.0 == (i, j))),
        _ => panic!("no move from the book"),
    }
    assert!(!session.book_exhausted);
}

#[test]
fn play_searches_when_the_book_fails() {
    let book = OpeningBook::new();
    let cancel = AtomicBool::new(false);
    for seed in 0..6 {
        let (board, color) = late_board(seed, 52);
        let mut session = Session::new();
        init_ai(&mut session, color);
        let m = play(&mut session, &book, &board, color, false, &cancel);
        assert!(session.book_exhausted);
        assert_eq!(session.count, 62);
        let moves = valid_moves(&board, color);
        match m {
            Move::Mv(i, j) => assert!(moves.contains(&(i, j))),
            Move::Pass => assert!(moves.is_empty()),
            Move::GiveUp => panic!("resigned"),
        }
    }
}

#[test]
fn play_picks_legal_moves_in_every_phase() {
    let book = OpeningBook::new();
    let cancel = AtomicBool::new(false);
    for seed in 10..18 {
        for count in [40u8, 24, 12, 10, 2] {
            let (board, color) = late_board(seed, 53);
            let mut session = Session::new();
            init_ai(&mut session, color);
            session.count = count;
            let m = play(&mut session, &book, &board, color, true, &cancel);
            assert_eq!(session.count, count - 2);
            assert!(!session.book_exhausted);
            let moves = valid_moves(&board, color);
            match m {
                Move::Mv(i, j) => assert!(moves.contains(&(i, j))),
                Move::Pass => assert!(moves.is_empty()),
                Move::GiveUp => panic!("resigned"),
            }
        }
    }
    let stuck: Board = (1, 0);
    let mut session = Session::new();
    init_ai(&mut session, true);
    for count in [64u8, 40, 20, 8] {
        session.count = count;
        assert_eq!(play(&mut session, &book, &stuck, true, false, &cancel), Move::Pass);
    }
}
