use othello_core::bits::{count, has_stone};
use othello_core::command::Move;
use othello_core::play::{
    do_move, flip, flippable_bits, get_result, init_board, shl, shr, valid_mask, valid_moves, Board,
};
use rand::rngs::StdRng;
use rand::{Rng, SeedableRng};

fn at(mask: u64, x: i32, y: i32) -> bool {
    x >= 0 && x < 8 && y >= 0 && y < 8 && (mask >> (x * 8 + y)) & 1 == 1
}

fn scan_flips(p: u64, o: u64, x: i32, y: i32) -> Vec<(i32, i32)> {
    let mut all = Vec::new();
    for dx in -1..=1 {
        for dy in -1..=1 {
            if dx == 0 && dy == 0 {
                continue;
            }
            let mut line = Vec::new();
            let mut cx = x + dx;
            let mut cy = y + dy;
            while at(o, cx, cy) {
                line.push((cx, cy));
                cx += dx;
                cy += dy;
            }
            if !line.is_empty() && at(p, cx, cy) {
                all.extend(line);
            }
        }
    }
    all
}

fn scan_legal(p: u64, o: u64) -> Vec<(i8, i8)> {
    let mut moves = Vec::new();
    for x in 0..8 {
        for y in 0..8 {
            if !at(p, x, y) && !at(o, x, y) && !scan_flips(p, o, x, y).is_empty() {
                moves.push((x as i8, y as i8));
            }
        }
    }
    moves
}

fn scan_place(board: Board, color: bool, x: i32, y: i32) -> Board {
    let (mut p, mut o) = if color { board } else { (board.1, board.0) };
    for (a, b) in scan_flips(p, o, x, y) {
        p |= 1u64 << (a * 8 + b);
        o &= !(1u64 << (a * 8 + b));
    }
    p |= 1u64 << (x * 8 + y);
    if color {
        (p, o)
    } else {
        (o, p)
    }
}

fn random_game(rng: &mut StdRng, plies: usize) -> (Board, bool) {
    let mut board: Board = (0x0000000810000000, 0x0000001008000000);
    let mut color = true;
    let mut passes = 0;
    let mut played = 0;
    while played < plies && passes < 2 {
        let (p, o) = if color { board } else { (board.1, board.0) };
        let moves = scan_legal(p, o);
        if moves.is_empty() {
            passes += 1;
        } else {
            passes = 0;
            let m = moves[rng.gen_range(0..moves.len())];
            board = scan_place(board, color, m.0 as i32, m.1 as i32);
            played += 1;
        }
        color = !color;
    }
    (board, color)
}

#[test]
fn opening_position_is_the_standard_one() {
    let board = init_board();
    assert_eq!(board, (0x0000000810000000, 0x0000001008000000));
    assert!(has_stone(board.0, 28) && has_stone(board.0, 35));
    assert!(has_stone(board.1, 27) && has_stone(board.1, 36));
    assert_eq!(count(board.0), 2);
    assert_eq!(count(board.1), 2);
    assert_eq!(board.0 & board.1, 0);
}

#[test]
fn opening_has_the_four_canonical_moves() {
    let board = init_board();
    assert_eq!(valid_moves(&board, true), vec![(2, 3), (3, 2), (4, 5), (5, 4)]);
    assert_eq!(valid_moves(&board, false), vec![(2, 4), (3, 5), (4, 2), (5, 3)]);
    assert_eq!(
        valid_mask(&board, true),
        (1u64 << 19) | (1u64 << 26) | (1u64 << 37) | (1u64 << 44)
    );
    assert_eq!(flippable_bits(board.0, board.1), valid_mask(&board, true));
    assert_eq!(flippable_bits(board.1, board.0), valid_mask(&board, false));
}

#[test]
fn shifts_move_stones() {
    assert_eq!(shl(0x8000000000000001, 1), 2);
    assert_eq!(shr(0x8000000000000001, 63), 1);
    assert_eq!(shl(0xff, 8), 0xff00);
    assert_eq!(shr(0xff00, 9), 0x7f);
}

#[test]
fn has_stone_reads_single_bits() {
    assert!(has_stone(1, 0));
    assert!(!has_stone(1, 1));
    assert!(has_stone(0x8000000000000000, 63));
    assert!(!has_stone(0x7fffffffffffffff, 63));
}

#[test]
fn count_agrees_with_the_machine() {
    let mut rng = StdRng::seed_from_u64(7);
    assert_eq!(count(0), 0);
    assert_eq!(count(u64::MAX), 64);
    assert_eq!(count(0x8000000000000001), 2);
    assert_eq!(count(0x5555555555555555), 32);
    for _ in 0..2000 {
        let x: u64 = rng.gen();
        assert_eq!(count(x) as u32, x.count_ones());
    }
}

#[test]
fn first_move_turns_one_stone() {
    let mut board = init_board();
    assert_eq!(flip(board.0, board.1, 1u64 << 19), 1u64 << 27);
    do_move(&mut board, &Move::Mv(2, 3), true);
    assert_eq!(board.0, (1u64 << 19) | (1u64 << 27) | (1u64 << 28) | (1u64 << 35));
    assert_eq!(board.1, 1u64 << 36);
    assert_eq!(count(board.0), 4);
    assert_eq!(count(board.1), 1);
}

#[test]
fn pass_and_giveup_leave_the_board() {
    let mut board = init_board();
    do_move(&mut board, &Move::Pass, true);
    assert_eq!(board, init_board());
    do_move(&mut board, &Move::GiveUp, false);
    assert_eq!(board, init_board());
}

#[test]
fn placement_without_capture_adds_one_stone() {
    let mut board = init_board();
    do_move(&mut board, &Move::Mv(0, 0), false);
    assert_eq!(board.0, init_board().0);
    assert_eq!(board.1, init_board().1 | 1);
}

#[test]
fn a_line_of_six_is_captured() {
    let p: u64 = 1u64 << 7;
    let o: u64 = 0b0111_1110;
    assert_eq!(flippable_bits(p, o), 1);
    assert_eq!(flip(p, o, 1), o);
    let mut board = (p, o);
    do_move(&mut board, &Move::Mv(0, 0), true);
    assert_eq!(board, (0xff, 0));
}

#[test]
fn lines_do_not_run_over_the_edge() {
    let p: u64 = 1u64 << 9;
    let o: u64 = 1u64 << 8;
    assert_eq!(flippable_bits(p, o), 0);
    let p: u64 = 1u64 << 16;
    let o: u64 = 1u64 << 15;
    assert_eq!(flippable_bits(p, o), 0);
    assert_eq!(flip(1u64 << 9, 1u64 << 8, 1u64 << 7), 0);
}

#[test]
fn legal_moves_agree_with_a_cell_by_cell_scan() {
    let mut rng = StdRng::seed_from_u64(2024);
    let mut seen = 0;
    for round in 0..150 {
        let plies = 1 + (round % 58);
        let (board, color) = random_game(&mut rng, plies);
        assert_eq!(board.0 & board.1, 0);
        for side in [color, !color] {
            let (p, o) = if side { board } else { (board.1, board.0) };
            let expected = scan_legal(p, o);
            assert_eq!(valid_moves(&board, side), expected);
            let mut mask = 0u64;
            for m in &expected {
                mask |= 1u64 << (m.0 as u32 * 8 + m.1 as u32);
            }
            assert_eq!(valid_mask(&board, side), mask);
            assert_eq!(flippable_bits(p, o), mask);
        }
        seen += 1;
    }
    assert!(seen >= 100);
}

#[test]
fn moves_keep_masks_apart_and_count_the_turned() {
    let mut rng = StdRng::seed_from_u64(99);
    for round in 0..120 {
        let (board, color) = random_game(&mut rng, round % 56);
        let (p, o) = if color { board } else { (board.1, board.0) };
        for m in valid_moves(&board, color) {
            let turned = scan_flips(p, o, m.0 as i32, m.1 as i32);
            let mut mask = 0u64;
            for (a, b) in &turned {
                mask |= 1u64 << (a * 8 + b);
            }
            assert_eq!(flip(p, o, 1u64 << (m.0 as u32 * 8 + m.1 as u32)), mask);
            let mut next = board;
            do_move(&mut next, &Move::Mv(m.0, m.1), color);
            assert_eq!(next, scan_place(board, color, m.0 as i32, m.1 as i32));
            assert_eq!(next.0 & next.1, 0);
            let (np, no) = if color { next } else { (next.1, next.0) };
            assert_eq!(count(np) as usize, count(p) as usize + 1 + turned.len());
            assert_eq!(count(no) as usize, count(o) as usize - turned.len());
            assert_eq!(
                count(next.0) as i32 + count(next.1) as i32,
                count(board.0) as i32 + count(board.1) as i32 + 1
            );
        }
    }
}

#[test]
fn result_is_the_sign_of_the_difference() {
    let board: Board = (0b111, 0b11000);
    assert_eq!(get_result(&board, true), 1);
    assert_eq!(get_result(&board, false), -1);
    let tie: Board = (0b11, 0b1100);
    assert_eq!(get_result(&tie, true), 0);
    assert_eq!(get_result(&tie, false), 0);
    assert_eq!(get_result(&(0, 0), true), 0);
}
