use othello_core::play::{init_board, Board};
use othello_core::symmetry::{expand, flip_diagonal_data};
use rand::rngs::StdRng;
use rand::{Rng, SeedableRng};

fn moved(mask: u64, source: fn(i32, i32) -> (i32, i32)) -> u64 {
    let mut r = 0u64;
    for x in 0..8 {
        for y in 0..8 {
            let (a, b) = source(x, y);
            if (mask >> (a * 8 + b)) & 1 == 1 {
                r |= 1u64 << (x * 8 + y);
            }
        }
    }
    r
}

fn images(board: Board) -> Vec<Board> {
    let maps: [fn(i32, i32) -> (i32, i32); 8] = [
        |x, y| (x, y),
        |x, y| (7 - x, y),
        |x, y| (7 - x, 7 - y),
        |x, y| (x, 7 - y),
        |x, y| (y, x),
        |x, y| (7 - y, x),
        |x, y| (7 - y, 7 - x),
        |x, y| (y, 7 - x),
    ];
    maps.iter().map(|m| (moved(board.0, *m), moved(board.1, *m))).collect()
}

#[test]
fn expand_gives_eight_images() {
    let all = expand(&init_board());
    assert_eq!(all.len(), 8);
    assert_eq!(all[0], init_board());
    let one: Board = (1, 1u64 << 63);
    let all = expand(&one);
    assert_eq!(
        all,
        vec![
            (1, 1u64 << 63),
            (1u64 << 56, 1u64 << 7),
            (1u64 << 63, 1),
            (1u64 << 7, 1u64 << 56),
            (1, 1u64 << 63),
            (1u64 << 7, 1u64 << 56),
            (1u64 << 63, 1),
            (1u64 << 56, 1u64 << 7),
        ]
    );
}

#[test]
fn expand_agrees_with_moving_cell_by_cell() {
    let mut rng = StdRng::seed_from_u64(11);
    for _ in 0..300 {
        let a: u64 = rng.gen();
        let b: u64 = rng.gen::<u64>() & !a;
        assert_eq!(expand(&(a, b)), images((a, b)));
    }
}

#[test]
fn diagonal_flip_exchanges_the_coordinates() {
    assert_eq!(flip_diagonal_data(1u64 << 1), 1u64 << 8);
    assert_eq!(flip_diagonal_data(1u64 << 8), 1u64 << 1);
    assert_eq!(flip_diagonal_data(0xff), 0x0101010101010101);
    assert_eq!(flip_diagonal_data(0x8040201008040201), 0x8040201008040201);
    let mut rng = StdRng::seed_from_u64(12);
    for _ in 0..300 {
        let a: u64 = rng.gen();
        assert_eq!(flip_diagonal_data(a), moved(a, |x, y| (y, x)));
        assert_eq!(flip_diagonal_data(flip_diagonal_data(a)), a);
    }
}

#[test]
fn involutions_return_the_board() {
    let mut rng = StdRng::seed_from_u64(13);
    for _ in 0..200 {
        let a: u64 = rng.gen();
        let b: u64 = rng.gen::<u64>() & !a;
        let board = (a, b);
        let all = expand(&board);
        for k in [1usize, 2, 3, 4, 6] {
            assert_eq!(expand(&all[k])[k], board);
        }
        assert_eq!(expand(&all[5])[7], board);
        assert_eq!(expand(&all[7])[5], board);
    }
}

#[test]
fn every_image_has_the_same_orbit() {
    let mut rng = StdRng::seed_from_u64(14);
    for _ in 0..200 {
        let a: u64 = rng.gen();
        let b: u64 = rng.gen::<u64>() & !a;
        let mut orbit = expand(&(a, b));
        orbit.sort();
        for image in expand(&(a, b)) {
            let mut other = expand(&image);
            other.sort();
            assert_eq!(other, orbit);
        }
    }
}
