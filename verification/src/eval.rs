//! The score of a position: worth of cells, stable stones, open cells and
//! legal placements.
use crate::bits::{
    bit, cells, count, has_stone, lemma_bit_and, lemma_bit_not, lemma_bit_or, lemma_bit_shl,
    lemma_bit_shr, lemma_cells_len, lemma_shr_step,
};
use crate::geometry::{along, cell_index, is_direction, legal_cell, on_board, stone};
use crate::lines::lemma_edge_masks;
use crate::play::{flippable_bits, mover_mask, opponent_mask, stones, Board, Color};
use vstd::prelude::*;
use vstd::set_lib::{lemma_int_range, lemma_len_subset, set_int_range};

verus! {

/// What a stone on each cell is worth: corners are strong, their
/// neighbours weak.
pub const WEIGHTS: [i32; 64] = [
    30, -12, 0, -1, -1, 0, -12, 30,
    -12, -15, -3, -3, -3, -3, -15, -12,
    0, -3, 0, -1, -1, 0, -3, 0,
    -1, -3, -1, -1, -1, -1, -3, -1,
    -1, -3, -1, -1, -1, -1, -3, -1,
    0, -3, 0, -1, -1, 0, -3, 0,
    -12, -15, -3, -3, -3, -3, -15, -12,
    30, -12, 0, -1, -1, 0, -12, 30,
];

/// The worth of the stones of `mask` on the cells below `n`.
pub open spec fn weight_below(mask: u64, n: int) -> int
    decreases n,
{
    if n <= 0 {
        0
    } else {
        weight_below(mask, n - 1) + if bit(mask, n - 1) {
            WEIGHTS[n - 1] as int
        } else {
            0
        }
    }
}

/// The worth of the stones of a mask.
pub fn calc_weight(board: u64) -> (res: i32)
    ensures
        res == weight_below(board, 64),
        -960 <= res <= 1920,
{
    let mut board = board;
    let ghost full = board;
    let mut res: i32 = 0;
    let mut i: usize = 0;
    proof {
        lemma_shr_step(full, 0);
    }
    while i < 64
        invariant
            0 <= i <= 64,
            i < 64 ==> board == full >> (i as u64),
            res == weight_below(full, i as int),
            -15 * i <= res <= 30 * i,
        decreases 64 - i,
    {
        if board & 1 == 1 {
            res = res + WEIGHTS[i];
        }
        proof {
            if i < 63 {
                lemma_shr_step(full, i as u64);
            }
        }
        board = board >> 1;
        i = i + 1;
    }
    res
}

/// The first step at or after `i`, up to 8, at which the walk from `(x, y)`
/// in direction `(dx, dy)` no longer finds a stone of `mask`.
pub open spec fn run_stop(mask: u64, x: int, y: int, dx: int, dy: int, i: int) -> int
    decreases 8 - i,
{
    if i >= 8 {
        8
    } else if !stone(mask, along(x, dx, i), along(y, dy, i)) {
        i
    } else {
        run_stop(mask, x, y, dx, dy, i + 1)
    }
}

/// What the three lines out of the corner `(x, y)` add to the count of
/// stable stones: the corner itself and, along each line, the stones that
/// follow the corner without a gap.
pub open spec fn corner_runs(mask: u64, x: int, y: int, dx: int, dy: int) -> int {
    if !stone(mask, x, y) {
        0
    } else {
        1 + (run_stop(mask, x, y, dx, 0, 1) - 1) + (run_stop(mask, x, y, 0, dy, 1) - 1) + (
        run_stop(mask, x, y, dx, dy, 1) - 1)
    }
}

/// Eight for every line out of the corner `(x, y)` that is full from end
/// to end.
pub open spec fn corner_full(mask: u64, x: int, y: int, dx: int, dy: int) -> int {
    if !stone(mask, x, y) {
        0
    } else {
        (if run_stop(mask, x, y, dx, 0, 1) == 8 {
            8int
        } else {
            0int
        }) + (if run_stop(mask, x, y, 0, dy, 1) == 8 {
            8int
        } else {
            0int
        }) + (if run_stop(mask, x, y, dx, dy, 1) == 8 {
            8int
        } else {
            0int
        })
    }
}

/// The count of stable stones: the runs out of the four corners, less half
/// of what the full lines were counted, since a full line is seen from
/// both of its ends.
pub open spec fn stable_count(mask: u64) -> int {
    let runs = corner_runs(mask, 0, 0, 1, 1) + corner_runs(mask, 7, 7, -1, -1) + corner_runs(
        mask,
        7,
        0,
        -1,
        1,
    ) + corner_runs(mask, 0, 7, 1, -1);
    let full = corner_full(mask, 0, 0, 1, 1) + corner_full(mask, 7, 7, -1, -1) + corner_full(
        mask,
        7,
        0,
        -1,
        1,
    ) + corner_full(mask, 0, 7, 1, -1);
    runs - full / 2
}

/// The coordinate `i` steps of `d` away from the corner coordinate `c`.
fn stepped(c: i8, d: i8, i: i8) -> (r: i8)
    requires
        c == 0 || c == 7,
        d == 0 || d == (if c == 0 {
            1i8
        } else {
            -1i8
        }),
        1 <= i <= 7,
    ensures
        r == along(c as int, d as int, i as int),
        0 <= r < 8,
{
    assert(d * i == (if d == 0 {
        0
    } else if d == 1 {
        i as int
    } else {
        -i
    })) by (nonlinear_arith)
        requires
            -1 <= d <= 1,
    ;
    c + d * i
}

/// The step at which the walk from the corner `(cx, cy)` in direction
/// `(dx, dy)` stops finding stones.
fn corner_run(board: u64, cx: i8, cy: i8, dx: i8, dy: i8) -> (i: i8)
    requires
        (cx == 0 || cx == 7) && (cy == 0 || cy == 7),
        dx == 0 || dx == (if cx == 0 {
            1i8
        } else {
            -1i8
        }),
        dy == 0 || dy == (if cy == 0 {
            1i8
        } else {
            -1i8
        }),
    ensures
        i == run_stop(board, cx as int, cy as int, dx as int, dy as int, 1),
        1 <= i <= 8,
{
    let mut i: i8 = 1;
    while i <= 7 && has_stone(board, stepped(cx, dx, i) * 8 + stepped(cy, dy, i))
        invariant
            1 <= i <= 8,
            (cx == 0 || cx == 7) && (cy == 0 || cy == 7),
            dx == 0 || dx == (if cx == 0 {
                1i8
            } else {
                -1i8
            }),
            dy == 0 || dy == (if cy == 0 {
                1i8
            } else {
                -1i8
            }),
            run_stop(board, cx as int, cy as int, dx as int, dy as int, 1) == run_stop(
                board,
                cx as int,
                cy as int,
                dx as int,
                dy as int,
                i as int,
            ),
        decreases 8 - i,
    {
        i = i + 1;
    }
    i
}

/// What one corner adds to the runs and to the full lines.
fn corner_stable(board: u64, cx: i8, cy: i8, dx: i8, dy: i8) -> (r: (i8, i8))
    requires
        (cx == 0 || cx == 7) && (cy == 0 || cy == 7),
        dx == (if cx == 0 {
            1i8
        } else {
            -1i8
        }),
        dy == (if cy == 0 {
            1i8
        } else {
            -1i8
        }),
    ensures
        r.0 == corner_runs(board, cx as int, cy as int, dx as int, dy as int),
        r.1 == corner_full(board, cx as int, cy as int, dx as int, dy as int),
        0 <= r.0 <= 22,
        0 <= r.1 <= 24,
{
    let mut res: i8 = 0;
    let mut dup: i8 = 0;
    if !has_stone(board, cx * 8 + cy) {
        return (res, dup);
    }
    res = res + 1;
    let i = corner_run(board, cx, cy, dx, 0);
    res = res + (i - 1);
    if i == 8 {
        dup = dup + i;
    }
    let i = corner_run(board, cx, cy, 0, dy);
    res = res + (i - 1);
    if i == 8 {
        dup = dup + i;
    }
    let i = corner_run(board, cx, cy, dx, dy);
    res = res + (i - 1);
    if i == 8 {
        dup = dup + i;
    }
    (res, dup)
}

/// The count of stable stones of a mask, by runs out of the corners.
pub fn count_stable(board: u64) -> (r: i32)
    ensures
        r == stable_count(board),
        -48 <= r <= 88,
{
    let a = corner_stable(board, 0, 0, 1, 1);
    let b = corner_stable(board, 7, 7, -1, -1);
    let c = corner_stable(board, 7, 0, -1, 1);
    let d = corner_stable(board, 0, 7, 1, -1);
    let res: i8 = a.0 + b.0 + c.0 + d.0;
    let dup: i8 = a.1 + b.1 + c.1 + d.1;
    (res - dup / 2) as i32
}

/// Whether `mask` holds a stone on the neighbour of `(x, y)` in direction
/// `(dx, dy)`.
pub open spec fn neighbour(mask: u64, x: int, y: int, dx: int, dy: int) -> bool {
    stone(mask, x + dx, y + dy)
}

/// The empty cells next to a cell of `changed`, in any of the eight
/// directions.
pub open spec fn open_cells(changed: u64, p: u64, o: u64) -> Set<int> {
    Set::new(
        |c: int|
            0 <= c < 64 && !bit(p, c) && !bit(o, c) && exists|dx: int, dy: int|
                is_direction(dx, dy) && #[trigger] neighbour(changed, c / 8, c % 8, dx, dy),
    )
}

/// How many empty cells lie next to the cells of `flippable_bits`.
pub fn openness(flippable_bits: u64, pboard: u64, oboard: u64) -> (r: i32)
    ensures
        r == open_cells(flippable_bits, pboard, oboard).len(),
        0 <= r <= 64,
{
    let f = flippable_bits;
    let n1 = (f << 1) & 0xfefefefefefefefe;
    let n2 = n1 | ((f >> 1) & 0x7f7f7f7f7f7f7f7f);
    let n3 = n2 | (f << 8);
    let n4 = n3 | (f >> 8);
    let n5 = n4 | ((f << 9) & 0xfefefefefefefefe);
    let n6 = n5 | ((f >> 9) & 0x7f7f7f7f7f7f7f7f);
    let n7 = n6 | ((f << 7) & 0x7f7f7f7f7f7f7f7f);
    let n8 = n7 | ((f >> 7) & 0xfefefefefefefefe);
    let neighbors = n8 & !(pboard | oboard);
    proof {
        lemma_edge_masks();
        lemma_bit_shl(f, 1);
        lemma_bit_shr(f, 1);
        lemma_bit_shl(f, 8);
        lemma_bit_shr(f, 8);
        lemma_bit_shl(f, 9);
        lemma_bit_shr(f, 9);
        lemma_bit_shl(f, 7);
        lemma_bit_shr(f, 7);
        lemma_bit_and(f << 1, 0xfefefefefefefefe);
        lemma_bit_and(f >> 1, 0x7f7f7f7f7f7f7f7f);
        lemma_bit_and(f << 9, 0xfefefefefefefefe);
        lemma_bit_and(f >> 9, 0x7f7f7f7f7f7f7f7f);
        lemma_bit_and(f << 7, 0x7f7f7f7f7f7f7f7f);
        lemma_bit_and(f >> 7, 0xfefefefefefefefe);
        lemma_bit_or(n1, (f >> 1) & 0x7f7f7f7f7f7f7f7f);
        lemma_bit_or(n2, f << 8);
        lemma_bit_or(n3, f >> 8);
        lemma_bit_or(n4, (f << 9) & 0xfefefefefefefefe);
        lemma_bit_or(n5, (f >> 9) & 0x7f7f7f7f7f7f7f7f);
        lemma_bit_or(n6, (f << 7) & 0x7f7f7f7f7f7f7f7f);
        lemma_bit_or(n7, (f >> 7) & 0xfefefefefefefefe);
        lemma_bit_or(pboard, oboard);
        lemma_bit_not(pboard | oboard);
        lemma_bit_and(n8, !(pboard | oboard));
        assert forall|c: int| cells(neighbors).contains(c) <==> open_cells(
            f,
            pboard,
            oboard,
        ).contains(c) by {
            if 0 <= c < 64 {
                let x = c / 8;
                let y = c % 8;
                assert(bit(n8, c) <==> (stone(f, x, y - 1) || stone(f, x, y + 1) || stone(
                    f,
                    x - 1,
                    y,
                ) || stone(f, x + 1, y) || stone(f, x - 1, y - 1) || stone(f, x + 1, y + 1)
                    || stone(f, x - 1, y + 1) || stone(f, x + 1, y - 1))) by {
                    assert(cell_index(x, y - 1) == c - 1);
                    assert(cell_index(x, y + 1) == c + 1);
                    assert(cell_index(x - 1, y) == c - 8);
                    assert(cell_index(x + 1, y) == c + 8);
                    assert(cell_index(x - 1, y - 1) == c - 9);
                    assert(cell_index(x + 1, y + 1) == c + 9);
                    assert(cell_index(x - 1, y + 1) == c - 7);
                    assert(cell_index(x + 1, y - 1) == c + 7);
                }
                if bit(n8, c) {
                    assert(is_direction(0, -1) && is_direction(0, 1) && is_direction(-1, 0)
                        && is_direction(1, 0) && is_direction(-1, -1) && is_direction(1, 1)
                        && is_direction(-1, 1) && is_direction(1, -1));
                    assert(neighbour(f, x, y, 0, -1) || neighbour(f, x, y, 0, 1) || neighbour(
                        f,
                        x,
                        y,
                        -1,
                        0,
                    ) || neighbour(f, x, y, 1, 0) || neighbour(f, x, y, -1, -1) || neighbour(
                        f,
                        x,
                        y,
                        1,
                        1,
                    ) || neighbour(f, x, y, -1, 1) || neighbour(f, x, y, 1, -1));
                }
            }
        }
        assert(cells(neighbors) =~= open_cells(f, pboard, oboard));
    }
    count(neighbors) as i32
}

/// The factor that lets the difference in stones outweigh every other
/// term near the end of the game.
pub const MATERIAL: i32 = 33554431;

/// How many legal placements the player with stones `p` has against `o`.
pub open spec fn mobility(p: u64, o: u64) -> int {
    Set::new(|c: int| 0 <= c < 64 && legal_cell(p, o, c / 8, c % 8)).len() as int
}

/// The score of a position for the player `color`. With at most four plies
/// left to the estimated end of the game it is the difference in stones,
/// scaled; before that it weighs the cells that the last move opened, the
/// worth of the cells held, the legal placements and the stable stones of
/// both sides.
pub open spec fn evaluation(board: Board, board_p: Board, color: Color, depth: int) -> int {
    let p = mover_mask(board, color);
    let o = opponent_mask(board, color);
    let o_before = opponent_mask(board_p, color);
    if depth <= 4 {
        (stones(p) - stones(o)) * MATERIAL
    } else {
        open_cells(o ^ o_before, p, o).len() * 10 + (weight_below(p, 64) - weight_below(o, 64)) + 10
            * (mobility(p, o) - mobility(o, p)) + 50 * (stable_count(p) - stable_count(o))
    }
}

/// The score of a leaf of the search for the player `color`; `board_p` is
/// the board one ply earlier and `depth` the estimated number of plies left
/// in the game.
pub fn evaluate(board: &Board, board_p: &Board, color: Color, depth: i8) -> (r: i32)
    ensures
        r == evaluation(*board, *board_p, color, depth as int),
        -2147483584 <= r <= 2147483584,
{
    let pboard: u64;
    let oboard: u64;
    let oboard_p: u64;
    if color {
        pboard = board.0;
        oboard = board.1;
        oboard_p = board_p.1;
    } else {
        pboard = board.1;
        oboard = board.0;
        oboard_p = board_p.0;
    }
    if depth <= 4 {
        let p_count = count(pboard) as i32;
        let o_count = count(oboard) as i32;
        (p_count - o_count) * 33554431
    } else {
        let pweight = calc_weight(pboard);
        let oweight = calc_weight(oboard);
        let openess = openness(oboard ^ oboard_p, pboard, oboard);
        let pmoves = flippable_bits(pboard, oboard);
        let omoves = flippable_bits(oboard, pboard);
        let pcandidates = count(pmoves) as i32;
        let ocandidates = count(omoves) as i32;
        proof {
            lemma_mobility(pboard, oboard, pmoves);
            lemma_mobility(oboard, pboard, omoves);
        }
        let pstables = count_stable(pboard);
        let ostables = count_stable(oboard);
        openess * 10 + (pweight - oweight) + 10 * (pcandidates - ocandidates) + 50 * (pstables
            - ostables)
    }
}

/// A mask of the legal placements has as many cells as there are legal
/// placements.
proof fn lemma_mobility(p: u64, o: u64, moves: u64)
    requires
        forall|x: int, y: int|
            on_board(x, y) ==> (#[trigger] stone(moves, x, y) <==> legal_cell(p, o, x, y)),
    ensures
        cells(moves).len() == mobility(p, o),
{
    let legal = Set::new(|c: int| 0 <= c < 64 && legal_cell(p, o, c / 8, c % 8));
    assert forall|c: int| cells(moves).contains(c) <==> legal.contains(c) by {
        if 0 <= c < 64 {
            assert(stone(moves, c / 8, c % 8) <==> legal_cell(p, o, c / 8, c % 8));
        }
    }
    assert(cells(moves) =~= legal);
}

/// A set of cell indices has at most 64 members.
pub proof fn lemma_cell_set_len(s: Set<int>)
    requires
        forall|c: int| s.contains(c) ==> 0 <= c < 64,
    ensures
        s.finite(),
        s.len() <= 64,
{
    lemma_int_range(0, 64);
    lemma_len_subset(s, set_int_range(0, 64));
}

/// The worth of the stones on the cells below `n` lies between the least
/// and the greatest worth of a cell, `n` times.
proof fn lemma_weight_bounds(mask: u64, n: int)
    requires
        0 <= n <= 64,
    ensures
        -15 * n <= weight_below(mask, n) <= 30 * n,
    decreases n,
{
    if n > 0 {
        lemma_weight_bounds(mask, n - 1);
    }
}

/// A run stops between the step at which it is taken up and step 8.
proof fn lemma_run_stop_bounds(mask: u64, x: int, y: int, dx: int, dy: int, i: int)
    requires
        0 <= i <= 8,
    ensures
        i <= run_stop(mask, x, y, dx, dy, i) <= 8,
    decreases 8 - i,
{
    if i < 8 && stone(mask, along(x, dx, i), along(y, dy, i)) {
        lemma_run_stop_bounds(mask, x, y, dx, dy, i + 1);
    }
}

/// The count of stable stones lies between -48 and 88.
proof fn lemma_stable_bounds(mask: u64)
    ensures
        -48 <= stable_count(mask) <= 88,
{
    lemma_run_stop_bounds(mask, 0, 0, 1, 0, 1);
    lemma_run_stop_bounds(mask, 0, 0, 0, 1, 1);
    lemma_run_stop_bounds(mask, 0, 0, 1, 1, 1);
    lemma_run_stop_bounds(mask, 7, 7, -1, 0, 1);
    lemma_run_stop_bounds(mask, 7, 7, 0, -1, 1);
    lemma_run_stop_bounds(mask, 7, 7, -1, -1, 1);
    lemma_run_stop_bounds(mask, 7, 0, -1, 0, 1);
    lemma_run_stop_bounds(mask, 7, 0, 0, 1, 1);
    lemma_run_stop_bounds(mask, 7, 0, -1, 1, 1);
    lemma_run_stop_bounds(mask, 0, 7, 1, 0, 1);
    lemma_run_stop_bounds(mask, 0, 7, 0, -1, 1);
    lemma_run_stop_bounds(mask, 0, 7, 1, -1, 1);
}

/// The score of a position is never as large as the score of a game that
/// is won for certain.
pub proof fn lemma_evaluation_bounds(board: Board, board_p: Board, color: Color, depth: int)
    ensures
        -2147483584 <= evaluation(board, board_p, color, depth) <= 2147483584,
{
    let p = mover_mask(board, color);
    let o = opponent_mask(board, color);
    let o_before = opponent_mask(board_p, color);
    lemma_cells_len(p);
    lemma_cells_len(o);
    lemma_weight_bounds(p, 64);
    lemma_weight_bounds(o, 64);
    lemma_cell_set_len(open_cells(o ^ o_before, p, o));
    lemma_cell_set_len(Set::new(|c: int| 0 <= c < 64 && legal_cell(p, o, c / 8, c % 8)));
    lemma_cell_set_len(Set::new(|c: int| 0 <= c < 64 && legal_cell(o, p, c / 8, c % 8)));
    lemma_stable_bounds(p);
    lemma_stable_bounds(o);
}

} // verus!
