//! The board and the moves on it, computed on masks of 64 bits.
use crate::bits::{
    bit, cells, count, lemma_bit_and, lemma_bit_not, lemma_bit_or, lemma_bit_single,
    lemma_bit_zero, lemma_bits_equal, lemma_cells_len, lemma_or_zero, lemma_shr_step,
};
use crate::command::Move;
use crate::geometry::{
    along, brackets, captures_toward, cell_index, flipped_cell, flipped_toward, is_direction,
    legal_cell, on_board, single_cell, stone,
};
use crate::lines::{
    axis_mask, captured_mask, is_step, lemma_captured_cell, lemma_landing_cell, line_iter,
    shifted, walk_dx, walk_dy,
};
use vstd::set_lib::{lemma_set_difference_len, lemma_set_disjoint_lens};
use vstd::prelude::*;

verus! {

/// The two players; `true` is the player who moves first.
pub type Color = bool;

/// The stones of the first player and the stones of the second player, one
/// bit per cell.
pub type Board = (u64, u64);

/// The stones of the first player at the start of a game.
pub const INIT_BLACK: u64 = 0x0000000810000000;

/// The stones of the second player at the start of a game.
pub const INIT_WHITE: u64 = 0x0000001008000000;

/// No cell holds a stone of both players.
pub open spec fn disjoint(p: u64, o: u64) -> bool {
    p & o == 0
}

/// A board is well formed when its two masks are disjoint.
pub open spec fn board_wf(board: Board) -> bool {
    disjoint(board.0, board.1)
}

/// Disjointness does not depend on the order of the two masks.
pub proof fn lemma_disjoint_symmetric(p: u64, o: u64)
    requires
        disjoint(p, o),
    ensures
        disjoint(o, p),
{
    assert(o & p == 0) by (bit_vector)
        requires
            p & o == 0,
    ;
}

/// The stones of the player `color`.
pub open spec fn mover_mask(board: Board, color: Color) -> u64 {
    if color {
        board.0
    } else {
        board.1
    }
}

/// The stones of the player who is not `color`.
pub open spec fn opponent_mask(board: Board, color: Color) -> u64 {
    if color {
        board.1
    } else {
        board.0
    }
}

/// The board at the start of a game: the four cells in the middle are
/// taken, each player holding the two of one diagonal.
pub fn init_board() -> (board: Board)
    ensures
        board == (INIT_BLACK, INIT_WHITE),
        board_wf(board),
        forall|x: int, y: int|
            #[trigger] stone(board.0, x, y) <==> (x == 3 && y == 4) || (x == 4 && y == 3),
        forall|x: int, y: int|
            #[trigger] stone(board.1, x, y) <==> (x == 3 && y == 3) || (x == 4 && y == 4),
{
    assert(INIT_BLACK & INIT_WHITE == 0 && INIT_BLACK == (1u64 << 28) | (1u64 << 35) && INIT_WHITE
        == (1u64 << 27) | (1u64 << 36)) by (bit_vector);
    proof {
        lemma_bit_single(27);
        lemma_bit_single(28);
        lemma_bit_single(35);
        lemma_bit_single(36);
        lemma_bit_or(1u64 << 28, 1u64 << 35);
        lemma_bit_or(1u64 << 27, 1u64 << 36);
    }
    (INIT_BLACK, INIT_WHITE)
}

/// Moves every stone `b` bits up.
pub fn shl(a: u64, b: u32) -> (r: u64)
    requires
        b < 64,
    ensures
        r == a << b,
{
    a << b
}

/// Moves every stone `b` bits down.
pub fn shr(a: u64, b: u32) -> (r: u64)
    requires
        b < 64,
    ensures
        r == a >> b,
{
    a >> b
}

/// The stones of `m` that `p` reaches by up to six shifts through `m`.
fn line(p: u64, m: u64, n: u32, up: bool) -> (r: u64)
    requires
        n < 64,
    ensures
        r == line_iter(p, m, n, up, 6),
{
    let mut r: u64 = m & (if up {
        shl(p, n)
    } else {
        shr(p, n)
    });
    let mut j: u32 = 1;
    while j < 6
        invariant
            1 <= j <= 6,
            n < 64,
            r == line_iter(p, m, n, up, j as int),
        decreases 6 - j,
    {
        r = r | (m & (if up {
            shl(r, n)
        } else {
            shr(r, n)
        }));
        j = j + 1;
    }
    r
}

/// The empty cells on which a stone of `p` brackets stones of `o` along the
/// axis of step `n`, in either direction.
fn landings(p: u64, o: u64, mask: u64, n: u32, blank: u64) -> (r: u64)
    requires
        is_step(n),
        mask == axis_mask(n),
    ensures
        r == (blank & shifted(line_iter(p, o & mask, n, true, 6), n, true)) | (blank & shifted(
            line_iter(p, o & mask, n, false, 6),
            n,
            false,
        )),
{
    let m = o & mask;
    let up = line(p, m, n, true);
    let down = line(p, m, n, false);
    (blank & shl(up, n)) | (blank & shr(down, n))
}

/// The cells on which the player with stones `pboard` may place a stone
/// against `oboard`.
pub fn flippable_bits(pboard: u64, oboard: u64) -> (res: u64)
    ensures
        forall|x: int, y: int|
            on_board(x, y) ==> (#[trigger] stone(res, x, y) <==> legal_cell(pboard, oboard, x, y)),
{
    let blank = !(pboard | oboard);
    let r1 = landings(pboard, oboard, 0x7e7e7e7e7e7e7e7e, 1, blank);
    let r8 = landings(pboard, oboard, 0x00ffffffffffff00, 8, blank);
    let r7 = landings(pboard, oboard, 0x007e7e7e7e7e7e00, 7, blank);
    let r9 = landings(pboard, oboard, 0x007e7e7e7e7e7e00, 9, blank);
    let res = r1 | r8 | r7 | r9;
    proof {
        assert forall|x: int, y: int| on_board(x, y) implies (#[trigger] stone(res, x, y)
            <==> legal_cell(pboard, oboard, x, y)) by {
            lemma_flippable_cell(pboard, oboard, x, y);
        }
    }
    res
}

/// The mask that `flippable_bits` computes, written out.
pub open spec fn landings_mask(p: u64, o: u64, n: u32) -> u64 {
    let blank = !(p | o);
    (blank & shifted(line_iter(p, o & axis_mask(n), n, true, 6), n, true)) | (blank & shifted(
        line_iter(p, o & axis_mask(n), n, false, 6),
        n,
        false,
    ))
}

/// A cell is in the computed mask exactly where a placement is legal.
proof fn lemma_flippable_cell(p: u64, o: u64, x: int, y: int)
    requires
        on_board(x, y),
    ensures
        stone(
            landings_mask(p, o, 1) | landings_mask(p, o, 8) | landings_mask(p, o, 7)
                | landings_mask(p, o, 9),
            x,
            y,
        ) <==> legal_cell(p, o, x, y),
{
    let blank = !(p | o);
    lemma_bit_or(p, o);
    lemma_bit_not(p | o);
    lemma_landings_cell(p, o, 1, x, y);
    lemma_landings_cell(p, o, 8, x, y);
    lemma_landings_cell(p, o, 7, x, y);
    lemma_landings_cell(p, o, 9, x, y);
    let r1 = landings_mask(p, o, 1);
    let r8 = landings_mask(p, o, 8);
    let r7 = landings_mask(p, o, 7);
    let r9 = landings_mask(p, o, 9);
    lemma_bit_or(r1, r8);
    lemma_bit_or(r1 | r8, r7);
    lemma_bit_or(r1 | r8 | r7, r9);
    if legal_cell(p, o, x, y) {
        let (dx, dy) = choose|dx: int, dy: int|
            is_direction(dx, dy) && #[trigger] captures_toward(p, o, x, y, dx, dy);
        assert(dx == walk_dx(1, true) && dy == walk_dy(1, true) || dx == walk_dx(1, false) && dy
            == walk_dy(1, false) || dx == walk_dx(8, true) && dy == walk_dy(8, true) || dx
            == walk_dx(8, false) && dy == walk_dy(8, false) || dx == walk_dx(7, true) && dy
            == walk_dy(7, true) || dx == walk_dx(7, false) && dy == walk_dy(7, false) || dx
            == walk_dx(9, true) && dy == walk_dy(9, true) || dx == walk_dx(9, false) && dy
            == walk_dy(9, false));
    }
}

/// At the start of a game the first player may place a stone on exactly
/// four cells: those next to the middle from which a stone of the second
/// player lies before a stone of the first.
pub proof fn lemma_opening_moves()
    ensures
        forall|x: int, y: int|
            legal_cell(INIT_BLACK, INIT_WHITE, x, y) <==> (x == 2 && y == 3) || (x == 3 && y == 2)
                || (x == 4 && y == 5) || (x == 5 && y == 4),
{
    let p = INIT_BLACK;
    let o = INIT_WHITE;
    let f = landings_mask(p, o, 1) | landings_mask(p, o, 8) | landings_mask(p, o, 7)
        | landings_mask(p, o, 9);
    assert(landings_mask(INIT_BLACK, INIT_WHITE, 1) | landings_mask(INIT_BLACK, INIT_WHITE, 8)
        | landings_mask(INIT_BLACK, INIT_WHITE, 7) | landings_mask(INIT_BLACK, INIT_WHITE, 9) == ((
    1u64 << 19) | (1u64 << 26)) | ((1u64 << 37) | (1u64 << 44))) by (bit_vector);
    lemma_bit_single(19);
    lemma_bit_single(26);
    lemma_bit_single(37);
    lemma_bit_single(44);
    lemma_bit_or(1u64 << 19, 1u64 << 26);
    lemma_bit_or(1u64 << 37, 1u64 << 44);
    lemma_bit_or((1u64 << 19) | (1u64 << 26), (1u64 << 37) | (1u64 << 44));
    assert forall|x: int, y: int|
        legal_cell(INIT_BLACK, INIT_WHITE, x, y) <==> (x == 2 && y == 3) || (x == 3 && y == 2) || (x
            == 4 && y == 5) || (x == 5 && y == 4) by {
        if on_board(x, y) {
            lemma_flippable_cell(p, o, x, y);
            assert(stone(f, x, y) <==> bit(f, cell_index(x, y)));
        }
    }
}

/// Along one axis: a cell is in the computed mask exactly where it is empty
/// and a stone on it brackets in one of the two directions of the axis.
proof fn lemma_landings_cell(p: u64, o: u64, n: u32, x: int, y: int)
    requires
        is_step(n),
        on_board(x, y),
    ensures
        stone(landings_mask(p, o, n), x, y) <==> (!stone(p, x, y) && !stone(o, x, y) && (
        captures_toward(p, o, x, y, walk_dx(n, true), walk_dy(n, true)) || captures_toward(
            p,
            o,
            x,
            y,
            walk_dx(n, false),
            walk_dy(n, false),
        ))),
        is_direction(walk_dx(n, true), walk_dy(n, true)),
        is_direction(walk_dx(n, false), walk_dy(n, false)),
{
    let blank = !(p | o);
    let up = shifted(line_iter(p, o & axis_mask(n), n, true, 6), n, true);
    let down = shifted(line_iter(p, o & axis_mask(n), n, false, 6), n, false);
    lemma_bit_or(p, o);
    lemma_bit_not(p | o);
    lemma_bit_and(blank, up);
    lemma_bit_and(blank, down);
    lemma_bit_or(blank & up, blank & down);
    lemma_landing_cell(p, o, n, true, x, y);
    lemma_landing_cell(p, o, n, false, x, y);
}

/// The stones that a placement turns along the axis of step `n`, in either
/// direction.
fn captured(p: u64, o: u64, pos: u64, mask: u64, n: u32) -> (r: u64)
    requires
        is_step(n),
        mask == axis_mask(n),
    ensures
        r == captured_mask(p, o, pos, n, true) | captured_mask(p, o, pos, n, false),
{
    let m = o & mask;
    let mut r: u64 = 0;
    let up = line(pos, m, n, true);
    if p & shl(up, n) != 0 {
        r = r | up;
    }
    let down = line(pos, m, n, false);
    if p & shr(down, n) != 0 {
        r = r | down;
    }
    proof {
        lemma_or_zero(up);
        lemma_or_zero(down);
        lemma_or_zero(0);
    }
    r
}

/// The mask that `flip` computes, written out.
pub open spec fn flip_mask(p: u64, o: u64, pos: u64) -> u64 {
    (captured_mask(p, o, pos, 1, true) | captured_mask(p, o, pos, 1, false)) | (captured_mask(
        p,
        o,
        pos,
        7,
        true,
    ) | captured_mask(p, o, pos, 7, false)) | (captured_mask(p, o, pos, 8, true) | captured_mask(
        p,
        o,
        pos,
        8,
        false,
    )) | (captured_mask(p, o, pos, 9, true) | captured_mask(p, o, pos, 9, false))
}

/// A cell is in the computed mask exactly where the placement turns its
/// stone.
proof fn lemma_flip_cell(p: u64, o: u64, pos: u64, x: int, y: int, a: int, b: int)
    requires
        disjoint(p, o),
        single_cell(pos, x, y),
        on_board(a, b),
    ensures
        stone(flip_mask(p, o, pos), a, b) <==> flipped_cell(p, o, x, y, a, b),
{
    let u1 = captured_mask(p, o, pos, 1, true);
    let d1 = captured_mask(p, o, pos, 1, false);
    let u7 = captured_mask(p, o, pos, 7, true);
    let d7 = captured_mask(p, o, pos, 7, false);
    let u8 = captured_mask(p, o, pos, 8, true);
    let d8 = captured_mask(p, o, pos, 8, false);
    let u9 = captured_mask(p, o, pos, 9, true);
    let d9 = captured_mask(p, o, pos, 9, false);
    lemma_bit_or(u1, d1);
    lemma_bit_or(u7, d7);
    lemma_bit_or(u8, d8);
    lemma_bit_or(u9, d9);
    lemma_bit_or(u1 | d1, u7 | d7);
    lemma_bit_or((u1 | d1) | (u7 | d7), u8 | d8);
    lemma_bit_or((u1 | d1) | (u7 | d7) | (u8 | d8), u9 | d9);
    lemma_captured_cell(p, o, pos, x, y, 1, true, a, b);
    lemma_captured_cell(p, o, pos, x, y, 1, false, a, b);
    lemma_captured_cell(p, o, pos, x, y, 7, true, a, b);
    lemma_captured_cell(p, o, pos, x, y, 7, false, a, b);
    lemma_captured_cell(p, o, pos, x, y, 8, true, a, b);
    lemma_captured_cell(p, o, pos, x, y, 8, false, a, b);
    lemma_captured_cell(p, o, pos, x, y, 9, true, a, b);
    lemma_captured_cell(p, o, pos, x, y, 9, false, a, b);
    if flipped_cell(p, o, x, y, a, b) {
        let (dx, dy) = choose|dx: int, dy: int|
            is_direction(dx, dy) && #[trigger] flipped_toward(p, o, x, y, dx, dy, a, b);
        assert(dx == -walk_dx(1, true) && dy == -walk_dy(1, true) || dx == -walk_dx(1, false)
            && dy == -walk_dy(1, false) || dx == -walk_dx(8, true) && dy == -walk_dy(8, true)
            || dx == -walk_dx(8, false) && dy == -walk_dy(8, false) || dx == -walk_dx(7, true)
            && dy == -walk_dy(7, true) || dx == -walk_dx(7, false) && dy == -walk_dy(7, false)
            || dx == -walk_dx(9, true) && dy == -walk_dy(9, true) || dx == -walk_dx(9, false)
            && dy == -walk_dy(9, false));
    }
    if stone(flip_mask(p, o, pos), a, b) {
        assert(is_direction(-walk_dx(1, true), -walk_dy(1, true)));
        assert(is_direction(-walk_dx(1, false), -walk_dy(1, false)));
        assert(is_direction(-walk_dx(7, true), -walk_dy(7, true)));
        assert(is_direction(-walk_dx(7, false), -walk_dy(7, false)));
        assert(is_direction(-walk_dx(8, true), -walk_dy(8, true)));
        assert(is_direction(-walk_dx(8, false), -walk_dy(8, false)));
        assert(is_direction(-walk_dx(9, true), -walk_dy(9, true)));
        assert(is_direction(-walk_dx(9, false), -walk_dy(9, false)));
    }
}

/// The opposing stones that a stone of `pboard` placed on the one cell of
/// `pos` turns.
pub fn flip(pboard: u64, oboard: u64, pos: u64) -> (result: u64)
    requires
        disjoint(pboard, oboard),
        exists|x: int, y: int| single_cell(pos, x, y),
    ensures
        result == flip_mask(pboard, oboard, pos),
        forall|x: int, y: int, a: int, b: int|
            single_cell(pos, x, y) && on_board(a, b) ==> (stone(result, a, b) <==> #[trigger] flipped_cell(
                pboard,
                oboard,
                x,
                y,
                a,
                b,
            )),
{
    let r1 = captured(pboard, oboard, pos, 0x7e7e7e7e7e7e7e7e, 1);
    let r7 = captured(pboard, oboard, pos, 0x007e7e7e7e7e7e00, 7);
    let r8 = captured(pboard, oboard, pos, 0x00ffffffffffff00, 8);
    let r9 = captured(pboard, oboard, pos, 0x007e7e7e7e7e7e00, 9);
    let result = r1 | r7 | r8 | r9;
    proof {
        assert forall|x: int, y: int, a: int, b: int|
            single_cell(pos, x, y) && on_board(a, b) implies (stone(result, a, b)
            <==> #[trigger] flipped_cell(pboard, oboard, x, y, a, b)) by {
            lemma_flip_cell(pboard, oboard, pos, x, y, a, b);
        }
    }
    result
}

/// The cells on which the player `color` may place a stone.
pub fn valid_mask(board: &Board, color: Color) -> (res: u64)
    ensures
        forall|x: int, y: int|
            on_board(x, y) ==> (#[trigger] stone(res, x, y) <==> legal_cell(
                mover_mask(*board, color),
                opponent_mask(*board, color),
                x,
                y,
            )),
{
    let pboard: u64;
    let oboard: u64;
    if color {
        pboard = board.0;
        oboard = board.1;
    } else {
        pboard = board.1;
        oboard = board.0;
    }
    flippable_bits(pboard, oboard)
}

/// The legal placements among the cells with index below `k`, in the order
/// of their index.
pub open spec fn moves_below(p: u64, o: u64, k: int) -> Seq<(i8, i8)>
    decreases k,
{
    if k <= 0 {
        Seq::empty()
    } else {
        let prev = moves_below(p, o, k - 1);
        if legal_cell(p, o, (k - 1) / 8, (k - 1) % 8) {
            prev.push((((k - 1) / 8) as i8, ((k - 1) % 8) as i8))
        } else {
            prev
        }
    }
}

/// The legal placements of the player `color`, in the order of their cells.
pub open spec fn legal_moves(board: Board, color: Color) -> Seq<(i8, i8)> {
    moves_below(mover_mask(board, color), opponent_mask(board, color), 64)
}

/// The listed moves are exactly the legal cells, and there are at most as
/// many as there are cells below `k`.
pub proof fn lemma_moves_below(p: u64, o: u64, k: int)
    requires
        0 <= k <= 64,
    ensures
        moves_below(p, o, k).len() <= k,
        forall|m: (i8, i8)| #[trigger]
            moves_below(p, o, k).contains(m) <==> (legal_cell(p, o, m.0 as int, m.1 as int)
                && cell_index(m.0 as int, m.1 as int) < k),
    decreases k,
{
    if k > 0 {
        lemma_moves_below(p, o, k - 1);
        let prev = moves_below(p, o, k - 1);
        let cur = moves_below(p, o, k);
        let x = (k - 1) / 8;
        let y = (k - 1) % 8;
        let c = (x as i8, y as i8);
        assert forall|m: (i8, i8)| #[trigger]
            cur.contains(m) <==> (legal_cell(p, o, m.0 as int, m.1 as int) && cell_index(
                m.0 as int,
                m.1 as int,
            ) < k) by {
            if legal_cell(p, o, x, y) {
                assert(cur == prev.push(c));
                assert(cur[prev.len() as int] == c);
                if cur.contains(m) {
                    let i = choose|i: int| 0 <= i < cur.len() && cur[i] == m;
                    if i < prev.len() {
                        assert(prev[i] == m);
                    }
                }
                if prev.contains(m) {
                    let i = choose|i: int| 0 <= i < prev.len() && prev[i] == m;
                    assert(cur[i] == m);
                }
            }
            if legal_cell(p, o, m.0 as int, m.1 as int) && cell_index(m.0 as int, m.1 as int) == k
                - 1 {
                assert(m.0 as int == x && m.1 as int == y);
                assert(m == c);
            }
        }
    }
}

/// The legal placements of the player `color`, in the order of their cells.
pub fn valid_moves(board: &Board, color: Color) -> (res: Vec<(i8, i8)>)
    ensures
        res@ == legal_moves(*board, color),
        res.len() <= 64,
        forall|m: (i8, i8)| #[trigger]
            res@.contains(m) <==> legal_cell(
                mover_mask(*board, color),
                opponent_mask(*board, color),
                m.0 as int,
                m.1 as int,
            ),
{
    proof {
        lemma_moves_below(mover_mask(*board, color), opponent_mask(*board, color), 64);
    }
    let full = valid_mask(board, color);
    let mut mask = full;
    let mut res: Vec<(i8, i8)> = Vec::new();
    let ghost p = mover_mask(*board, color);
    let ghost o = opponent_mask(*board, color);
    let mut i: i8 = 0;
    proof {
        lemma_shr_step(full, 0);
    }
    while i < 8
        invariant
            0 <= i <= 8,
            i < 8 ==> mask == full >> ((i * 8) as u64),
            res@ == moves_below(p, o, i * 8),
            forall|x: int, y: int|
                on_board(x, y) ==> (#[trigger] stone(full, x, y) <==> legal_cell(p, o, x, y)),
        decreases 8 - i,
    {
        let mut j: i8 = 0;
        while j < 8
            invariant
                0 <= i < 8,
                0 <= j <= 8,
                i * 8 + j < 64 ==> mask == full >> ((i * 8 + j) as u64),
                res@ == moves_below(p, o, i * 8 + j),
                forall|x: int, y: int|
                    on_board(x, y) ==> (#[trigger] stone(full, x, y) <==> legal_cell(p, o, x, y)),
            decreases 8 - j,
        {
            let ghost k: int = i * 8 + j;
            assert(k / 8 == i && k % 8 == j);
            assert(stone(full, i as int, j as int) <==> legal_cell(p, o, i as int, j as int));
            if mask & 1 == 1 {
                res.push((i, j));
            }
            proof {
                if k < 63 {
                    lemma_shr_step(full, k as u64);
                }
            }
            mask = mask >> 1;
            j = j + 1;
        }
        i = i + 1;
    }
    res
}

/// The board after the player `color` has placed a stone on `(x, y)`.
pub open spec fn placed(board: Board, color: Color, x: int, y: int) -> Board {
    let p = mover_mask(board, color);
    let o = opponent_mask(board, color);
    let pos = 1u64 << (cell_index(x, y) as u64);
    let mask = flip_mask(p, o, pos);
    if color {
        (p | (mask | pos), o & !mask)
    } else {
        (o & !mask, p | (mask | pos))
    }
}

/// The board after the move `com` of the player `color`: a pass and a
/// resignation leave it as it is.
pub open spec fn moved(board: Board, com: Move, color: Color) -> Board {
    match com {
        Move::Mv(i, j) => placed(board, color, i as int, j as int),
        _ => board,
    }
}

/// The cells whose stones a stone of `p` placed on `(x, y)` turns.
pub open spec fn flipped_set(p: u64, o: u64, x: int, y: int) -> Set<int> {
    Set::new(|c: int| 0 <= c < 64 && flipped_cell(p, o, x, y, c / 8, c % 8))
}

/// What placing a stone of the player `color` on `(x, y)` does to the
/// cells: the mover gains the placed cell and every stone that the new
/// stone brackets, the opponent loses those stones, and nothing else
/// changes.
pub open spec fn is_placement(before: Board, after: Board, color: Color, x: int, y: int) -> bool {
    let p = mover_mask(before, color);
    let o = opponent_mask(before, color);
    &&& forall|a: int, b: int|
        on_board(a, b) ==> (#[trigger] stone(mover_mask(after, color), a, b) <==> (stone(p, a, b) || (a
            == x && b == y) || flipped_cell(p, o, x, y, a, b)))
    &&& forall|a: int, b: int|
        on_board(a, b) ==> (#[trigger] stone(opponent_mask(after, color), a, b) <==> (stone(o, a, b)
            && !flipped_cell(p, o, x, y, a, b)))
}

/// What placing a stone of the player `color` on the empty cell `(x, y)`
/// does to the numbers of stones: the mover has one stone more than were
/// turned, the opponent as many fewer as were turned, and the board one
/// stone more.
pub open spec fn counts_placement(before: Board, after: Board, color: Color, x: int, y: int) -> bool {
    let turned = flipped_set(mover_mask(before, color), opponent_mask(before, color), x, y);
    &&& turned.finite()
    &&& stones(mover_mask(after, color)) == stones(mover_mask(before, color)) + 1 + turned.len()
    &&& stones(opponent_mask(after, color)) == stones(opponent_mask(before, color)) - turned.len()
    &&& stones(after.0) + stones(after.1) == stones(before.0) + stones(before.1) + 1
}

/// A placement on a well-formed board changes the cells as a placement
/// should. Where the cell held no stone of the opponent the masks stay
/// disjoint; where it was empty the numbers of stones change as they
/// should.
pub proof fn lemma_placed(board: Board, color: Color, x: int, y: int)
    requires
        board_wf(board),
        on_board(x, y),
    ensures
        is_placement(board, placed(board, color, x, y), color, x, y),
        !stone(opponent_mask(board, color), x, y) ==> board_wf(placed(board, color, x, y)),
        !stone(opponent_mask(board, color), x, y) && !stone(mover_mask(board, color), x, y)
            ==> counts_placement(board, placed(board, color, x, y), color, x, y),
{
    let p = mover_mask(board, color);
    let o = opponent_mask(board, color);
    let c = cell_index(x, y);
    let pos = 1u64 << (c as u64);
    let mask = flip_mask(p, o, pos);
    let np = p | (mask | pos);
    let no = o & !mask;
    if !color {
        lemma_disjoint_symmetric(board.0, board.1);
    }
    assert(single_cell(pos, x, y));
    lemma_bit_single(c as u64);
    lemma_bit_or(mask, pos);
    lemma_bit_or(p, mask | pos);
    lemma_bit_not(mask);
    lemma_bit_and(o, !mask);
    lemma_bit_and(p, o);
    lemma_bit_zero();
    assert forall|a: int, b: int| on_board(a, b) implies (#[trigger] stone(mask, a, b)
        <==> flipped_cell(p, o, x, y, a, b)) by {
        lemma_flip_cell(p, o, pos, x, y, a, b);
    }
    assert forall|a: int, b: int| on_board(a, b) && stone(mask, a, b) implies stone(o, a, b) by {
        lemma_flipped_is_opponent(p, o, x, y, a, b);
    }
    assert forall|i: int| bit(mask, i) implies bit(o, i) && i != c by {
        assert(stone(mask, i / 8, i % 8));
        lemma_flipped_is_opponent(p, o, x, y, i / 8, i % 8);
    }
    assert forall|a: int, b: int| on_board(a, b) implies (#[trigger] stone(np, a, b) <==> (stone(
        p,
        a,
        b,
    ) || (a == x && b == y) || flipped_cell(p, o, x, y, a, b))) by {
        assert(stone(mask, a, b) <==> flipped_cell(p, o, x, y, a, b));
    }
    assert forall|a: int, b: int| on_board(a, b) implies (#[trigger] stone(no, a, b) <==> (stone(
        o,
        a,
        b,
    ) && !flipped_cell(p, o, x, y, a, b))) by {
        assert(stone(mask, a, b) <==> flipped_cell(p, o, x, y, a, b));
    }
    if !stone(o, x, y) {
        lemma_bit_and(np, no);
        assert forall|i: int| 0 <= i < 64 implies bit(np & no, i) == bit(0, i) by {
            assert(!(bit(p, i) && bit(o, i))) by {
                assert(!bit(p & o, i));
            }
        }
        lemma_bits_equal(np & no, 0);
        lemma_disjoint_symmetric(np, no);
        if !stone(p, x, y) {
            let turned = flipped_set(p, o, x, y);
            lemma_cells_len(p);
            lemma_cells_len(o);
            lemma_cells_len(mask);
            lemma_cells_len(np);
            lemma_cells_len(no);
            assert(cells(mask) =~= turned) by {
                assert forall|i: int| cells(mask).contains(i) <==> turned.contains(i) by {
                    if 0 <= i < 64 {
                        assert(stone(mask, i / 8, i % 8) <==> flipped_cell(
                            p,
                            o,
                            x,
                            y,
                            i / 8,
                            i % 8,
                        ));
                    }
                }
            }
            let single = set![c];
            assert(cells(p).disjoint(cells(mask))) by {
                assert forall|i: int| !(cells(p).contains(i) && cells(mask).contains(i)) by {
                    assert(!bit(p & o, i));
                }
            }
            lemma_set_disjoint_lens(cells(p), cells(mask));
            assert((cells(p) + cells(mask)).disjoint(single));
            lemma_set_disjoint_lens(cells(p) + cells(mask), single);
            assert(cells(np) =~= cells(p) + cells(mask) + single);
            lemma_set_difference_len(cells(o), cells(mask));
            assert(cells(no) =~= cells(o).difference(cells(mask)));
            assert(cells(o).intersect(cells(mask)) =~= cells(mask));
        }
    }
}

/// A stone that a placement turns is a stone of the opponent, and not on
/// the cell of the placement.
proof fn lemma_flipped_is_opponent(p: u64, o: u64, x: int, y: int, a: int, b: int)
    requires
        on_board(x, y),
        flipped_cell(p, o, x, y, a, b),
    ensures
        stone(o, a, b),
        !(a == x && b == y),
{
    let (dx, dy) = choose|dx: int, dy: int|
        is_direction(dx, dy) && #[trigger] flipped_toward(p, o, x, y, dx, dy, a, b);
    let (k, t) = choose|k: int, t: int|
        #[trigger] brackets(p, o, x, y, dx, dy, k) && 1 <= t <= k && a == #[trigger] along(
            x,
            dx,
            t,
        ) && b == along(y, dy, t);
    assert(stone(o, along(x, dx, t), along(y, dy, t)));
}

/// Plays the move `com` of the player `color` on the board: a placement
/// puts the stone down and turns what it brackets, a pass and a
/// resignation change nothing.
pub fn do_move(board: &mut Board, com: &Move, color: Color)
    requires
        board_wf(*old(board)),
        com.wf(),
    ensures
        *final(board) == moved(*old(board), *com, color),
        match *com {
            Move::Mv(i, j) => {
                &&& is_placement(*old(board), *final(board), color, i as int, j as int)
                &&& !stone(opponent_mask(*old(board), color), i as int, j as int) ==> board_wf(
                    *final(board),
                )
                &&& !stone(opponent_mask(*old(board), color), i as int, j as int) && !stone(
                    mover_mask(*old(board), color),
                    i as int,
                    j as int,
                ) ==> counts_placement(*old(board), *final(board), color, i as int, j as int)
            },
            _ => *final(board) == *old(board),
        },
{
    let pboard: u64;
    let oboard: u64;
    if color {
        pboard = board.0;
        oboard = board.1;
    } else {
        pboard = board.1;
        oboard = board.0;
    }
    proof {
        if !color {
            lemma_disjoint_symmetric(board.0, board.1);
        }
    }
    match com {
        Move::GiveUp => {},
        Move::Pass => {},
        Move::Mv(i, j) => {
            proof {
                lemma_placed(*board, color, *i as int, *j as int);
            }
            let pos: u64 = 1u64 << (*i * 8 + *j);
            assert(single_cell(pos, *i as int, *j as int));
            let mask = flip(pboard, oboard, pos);
            let np = pboard | (mask | pos);
            let no = oboard & !mask;
            if color {
                *board = (np, no);
            } else {
                *board = (no, np);
            }
        },
    }
}

/// The number of stones in a mask.
pub open spec fn stones(mask: u64) -> int {
    cells(mask).len() as int
}

/// The number of empty cells of a board.
pub open spec fn empties(board: Board) -> int {
    64 - stones(board.0) - stones(board.1)
}

/// A well-formed board holds at most 64 stones.
pub proof fn lemma_empties(board: Board)
    requires
        board_wf(board),
    ensures
        0 <= empties(board) <= 64,
{
    let a = cells(board.0);
    let b = cells(board.1);
    lemma_cells_len(board.0);
    lemma_cells_len(board.1);
    lemma_bit_and(board.0, board.1);
    lemma_bit_zero();
    assert(a.disjoint(b)) by {
        assert forall|i: int| !(a.contains(i) && b.contains(i)) by {
            assert(!bit(board.0 & board.1, i));
        }
    }
    lemma_set_disjoint_lens(a, b);
    vstd::set_lib::lemma_int_range(0, 64);
    vstd::set_lib::lemma_len_subset(a + b, vstd::set_lib::set_int_range(0, 64));
}

/// Who is ahead on the board, seen by the player `color`: 1 where that
/// player has more stones, -1 where the opponent has more, 0 where they
/// have equally many.
pub open spec fn result_sign(board: Board, color: Color) -> int {
    let mine = stones(mover_mask(board, color));
    let theirs = stones(opponent_mask(board, color));
    if mine > theirs {
        1
    } else if mine < theirs {
        -1
    } else {
        0
    }
}

/// Who is ahead on the board, seen by the player `color`.
pub fn get_result(board: &Board, color: Color) -> (r: i8)
    ensures
        r == result_sign(*board, color),
{
    let pboard: u64;
    let oboard: u64;
    if color {
        pboard = board.0;
        oboard = board.1;
    } else {
        pboard = board.1;
        oboard = board.0;
    }
    let my_count = count(pboard);
    let op_count = count(oboard);
    if my_count > op_count {
        1
    } else if my_count < op_count {
        -1
    } else {
        0
    }
}

} // verus!
