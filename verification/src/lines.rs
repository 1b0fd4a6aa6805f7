//! How shifts and masks find lines of stones, and the proofs that they
//! find what the rules say cell by cell.
use crate::bits::{
    bit, lemma_bit_and, lemma_bit_or, lemma_bit_shl, lemma_bit_shr, lemma_bit_single,
    lemma_bit_zero, lemma_nonzero_bit,
};
use crate::geometry::{
    along, brackets, captures_toward, cell_index, flipped_toward, is_direction,
    lemma_brackets_scan, lemma_brackets_short, lemma_scan_along, on_board, scan, single_cell,
    stone,
};
use vstd::prelude::*;

verus! {

/// `a` with every stone moved by `n` bits, up or down; stones that leave
/// the 64 bits are lost.
pub open spec fn shifted(a: u64, n: u32, up: bool) -> u64 {
    if up {
        a << n
    } else {
        a >> n
    }
}

/// Whether `n` is one of the four distances between neighbouring cells.
pub open spec fn is_step(n: u32) -> bool {
    n == 1 || n == 7 || n == 8 || n == 9
}

/// The direction, first coordinate, in which a walk from a cell meets the
/// stones that a shift by `n` moved onto it.
pub open spec fn walk_dx(n: u32, up: bool) -> int {
    if n == 1 {
        0
    } else if up {
        -1
    } else {
        1
    }
}

/// The direction, second coordinate, of the same walk.
pub open spec fn walk_dy(n: u32, up: bool) -> int {
    let s: int = if n == 7 {
        -1
    } else if n == 8 {
        0
    } else {
        1
    };
    if up {
        -s
    } else {
        s
    }
}

/// The cells that have a neighbour on the board on both sides along the
/// axis of step `n`.
pub open spec fn axis_mask(n: u32) -> u64 {
    if n == 1 {
        0x7e7e7e7e7e7e7e7e
    } else if n == 8 {
        0x00ffffffffffff00
    } else {
        0x007e7e7e7e7e7e00
    }
}

/// The stones of `m` reached from `p` by at most `j` shifts through `m`.
pub open spec fn line_iter(p: u64, m: u64, n: u32, up: bool, j: int) -> u64
    decreases j,
{
    if j <= 1 {
        m & shifted(p, n, up)
    } else {
        let b = line_iter(p, m, n, up, j - 1);
        b | (m & shifted(b, n, up))
    }
}

/// A walk from `(a, b)` meets between one and `j` stones of `o`, the first
/// of them on `(a, b)`, and then a stone of `p`.
pub open spec fn reach(p: u64, o: u64, a: int, b: int, wx: int, wy: int, j: int) -> bool {
    exists|len: int| 1 <= len <= j && #[trigger] scan(p, o, a, b, wx, wy, len)
}

/// Which bits the masks of the axes and of the edges have set.
proof fn lemma_axis_raw(i: u64)
    by (bit_vector)
    requires
        i < 64,
    ensures
        ((0x7e7e7e7e7e7e7e7eu64 >> i) & 1 == 1) == (1 <= i % 8 && i % 8 <= 6),
        ((0x00ffffffffffff00u64 >> i) & 1 == 1) == (8 <= i && i < 56),
        ((0x007e7e7e7e7e7e00u64 >> i) & 1 == 1) == (1 <= i % 8 && i % 8 <= 6 && 8 <= i && i < 56),
        ((0xfefefefefefefefeu64 >> i) & 1 == 1) == (i % 8 != 0),
        ((0x7f7f7f7f7f7f7f7fu64 >> i) & 1 == 1) == (i % 8 != 7),
{
}

/// The two masks that keep a shift along the second coordinate from
/// running over the edge: every cell but those with second coordinate 0,
/// and every cell but those with second coordinate 7.
pub proof fn lemma_edge_masks()
    ensures
        forall|i: int| #[trigger] bit(0xfefefefefefefefe, i) == (0 <= i < 64 && i % 8 != 0),
        forall|i: int| #[trigger] bit(0x7f7f7f7f7f7f7f7f, i) == (0 <= i < 64 && i % 8 != 7),
{
    assert forall|i: int| #[trigger] bit(0xfefefefefefefefe, i) == (0 <= i < 64 && i % 8 != 0) by {
        if 0 <= i < 64 {
            lemma_axis_raw(i as u64);
            assert((i as u64) % 8 == i % 8);
        }
    }
    assert forall|i: int| #[trigger] bit(0x7f7f7f7f7f7f7f7f, i) == (0 <= i < 64 && i % 8 != 7) by {
        if 0 <= i < 64 {
            lemma_axis_raw(i as u64);
            assert((i as u64) % 8 == i % 8);
        }
    }
}

/// A cell is in the mask of an axis where both its neighbours along the
/// axis are on the board.
pub proof fn lemma_axis_mask(n: u32, up: bool, a: int, b: int)
    requires
        is_step(n),
        on_board(a, b),
    ensures
        stone(axis_mask(n), a, b) <==> (on_board(a + walk_dx(n, up), b + walk_dy(n, up))
            && on_board(a - walk_dx(n, up), b - walk_dy(n, up))),
{
    let i = cell_index(a, b);
    lemma_axis_raw(i as u64);
    assert((i as u64) % 8 == b);
}

/// A bit of a shifted mask comes from the bit `n` places away.
pub proof fn lemma_shifted_bit(a: u64, n: u32, up: bool)
    requires
        n < 64,
    ensures
        forall|i: int| #[trigger]
            bit(shifted(a, n, up), i) == (0 <= i < 64 && bit(
                a,
                if up {
                    i - n
                } else {
                    i + n
                },
            )),
{
    lemma_bit_shl(a, n);
    lemma_bit_shr(a, n);
}

/// The stones reached through `m` are stones of `m`.
pub proof fn lemma_line_within(p: u64, m: u64, n: u32, up: bool, j: int)
    ensures
        forall|i: int| #[trigger] bit(line_iter(p, m, n, up, j), i) ==> bit(m, i),
    decreases j,
{
    if j <= 1 {
        lemma_bit_and(m, shifted(p, n, up));
    } else {
        let b = line_iter(p, m, n, up, j - 1);
        lemma_line_within(p, m, n, up, j - 1);
        lemma_bit_and(m, shifted(b, n, up));
        lemma_bit_or(b, m & shifted(b, n, up));
    }
}

/// Which cells `j` shifts through the opposing stones reach: those from
/// which a walk the other way meets at most `j` opposing stones and then a
/// stone of `p`, and that have a neighbour on the board behind them.
pub proof fn lemma_line_cell(p: u64, o: u64, n: u32, up: bool, j: int, a: int, b: int)
    requires
        is_step(n),
        1 <= j,
        on_board(a, b),
    ensures
        stone(line_iter(p, o & axis_mask(n), n, up, j), a, b) <==> (on_board(
            a - walk_dx(n, up),
            b - walk_dy(n, up),
        ) && reach(p, o, a, b, walk_dx(n, up), walk_dy(n, up), j)),
    decreases j,
{
    let wx = walk_dx(n, up);
    let wy = walk_dy(n, up);
    let m = o & axis_mask(n);
    let e = cell_index(a, b);
    let inner = on_board(a + wx, b + wy) && on_board(a - wx, b - wy);
    lemma_bit_and(o, axis_mask(n));
    lemma_axis_mask(n, up, a, b);
    assert(bit(m, e) <==> (bit(o, e) && inner));
    assert(cell_index(a + wx, b + wy) == (if up {
        e - n
    } else {
        e + n
    }));
    if j <= 1 {
        lemma_bit_and(m, shifted(p, n, up));
        lemma_shifted_bit(p, n, up);
        assert(scan(p, o, a, b, wx, wy, 1) <==> (stone(o, a, b) && stone(p, a + wx, b + wy))) by {
            assert(scan(p, o, a + wx, b + wy, wx, wy, 0) == stone(p, a + wx, b + wy));
        }
        if reach(p, o, a, b, wx, wy, j) {
            let len = choose|len: int| 1 <= len <= j && #[trigger] scan(p, o, a, b, wx, wy, len);
            assert(len == 1);
        }
    } else {
        let prev = line_iter(p, m, n, up, j - 1);
        lemma_bit_and(m, shifted(prev, n, up));
        lemma_bit_or(prev, m & shifted(prev, n, up));
        lemma_shifted_bit(prev, n, up);
        lemma_line_cell(p, o, n, up, j - 1, a, b);
        if inner {
            lemma_line_cell(p, o, n, up, j - 1, a + wx, b + wy);
        }
        let line = line_iter(p, m, n, up, j);
        assert(bit(line, e) <==> (bit(prev, e) || (bit(m, e) && bit(
            prev,
            cell_index(a + wx, b + wy),
        ))));
        if stone(line, a, b) {
            if bit(prev, e) {
                let len = choose|len: int|
                    1 <= len <= j - 1 && #[trigger] scan(p, o, a, b, wx, wy, len);
                assert(scan(p, o, a, b, wx, wy, len));
            } else {
                let len = choose|len: int|
                    1 <= len <= j - 1 && #[trigger] scan(p, o, a + wx, b + wy, wx, wy, len);
                assert(scan(p, o, a, b, wx, wy, len + 1));
            }
        }
        if on_board(a - wx, b - wy) && reach(p, o, a, b, wx, wy, j) {
            let len = choose|len: int| 1 <= len <= j && #[trigger] scan(p, o, a, b, wx, wy, len);
            if len <= j - 1 {
                assert(reach(p, o, a, b, wx, wy, j - 1));
            } else {
                assert(scan(p, o, a + wx, b + wy, wx, wy, j - 1));
                assert(reach(p, o, a + wx, b + wy, wx, wy, j - 1));
            }
        }
    }
}

/// Which cells one more shift lands on: those from which a walk the other
/// way brackets a line of opposing stones.
pub proof fn lemma_landing_cell(p: u64, o: u64, n: u32, up: bool, x: int, y: int)
    requires
        is_step(n),
        on_board(x, y),
    ensures
        stone(shifted(line_iter(p, o & axis_mask(n), n, up, 6), n, up), x, y) <==> captures_toward(
            p,
            o,
            x,
            y,
            walk_dx(n, up),
            walk_dy(n, up),
        ),
{
    let wx = walk_dx(n, up);
    let wy = walk_dy(n, up);
    let m = o & axis_mask(n);
    let line = line_iter(p, m, n, up, 6);
    let e = cell_index(x, y);
    let f: int = if up {
        e - n
    } else {
        e + n
    };
    lemma_shifted_bit(line, n, up);
    lemma_line_within(p, m, n, up, 6);
    lemma_bit_and(o, axis_mask(n));
    assert(f == cell_index(x + wx, y + wy));
    if bit(line, f) {
        let a = f / 8;
        let b = f % 8;
        assert(bit(m, f));
        assert(bit(axis_mask(n), f));
        lemma_axis_mask(n, up, a, b);
        assert(stone(axis_mask(n), a, b));
        assert(a == x + wx && b == y + wy);
        lemma_line_cell(p, o, n, up, 6, a, b);
        let len = choose|len: int| 1 <= len <= 6 && #[trigger] scan(p, o, a, b, wx, wy, len);
        lemma_brackets_scan(p, o, x, y, wx, wy, len);
    }
    if captures_toward(p, o, x, y, wx, wy) {
        let k = choose|k: int| brackets(p, o, x, y, wx, wy, k);
        lemma_brackets_short(p, o, x, y, wx, wy, k);
        lemma_brackets_scan(p, o, x, y, wx, wy, k);
        assert(stone(o, x + wx, y + wy));
        lemma_line_cell(p, o, n, up, 6, x + wx, y + wy);
        assert(reach(p, o, x + wx, y + wy, wx, wy, 6));
    }
}

/// The first `len` cells after `(x, y)` in direction `(dx, dy)` hold stones
/// of `o`.
pub open spec fn opp_run(o: u64, x: int, y: int, dx: int, dy: int, len: int) -> bool {
    forall|s: int| 1 <= s <= len ==> #[trigger] stone(o, along(x, dx, s), along(y, dy, s))
}

/// `(a, b)` is the last of between one and six stones of `o` that follow
/// `(x, y)` in direction `(dx, dy)`.
pub open spec fn run_ends(
    o: u64,
    x: int,
    y: int,
    dx: int,
    dy: int,
    len: int,
    a: int,
    b: int,
) -> bool {
    1 <= len <= 6 && a == along(x, dx, len) && b == along(y, dy, len) && opp_run(
        o,
        x,
        y,
        dx,
        dy,
        len,
    )
}

/// The stones that a placement on the cell of `pos` turns in one direction,
/// as the shifts find them.
pub open spec fn captured_mask(p: u64, o: u64, pos: u64, n: u32, up: bool) -> u64 {
    let l = line_iter(pos, o & axis_mask(n), n, up, 6);
    if p & shifted(l, n, up) != 0 {
        l
    } else {
        0
    }
}

/// A walk back to the one cell of `pos` is a run of opposing stones that
/// starts next to that cell.
proof fn lemma_back_scan(
    pos: u64,
    o: u64,
    x: int,
    y: int,
    dx: int,
    dy: int,
    a: int,
    b: int,
    len: int,
)
    requires
        single_cell(pos, x, y),
        is_direction(dx, dy),
        on_board(a, b),
        len >= 1,
    ensures
        scan(pos, o, a, b, -dx, -dy, len) <==> (a == along(x, dx, len) && b == along(y, dy, len)
            && opp_run(o, x, y, dx, dy, len)),
{
    lemma_scan_along(pos, o, a, b, -dx, -dy, 0, len);
    lemma_bit_single(cell_index(x, y) as u64);
    let u = along(a, -dx, len);
    let v = along(b, -dy, len);
    assert(stone(pos, u, v) <==> (u == x && v == y));
    assert(along(a, -dx, 0) == a && along(b, -dy, 0) == b);
    if scan(pos, o, a, b, -dx, -dy, len) {
        assert forall|s: int| 1 <= s <= len implies #[trigger] stone(
            o,
            along(x, dx, s),
            along(y, dy, s),
        ) by {
            let t = len - s;
            assert(stone(o, along(a, -dx, t), along(b, -dy, t)));
        }
    }
    if a == along(x, dx, len) && b == along(y, dy, len) && opp_run(o, x, y, dx, dy, len) {
        assert forall|t: int| 0 <= t < 0 + len implies #[trigger] stone(
            o,
            along(a, -dx, t),
            along(b, -dy, t),
        ) by {
            let s = len - t;
            assert(stone(o, along(x, dx, s), along(y, dy, s)));
        }
    }
}

/// Which cells six shifts from a single cell reach: the ends of the runs of
/// opposing stones that start next to it and have a cell of the board
/// behind them.
proof fn lemma_line_from_cell(o: u64, pos: u64, x: int, y: int, n: u32, up: bool, a: int, b: int)
    requires
        is_step(n),
        single_cell(pos, x, y),
        on_board(a, b),
    ensures
        stone(line_iter(pos, o & axis_mask(n), n, up, 6), a, b) <==> (on_board(
            a - walk_dx(n, up),
            b - walk_dy(n, up),
        ) && exists|len: int| #[trigger]
            run_ends(o, x, y, -walk_dx(n, up), -walk_dy(n, up), len, a, b)),
{
    let wx = walk_dx(n, up);
    let wy = walk_dy(n, up);
    lemma_line_cell(pos, o, n, up, 6, a, b);
    if reach(pos, o, a, b, wx, wy, 6) {
        let len = choose|len: int| 1 <= len <= 6 && #[trigger] scan(pos, o, a, b, wx, wy, len);
        lemma_back_scan(pos, o, x, y, -wx, -wy, a, b, len);
        assert(run_ends(o, x, y, -wx, -wy, len, a, b));
    }
    if exists|len: int| #[trigger] run_ends(o, x, y, -wx, -wy, len, a, b) {
        let len = choose|len: int| #[trigger] run_ends(o, x, y, -wx, -wy, len, a, b);
        lemma_back_scan(pos, o, x, y, -wx, -wy, a, b, len);
        assert(scan(pos, o, a, b, wx, wy, len));
    }
}

/// The test that the shifts make finds a stone of `p` behind a run exactly
/// where the placement brackets in that direction.
proof fn lemma_captured_test(p: u64, o: u64, pos: u64, x: int, y: int, n: u32, up: bool)
    requires
        is_step(n),
        single_cell(pos, x, y),
    ensures
        (p & shifted(line_iter(pos, o & axis_mask(n), n, up, 6), n, up) != 0) <==> captures_toward(
            p,
            o,
            x,
            y,
            -walk_dx(n, up),
            -walk_dy(n, up),
        ),
{
    let wx = walk_dx(n, up);
    let wy = walk_dy(n, up);
    let dx = -wx;
    let dy = -wy;
    let m = o & axis_mask(n);
    let l = line_iter(pos, m, n, up, 6);
    let hit = p & shifted(l, n, up);
    lemma_bit_and(p, shifted(l, n, up));
    lemma_shifted_bit(l, n, up);
    lemma_line_within(pos, m, n, up, 6);
    lemma_bit_and(o, axis_mask(n));
    lemma_bit_zero();
    if hit != 0 {
        let i = lemma_nonzero_bit(hit);
        let f: int = if up {
            i - n
        } else {
            i + n
        };
        assert(bit(l, f));
        assert(bit(m, f));
        let a = f / 8;
        let b = f % 8;
        lemma_axis_mask(n, up, a, b);
        assert(stone(axis_mask(n), a, b));
        assert(i == cell_index(a + dx, b + dy));
        lemma_line_from_cell(o, pos, x, y, n, up, a, b);
        let len = choose|len: int| #[trigger] run_ends(o, x, y, dx, dy, len, a, b);
        assert(along(x, dx, len + 1) == a + dx && along(y, dy, len + 1) == b + dy);
        assert(brackets(p, o, x, y, dx, dy, len));
    }
    if captures_toward(p, o, x, y, dx, dy) {
        let k = choose|k: int| brackets(p, o, x, y, dx, dy, k);
        lemma_brackets_short(p, o, x, y, dx, dy, k);
        let a = along(x, dx, k);
        let b = along(y, dy, k);
        assert(stone(o, a, b));
        assert(along(x, dx, k + 1) == a + dx && along(y, dy, k + 1) == b + dy);
        assert(run_ends(o, x, y, dx, dy, k, a, b));
        lemma_line_from_cell(o, pos, x, y, n, up, a, b);
        assert(stone(l, a, b));
        let i = cell_index(a + dx, b + dy);
        assert(bit(p, i));
        assert(cell_index(a, b) == (if up {
            i - n
        } else {
            i + n
        }));
        assert(bit(hit, i));
    }
}

/// Which stones a placement turns in one direction: those that the new
/// stone brackets in that direction.
pub proof fn lemma_captured_cell(
    p: u64,
    o: u64,
    pos: u64,
    x: int,
    y: int,
    n: u32,
    up: bool,
    a: int,
    b: int,
)
    requires
        is_step(n),
        p & o == 0,
        single_cell(pos, x, y),
        on_board(a, b),
    ensures
        stone(captured_mask(p, o, pos, n, up), a, b) <==> flipped_toward(
            p,
            o,
            x,
            y,
            -walk_dx(n, up),
            -walk_dy(n, up),
            a,
            b,
        ),
{
    let dx = -walk_dx(n, up);
    let dy = -walk_dy(n, up);
    let l = line_iter(pos, o & axis_mask(n), n, up, 6);
    lemma_captured_test(p, o, pos, x, y, n, up);
    lemma_line_from_cell(o, pos, x, y, n, up, a, b);
    lemma_bit_zero();
    lemma_bit_and(p, o);
    if stone(captured_mask(p, o, pos, n, up), a, b) {
        let t = choose|len: int| #[trigger] run_ends(o, x, y, dx, dy, len, a, b);
        let k = choose|k: int| brackets(p, o, x, y, dx, dy, k);
        if t > k {
            assert(stone(o, along(x, dx, k + 1), along(y, dy, k + 1)));
            assert(bit(p & o, cell_index(along(x, dx, k + 1), along(y, dy, k + 1))));
            assert(false);
        }
        assert(brackets(p, o, x, y, dx, dy, k) && 1 <= t <= k && a == along(x, dx, t) && b
            == along(y, dy, t));
    }
    if flipped_toward(p, o, x, y, dx, dy, a, b) {
        let (k, t) = choose|k: int, t: int|
            #[trigger] brackets(p, o, x, y, dx, dy, k) && 1 <= t <= k && a == #[trigger] along(
                x,
                dx,
                t,
            ) && b == along(y, dy, t);
        lemma_brackets_short(p, o, x, y, dx, dy, k);
        assert(along(x, dx, t + 1) == a + dx && along(y, dy, t + 1) == b + dy);
        if t < k {
            assert(stone(o, along(x, dx, t + 1), along(y, dy, t + 1)));
        }
        assert(on_board(a + dx, b + dy));
        assert(run_ends(o, x, y, dx, dy, t, a, b));
    }
}

} // verus!
