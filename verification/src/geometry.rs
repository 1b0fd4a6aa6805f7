//! The rules of placement, cell by cell: lines of stones in the eight
//! directions, legal cells and the stones that a placement turns.
use crate::bits::bit;
use vstd::prelude::*;

verus! {

/// Whether `(x, y)` names a cell of the 8 by 8 grid.
pub open spec fn on_board(x: int, y: int) -> bool {
    0 <= x < 8 && 0 <= y < 8
}

/// The bit that stands for cell `(x, y)`.
pub open spec fn cell_index(x: int, y: int) -> int {
    x * 8 + y
}

/// Whether `mask` holds a stone on cell `(x, y)`; never off the board.
pub open spec fn stone(mask: u64, x: int, y: int) -> bool {
    on_board(x, y) && bit(mask, cell_index(x, y))
}

/// One of the eight directions in which a line of stones can run.
pub open spec fn is_direction(dx: int, dy: int) -> bool {
    -1 <= dx <= 1 && -1 <= dy <= 1 && (dx != 0 || dy != 0)
}

/// The coordinate reached from `x` after `t` steps of `d`, where `d` is
/// -1, 0 or 1.
pub open spec fn along(x: int, d: int, t: int) -> int {
    if d > 0 {
        x + t
    } else if d < 0 {
        x - t
    } else {
        x
    }
}

/// Starting next to `(x, y)` and walking in direction `(dx, dy)`, the first
/// `k` cells hold stones of `o` and the cell after them a stone of `p`.
pub open spec fn brackets(p: u64, o: u64, x: int, y: int, dx: int, dy: int, k: int) -> bool {
    &&& k >= 1
    &&& forall|t: int| 1 <= t <= k ==> #[trigger] stone(o, along(x, dx, t), along(y, dy, t))
    &&& stone(p, along(x, dx, k + 1), along(y, dy, k + 1))
}

/// A stone of `p` on the empty cell `(x, y)` would capture in direction
/// `(dx, dy)`.
pub open spec fn captures_toward(p: u64, o: u64, x: int, y: int, dx: int, dy: int) -> bool {
    exists|k: int| brackets(p, o, x, y, dx, dy, k)
}

/// The player with stones `p` may place a stone on `(x, y)` against `o`: the
/// cell is on the board and empty, and in at least one of the eight
/// directions the new stone brackets a line of opposing stones.
pub open spec fn legal_cell(p: u64, o: u64, x: int, y: int) -> bool {
    &&& on_board(x, y)
    &&& !stone(p, x, y)
    &&& !stone(o, x, y)
    &&& exists|dx: int, dy: int| is_direction(dx, dy) && #[trigger] captures_toward(p, o, x, y, dx, dy)
}

/// Cell `(a, b)` holds one of the opposing stones that a stone of `p` placed
/// on `(x, y)` brackets in direction `(dx, dy)`.
pub open spec fn flipped_toward(
    p: u64,
    o: u64,
    x: int,
    y: int,
    dx: int,
    dy: int,
    a: int,
    b: int,
) -> bool {
    exists|k: int, t: int|
        #[trigger] brackets(p, o, x, y, dx, dy, k) && 1 <= t <= k && a == #[trigger] along(x, dx, t)
            && b == along(y, dy, t)
}

/// Cell `(a, b)` holds one of the opposing stones that a stone of `p` placed
/// on `(x, y)` brackets, in any of the eight directions.
pub open spec fn flipped_cell(p: u64, o: u64, x: int, y: int, a: int, b: int) -> bool {
    exists|dx: int, dy: int|
        is_direction(dx, dy) && #[trigger] flipped_toward(p, o, x, y, dx, dy, a, b)
}

/// The mask with the one bit of cell `(x, y)`.
pub open spec fn single_cell(pos: u64, x: int, y: int) -> bool {
    on_board(x, y) && pos == 1u64 << (cell_index(x, y) as u64)
}

/// The walk that the proofs follow: from `(x, y)` in direction `(dx, dy)`,
/// `k` stones of `o` and then a stone of `p`.
pub open spec fn scan(p: u64, o: u64, x: int, y: int, dx: int, dy: int, k: int) -> bool
    decreases k,
{
    if k <= 0 {
        stone(p, x, y)
    } else {
        stone(o, x, y) && scan(p, o, x + dx, y + dy, dx, dy, k - 1)
    }
}

/// A walk of `k` opposing stones and a closing stone, written with `along`.
pub proof fn lemma_scan_along(p: u64, o: u64, x: int, y: int, dx: int, dy: int, i: int, k: int)
    requires
        is_direction(dx, dy),
        k >= 0,
    ensures
        scan(p, o, along(x, dx, i), along(y, dy, i), dx, dy, k) <==> ((forall|t: int|
            i <= t < i + k ==> #[trigger] stone(o, along(x, dx, t), along(y, dy, t))) && stone(
            p,
            along(x, dx, i + k),
            along(y, dy, i + k),
        )),
    decreases k,
{
    if k > 0 {
        lemma_scan_along(p, o, x, y, dx, dy, i + 1, k - 1);
        assert(along(x, dx, i + 1) == along(x, dx, i) + dx);
        assert(along(y, dy, i + 1) == along(y, dy, i) + dy);
        if scan(p, o, along(x, dx, i), along(y, dy, i), dx, dy, k) {
            assert forall|t: int| i <= t < i + k implies #[trigger] stone(
                o,
                along(x, dx, t),
                along(y, dy, t),
            ) by {
                if t == i {
                } else {
                    assert(i + 1 <= t < i + 1 + (k - 1));
                }
            }
        }
        if (forall|t: int|
            i <= t < i + k ==> #[trigger] stone(o, along(x, dx, t), along(y, dy, t))) && stone(
            p,
            along(x, dx, i + k),
            along(y, dy, i + k),
        ) {
            assert(stone(o, along(x, dx, i), along(y, dy, i)));
        }
    }
}

/// Bracketing is a walk that starts on the neighbouring cell.
pub proof fn lemma_brackets_scan(p: u64, o: u64, x: int, y: int, dx: int, dy: int, k: int)
    requires
        is_direction(dx, dy),
        k >= 1,
    ensures
        brackets(p, o, x, y, dx, dy, k) <==> scan(p, o, x + dx, y + dy, dx, dy, k),
{
    lemma_scan_along(p, o, x, y, dx, dy, 1, k);
    assert(along(x, dx, 1) == x + dx);
    assert(along(y, dy, 1) == y + dy);
    if brackets(p, o, x, y, dx, dy, k) {
        assert forall|t: int| 1 <= t < 1 + k implies #[trigger] stone(
            o,
            along(x, dx, t),
            along(y, dy, t),
        ) by {}
    }
}

/// A line that brackets holds at most six opposing stones.
pub proof fn lemma_brackets_short(p: u64, o: u64, x: int, y: int, dx: int, dy: int, k: int)
    requires
        is_direction(dx, dy),
        on_board(x, y),
        brackets(p, o, x, y, dx, dy, k),
    ensures
        1 <= k <= 6,
{
}

} // verus!
