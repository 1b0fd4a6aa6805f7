//! The eight symmetric images of a board.
use crate::bits::{bit, lemma_bit_or, lemma_bit_single, lemma_bit_zero, lemma_bits_equal};
use crate::play::Board;
use vstd::prelude::*;

verus! {

/// The mask whose bit `i`, for `i` below `n`, is bit `source(i)` of `mask`.
pub open spec fn arranged(mask: u64, source: spec_fn(int) -> int, n: int) -> u64
    decreases n,
{
    if n <= 0 {
        0
    } else {
        arranged(mask, source, n - 1) | (if bit(mask, source(n - 1)) {
            1u64 << ((n - 1) as u64)
        } else {
            0
        })
    }
}

/// The bits of an arranged mask.
pub proof fn lemma_arranged_bit(mask: u64, source: spec_fn(int) -> int, n: int)
    requires
        0 <= n <= 64,
    ensures
        forall|i: int| #[trigger]
            bit(arranged(mask, source, n), i) == (0 <= i < n && bit(mask, source(i))),
    decreases n,
{
    lemma_bit_zero();
    if n > 0 {
        lemma_arranged_bit(mask, source, n - 1);
        lemma_bit_single((n - 1) as u64);
        lemma_bit_or(
            arranged(mask, source, n - 1),
            if bit(mask, source(n - 1)) {
                1u64 << ((n - 1) as u64)
            } else {
                0
            },
        );
    }
}

/// The board turned upside down: cell `(x, y)` takes the stone of
/// `(7 - x, y)`.
pub open spec fn mirrored(mask: u64) -> u64 {
    arranged(mask, |i: int| 8 * (7 - i / 8) + i % 8, 64)
}

/// The board turned by half a turn: cell `(x, y)` takes the stone of
/// `(7 - x, 7 - y)`.
pub open spec fn rotated(mask: u64) -> u64 {
    arranged(mask, |i: int| 63 - i, 64)
}

/// The board mirrored at its main diagonal: cell `(x, y)` takes the stone
/// of `(y, x)`.
pub open spec fn transposed(mask: u64) -> u64 {
    arranged(mask, |i: int| 8 * (i % 8) + i / 8, 64)
}

/// The bits of the three transformed masks.
pub proof fn lemma_transformed_bits(mask: u64)
    ensures
        forall|i: int| #[trigger]
            bit(mirrored(mask), i) == (0 <= i < 64 && bit(mask, 8 * (7 - i / 8) + i % 8)),
        forall|i: int| #[trigger] bit(rotated(mask), i) == (0 <= i < 64 && bit(mask, 63 - i)),
        forall|i: int| #[trigger]
            bit(transposed(mask), i) == (0 <= i < 64 && bit(mask, 8 * (i % 8) + i / 8)),
{
    lemma_arranged_bit(mask, |i: int| 8 * (7 - i / 8) + i % 8, 64);
    lemma_arranged_bit(mask, |i: int| 63 - i, 64);
    lemma_arranged_bit(mask, |i: int| 8 * (i % 8) + i / 8, 64);
}

/// Turns the board upside down. Trusted: `u64::swap_bytes` reverses the
/// order of the eight bytes of the integer, and one byte holds the eight
/// cells that share a first coordinate.
#[verifier::external_body]
pub(crate) fn flip_vertical_data(data: u64) -> (r: u64)
    ensures
        r == mirrored(data),
{
    data.swap_bytes()
}

/// Turns the board by half a turn. Trusted: `u64::reverse_bits` reverses
/// the order of the 64 bits of the integer.
#[verifier::external_body]
pub(crate) fn rotate180_data(data: u64) -> (r: u64)
    ensures
        r == rotated(data),
{
    data.reverse_bits()
}

/// Exchanges the bits of `r` under `m` with the bits `n` places below
/// them.
pub open spec fn delta_swap(r: u64, m: u64, n: u32) -> u64 {
    let mask = m & (r ^ (r << n));
    r ^ (mask ^ (mask >> n))
}

/// One bit of a mask after the three rounds of exchanges.
proof fn lemma_diagonal_raw(data: u64, i: u64, j: u64)
    by (bit_vector)
    requires
        i < 64,
        j == 8 * (i % 8) + i / 8,
    ensures
        ((delta_swap(
            delta_swap(delta_swap(data, 0x0f0f0f0f00000000, 28), 0x3333000033330000, 14),
            0x5500550055005500,
            7,
        ) >> i) & 1 == 1) == ((data >> j) & 1 == 1),
{
}

/// Mirrors the board at its main diagonal, by three rounds of exchanging
/// blocks of bits.
pub fn flip_diagonal_data(data: u64) -> (r: u64)
    ensures
        r == transposed(data),
{
    let mut result = data;
    let mask = 0x0f0f0f0f00000000 & (result ^ (result << 28));
    result = result ^ (mask ^ (mask >> 28));
    let mask = 0x3333000033330000 & (result ^ (result << 14));
    result = result ^ (mask ^ (mask >> 14));
    let mask = 0x5500550055005500 & (result ^ (result << 7));
    result = result ^ (mask ^ (mask >> 7));
    proof {
        lemma_transformed_bits(data);
        assert forall|i: int| 0 <= i < 64 implies bit(result, i) == bit(transposed(data), i) by {
            lemma_diagonal_raw(data, i as u64, (8 * (i % 8) + i / 8) as u64);
        }
        lemma_bits_equal(result, transposed(data));
    }
    result
}

/// The cell whose stone lands on `(x, y)` under the symmetry with number
/// `k`. Numbers 0 to 3 keep the coordinates in place, numbers 4 to 7
/// exchange them; within each four, the first coordinate is reversed for
/// 1 and 2, the second for 2 and 3.
pub open spec fn source_cell(k: int, x: int, y: int) -> (int, int) {
    let (u, v) = if k >= 4 {
        (y, x)
    } else {
        (x, y)
    };
    (
        if k % 4 == 1 || k % 4 == 2 {
            7 - u
        } else {
            u
        },
        if k % 4 == 2 || k % 4 == 3 {
            7 - v
        } else {
            v
        },
    )
}

/// A mask under the symmetry with number `k`.
pub open spec fn sym_mask(mask: u64, k: int) -> u64 {
    arranged(
        mask,
        |i: int|
            {
                let (a, b) = source_cell(k, i / 8, i % 8);
                8 * a + b
            },
        64,
    )
}

/// A board under the symmetry with number `k`.
pub open spec fn sym_board(board: Board, k: int) -> Board {
    (sym_mask(board.0, k), sym_mask(board.1, k))
}

/// The eight symmetric images of a board, in the order of their numbers.
pub open spec fn orbit(board: Board) -> Seq<Board> {
    Seq::new(8, |k: int| sym_board(board, k))
}

/// The number of the symmetry that has the effect of symmetry `k` followed
/// by symmetry `j`.
pub open spec fn composed(k: int, j: int) -> int {
    let swap = (k >= 4) != (j >= 4);
    let kx = k % 4 == 1 || k % 4 == 2;
    let ky = k % 4 == 2 || k % 4 == 3;
    let jx = j % 4 == 1 || j % 4 == 2;
    let jy = j % 4 == 2 || j % 4 == 3;
    let fx = if k >= 4 {
        kx != jy
    } else {
        kx != jx
    };
    let fy = if k >= 4 {
        ky != jx
    } else {
        ky != jy
    };
    (if swap {
        4int
    } else {
        0int
    }) + (if fx && !fy {
        1int
    } else if fx && fy {
        2int
    } else if fy {
        3int
    } else {
        0int
    })
}

/// The bits of a mask under a symmetry.
pub proof fn lemma_sym_bits(mask: u64, k: int)
    ensures
        forall|i: int| #[trigger]
            bit(sym_mask(mask, k), i) == (0 <= i < 64 && bit(
                mask,
                8 * source_cell(k, i / 8, i % 8).0 + source_cell(k, i / 8, i % 8).1,
            )),
{
    lemma_arranged_bit(
        mask,
        |i: int|
            {
                let (a, b) = source_cell(k, i / 8, i % 8);
                8 * a + b
            },
        64,
    );
}

/// Symmetry `k` and then symmetry `j` is the symmetry `composed(k, j)`.
pub proof fn lemma_sym_composed(mask: u64, k: int, j: int)
    requires
        0 <= k < 8,
        0 <= j < 8,
    ensures
        sym_mask(sym_mask(mask, k), j) == sym_mask(mask, composed(k, j)),
        0 <= composed(k, j) < 8,
{
    let l = composed(k, j);
    lemma_sym_bits(mask, k);
    lemma_sym_bits(sym_mask(mask, k), j);
    lemma_sym_bits(mask, l);
    assert forall|i: int| 0 <= i < 64 implies bit(sym_mask(sym_mask(mask, k), j), i) == bit(
        sym_mask(mask, l),
        i,
    ) by {
        let (a, b) = source_cell(j, i / 8, i % 8);
        let m = 8 * a + b;
        assert(0 <= m < 64 && m / 8 == a && m % 8 == b);
    }
    lemma_bits_equal(sym_mask(sym_mask(mask, k), j), sym_mask(mask, l));
}

/// The symmetry with number 0 leaves a mask as it is, and the three
/// transformations lead from one symmetry to another: turning upside down
/// from 0 to 1, the half turn from 0 and 1 to 2 and 3, mirroring at the
/// diagonal from 0 to 3 to 4 to 7.
pub proof fn lemma_sym_steps(mask: u64)
    ensures
        sym_mask(mask, 0) == mask,
        mirrored(mask) == sym_mask(mask, 1),
        rotated(mask) == sym_mask(mask, 2),
        rotated(sym_mask(mask, 1)) == sym_mask(mask, 3),
        transposed(mask) == sym_mask(mask, 4),
        transposed(sym_mask(mask, 1)) == sym_mask(mask, 5),
        transposed(sym_mask(mask, 2)) == sym_mask(mask, 6),
        transposed(sym_mask(mask, 3)) == sym_mask(mask, 7),
{
    lemma_sym_bits(mask, 0);
    lemma_sym_bits(mask, 1);
    lemma_sym_bits(mask, 2);
    lemma_sym_bits(mask, 3);
    lemma_sym_bits(mask, 4);
    lemma_sym_bits(mask, 5);
    lemma_sym_bits(mask, 6);
    lemma_sym_bits(mask, 7);
    lemma_transformed_bits(mask);
    lemma_transformed_bits(sym_mask(mask, 1));
    lemma_transformed_bits(sym_mask(mask, 2));
    lemma_transformed_bits(sym_mask(mask, 3));
    lemma_bits_equal(sym_mask(mask, 0), mask);
    lemma_bits_equal(mirrored(mask), sym_mask(mask, 1));
    lemma_bits_equal(rotated(mask), sym_mask(mask, 2));
    assert forall|i: int| 0 <= i < 64 implies bit(rotated(sym_mask(mask, 1)), i) == bit(
        sym_mask(mask, 3),
        i,
    ) by {
        let m = 63 - i;
        assert(m / 8 == 7 - i / 8 && m % 8 == 7 - i % 8);
    }
    lemma_bits_equal(rotated(sym_mask(mask, 1)), sym_mask(mask, 3));
    lemma_bits_equal(transposed(mask), sym_mask(mask, 4));
    assert forall|i: int| 0 <= i < 64 implies bit(transposed(sym_mask(mask, 1)), i) == bit(
        sym_mask(mask, 5),
        i,
    ) && bit(transposed(sym_mask(mask, 2)), i) == bit(sym_mask(mask, 6), i) && bit(
        transposed(sym_mask(mask, 3)),
        i,
    ) == bit(sym_mask(mask, 7), i) by {
        let m = 8 * (i % 8) + i / 8;
        assert(m / 8 == i % 8 && m % 8 == i / 8);
    }
    lemma_bits_equal(transposed(sym_mask(mask, 1)), sym_mask(mask, 5));
    lemma_bits_equal(transposed(sym_mask(mask, 2)), sym_mask(mask, 6));
    lemma_bits_equal(transposed(sym_mask(mask, 3)), sym_mask(mask, 7));
}

/// Each of the three transformations undoes itself.
pub proof fn lemma_involutions(mask: u64)
    ensures
        mirrored(mirrored(mask)) == mask,
        rotated(rotated(mask)) == mask,
        transposed(transposed(mask)) == mask,
{
    lemma_sym_steps(mask);
    lemma_sym_steps(sym_mask(mask, 1));
    lemma_sym_steps(sym_mask(mask, 2));
    lemma_sym_steps(sym_mask(mask, 4));
    lemma_sym_composed(mask, 1, 1);
    lemma_sym_composed(mask, 2, 2);
    lemma_sym_composed(mask, 4, 4);
}

/// The images of a board form a closed set: the eight images of any image
/// of a board are, as a set, the eight images of the board.
pub proof fn lemma_orbit_closed(board: Board, k: int)
    requires
        0 <= k < 8,
    ensures
        orbit(sym_board(board, k)).to_set() == orbit(board).to_set(),
        orbit(board).len() == 8,
        orbit(board)[0] == board,
{
    let image = sym_board(board, k);
    lemma_sym_steps(board.0);
    lemma_sym_steps(board.1);
    assert forall|b: Board| orbit(image).to_set().contains(b) <==> orbit(board).to_set().contains(
        b,
    ) by {
        if orbit(image).to_set().contains(b) {
            let j = choose|j: int| 0 <= j < 8 && orbit(image)[j] == b;
            lemma_sym_composed(board.0, k, j);
            lemma_sym_composed(board.1, k, j);
            assert(orbit(board)[composed(k, j)] == b);
        }
        if orbit(board).to_set().contains(b) {
            let l = choose|l: int| 0 <= l < 8 && orbit(board)[l] == b;
            assert(composed(k, 0) == l || composed(k, 1) == l || composed(k, 2) == l || composed(
                k,
                3,
            ) == l || composed(k, 4) == l || composed(k, 5) == l || composed(k, 6) == l
                || composed(k, 7) == l);
            let j = choose|j: int| 0 <= j < 8 && composed(k, j) == l;
            lemma_sym_composed(board.0, k, j);
            lemma_sym_composed(board.1, k, j);
            assert(orbit(image)[j] == b);
        }
    }
    assert(orbit(image).to_set() =~= orbit(board).to_set());
}

/// The eight symmetric images of a board: the board itself, then what
/// turning upside down adds, then what the half turn adds to those, then
/// what mirroring at the diagonal adds to those.
pub fn expand(board: &Board) -> (res: Vec<Board>)
    ensures
        res@ == orbit(*board),
        res.len() == 8,
{
    let mut res: Vec<Board> = Vec::new();
    res.push(*board);
    proof {
        lemma_sym_steps(board.0);
        lemma_sym_steps(board.1);
    }
    let mut i: usize = 0;
    while i < 1
        invariant
            0 <= i <= 1,
            res.len() == 1 + i,
            forall|k: int| 0 <= k < res.len() ==> res[k] == sym_board(*board, k),
            sym_mask(board.0, 0) == board.0,
            sym_mask(board.1, 0) == board.1,
            mirrored(board.0) == sym_mask(board.0, 1),
            mirrored(board.1) == sym_mask(board.1, 1),
        decreases 1 - i,
    {
        let b = res[i];
        assert(b == sym_board(*board, i as int));
        let image = (flip_vertical_data(b.0), flip_vertical_data(b.1));
        assert(image == sym_board(*board, 1 + i));
        res.push(image);
        i = i + 1;
    }
    let mut i: usize = 0;
    while i < 2
        invariant
            0 <= i <= 2,
            res.len() == 2 + i,
            forall|k: int| 0 <= k < res.len() ==> res[k] == sym_board(*board, k),
            rotated(board.0) == sym_mask(board.0, 2),
            rotated(sym_mask(board.0, 1)) == sym_mask(board.0, 3),
            rotated(board.1) == sym_mask(board.1, 2),
            rotated(sym_mask(board.1, 1)) == sym_mask(board.1, 3),
            sym_mask(board.0, 0) == board.0,
            sym_mask(board.1, 0) == board.1,
        decreases 2 - i,
    {
        let b = res[i];
        assert(b == sym_board(*board, i as int));
        let image = (rotate180_data(b.0), rotate180_data(b.1));
        assert(image == sym_board(*board, 2 + i));
        res.push(image);
        i = i + 1;
    }
    let mut i: usize = 0;
    while i < 4
        invariant
            0 <= i <= 4,
            res.len() == 4 + i,
            forall|k: int| 0 <= k < res.len() ==> res[k] == sym_board(*board, k),
            sym_mask(board.0, 0) == board.0,
            sym_mask(board.1, 0) == board.1,
            transposed(board.0) == sym_mask(board.0, 4),
            transposed(sym_mask(board.0, 1)) == sym_mask(board.0, 5),
            transposed(sym_mask(board.0, 2)) == sym_mask(board.0, 6),
            transposed(sym_mask(board.0, 3)) == sym_mask(board.0, 7),
            transposed(board.1) == sym_mask(board.1, 4),
            transposed(sym_mask(board.1, 1)) == sym_mask(board.1, 5),
            transposed(sym_mask(board.1, 2)) == sym_mask(board.1, 6),
            transposed(sym_mask(board.1, 3)) == sym_mask(board.1, 7),
        decreases 4 - i,
    {
        let b = res[i];
        assert(b == sym_board(*board, i as int));
        let image = (flip_diagonal_data(b.0), flip_diagonal_data(b.1));
        assert(image == sym_board(*board, 4 + i));
        res.push(image);
        i = i + 1;
    }
    assert(res@ =~= orbit(*board));
    res
}

} // verus!
