//! Masks of 64 bits read bit by bit: what the bitwise operations do to
//! single bits, and the count of the set bits.
use vstd::prelude::*;

verus! {

/// Whether bit `i` of `mask` is set. Bits at or above 64 are never set.
pub open spec fn bit(mask: u64, i: int) -> bool {
    0 <= i < 64 && (mask >> (i as u64)) & 1 == 1
}

/// The cells of a mask: the indices of its set bits.
pub open spec fn cells(mask: u64) -> Set<int> {
    Set::new(|i: int| bit(mask, i))
}

/// One bit of `a & b`.
proof fn lemma_bit_and_raw(a: u64, b: u64, i: u64)
    by (bit_vector)
    requires
        i < 64,
    ensures
        (((a & b) >> i) & 1 == 1) == (((a >> i) & 1 == 1) && ((b >> i) & 1 == 1)),
{
}

/// One bit of `a | b`.
proof fn lemma_bit_or_raw(a: u64, b: u64, i: u64)
    by (bit_vector)
    requires
        i < 64,
    ensures
        (((a | b) >> i) & 1 == 1) == (((a >> i) & 1 == 1) || ((b >> i) & 1 == 1)),
{
}

/// One bit of `a ^ b`.
proof fn lemma_bit_xor_raw(a: u64, b: u64, i: u64)
    by (bit_vector)
    requires
        i < 64,
    ensures
        (((a ^ b) >> i) & 1 == 1) == (((a >> i) & 1 == 1) != ((b >> i) & 1 == 1)),
{
}

/// One bit of `!a`.
proof fn lemma_bit_not_raw(a: u64, i: u64)
    by (bit_vector)
    requires
        i < 64,
    ensures
        (((!a) >> i) & 1 == 1) == !((a >> i) & 1 == 1),
{
}

/// One bit of `a << n`, where `j` is the place that it comes from.
proof fn lemma_bit_shl_raw(a: u64, n: u32, i: u64, j: u64)
    by (bit_vector)
    requires
        i < 64,
        n < 64,
        j < 64,
        i >= n ==> j + n == i,
    ensures
        (((a << n) >> i) & 1 == 1) == (i >= n && ((a >> j) & 1 == 1)),
{
}

/// One bit of `a >> n`, where `j` is the place that it comes from.
proof fn lemma_bit_shr_raw(a: u64, n: u32, i: u64, j: u64)
    by (bit_vector)
    requires
        i < 64,
        n < 64,
        j < 128,
        j == i + n,
    ensures
        (((a >> n) >> i) & 1 == 1) == (j < 64 && ((a >> j) & 1 == 1)),
{
}

/// A bit of `a & b` is set where it is set in both.
pub proof fn lemma_bit_and(a: u64, b: u64)
    ensures
        forall|i: int| #[trigger] bit(a & b, i) == (bit(a, i) && bit(b, i)),
{
    assert forall|i: int| #[trigger] bit(a & b, i) == (bit(a, i) && bit(b, i)) by {
        if 0 <= i < 64 {
            lemma_bit_and_raw(a, b, i as u64);
        }
    }
}

/// A bit of `a | b` is set where it is set in either.
pub proof fn lemma_bit_or(a: u64, b: u64)
    ensures
        forall|i: int| #[trigger] bit(a | b, i) == (bit(a, i) || bit(b, i)),
{
    assert forall|i: int| #[trigger] bit(a | b, i) == (bit(a, i) || bit(b, i)) by {
        if 0 <= i < 64 {
            lemma_bit_or_raw(a, b, i as u64);
        }
    }
}

/// A bit of `a ^ b` is set where it is set in exactly one.
pub proof fn lemma_bit_xor(a: u64, b: u64)
    ensures
        forall|i: int| #[trigger] bit(a ^ b, i) == (bit(a, i) != bit(b, i)),
{
    assert forall|i: int| #[trigger] bit(a ^ b, i) == (bit(a, i) != bit(b, i)) by {
        if 0 <= i < 64 {
            lemma_bit_xor_raw(a, b, i as u64);
        }
    }
}

/// A bit of `!a` below 64 is set where it is clear in `a`.
pub proof fn lemma_bit_not(a: u64)
    ensures
        forall|i: int| #[trigger] bit(!a, i) == (0 <= i < 64 && !bit(a, i)),
{
    assert forall|i: int| #[trigger] bit(!a, i) == (0 <= i < 64 && !bit(a, i)) by {
        if 0 <= i < 64 {
            lemma_bit_not_raw(a, i as u64);
        }
    }
}

/// Shifting left by `n` moves bit `i - n` to bit `i`.
pub proof fn lemma_bit_shl(a: u64, n: u32)
    requires
        n < 64,
    ensures
        forall|i: int| #[trigger] bit(a << n, i) == (n <= i < 64 && bit(a, i - n)),
{
    assert forall|i: int| #[trigger] bit(a << n, i) == (n <= i < 64 && bit(a, i - n)) by {
        if 0 <= i < 64 {
            let j: int = if i >= n { i - n } else { 0 };
            lemma_bit_shl_raw(a, n, i as u64, j as u64);
        }
    }
}

/// Shifting right by `n` moves bit `i + n` to bit `i`.
pub proof fn lemma_bit_shr(a: u64, n: u32)
    requires
        n < 64,
    ensures
        forall|i: int| #[trigger] bit(a >> n, i) == (0 <= i && bit(a, i + n)),
{
    assert forall|i: int| #[trigger] bit(a >> n, i) == (0 <= i && bit(a, i + n)) by {
        if 0 <= i < 64 {
            lemma_bit_shr_raw(a, n, i as u64, (i + n) as u64);
        }
    }
}

/// The bits of the empty mask and of a mask with one bit.
proof fn lemma_bit_const_raw(c: u64, i: u64)
    by (bit_vector)
    requires
        i < 64,
        c < 64,
    ensures
        (0u64 >> i) & 1 == 0,
        (((1u64 << c) >> i) & 1 == 1) == (i == c),
{
}

/// The empty mask has no bit set.
pub proof fn lemma_bit_zero()
    ensures
        forall|i: int| !#[trigger] bit(0, i),
{
    assert forall|i: int| !#[trigger] bit(0, i) by {
        if 0 <= i < 64 {
            lemma_bit_const_raw(0, i as u64);
        }
    }
}

/// The mask `1 << c` has bit `c` set and no other.
pub proof fn lemma_bit_single(c: u64)
    requires
        c < 64,
    ensures
        forall|i: int| #[trigger] bit(1u64 << c, i) == (i == c),
{
    assert forall|i: int| #[trigger] bit(1u64 << c, i) == (i == c) by {
        if 0 <= i < 64 {
            lemma_bit_const_raw(c, i as u64);
        }
    }
}

/// Two masks with the same bits are the same mask.
pub proof fn lemma_bits_equal(a: u64, b: u64)
    requires
        forall|i: int| 0 <= i < 64 ==> bit(a, i) == bit(b, i),
    ensures
        a == b,
{
    let x = a ^ b;
    if x != 0 {
        vstd::std_specs::bits::axiom_u64_trailing_zeros(x);
        let t = vstd::std_specs::bits::u64_trailing_zeros(x) as int;
        assert(0 <= t < 64);
        assert(bit(x, t));
        lemma_bit_xor(a, b);
        assert(bit(a, t) != bit(b, t));
    } else {
        assert(a == b) by (bit_vector)
            requires
                a ^ b == 0,
        ;
    }
}

/// How many of the bits below `n` are set.
pub open spec fn count_below(mask: u64, n: int) -> int
    decreases n,
{
    if n <= 0 {
        0
    } else {
        count_below(mask, n - 1) + if bit(mask, n - 1) {
            1int
        } else {
            0int
        }
    }
}

/// How many of the bits from `lo` up to, not including, `hi` are set.
pub open spec fn count_range(mask: u64, lo: int, hi: int) -> int {
    count_below(mask, hi) - count_below(mask, lo)
}

/// The set bits below `n`.
pub open spec fn cells_below(mask: u64, n: int) -> Set<int> {
    Set::new(|i: int| i < n && bit(mask, i))
}

/// `count_below` is the size of the set of cells below `n`.
pub proof fn lemma_count_below_is_len(mask: u64, n: int)
    requires
        0 <= n <= 64,
    ensures
        cells_below(mask, n).finite(),
        cells_below(mask, n).len() == count_below(mask, n),
        0 <= count_below(mask, n) <= n,
    decreases n,
{
    if n == 0 {
        assert(cells_below(mask, 0) =~= Set::<int>::empty());
    } else {
        lemma_count_below_is_len(mask, n - 1);
        if bit(mask, n - 1) {
            assert(cells_below(mask, n) =~= cells_below(mask, n - 1).insert(n - 1));
        } else {
            assert(cells_below(mask, n) =~= cells_below(mask, n - 1));
        }
    }
}

/// A mask has finitely many cells: as many as it has set bits, at most 64.
pub proof fn lemma_cells_len(mask: u64)
    ensures
        cells(mask).finite(),
        cells(mask).len() == count_below(mask, 64),
        cells(mask).len() <= 64,
{
    lemma_count_below_is_len(mask, 64);
    assert(cells(mask) =~= cells_below(mask, 64));
}

/// The mask of the low `w` bits, for the field widths of the parallel count.
pub open spec fn low_mask(w: int) -> u64 {
    if w == 1 {
        0x1
    } else if w == 2 {
        0x3
    } else if w == 4 {
        0xf
    } else if w == 8 {
        0xff
    } else if w == 16 {
        0xffff
    } else {
        0xffff_ffff
    }
}

/// The mask that keeps the low half of every field of width `2 * h`.
pub open spec fn half_fields(h: int) -> u64 {
    if h == 1 {
        0x5555555555555555
    } else if h == 2 {
        0x3333333333333333
    } else if h == 4 {
        0x0F0F0F0F0F0F0F0F
    } else if h == 8 {
        0x00FF00FF00FF00FF
    } else if h == 16 {
        0x0000FFFF0000FFFF
    } else {
        0x00000000FFFFFFFF
    }
}

/// The field of width `w` that starts at bit `s`.
pub open spec fn field(v: u64, s: int, w: int) -> u64 {
    if w == 64 {
        v
    } else {
        (v >> (s as u64)) & low_mask(w)
    }
}

/// Every aligned field of width `w` of `v` holds the number of bits that
/// `mask` has set in that field.
pub open spec fn fields_count(mask: u64, v: u64, w: int) -> bool {
    forall|s: int|
        0 <= s < 64 && s % w == 0 ==> #[trigger] field(v, s, w) == count_range(mask, s, s + w)
}

/// One field after the two halves of every field have been added.
proof fn lemma_fold_raw(v: u64, h: u64, w: u64, m: u64, s: u64, t: u64)
    by (bit_vector)
    requires
        (h == 1 && m == 0x5555555555555555) || (h == 2 && m == 0x3333333333333333) || (h == 4 && m
            == 0x0F0F0F0F0F0F0F0F) || (h == 8 && m == 0x00FF00FF00FF00FF) || (h == 16 && m
            == 0x0000FFFF0000FFFF) || (h == 32 && m == 0x00000000FFFFFFFF),
        w == 2 * h,
        s < 64,
        s % w == 0,
        t == s + h,
    ensures
        (v & m) + ((v >> h) & m) <= 0xffff_ffff_ffff_ffff,
        field(((v & m) + ((v >> h) & m)) as u64, s as int, w as int) == field(
            v,
            s as int,
            h as int,
        ) + field(v, t as int, h as int),
{
}

/// A field of width one holds 0 or 1.
proof fn lemma_unit_field_raw(v: u64, s: u64)
    by (bit_vector)
    requires
        s < 64,
    ensures
        (v >> s) & 1 == 0 || (v >> s) & 1 == 1,
{
}

/// A mask counts its own bits in fields of width one.
proof fn lemma_fields_base(mask: u64)
    ensures
        fields_count(mask, mask, 1),
{
    assert forall|s: int| 0 <= s < 64 && s % 1 == 0 implies #[trigger] field(mask, s, 1)
        == count_range(mask, s, s + 1) by {
        lemma_unit_field_raw(mask, s as u64);
    }
}

/// Adding the two halves of every field of width `2 * h` turns counts in
/// fields of width `h` into counts in fields of width `2 * h`.
proof fn lemma_fields_fold(mask: u64, v: u64, h: int)
    requires
        h == 1 || h == 2 || h == 4 || h == 8 || h == 16 || h == 32,
        fields_count(mask, v, h),
    ensures
        (v & half_fields(h)) + ((v >> (h as u64)) & half_fields(h)) <= u64::MAX,
        fields_count(mask, ((v & half_fields(h)) + ((v >> (h as u64)) & half_fields(h))) as u64, 2 * h),
{
    let m = half_fields(h);
    let w = 2 * h;
    let v2 = ((v & m) + ((v >> (h as u64)) & m)) as u64;
    lemma_fold_raw(v, h as u64, w as u64, m, 0, h as u64);
    assert forall|s: int| 0 <= s < 64 && s % w == 0 implies #[trigger] field(v2, s, w)
        == count_range(mask, s, s + w) by {
        lemma_fold_raw(v, h as u64, w as u64, m, s as u64, (s + h) as u64);
        assert(s % h == 0 && (s + h) % h == 0 && s + h < 64);
        assert(field(v, s, h) == count_range(mask, s, s + h));
        assert(field(v, s + h, h) == count_range(mask, s + h, s + h + h));
    }
}

/// Joining with the empty mask changes nothing.
pub proof fn lemma_or_zero(a: u64)
    ensures
        a | 0 == a,
        0 | a == a,
{
    assert(a | 0 == a && 0 | a == a) by (bit_vector);
}

/// Shifting down by `k` and then by one is shifting down by `k + 1`.
pub proof fn lemma_shr_step(a: u64, k: u64)
    requires
        k < 63,
    ensures
        (a >> k) >> 1 == a >> ((k + 1) as u64),
        a >> 0 == a,
{
    assert((a >> k) >> 1 == a >> ((k + 1) as u64) && a >> 0 == a) by (bit_vector)
        requires
            k < 63,
    ;
}

/// A mask other than the empty one has a bit set.
pub proof fn lemma_nonzero_bit(a: u64) -> (i: int)
    requires
        a != 0,
    ensures
        bit(a, i),
{
    vstd::std_specs::bits::axiom_u64_trailing_zeros(a);
    vstd::std_specs::bits::u64_trailing_zeros(a) as int
}

/// Reads one bit of a mask.
pub fn has_stone(board: u64, pos: i8) -> (r: bool)
    requires
        0 <= pos < 64,
    ensures
        r == bit(board, pos as int),
{
    ((board >> pos) & 1) == 1
}

/// The number of set bits of a mask, counted in parallel by folding fields.
pub fn count(board: u64) -> (r: i8)
    ensures
        r == cells(board).len(),
        0 <= r <= 64,
{
    proof {
        lemma_fields_base(board);
        lemma_cells_len(board);
    }
    let mut bits: u64 = board;
    proof {
        lemma_fields_fold(board, bits, 1);
    }
    bits = (bits & 0x5555555555555555) + ((bits >> 1) & 0x5555555555555555);
    proof {
        lemma_fields_fold(board, bits, 2);
    }
    bits = (bits & 0x3333333333333333) + ((bits >> 2) & 0x3333333333333333);
    proof {
        lemma_fields_fold(board, bits, 4);
    }
    bits = (bits & 0x0F0F0F0F0F0F0F0F) + ((bits >> 4) & 0x0F0F0F0F0F0F0F0F);
    proof {
        lemma_fields_fold(board, bits, 8);
    }
    bits = (bits & 0x00FF00FF00FF00FF) + ((bits >> 8) & 0x00FF00FF00FF00FF);
    proof {
        lemma_fields_fold(board, bits, 16);
    }
    bits = (bits & 0x0000FFFF0000FFFF) + ((bits >> 16) & 0x0000FFFF0000FFFF);
    proof {
        lemma_fields_fold(board, bits, 32);
    }
    bits = (bits & 0x00000000FFFFFFFF) + ((bits >> 32) & 0x00000000FFFFFFFF);
    assert(field(bits, 0, 64) == count_range(board, 0, 64));
    bits as i8
}

} // verus!
