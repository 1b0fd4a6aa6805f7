//! The opening book: boards on file with the games won and lost after
//! them, and the choice of a move by weight.
use crate::command::Move;
use crate::ordering::lemma_legal_move;
use crate::play::{board_wf, do_move, legal_moves, placed, valid_moves, Board, Color};
use crate::symmetry::{expand, orbit};
use std::collections::HashMap;
use vstd::prelude::*;

verus! {

broadcast use vstd::std_specs::hash::group_hash_axioms;

/// The key under which a board is filed.
pub open spec fn book_key(board: Board) -> u128 {
    (board.0 as u128 * 0x1_0000_0000_0000_0000 + board.1 as u128) as u128
}

/// The key under which a board is filed.
pub fn key_of(board: &Board) -> (k: u128)
    ensures
        k == book_key(*board),
{
    board.0 as u128 * 0x1_0000_0000_0000_0000 + board.1 as u128
}

/// Boards with how often, in the games on record, the player who reached
/// them went on to win and to lose.
pub struct OpeningBook {
    table: HashMap<u128, (i32, i32)>,
}

impl OpeningBook {
    /// The record of each board on file, as wins and losses.
    pub closed spec fn view(&self) -> Map<u128, (i32, i32)> {
        self.table@
    }

    /// The record of a board, if it is on file.
    pub open spec fn record(&self, board: Board) -> Option<(i32, i32)> {
        if self@.contains_key(book_key(board)) {
            Some(self@[book_key(board)])
        } else {
            None
        }
    }

    /// A book without a board on file.
    pub fn new() -> (book: OpeningBook)
        ensures
            book@ == Map::<u128, (i32, i32)>::empty(),
    {
        OpeningBook { table: HashMap::new() }
    }

    /// The record of a board, if it is on file.
    pub fn lookup(&self, board: &Board) -> (r: Option<(i32, i32)>)
        ensures
            r == self.record(*board),
    {
        let k = key_of(board);
        match self.table.get(&k) {
            Some(v) => Some(*v),
            None => None,
        }
    }

    /// Files a board with the given record, in place of the record that it
    /// had.
    pub fn set(&mut self, board: &Board, wins: i32, losses: i32)
        ensures
            final(self)@ == old(self)@.insert(book_key(*board), (wins, losses)),
    {
        let k = key_of(board);
        self.table.insert(k, (wins, losses));
    }

    /// Adds one game to the record of a board: a win where `won` holds, a
    /// loss where it does not. A count that has reached the greatest number
    /// stays there.
    pub fn add_game(&mut self, board: &Board, won: bool)
        ensures
            final(self)@ == old(self)@.insert(
                book_key(*board),
                counted(old(self).record(*board), won),
            ),
    {
        let (w, l) = match self.lookup(board) {
            Some(v) => v,
            None => (0, 0),
        };
        if won {
            self.set(
                board,
                if w < i32::MAX {
                    w + 1
                } else {
                    w
                },
                l,
            );
        } else {
            self.set(
                board,
                w,
                if l < i32::MAX {
                    l + 1
                } else {
                    l
                },
            );
        }
    }
}

/// A record with one game more.
pub open spec fn counted(record: Option<(i32, i32)>, won: bool) -> (i32, i32) {
    let (w, l) = match record {
        Some(v) => v,
        None => (0i32, 0i32),
    };
    if won {
        (
            if w < i32::MAX {
                (w + 1) as i32
            } else {
                w
            },
            l,
        )
    } else {
        (
            w,
            if l < i32::MAX {
                (l + 1) as i32
            } else {
                l
            },
        )
    }
}

/// Whether a record speaks for a move: there are games on record, and at
/// least half of them were won.
pub open spec fn qualifies(record: (i32, i32)) -> bool {
    record.0 + record.1 > 0 && record.0 >= record.1
}

/// Whether a record speaks for a move.
pub fn is_qualified(record: (i32, i32)) -> (r: bool)
    ensures
        r == qualifies(record),
        r ==> record.0 > 0,
{
    record.0 as i64 + record.1 as i64 > 0 && record.0 >= record.1
}

/// A move that the book speaks for, with the number of games on record
/// that were won after it.
pub type Weighted = ((i8, i8), u32);

/// The entries that the first `n` of the boards `images` add for the move
/// `action`: one for each board on file whose record speaks for the move.
pub open spec fn orbit_hits(book: OpeningBook, action: (i8, i8), images: Seq<Board>, n: int) -> Seq<
    Weighted,
>
    decreases n,
{
    if n <= 0 {
        Seq::empty()
    } else {
        let before = orbit_hits(book, action, images, n - 1);
        match book.record(images[n - 1]) {
            Some(rec) => if qualifies(rec) {
                before.push((action, rec.0 as u32))
            } else {
                before
            },
            None => before,
        }
    }
}

/// The entries of the first `m` legal moves of the player `color`: for
/// each move, in order, what the eight symmetric images of the board that
/// it leads to add.
pub open spec fn book_hits(book: OpeningBook, board: Board, color: Color, m: int) -> Seq<Weighted>
    decreases m,
{
    if m <= 0 {
        Seq::empty()
    } else {
        let action = legal_moves(board, color)[m - 1];
        book_hits(book, board, color, m - 1) + orbit_hits(
            book,
            action,
            orbit(placed(board, color, action.0 as int, action.1 as int)),
            8,
        )
    }
}

/// Every entry stands for a legal move and has a weight above zero.
pub proof fn lemma_book_hits(book: OpeningBook, board: Board, color: Color, m: int)
    requires
        0 <= m <= legal_moves(board, color).len(),
    ensures
        forall|i: int|
            0 <= i < book_hits(book, board, color, m).len() ==> legal_moves(board, color).contains(
                (#[trigger] book_hits(book, board, color, m)[i]).0,
            ) && book_hits(book, board, color, m)[i].1 > 0,
    decreases m,
{
    if m > 0 {
        lemma_book_hits(book, board, color, m - 1);
        let action = legal_moves(board, color)[m - 1];
        let images = orbit(placed(board, color, action.0 as int, action.1 as int));
        lemma_orbit_hits(book, action, images, 8);
        assert(legal_moves(board, color).contains(action));
        let before = book_hits(book, board, color, m - 1);
        let added = orbit_hits(book, action, images, 8);
        assert forall|i: int| 0 <= i < book_hits(book, board, color, m).len() implies legal_moves(
            board,
            color,
        ).contains((#[trigger] book_hits(book, board, color, m)[i]).0) && book_hits(
            book,
            board,
            color,
            m,
        )[i].1 > 0 by {
            if i < before.len() {
                assert(book_hits(book, board, color, m)[i] == before[i]);
            } else {
                assert(book_hits(book, board, color, m)[i] == added[i - before.len()]);
            }
        }
    }
}

/// Every entry of a move stands for that move and has a weight above
/// zero.
proof fn lemma_orbit_hits(book: OpeningBook, action: (i8, i8), images: Seq<Board>, n: int)
    ensures
        forall|i: int|
            0 <= i < orbit_hits(book, action, images, n).len() ==> (#[trigger] orbit_hits(
                book,
                action,
                images,
                n,
            )[i]) == (action, orbit_hits(book, action, images, n)[i].1) && orbit_hits(
                book,
                action,
                images,
                n,
            )[i].1 > 0,
    decreases n,
{
    if n > 0 {
        lemma_orbit_hits(book, action, images, n - 1);
    }
}

/// The moves that the book speaks for, each with its weight: for every
/// legal move of the player `color`, the boards on file among the eight
/// symmetric images of the board that the move leads to.
pub fn book_candidates(book: &OpeningBook, board: &Board, color: Color) -> (hits: Vec<Weighted>)
    requires
        board_wf(*board),
    ensures
        hits@ == book_hits(*book, *board, color, legal_moves(*board, color).len() as int),
{
    let valid_moves = valid_moves(board, color);
    let mut hits: Vec<Weighted> = Vec::new();
    let mut i: usize = 0;
    while i < valid_moves.len()
        invariant
            0 <= i <= valid_moves.len(),
            board_wf(*board),
            valid_moves@ == legal_moves(*board, color),
            hits@ == book_hits(*book, *board, color, i as int),
        decreases valid_moves.len() - i,
    {
        let action = valid_moves[i];
        proof {
            lemma_legal_move(*board, color, i as int);
        }
        let mut nboard = *board;
        do_move(&mut nboard, &Move::Mv(action.0, action.1), color);
        let images = expand(&nboard);
        let ghost before = hits@;
        let mut k: usize = 0;
        while k < images.len()
            invariant
                0 <= k <= images.len(),
                images.len() == 8,
                hits@ == before + orbit_hits(*book, action, images@, k as int),
            decreases images.len() - k,
        {
            match book.lookup(&images[k]) {
                Some(rec) => {
                    if is_qualified(rec) {
                        hits.push((action, rec.0 as u32));
                    }
                },
                None => {},
            }
            proof {
                assert(hits@ =~= before + orbit_hits(*book, action, images@, k + 1));
            }
            k = k + 1;
        }
        i = i + 1;
    }
    hits
}

/// The sum of the weights of the first `n` entries.
pub open spec fn weight_before(hits: Seq<Weighted>, n: int) -> int
    decreases n,
{
    if n <= 0 {
        0
    } else {
        weight_before(hits, n - 1) + hits[n - 1].1
    }
}

/// The sum of the weights of all entries.
pub open spec fn total_weight(hits: Seq<Weighted>) -> int {
    weight_before(hits, hits.len() as int)
}

/// The sum of weights grows with the number of entries, and stays below
/// what that many weights can come to.
pub proof fn lemma_weight_before(hits: Seq<Weighted>, a: int, b: int)
    requires
        0 <= a <= b <= hits.len(),
    ensures
        0 <= weight_before(hits, a) <= weight_before(hits, b) <= b * 0xffff_ffff,
    decreases b,
{
    if a < b {
        lemma_weight_before(hits, a, b - 1);
    } else if b > 0 {
        lemma_weight_before(hits, a - 1, b - 1);
    }
}

/// Picks a move by the draw `rd`, each move as often as its weight says.
/// The weights are laid end to end in the order of the entries, and the
/// move is the one into whose stretch the draw falls, taken modulo the
/// sum of the weights: so every entry is picked by as many of the possible
/// draws as its weight counts.
pub fn pick_weighted(hits: &Vec<Weighted>, rd: u32) -> (r: (i8, i8))
    requires
        hits.len() <= 0xffff_ffff,
        total_weight(hits@) > 0,
    ensures
        exists|i: int|
            0 <= i < hits.len() && r == (#[trigger] hits[i]).0 && weight_before(hits@, i) <= rd as int
                % total_weight(hits@) < weight_before(hits@, i + 1),
{
    let mut total: u64 = 0;
    let mut i: usize = 0;
    while i < hits.len()
        invariant
            0 <= i <= hits.len(),
            hits.len() <= 0xffff_ffff,
            total == weight_before(hits@, i as int),
            total <= i * 0xffff_ffff,
        decreases hits.len() - i,
    {
        total = total + hits[i].1 as u64;
        i = i + 1;
    }
    let x = rd as u64 % total;
    let mut sum: u64 = 0;
    let mut i: usize = 0;
    while i < hits.len()
        invariant
            0 <= i <= hits.len(),
            hits.len() <= 0xffff_ffff,
            sum == weight_before(hits@, i as int),
            sum <= i * 0xffff_ffff,
            sum <= x,
            x == rd as int % total_weight(hits@),
            x < total_weight(hits@),
        decreases hits.len() - i,
    {
        sum = sum + hits[i].1 as u64;
        if sum > x {
            return hits[i].0;
        }
        i = i + 1;
    }
    assert(false);
    (-1, -1)
}

/// A number drawn at random. Trusted: `rand::random` gives a value of the
/// type asked for from the thread's generator; nothing is said of which.
#[verifier::external_body]
fn random_u32() -> u32 {
    rand::random::<u32>()
}

/// The move that the opening book proposes: one of the moves that the book
/// speaks for, drawn at random by weight, and `(-1, -1)` where it speaks
/// for none.
pub fn apply_joseki(book: &OpeningBook, board: &Board, color: Color) -> (r: (i8, i8))
    requires
        board_wf(*board),
    ensures
        book_hits(*book, *board, color, legal_moves(*board, color).len() as int).len() == 0 ==> r
            == (-1i8, -1i8),
        book_hits(*book, *board, color, legal_moves(*board, color).len() as int).len() > 0
            ==> legal_moves(*board, color).contains(r) && exists|i: int|
            0 <= i < book_hits(*book, *board, color, legal_moves(*board, color).len() as int).len()
                && r == (#[trigger] book_hits(
                *book,
                *board,
                color,
                legal_moves(*board, color).len() as int,
            )[i]).0,
{
    let hits = book_candidates(book, board, color);
    if hits.len() == 0 {
        return (-1, -1);
    }
    proof {
        let n = legal_moves(*board, color).len() as int;
        lemma_book_hits(*book, *board, color, n);
        lemma_weight_before(hits@, 1, hits.len() as int);
        assert(weight_before(hits@, 0) == 0);
        assert(weight_before(hits@, 1) == hits@[0].1);
        lemma_hits_len(*book, *board, color, n);
        crate::play::lemma_moves_below(
            crate::play::mover_mask(*board, color),
            crate::play::opponent_mask(*board, color),
            64,
        );
    }
    let rd = random_u32();
    pick_weighted(&hits, rd)
}

/// A move adds at most eight entries.
proof fn lemma_hits_len(book: OpeningBook, board: Board, color: Color, m: int)
    requires
        0 <= m,
    ensures
        book_hits(book, board, color, m).len() <= 8 * m,
    decreases m,
{
    if m > 0 {
        lemma_hits_len(book, board, color, m - 1);
        let action = legal_moves(board, color)[m - 1];
        lemma_orbit_len(
            book,
            action,
            orbit(placed(board, color, action.0 as int, action.1 as int)),
            8,
        );
    }
}

/// The first `n` images add at most `n` entries.
proof fn lemma_orbit_len(book: OpeningBook, action: (i8, i8), images: Seq<Board>, n: int)
    requires
        0 <= n,
    ensures
        orbit_hits(book, action, images, n).len() <= n,
    decreases n,
{
    if n > 0 {
        lemma_orbit_len(book, action, images, n - 1);
    }
}

} // verus!
