//! Records of games: replaying a line of a record and filing its boards
//! in the opening book.
use crate::book::OpeningBook;
use crate::command::Move;
use crate::command_parser::{split_words, texts, words};
use crate::play::{
    board_wf, do_move, init_board, legal_moves, lemma_moves_below, lemma_placed, mover_mask,
    opponent_mask, placed, valid_moves, Board, INIT_BLACK, INIT_WHITE,
};
use vstd::prelude::*;

verus! {

/// How many plies of a game on record are filed.
pub const FST_STEP: usize = 20;

/// The pieces into which the signs `+` and `-` cut a text; a text with `n`
/// signs has `n + 1` pieces, some of which may be empty.
pub open spec fn pieces(s: Seq<char>) -> Seq<Seq<char>>
    decreases s.len(),
{
    if s.len() == 0 {
        seq![Seq::empty()]
    } else {
        let before = pieces(s.drop_last());
        if s.last() == '+' || s.last() == '-' {
            before.push(Seq::empty())
        } else {
            before.update(before.len() - 1, before.last().push(s.last()))
        }
    }
}

/// The rows of a table as sequences.
pub open spec fn rows(v: Seq<Vec<char>>) -> Seq<Seq<char>> {
    Seq::new(v.len(), |i: int| v[i]@)
}

/// Cuts a word at the signs `+` and `-`.
pub fn split_plies(word: &String) -> (r: Vec<Vec<char>>)
    ensures
        rows(r@) == pieces(word@),
{
    let n = word.as_str().unicode_len();
    let mut done: Vec<Vec<char>> = Vec::new();
    let mut cur: Vec<char> = Vec::new();
    let mut i: usize = 0;
    while i < n
        invariant
            0 <= i <= n,
            n == word@.len(),
            pieces(word@.take(i as int)) == rows(done@).push(cur@),
        decreases n - i,
    {
        let c = word.as_str().get_char(i);
        proof {
            assert(word@.take(i + 1).drop_last() =~= word@.take(i as int));
        }
        if c == '+' || c == '-' {
            proof {
                assert(rows(done@.push(cur)) =~= rows(done@).push(cur@));
            }
            done.push(cur);
            cur = Vec::new();
        } else {
            cur.push(c);
            proof {
                let before = rows(done@).push(cur@.drop_last());
                assert(cur@.drop_last().push(c) =~= cur@);
                assert(before.update(before.len() - 1, before.last().push(c)) =~= rows(done@).push(
                    cur@,
                ));
            }
        }
        i = i + 1;
    }
    proof {
        assert(word@.take(n as int) =~= word@);
        assert(rows(done@.push(cur)) =~= rows(done@).push(cur@));
    }
    done.push(cur);
    done
}

/// The cell that a piece names: a letter from `a` for the first
/// coordinate and a digit from `1` for the second, both characters of the
/// basic Latin alphabet.
pub open spec fn ply_of(piece: Seq<char>) -> Option<(i8, i8)> {
    if piece.len() >= 2 && (piece[0] as u32) < 128 && (piece[1] as u32) < 128 {
        Some(((piece[0] as u32 - 97) as i8, (piece[1] as u32 - 49) as i8))
    } else {
        None
    }
}

/// The game after the first `n` plies that the pieces name, the first
/// player moving first: the board, and the boards that each of the two
/// players has reached by a move. There is none where a piece is missing,
/// names no cell, or names a move that is not legal.
pub open spec fn replayed(ps: Seq<Seq<char>>, n: int) -> Option<(Board, Seq<Board>, Seq<Board>)>
    decreases n,
{
    if n <= 0 {
        Some(((INIT_BLACK, INIT_WHITE), Seq::empty(), Seq::empty()))
    } else {
        match replayed(ps, n - 1) {
            None => None,
            Some((board, first, second)) => {
                if n >= ps.len() {
                    None
                } else {
                    match ply_of(ps[n]) {
                        None => None,
                        Some(m) => {
                            let color = n % 2 == 1;
                            if legal_moves(board, color).contains(m) {
                                let next = placed(board, color, m.0 as int, m.1 as int);
                                if color {
                                    Some((next, first.push(next), second))
                                } else {
                                    Some((next, first, second.push(next)))
                                }
                            } else {
                                None
                            }
                        },
                    }
                }
            },
        }
    }
}

/// A game that cannot be replayed to some ply cannot be replayed beyond
/// it.
pub proof fn lemma_replay_stops(ps: Seq<Seq<char>>, k: int, n: int)
    requires
        k <= n,
        replayed(ps, k) is None,
    ensures
        replayed(ps, n) is None,
    decreases n,
{
    if k < n {
        lemma_replay_stops(ps, k, n - 1);
    }
}

/// What a line of a record of games gives: the boards that the winner, and
/// the boards that the loser, reached by a move in the first twenty plies.
/// The first word holds the plies, each after a sign; the second word
/// begins with `+` where the first player won.
pub open spec fn line_boards(ws: Seq<Seq<char>>) -> Option<(Seq<Board>, Seq<Board>)> {
    if ws.len() < 2 {
        None
    } else {
        match replayed(pieces(ws[0]), FST_STEP as int) {
            None => None,
            Some((_, first, second)) => {
                if ws[1].len() > 0 && ws[1][0] == '+' {
                    Some((first, second))
                } else {
                    Some((second, first))
                }
            },
        }
    }
}

/// Whether `r` holds the boards `expected`, or nothing where nothing is
/// expected.
pub open spec fn is_boards(
    r: Option<(Vec<Board>, Vec<Board>)>,
    expected: Option<(Seq<Board>, Seq<Board>)>,
) -> bool {
    match r {
        Some((w, l)) => expected == Some((w@, l@)),
        None => expected is None,
    }
}

/// Whether a move is among the moves listed.
fn is_listed(moves: &Vec<(i8, i8)>, m: (i8, i8)) -> (r: bool)
    ensures
        r == moves@.contains(m),
{
    let mut i: usize = 0;
    while i < moves.len()
        invariant
            0 <= i <= moves.len(),
            forall|k: int| 0 <= k < i ==> moves[k] != m,
        decreases moves.len() - i,
    {
        if moves[i].0 == m.0 && moves[i].1 == m.1 {
            return true;
        }
        i = i + 1;
    }
    false
}

/// The boards that the words of a line of a record of games give.
pub fn boards_from_words(ws: &Vec<String>) -> (r: Option<(Vec<Board>, Vec<Board>)>)
    ensures
        is_boards(r, line_boards(texts(ws@))),
{
    if ws.len() < 1 {
        return None;
    }
    let cmds = split_plies(&ws[0]);
    let ghost ps = pieces(ws[0]@);
    let mut p: Vec<Board> = Vec::new();
    let mut o: Vec<Board> = Vec::new();
    let mut board = init_board();
    let mut i: usize = 1;
    while i < FST_STEP + 1
        invariant
            1 <= i <= FST_STEP + 1,
            ws.len() >= 1,
            ps == pieces(ws[0]@),
            ps == pieces(texts(ws@)[0]),
            rows(cmds@) == ps,
            board_wf(board),
            replayed(ps, i - 1) == Some((board, p@, o@)),
        decreases FST_STEP + 1 - i,
    {
        proof {
            if replayed(ps, i as int) is None {
                lemma_replay_stops(ps, i as int, FST_STEP as int);
            }
        }
        if i >= cmds.len() {
            return None;
        }
        let piece = &cmds[i];
        assert(piece@ == ps[i as int]);
        if piece.len() < 2 {
            return None;
        }
        let a = piece[0] as u32;
        let b = piece[1] as u32;
        if a >= 128 || b >= 128 {
            return None;
        }
        let x: i8 = a as i8 - 97;
        let y: i8 = b as i8 - 49;
        let color = i % 2 == 1;
        let moves = valid_moves(&board, color);
        if !is_listed(&moves, (x, y)) {
            return None;
        }
        proof {
            lemma_moves_below(mover_mask(board, color), opponent_mask(board, color), 64);
            lemma_placed(board, color, x as int, y as int);
        }
        do_move(&mut board, &Move::Mv(x, y), color);
        if color {
            p.push(board);
        } else {
            o.push(board);
        }
        i = i + 1;
    }
    if ws.len() < 2 {
        return None;
    }
    if ws[1].as_str().unicode_len() > 0 && ws[1].as_str().get_char(0) == '+' {
        Some((p, o))
    } else {
        Some((o, p))
    }
}

/// The boards that a line of a record of games gives.
pub fn parse_line(line: &String) -> (r: Option<(Vec<Board>, Vec<Board>)>)
    ensures
        is_boards(r, line_boards(words(line@))),
{
    let ws = split_words(line.as_str());
    proof {
        assert(texts(ws@) =~= words(line@));
    }
    boards_from_words(&ws)
}

/// The book after the first `n` of the boards have each been counted as a
/// game won or lost.
pub open spec fn counted_games(
    book: Map<u128, (i32, i32)>,
    boards: Seq<Board>,
    won: bool,
    n: int,
) -> Map<u128, (i32, i32)>
    decreases n,
{
    if n <= 0 {
        book
    } else {
        let before = counted_games(book, boards, won, n - 1);
        let key = crate::book::book_key(boards[n - 1]);
        before.insert(
            key,
            crate::book::counted(
                if before.contains_key(key) {
                    Some(before[key])
                } else {
                    None
                },
                won,
            ),
        )
    }
}

/// Files a game: every board of the winner counts as a game won, every
/// board of the loser as a game lost.
pub fn record_game(book: &mut OpeningBook, winners: &Vec<Board>, losers: &Vec<Board>)
    ensures
        final(book)@ == counted_games(
            counted_games(old(book)@, winners@, true, winners.len() as int),
            losers@,
            false,
            losers.len() as int,
        ),
{
    let mut i: usize = 0;
    while i < winners.len()
        invariant
            0 <= i <= winners.len(),
            book@ == counted_games(old(book)@, winners@, true, i as int),
        decreases winners.len() - i,
    {
        book.add_game(&winners[i], true);
        i = i + 1;
    }
    let ghost middle = book@;
    let mut i: usize = 0;
    while i < losers.len()
        invariant
            0 <= i <= losers.len(),
            book@ == counted_games(middle, losers@, false, i as int),
        decreases losers.len() - i,
    {
        book.add_game(&losers[i], false);
        i = i + 1;
    }
}

} // verus!
