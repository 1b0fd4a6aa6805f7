//! The state that a player keeps through a game, and the scheduler that
//! picks the means of finding a move by the phase of the game.
use crate::book::{apply_joseki, book_hits, OpeningBook};
use crate::command::Move;
use crate::endgame::read_final_action;
use crate::ordering::{candidates, get_move_ordering_score, lemma_legal_move, lemma_sort_desc};
use crate::play::{board_wf, legal_moves, Board, Color};
use crate::root::{
    best_action, lemma_taken_is_legal, nega_scout_action, nega_scout_actions, taken_from,
};
use crate::search::is_cancelled;
use std::sync::atomic::AtomicBool;
use std::sync::atomic::Ordering;
use vstd::prelude::*;

verus! {

/// The depth of the deepest search by scores.
pub const DEPTH: i8 = 10;

/// What the player keeps from move to move in a game.
pub struct Session {
    /// The estimated number of plies left in the game.
    pub count: u8,
    /// The color that the player has in the game.
    pub color: Color,
    /// Whether the opening book has failed to propose a move in this game.
    pub book_exhausted: bool,
    /// The time, in milliseconds, that the next move may take.
    pub budget: u64,
}

/// How the next move is found.
#[derive(Debug, Clone, Copy, PartialEq, Eq, Structural)]
pub enum Phase {
    /// From the opening book, and by a ladder of searches where the book
    /// proposes nothing.
    Book,
    /// By a ladder of searches.
    Ladder,
    /// By one search that ranks the moves, followed by an exact search
    /// where time is left.
    RankThenSolve,
    /// By an exact search.
    Solve,
}

impl Session {
    /// The count never rises above its value at the start of a game.
    pub open spec fn wf(&self) -> bool {
        self.count <= 64
    }

    /// The state before the first game.
    pub fn new() -> (s: Session)
        ensures
            s == (Session { count: 60, color: false, book_exhausted: false, budget: 0 }),
            s.wf(),
    {
        Session { count: 60, color: false, book_exhausted: false, budget: 0 }
    }

    /// The phase that the count of plies and the state of the book put the
    /// game in.
    pub open spec fn spec_phase(&self) -> Phase {
        if self.count >= 41 && !self.book_exhausted {
            Phase::Book
        } else if self.count >= 25 {
            Phase::Ladder
        } else if self.count > DEPTH {
            Phase::RankThenSolve
        } else {
            Phase::Solve
        }
    }

    /// The phase that the count of plies and the state of the book put the
    /// game in.
    pub fn phase(&self) -> (p: Phase)
        ensures
            p == self.spec_phase(),
    {
        if self.count >= 41 && !self.book_exhausted {
            Phase::Book
        } else if self.count >= 25 {
            Phase::Ladder
        } else if self.count > DEPTH as u8 {
            Phase::RankThenSolve
        } else {
            Phase::Solve
        }
    }
}

/// The time in milliseconds that a move may take when `time` milliseconds
/// are left on the clock and `count` plies are estimated to be left in the
/// game: what is left after 900 milliseconds for each of those plies and
/// 5000 more are set aside, and nothing where that is more than is left.
pub open spec fn time_budget(count: u8, time: u64) -> int {
    let reserve = count * 900 + 5000;
    if time > reserve {
        time - reserve
    } else {
        0
    }
}

/// Takes note of the time left on the clock and sets the time that the
/// next move may take.
pub fn set_time_remain(session: &mut Session, time: u64)
    ensures
        final(session).budget == time_budget(old(session).count, time),
        final(session).count == old(session).count,
        final(session).color == old(session).color,
        final(session).book_exhausted == old(session).book_exhausted,
{
    let limit = session.count as u64 * 900 + 5000;
    let remain = if time > limit {
        time - limit
    } else {
        0
    };
    session.budget = remain;
}

/// Starts a game in which the player has the color `color`.
pub fn init_ai(session: &mut Session, color: Color)
    ensures
        final(session).count == 64,
        final(session).color == color,
        final(session).book_exhausted == false,
        final(session).budget == old(session).budget,
        final(session).wf(),
{
    session.count = 64;
    session.color = color;
    session.book_exhausted = false;
}

/// Tells the searches that they are no longer cancelled.
pub fn clear_cancelled(cancel: &AtomicBool) {
    cancel.store(false, Ordering::Relaxed);
}

/// The move that stands for `action`: a pass for `(-1, -1)`, else the
/// placement on that cell.
pub open spec fn move_of(action: (i8, i8)) -> Move {
    if action.0 == -1 {
        Move::Pass
    } else {
        Move::Mv(action.0, action.1)
    }
}

/// Ends a turn: two plies fewer are left in the game, and the action found
/// becomes the move to play.
pub fn finish_turn(session: &mut Session, action: (i8, i8)) -> (m: Move)
    requires
        old(session).count >= 2,
    ensures
        m == move_of(action),
        final(session).count == old(session).count - 2,
        final(session).color == old(session).color,
        final(session).book_exhausted == old(session).book_exhausted,
        final(session).budget == old(session).budget,
{
    session.count = session.count - 2;
    if action.0 == -1 {
        Move::Pass
    } else {
        Move::Mv(action.0, action.1)
    }
}

/// Decides the move of the player `color` on `board`, by the means of the
/// phase that the game is in, with the workers of every search taking
/// their turns one after the other. The move is a pass where the player
/// has no legal move, and else a legal placement; while the book is
/// consulted and speaks for a move, it is one of the moves that the book
/// speaks for. Afterwards two plies fewer are left in the game, and the
/// book counts as exhausted if it did before or has now failed to propose
/// a move.
pub fn play(
    session: &mut Session,
    book: &OpeningBook,
    board: &Board,
    color: Color,
    _is_passed: bool,
    cancel: &AtomicBool,
) -> (m: Move)
    requires
        old(session).wf(),
        old(session).count >= 2,
        board_wf(*board),
    ensures
        legal_moves(*board, color).len() == 0 ==> m == Move::Pass,
        legal_moves(*board, color).len() > 0 ==> exists|i: int|
            0 <= i < legal_moves(*board, color).len() && m == Move::Mv(
                (#[trigger] legal_moves(*board, color)[i]).0,
                legal_moves(*board, color)[i].1,
            ),
        old(session).spec_phase() == Phase::Book && book_hits(
            *book,
            *board,
            color,
            legal_moves(*board, color).len() as int,
        ).len() > 0 ==> exists|i: int|
            0 <= i < book_hits(*book, *board, color, legal_moves(*board, color).len() as int).len()
                && m == move_of(
                (#[trigger] book_hits(
                    *book,
                    *board,
                    color,
                    legal_moves(*board, color).len() as int,
                )[i]).0,
            ),
        final(session).count == old(session).count - 2,
        final(session).color == old(session).color,
        final(session).budget == old(session).budget,
        final(session).book_exhausted == (old(session).book_exhausted || (old(
            session,
        ).spec_phase() == Phase::Book && book_hits(
            *book,
            *board,
            color,
            legal_moves(*board, color).len() as int,
        ).len() == 0)),
        final(session).wf(),
{
    clear_cancelled(cancel);
    let count = session.count;
    let best: (i8, i8);
    match session.phase() {
        Phase::Book => {
            let proposed = apply_joseki(book, board, color);
            proof {
                if legal_moves(*board, color).contains(proposed) {
                    let i = choose|i: int|
                        0 <= i < legal_moves(*board, color).len() && legal_moves(*board, color)[i]
                            == proposed;
                    lemma_legal_move(*board, color, i);
                }
            }
            if proposed.0 == -1 {
                session.book_exhausted = true;
                let mut depths: Vec<i8> = Vec::new();
                depths.push(DEPTH - 4);
                depths.push(DEPTH - 1);
                depths.push(DEPTH);
                best = nega_scout_action(board, color, depths, count, cancel);
            } else {
                best = proposed;
            }
        },
        Phase::Ladder => {
            let mut depths: Vec<i8> = Vec::new();
            depths.push(DEPTH - 4);
            depths.push(DEPTH - 1);
            depths.push(DEPTH);
            best = nega_scout_action(board, color, depths, count, cancel);
        },
        Phase::RankThenSolve => {
            let ordered = get_move_ordering_score(board, color);
            proof {
                lemma_ordered(*board, color);
            }
            let scores = nega_scout_actions(board, color, DEPTH, &ordered, count, cancel);
            proof {
                assert forall|k: int| 0 <= k < scores.len() implies taken_from(
                    #[trigger] scores[k],
                    candidates(*board, color),
                ) by {
                    assert(taken_from(scores[k], ordered@));
                    let j = choose|j: int|
                        0 <= j < ordered.len() && scores[k].1 == (#[trigger] ordered@[j]).1
                            && scores[k].2 == ordered@[j].2;
                    assert(taken_from(ordered@[j], candidates(*board, color)));
                    let a = choose|a: int|
                        0 <= a < candidates(*board, color).len() && ordered@[j].1 == (
                        #[trigger] candidates(*board, color)[a]).1 && ordered@[j].2 == candidates(
                            *board,
                            color,
                        )[a].2;
                    assert(scores[k].1 == candidates(*board, color)[a].1 && scores[k].2
                        == candidates(*board, color)[a].2);
                }
                assert forall|k: int| 0 <= k < scores.len() implies board_wf(
                    #[trigger] scores[k].2,
                ) && legal_moves(*board, color).contains(scores[k].1) by {
                    lemma_taken_is_legal(*board, color, scores[k]);
                }
            }
            if scores.len() == 0 {
                best = (-1, -1);
            } else if is_cancelled(cancel) {
                best = best_action(&scores);
            } else {
                best = read_final_action(color, &scores, cancel);
            }
        },
        Phase::Solve => {
            let scores = get_move_ordering_score(board, color);
            proof {
                lemma_ordered(*board, color);
                assert forall|k: int| 0 <= k < scores.len() implies board_wf(
                    #[trigger] scores[k].2,
                ) && legal_moves(*board, color).contains(scores[k].1) by {
                    lemma_taken_is_legal(*board, color, scores[k]);
                }
            }
            best = read_final_action(color, &scores, cancel);
        },
    }
    proof {
        if legal_moves(*board, color).len() > 0 {
            assert(legal_moves(*board, color).contains(best));
            let i = choose|i: int|
                0 <= i < legal_moves(*board, color).len() && legal_moves(*board, color)[i] == best;
            lemma_legal_move(*board, color, i);
        }
    }
    finish_turn(session, best)
}

/// The ordered candidates of a position are as many as its legal moves,
/// and each has the move and the board of one of its candidates.
proof fn lemma_ordered(board: Board, color: Color)
    requires
        board_wf(board),
    ensures
        crate::ordering::sort_desc(candidates(board, color)).len() == legal_moves(board, color).len(),
        forall|k: int|
            0 <= k < crate::ordering::sort_desc(candidates(board, color)).len() ==> taken_from(
                #[trigger] crate::ordering::sort_desc(candidates(board, color))[k],
                candidates(board, color),
            ) && board_wf(crate::ordering::sort_desc(candidates(board, color))[k].2),
{
    let all = candidates(board, color);
    let sorted = crate::ordering::sort_desc(all);
    lemma_sort_desc(all);
    assert forall|k: int| 0 <= k < sorted.len() implies taken_from(#[trigger] sorted[k], all)
        && board_wf(sorted[k].2) by {
        assert(sorted.contains(sorted[k]));
        let j = choose|j: int| 0 <= j < all.len() && all[j] == sorted[k];
        lemma_legal_move(board, color, j);
    }
}

} // verus!
