//! The exact search that plays a game out to its end, and its root.
use crate::ordering::{
    candidate_of, candidates, get_move_ordering_score, lemma_legal_move, lemma_sort_desc,
    sort_desc, Candidate,
};
use crate::play::{
    board_wf, empties, get_result, legal_moves, lemma_empties, result_sign, Board, Color,
};
use crate::root::{chunk_of, lemma_chunk_of, round_robin, THREAD_NUM};
use crate::search::is_cancelled;
use std::sync::atomic::AtomicBool;
use std::sync::atomic::AtomicI8;
use std::sync::atomic::Ordering;
use vstd::prelude::*;

verus! {

/// How the game ends for the player `color` when both sides play as well
/// as can be played: 1 for a win, -1 for a loss, 0 for a tie. `empty` is
/// the number of empty cells. A player without a legal move passes; after
/// two passes in a row the player with more stones has won. Otherwise the
/// player gets the best of what the legal moves lead to, each seen from
/// the other side.
pub open spec fn outcome(board: Board, color: Color, passed: bool, empty: int) -> int
    decreases empty, if passed {
        2int
    } else {
        3int
    }, 0int,
{
    let n = legal_moves(board, color).len() as int;
    if n == 0 {
        if passed {
            result_sign(board, color)
        } else {
            -outcome(board, !color, true, empty)
        }
    } else if empty <= 0 {
        0
    } else {
        best_outcome(board, color, empty, n)
    }
}

/// How the game ends for the player `color` after moving from a board with
/// `empty` empty cells to `child`.
pub open spec fn outcome_of(child: Board, color: Color, empty: int) -> int
    decreases empty, 0int, 0int,
{
    if empty <= 0 {
        0
    } else {
        -outcome(child, !color, false, empty - 1)
    }
}

/// The best of the ends that the first `n` legal moves lead to.
pub open spec fn best_outcome(board: Board, color: Color, empty: int, n: int) -> int
    decreases empty, 1int, n,
{
    if empty <= 0 {
        0
    } else if n <= 1 {
        outcome_of(candidate_of(board, color, 0).2, color, empty)
    } else {
        let rest = best_outcome(board, color, empty, n - 1);
        let last = outcome_of(candidate_of(board, color, n - 1).2, color, empty);
        if rest >= last {
            rest
        } else {
            last
        }
    }
}

/// The best end is the end of one of the moves, and no move ends better.
pub proof fn lemma_best_outcome(board: Board, color: Color, empty: int, n: int)
    requires
        empty > 0,
        n >= 1,
    ensures
        forall|i: int|
            0 <= i < n ==> #[trigger] outcome_of(candidate_of(board, color, i).2, color, empty)
                <= best_outcome(board, color, empty, n),
        exists|i: int|
            0 <= i < n && #[trigger] outcome_of(candidate_of(board, color, i).2, color, empty)
                == best_outcome(board, color, empty, n),
    decreases n,
{
    if n <= 1 {
        assert(outcome_of(candidate_of(board, color, 0).2, color, empty) == best_outcome(
            board,
            color,
            empty,
            n,
        ));
    } else {
        lemma_best_outcome(board, color, empty, n - 1);
        let rest = best_outcome(board, color, empty, n - 1);
        let last = outcome_of(candidate_of(board, color, n - 1).2, color, empty);
        assert(last == outcome_of(candidate_of(board, color, n - 1).2, color, empty));
        if rest >= last {
            let i = choose|i: int|
                0 <= i < n - 1 && #[trigger] outcome_of(
                    candidate_of(board, color, i).2,
                    color,
                    empty,
                ) == rest;
            assert(outcome_of(candidate_of(board, color, i).2, color, empty) == best_outcome(
                board,
                color,
                empty,
                n,
            ));
        }
    }
}

/// A game ends in a win, a loss or a tie.
pub proof fn lemma_outcome_bounds(board: Board, color: Color, passed: bool, empty: int)
    ensures
        -1 <= outcome(board, color, passed, empty) <= 1,
    decreases empty, if passed {
        0int
    } else {
        1int
    },
{
    let n = legal_moves(board, color).len() as int;
    if n == 0 {
        if !passed {
            lemma_outcome_bounds(board, !color, true, empty);
        }
    } else if empty > 0 {
        lemma_best_outcome(board, color, empty, n);
        let i = choose|i: int|
            0 <= i < n && #[trigger] outcome_of(candidate_of(board, color, i).2, color, empty)
                == best_outcome(board, color, empty, n);
        lemma_outcome_bounds(candidate_of(board, color, i).2, !color, false, empty - 1);
    }
}

/// After two passes in a row the game is over, and the player with more
/// stones has won it.
pub proof fn lemma_double_pass_ends(board: Board, color: Color, empty: int)
    requires
        legal_moves(board, color).len() == 0,
    ensures
        outcome(board, color, true, empty) == result_sign(board, color),
{
}

/// The boards that a sorted list of candidates leads to are well formed and
/// have one empty cell less; none of them ends better than the best end,
/// and one of them ends so.
proof fn lemma_solver_nodes(board: Board, color: Color, nodes: Seq<Candidate>)
    requires
        board_wf(board),
        nodes == sort_desc(candidates(board, color)),
        nodes.len() > 0,
    ensures
        empties(board) > 0,
        nodes.len() == legal_moves(board, color).len(),
        forall|k: int|
            0 <= k < nodes.len() ==> board_wf(#[trigger] nodes[k].2) && empties(nodes[k].2)
                == empties(board) - 1 && outcome_of(nodes[k].2, color, empties(board))
                <= best_outcome(board, color, empties(board), nodes.len() as int),
        exists|k: int|
            0 <= k < nodes.len() && outcome_of(#[trigger] nodes[k].2, color, empties(board))
                == best_outcome(board, color, empties(board), nodes.len() as int),
{
    let all = candidates(board, color);
    let n = nodes.len() as int;
    let empty = empties(board);
    lemma_sort_desc(all);
    lemma_empties(board);
    lemma_legal_move(board, color, 0);
    lemma_empties(candidate_of(board, color, 0).2);
    lemma_best_outcome(board, color, empty, n);
    assert forall|k: int| 0 <= k < nodes.len() implies board_wf(#[trigger] nodes[k].2) && empties(
        nodes[k].2,
    ) == empties(board) - 1 && outcome_of(nodes[k].2, color, empty) <= best_outcome(
        board,
        color,
        empty,
        n,
    ) by {
        assert(nodes.contains(nodes[k]));
        assert(all.contains(nodes[k]));
        let i = choose|i: int| 0 <= i < all.len() && all[i] == nodes[k];
        lemma_legal_move(board, color, i);
        assert(nodes[k].2 == candidate_of(board, color, i).2);
    }
    let i = choose|i: int|
        0 <= i < n && #[trigger] outcome_of(candidate_of(board, color, i).2, color, empty)
            == best_outcome(board, color, empty, n);
    assert(all[i] == candidate_of(board, color, i));
    assert(all.contains(all[i]));
    assert(nodes.contains(all[i]));
    let k = choose|k: int| 0 <= k < nodes.len() && nodes[k] == all[i];
    assert(outcome_of(nodes[k].2, color, empty) == best_outcome(board, color, empty, n));
}

/// Plays the game out to its end and says how it ends for the player
/// `color`: 1 for a win, -1 for a loss, 0 for a tie. A win ends the search
/// of a position at once. Gives up with `None` as soon as it finds the
/// search cancelled.
pub fn read_final(board: &Board, color: Color, is_passed: bool, cancel: &AtomicBool) -> (r: Option<
    i8,
>)
    requires
        board_wf(*board),
    ensures
        r matches Some(v) ==> v == outcome(*board, color, is_passed, empties(*board)),
    decreases empties(*board), if is_passed {
        0int
    } else {
        1int
    }, 1int,
{
    let cancelled = is_cancelled(cancel);
    read_final_node(board, color, is_passed, cancelled, cancel)
}

/// The exact search of one position once the flag has been looked at:
/// `cancelled` is what was found. A cancelled search gives up at once. A
/// search that goes on says who has won where the player cannot move
/// after a pass; else it plays the moves out, and gives up where one of
/// the searches below it does.
pub fn read_final_node(
    board: &Board,
    color: Color,
    is_passed: bool,
    cancelled: bool,
    cancel: &AtomicBool,
) -> (r: Option<i8>)
    requires
        board_wf(*board),
    ensures
        cancelled ==> r is None,
        !cancelled && is_passed && legal_moves(*board, color).len() == 0 ==> r == Some(
            result_sign(*board, color) as i8,
        ),
        r matches Some(v) ==> v == outcome(*board, color, is_passed, empties(*board)),
    decreases empties(*board), if is_passed {
        0int
    } else {
        1int
    }, 0int,
{
    if cancelled {
        return None;
    }
    let ghost empty = empties(*board);
    proof {
        lemma_empties(*board);
        lemma_sort_desc(candidates(*board, color));
    }
    let nodes = get_move_ordering_score(board, color);
    if nodes.len() == 0 {
        if is_passed {
            return Some(get_result(board, color));
        }
        proof {
            lemma_outcome_bounds(*board, !color, true, empty);
        }
        return match read_final(board, !color, true, cancel) {
            Some(x) => Some(-x),
            None => None,
        };
    }
    let ghost best = best_outcome(*board, color, empty, nodes.len() as int);
    proof {
        lemma_solver_nodes(*board, color, nodes@);
    }
    let mut max_res: i8 = -1;
    let mut k: usize = 0;
    while k < nodes.len()
        invariant
            0 <= k <= nodes.len(),
            empty == empties(*board),
            empty > 0,
            best == best_outcome(*board, color, empty, nodes.len() as int),
            best == outcome(*board, color, is_passed, empty),
            forall|j: int|
                0 <= j < nodes.len() ==> board_wf(#[trigger] nodes[j].2) && empties(nodes[j].2)
                    == empty - 1 && outcome_of(nodes[j].2, color, empty) <= best,
            -1 <= max_res <= 1,
            forall|j: int| 0 <= j < k ==> outcome_of(#[trigger] nodes[j].2, color, empty) <= max_res,
            max_res > -1 ==> exists|j: int|
                0 <= j < k && outcome_of(#[trigger] nodes[j].2, color, empty) == max_res,
            !cancelled,
            legal_moves(*board, color).len() > 0,
        decreases nodes.len() - k,
    {
        let n_board = nodes[k].2;
        proof {
            lemma_outcome_bounds(n_board, !color, false, empty - 1);
            lemma_outcome_bounds(*board, color, is_passed, empty);
        }
        let res = match read_final(&n_board, !color, false, cancel) {
            Some(x) => -x,
            None => {
                return None;
            },
        };
        if res == 1 {
            return Some(1);
        }
        if res > max_res {
            max_res = res;
        }
        k = k + 1;
    }
    proof {
        lemma_outcome_bounds(*board, color, is_passed, empty);
        let j = choose|j: int|
            0 <= j < nodes.len() && outcome_of(#[trigger] nodes[j].2, color, empty) == best;
        lemma_outcome_bounds(nodes[j].2, !color, false, empty - 1);
        assert(best <= max_res);
    }
    Some(max_res)
}

/// A move with the end that it leads to.
pub type Solved = (i8, (i8, i8));

/// How the game ends for the player `color` after the move to `child`.
pub open spec fn solved_value(child: Board, color: Color) -> int {
    -outcome(child, !color, false, empties(child))
}

/// Raises the best end that the workers have found to `v` where it is
/// lower, and returns the best end as it then stands.
pub fn raise_level(best: &AtomicI8, v: i8) -> (r: i8)
    ensures
        v <= r,
{
    let old = best.fetch_max(v, Ordering::SeqCst);
    higher_level(old, v)
}

/// The best end after a move that ends in `v` has been solved: the better
/// of `v` and the best end `old` that was found.
pub fn higher_level(old: i8, v: i8) -> (r: i8)
    ensures
        r == (if old < v {
            v
        } else {
            old
        }),
{
    if old < v {
        v
    } else {
        old
    }
}

/// Solves one candidate of a worker, once the flag has been looked at:
/// `cancelled` is what was found. A cancelled search gives up at once; a
/// search that goes on plays the game out after the move, and gives up
/// where a search below it does.
pub fn solve_candidate(cand: &Candidate, color: Color, cancelled: bool, cancel: &AtomicBool) -> (r:
    Option<Solved>)
    requires
        board_wf(cand.2),
    ensures
        cancelled ==> r is None,
        r matches Some(s) ==> s.1 == cand.1 && s.0 == solved_value(cand.2, color),
{
    let n_board = cand.2;
    proof {
        lemma_outcome_bounds(n_board, !color, false, empties(n_board));
    }
    match read_final_node(&n_board, !color, false, cancelled, cancel) {
        Some(x) => Some((-x, cand.1)),
        None => None,
    }
}

/// One worker of an exact search. It plays the game out after each of its
/// candidates, in order, and stops when the search is cancelled or when
/// any worker has found a win; what it has solved until then it returns,
/// in order.
pub fn solve_worker(chunk: &Vec<Candidate>, color: Color, best: &AtomicI8, cancel: &AtomicBool) -> (res:
    Vec<Solved>)
    requires
        forall|k: int| 0 <= k < chunk.len() ==> board_wf(#[trigger] chunk[k].2),
    ensures
        res.len() <= chunk.len(),
        forall|k: int|
            0 <= k < res.len() ==> (#[trigger] res[k]).1 == chunk[k].1 && res[k].0 == solved_value(
                chunk[k].2,
                color,
            ),
{
    let mut res: Vec<Solved> = Vec::new();
    let mut k: usize = 0;
    while k < chunk.len()
        invariant_except_break
            res.len() == k,
        invariant
            0 <= k <= chunk.len(),
            forall|j: int| 0 <= j < chunk.len() ==> board_wf(#[trigger] chunk[j].2),
            forall|j: int|
                0 <= j < res.len() ==> (#[trigger] res[j]).1 == chunk[j].1 && res[j].0
                    == solved_value(chunk[j].2, color),
        ensures
            res.len() <= chunk.len(),
        decreases chunk.len() - k,
    {
        let cancelled = is_cancelled(cancel);
        let solved = match solve_candidate(&chunk[k], color, cancelled, cancel) {
            Some(s) => s,
            None => {
                break;
            },
        };
        res.push(solved);
        let level = raise_level(best, solved.0);
        if level >= 1 {
            break;
        }
        k = k + 1;
    }
    res
}

/// What the workers have solved, one worker after the other.
pub open spec fn gathered_solved(results: Seq<Vec<Solved>>) -> Seq<Solved>
    decreases results.len(),
{
    if results.len() == 0 {
        Seq::empty()
    } else {
        gathered_solved(results.drop_last()) + results.last()@
    }
}

/// The best end among `solved`, and `max` where none is better.
pub open spec fn best_end(solved: Seq<Solved>, max: int) -> int
    decreases solved.len(),
{
    if solved.len() == 0 {
        max
    } else {
        let before = best_end(solved.drop_last(), max);
        if solved.last().0 > before {
            solved.last().0 as int
        } else {
            before
        }
    }
}

/// The move to play after `solved` has been looked through from its
/// start, where `best` was the move to play and `max` its end before: a
/// move replaces the one before only where it ends better than all
/// before it.
pub open spec fn first_best(solved: Seq<Solved>, best: (i8, i8), max: int) -> (i8, i8)
    decreases solved.len(),
{
    if solved.len() == 0 {
        best
    } else if solved.last().0 > best_end(solved.drop_last(), max) {
        solved.last().1
    } else {
        first_best(solved.drop_last(), best, max)
    }
}

/// The move that an exact search plays: `(-1, -1)`, which stands for a
/// pass, without candidates; else the first solved move with the best
/// end, and the first candidate where no solved move ends better than a
/// loss.
pub fn pick_solved(scores: &Vec<Candidate>, results: &Vec<Vec<Solved>>) -> (r: (i8, i8))
    ensures
        scores.len() == 0 ==> r == (-1i8, -1i8),
        scores.len() > 0 ==> r == first_best(gathered_solved(results@), scores[0].1, -1),
{
    if scores.len() == 0 {
        return (-1, -1);
    }
    let mut best_action = scores[0].1;
    let mut max_res: i8 = -1;
    let ghost start = scores[0].1;
    let mut w: usize = 0;
    while w < results.len()
        invariant
            0 <= w <= results.len(),
            best_action == first_best(gathered_solved(results@.take(w as int)), start, -1),
            max_res == best_end(gathered_solved(results@.take(w as int)), -1),
        decreases results.len() - w,
    {
        let part = &results[w];
        let ghost before = gathered_solved(results@.take(w as int));
        let mut k: usize = 0;
        while k < part.len()
            invariant
                0 <= k <= part.len(),
                best_action == first_best(before + part@.take(k as int), start, -1),
                max_res == best_end(before + part@.take(k as int), -1),
            decreases part.len() - k,
        {
            let (res, action) = part[k];
            proof {
                let sofar = before + part@.take(k as int);
                assert(before + part@.take(k + 1) =~= sofar.push(part@[k as int]));
                assert(sofar.push(part@[k as int]).drop_last() =~= sofar);
            }
            if res > max_res {
                max_res = res;
                best_action = action;
            }
            k = k + 1;
        }
        proof {
            assert(part@.take(part.len() as int) =~= part@);
            assert(results@.take(w + 1).drop_last() =~= results@.take(w as int));
            assert(gathered_solved(results@.take(w + 1)) =~= before + part@);
        }
        w = w + 1;
    }
    proof {
        assert(results@.take(results.len() as int) =~= results@);
    }
    best_action
}

/// The move that looking through `solved` picks is `best` or one of the
/// solved moves that end better than `max`.
pub proof fn lemma_first_best_member(solved: Seq<Solved>, best: (i8, i8), max: int)
    ensures
        max <= best_end(solved, max),
        first_best(solved, best, max) == best || exists|k: int|
            0 <= k < solved.len() && (#[trigger] solved[k]).1 == first_best(solved, best, max)
                && solved[k].0 > max,
    decreases solved.len(),
{
    if solved.len() > 0 {
        let front = solved.drop_last();
        let r = first_best(solved, best, max);
        lemma_first_best_member(front, best, max);
        if solved.last().0 > best_end(front, max) {
            assert(solved[solved.len() - 1].1 == r);
        } else {
            if r != best {
                let k = choose|k: int|
                    0 <= k < front.len() && (#[trigger] front[k]).1 == r && front[k].0 > max;
                assert(solved[k].1 == r && solved[k].0 > max);
            }
        }
    }
}

/// An exact search over the candidates `scores`, with the workers taking
/// their turns one after the other. Without candidates the move is
/// `(-1, -1)`, which stands for a pass; else it is the move of one of the
/// candidates, and a move other than that of the first candidate only
/// where it ends in a tie or a win.
pub fn read_final_action(color: Color, scores: &Vec<Candidate>, cancel: &AtomicBool) -> (r: (
    i8,
    i8,
))
    requires
        forall|j: int| 0 <= j < scores.len() ==> board_wf(#[trigger] scores[j].2),
    ensures
        scores.len() == 0 ==> r == (-1i8, -1i8),
        scores.len() > 0 ==> r == scores[0].1 || exists|j: int|
            0 <= j < scores.len() && (#[trigger] scores[j]).1 == r && solved_value(
                scores[j].2,
                color,
            ) >= 0,
{
    if scores.len() == 0 {
        return (-1, -1);
    }
    let best = AtomicI8::new(-1);
    let chunks = round_robin(scores, THREAD_NUM);
    let ghost pred = |c: Solved|
        exists|j: int|
            0 <= j < scores.len() && (#[trigger] scores[j]).1 == c.1 && solved_value(
                scores[j].2,
                color,
            ) == c.0;
    let mut results: Vec<Vec<Solved>> = Vec::new();
    let mut w: usize = 0;
    while w < THREAD_NUM
        invariant
            0 <= w <= THREAD_NUM,
            results.len() == w,
            chunks.len() == THREAD_NUM,
            forall|j: int| 0 <= j < scores.len() ==> board_wf(#[trigger] scores[j].2),
            forall|i: int|
                0 <= i < THREAD_NUM ==> (#[trigger] chunks[i])@ == chunk_of(
                    scores@,
                    i,
                    THREAD_NUM as int,
                ),
            pred == |c: Solved|
                exists|j: int|
                    0 <= j < scores.len() && (#[trigger] scores[j]).1 == c.1 && solved_value(
                        scores[j].2,
                        color,
                    ) == c.0,
            forall|i: int, k: int|
                0 <= i < results.len() && 0 <= k < results[i].len() ==> pred(
                    #[trigger] results[i]@[k],
                ),
        decreases THREAD_NUM - w,
    {
        let chunk = &chunks[w];
        proof {
            lemma_chunk_of(scores@, w as int, THREAD_NUM as int);
            assert forall|k: int| 0 <= k < chunk.len() implies board_wf(#[trigger] chunk[k].2) by {
                assert(scores@.contains(chunk@[k]));
            }
        }
        let part = solve_worker(chunk, color, &best, cancel);
        proof {
            assert forall|k: int| 0 <= k < part.len() implies pred(#[trigger] part@[k]) by {
                assert(scores@.contains(chunk@[k]));
                let j = choose|j: int| 0 <= j < scores.len() && scores@[j] == chunk@[k];
                assert(scores[j].1 == part@[k].1 && solved_value(scores[j].2, color) == part@[k].0);
            }
        }
        results.push(part);
        w = w + 1;
    }
    let r = pick_solved(scores, &results);
    proof {
        let solved = gathered_solved(results@);
        lemma_first_best_member(solved, scores[0].1, -1);
        lemma_gathered_solved(results@, pred);
        if r != scores[0].1 {
            let k = choose|k: int|
                0 <= k < solved.len() && (#[trigger] solved[k]).1 == r && solved[k].0 > -1;
            assert(pred(solved[k]));
        }
    }
    r
}

/// What holds of every gathered move when it holds of every move of every
/// worker.
proof fn lemma_gathered_solved(results: Seq<Vec<Solved>>, pred: spec_fn(Solved) -> bool)
    requires
        forall|w: int, k: int|
            0 <= w < results.len() && 0 <= k < results[w].len() ==> pred(
                #[trigger] results[w]@[k],
            ),
    ensures
        forall|i: int|
            0 <= i < gathered_solved(results).len() ==> pred(#[trigger] gathered_solved(results)[i]),
    decreases results.len(),
{
    if results.len() > 0 {
        let front = results.drop_last();
        assert forall|w: int, k: int| 0 <= w < front.len() && 0 <= k < front[w].len() implies pred(
            #[trigger] front[w]@[k],
        ) by {
            assert(front[w] == results[w]);
        }
        lemma_gathered_solved(front, pred);
        assert forall|i: int| 0 <= i < gathered_solved(results).len() implies pred(
            #[trigger] gathered_solved(results)[i],
        ) by {
            if i >= gathered_solved(front).len() {
                let k = i - gathered_solved(front).len();
                assert(gathered_solved(results)[i] == results[results.len() - 1]@[k]);
            } else {
                assert(gathered_solved(results)[i] == gathered_solved(front)[i]);
            }
        }
    }
}

} // verus!
