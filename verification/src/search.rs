//! The search by scores inside a window, and the value that it bounds.
use crate::eval::{evaluate, evaluation, lemma_evaluation_bounds};
use crate::ordering::{
    candidate_of, candidates, get_move_ordering_score, lemma_legal_move, lemma_sort_desc,
    sort_desc, Candidate,
};
use crate::play::{
    board_wf, get_result, legal_moves, mover_mask, opponent_mask, result_sign, stones, Board, Color,
};
use std::sync::atomic::AtomicBool;
use std::sync::atomic::Ordering;
use vstd::prelude::*;

verus! {

/// The score of a game that is won for certain; its negative, of one that
/// is lost.
pub const INF: i32 = 2147483647;

/// Whether the search has been told to stop.
pub fn is_cancelled(cancel: &AtomicBool) -> bool {
    cancel.load(Ordering::Relaxed)
}

/// The value of a position for the player `color` by full search to
/// `depth` plies. At depth 0 it is the score of the leaf, where `leaf` is
/// the estimated number of plies left in the game there. A player without
/// a legal move passes; after two passes in a row the game is over and is
/// worth `INF`, `-INF` or 0 by who has more stones. Otherwise it is the
/// best of what the legal moves lead to, each seen from the other side.
pub open spec fn negamax(
    board: Board,
    board_p: Board,
    color: Color,
    depth: int,
    leaf: int,
    passed: bool,
) -> int
    decreases depth, 2int, 0int,
{
    if depth <= 0 {
        evaluation(board, board_p, color, leaf)
    } else {
        let n = legal_moves(board, color).len() as int;
        if n == 0 {
            if passed {
                result_sign(board, color) * INF
            } else {
                -negamax(board, board_p, !color, depth - 1, leaf, true)
            }
        } else {
            best_reply(board, color, depth, leaf, n)
        }
    }
}

/// What the player `color` gets by moving from `board` to `child`, with
/// `depth` plies to search from `board`.
pub open spec fn reply_of(child: Board, board: Board, color: Color, depth: int, leaf: int) -> int
    decreases depth, 0int, 0int,
{
    if depth <= 0 {
        0
    } else {
        -negamax(child, board, !color, depth - 1, leaf, false)
    }
}

/// The best of what the first `n` legal moves of the player `color` get.
pub open spec fn best_reply(board: Board, color: Color, depth: int, leaf: int, n: int) -> int
    decreases depth, 1int, n,
{
    if depth <= 0 {
        0
    } else if n <= 1 {
        reply_of(candidate_of(board, color, 0).2, board, color, depth, leaf)
    } else {
        let rest = best_reply(board, color, depth, leaf, n - 1);
        let last = reply_of(candidate_of(board, color, n - 1).2, board, color, depth, leaf);
        if rest >= last {
            rest
        } else {
            last
        }
    }
}

/// The best reply is what one of the moves gets, and no move gets more.
pub proof fn lemma_best_reply(board: Board, color: Color, depth: int, leaf: int, n: int)
    requires
        depth > 0,
        n >= 1,
    ensures
        forall|i: int|
            0 <= i < n ==> #[trigger] reply_of(
                candidate_of(board, color, i).2,
                board,
                color,
                depth,
                leaf,
            ) <= best_reply(board, color, depth, leaf, n),
        exists|i: int|
            0 <= i < n && #[trigger] reply_of(
                candidate_of(board, color, i).2,
                board,
                color,
                depth,
                leaf,
            ) == best_reply(board, color, depth, leaf, n),
    decreases n,
{
    if n <= 1 {
        assert(reply_of(candidate_of(board, color, 0).2, board, color, depth, leaf) == best_reply(
            board,
            color,
            depth,
            leaf,
            n,
        ));
    } else {
        lemma_best_reply(board, color, depth, leaf, n - 1);
        let rest = best_reply(board, color, depth, leaf, n - 1);
        let last = reply_of(candidate_of(board, color, n - 1).2, board, color, depth, leaf);
        assert(last == reply_of(candidate_of(board, color, n - 1).2, board, color, depth, leaf));
        if rest >= last {
            let i = choose|i: int|
                0 <= i < n - 1 && #[trigger] reply_of(
                    candidate_of(board, color, i).2,
                    board,
                    color,
                    depth,
                    leaf,
                ) == rest;
            assert(reply_of(candidate_of(board, color, i).2, board, color, depth, leaf)
                == best_reply(board, color, depth, leaf, n));
        }
    }
}

/// What a result `v` of a search inside the window from `alpha` to `beta`
/// says of the value `exact` that the full search has: inside the window
/// it is that value; at or below `alpha` it is no less than that value; at
/// or above `beta` it is no more.
pub open spec fn within_window(v: int, exact: int, alpha: int, beta: int) -> bool {
    &&& -INF <= v <= INF
    &&& v <= alpha ==> exact <= v
    &&& v >= beta ==> exact >= v
    &&& alpha < v < beta ==> exact == v
}

/// The value of a position lies between the scores of a game lost and of a
/// game won for certain.
pub proof fn lemma_negamax_bounds(
    board: Board,
    board_p: Board,
    color: Color,
    depth: int,
    leaf: int,
    passed: bool,
)
    ensures
        -INF <= negamax(board, board_p, color, depth, leaf, passed) <= INF,
    decreases depth,
{
    if depth <= 0 {
        lemma_evaluation_bounds(board, board_p, color, leaf);
    } else {
        let n = legal_moves(board, color).len() as int;
        if n == 0 {
            if !passed {
                lemma_negamax_bounds(board, board_p, !color, depth - 1, leaf, true);
            }
        } else {
            lemma_best_reply(board, color, depth, leaf, n);
            let i = choose|i: int|
                0 <= i < n && #[trigger] reply_of(
                    candidate_of(board, color, i).2,
                    board,
                    color,
                    depth,
                    leaf,
                ) == best_reply(board, color, depth, leaf, n);
            lemma_negamax_bounds(
                candidate_of(board, color, i).2,
                board,
                !color,
                depth - 1,
                leaf,
                false,
            );
        }
    }
}

/// With the whole range of scores as its window, a search that comes to an
/// end finds the value that the full search to the same depth has.
pub proof fn lemma_full_window(
    board: Board,
    board_p: Board,
    color: Color,
    depth: int,
    leaf: int,
    passed: bool,
    v: int,
)
    requires
        within_window(v, negamax(board, board_p, color, depth, leaf, passed), -INF as int, INF as int),
    ensures
        v == negamax(board, board_p, color, depth, leaf, passed),
{
    lemma_negamax_bounds(board, board_p, color, depth, leaf, passed);
}

/// After two passes in a row the game is over: a player who cannot move
/// after the other has passed gets `INF`, `-INF` or 0 as that player has
/// more stones than the other, fewer, or as many.
pub proof fn lemma_double_pass(board: Board, board_p: Board, color: Color, depth: int, leaf: int)
    requires
        depth > 0,
        legal_moves(board, color).len() == 0,
    ensures
        negamax(board, board_p, color, depth, leaf, true) == result_sign(board, color) * INF,
        negamax(board, board_p, color, depth, leaf, true) > 0 <==> stones(mover_mask(board, color))
            > stones(opponent_mask(board, color)),
        negamax(board, board_p, color, depth, leaf, true) < 0 <==> stones(mover_mask(board, color))
            < stones(opponent_mask(board, color)),
{
}

/// The boards that a sorted list of candidates leads to are well formed,
/// none of them gets more than the best reply, and one of them gets it.
proof fn lemma_nodes(board: Board, color: Color, depth: int, leaf: int, nodes: Seq<Candidate>)
    requires
        board_wf(board),
        depth > 0,
        nodes == sort_desc(candidates(board, color)),
        nodes.len() > 0,
    ensures
        nodes.len() == legal_moves(board, color).len(),
        forall|k: int|
            0 <= k < nodes.len() ==> board_wf(#[trigger] nodes[k].2) && reply_of(
                nodes[k].2,
                board,
                color,
                depth,
                leaf,
            ) <= best_reply(board, color, depth, leaf, nodes.len() as int),
        exists|k: int|
            0 <= k < nodes.len() && reply_of(#[trigger] nodes[k].2, board, color, depth, leaf)
                == best_reply(board, color, depth, leaf, nodes.len() as int),
{
    let all = candidates(board, color);
    let n = nodes.len() as int;
    lemma_sort_desc(all);
    lemma_best_reply(board, color, depth, leaf, n);
    assert forall|k: int| 0 <= k < nodes.len() implies board_wf(#[trigger] nodes[k].2)
        && reply_of(nodes[k].2, board, color, depth, leaf) <= best_reply(
        board,
        color,
        depth,
        leaf,
        n,
    ) by {
        assert(nodes.contains(nodes[k]));
        assert(all.contains(nodes[k]));
        let i = choose|i: int| 0 <= i < all.len() && all[i] == nodes[k];
        lemma_legal_move(board, color, i);
        assert(nodes[k].2 == candidate_of(board, color, i).2);
    }
    let i = choose|i: int|
        0 <= i < n && #[trigger] reply_of(candidate_of(board, color, i).2, board, color, depth, leaf)
            == best_reply(board, color, depth, leaf, n);
    assert(all[i] == candidate_of(board, color, i));
    assert(all.contains(all[i]));
    assert(nodes.contains(all[i]));
    let k = choose|k: int| 0 <= k < nodes.len() && nodes[k] == all[i];
    assert(reply_of(nodes[k].2, board, color, depth, leaf) == best_reply(
        board,
        color,
        depth,
        leaf,
        n,
    ));
}

/// Searches the position to `depth` plies inside the window from `alpha`
/// to `beta`, best moves first: the first move with the whole window, each
/// later move with a window of width one and again with the rest of the
/// window where it turns out better than expected. Gives up with `None`
/// as soon as it finds the search cancelled. `initial_depth` is the depth
/// at which the search started and `count` the estimated number of plies
/// left in the game at that point.
pub fn nega_scout(
    board: &Board,
    board_p: &Board,
    color: Color,
    alpha: i32,
    beta: i32,
    depth: i8,
    initial_depth: i8,
    is_passed: bool,
    count: u8,
    cancel: &AtomicBool,
) -> (r: Option<i32>)
    requires
        board_wf(*board),
        -INF <= alpha < beta <= INF,
        0 <= depth <= initial_depth,
        count <= 127,
    ensures
        r matches Some(v) ==> within_window(
            v as int,
            negamax(*board, *board_p, color, depth as int, count - initial_depth, is_passed),
            alpha as int,
            beta as int,
        ),
        alpha == -INF && beta == INF ==> (r matches Some(v) ==> v == negamax(
            *board,
            *board_p,
            color,
            depth as int,
            count - initial_depth,
            is_passed,
        )),
        depth > 0 && is_passed && legal_moves(*board, color).len() == 0 ==> (r matches Some(v) ==> v
            == result_sign(*board, color) * INF),
    decreases depth, 1int,
{
    let cancelled = is_cancelled(cancel);
    nega_scout_node(
        board,
        board_p,
        color,
        alpha,
        beta,
        depth,
        initial_depth,
        is_passed,
        count,
        cancelled,
        cancel,
    )
}

/// The search of one position once the flag has been looked at:
/// `cancelled` is what was found. A cancelled search gives up at once. A
/// search that goes on returns the score of the leaf at depth 0, and the
/// score of the ended game where the player cannot move after a pass;
/// else it searches the moves, best first, and gives up where one of the
/// searches below it does.
pub fn nega_scout_node(
    board: &Board,
    board_p: &Board,
    color: Color,
    alpha: i32,
    beta: i32,
    depth: i8,
    initial_depth: i8,
    is_passed: bool,
    count: u8,
    cancelled: bool,
    cancel: &AtomicBool,
) -> (r: Option<i32>)
    requires
        board_wf(*board),
        -INF <= alpha < beta <= INF,
        0 <= depth <= initial_depth,
        count <= 127,
    ensures
        cancelled ==> r is None,
        !cancelled && depth == 0 ==> r == Some(
            evaluation(*board, *board_p, color, count - initial_depth) as i32,
        ),
        !cancelled && depth > 0 && is_passed && legal_moves(*board, color).len() == 0 ==> r == Some(
            (result_sign(*board, color) * INF) as i32,
        ),
        r matches Some(v) ==> within_window(
            v as int,
            negamax(*board, *board_p, color, depth as int, count - initial_depth, is_passed),
            alpha as int,
            beta as int,
        ),
        alpha == -INF && beta == INF ==> (r matches Some(v) ==> v == negamax(
            *board,
            *board_p,
            color,
            depth as int,
            count - initial_depth,
            is_passed,
        )),
        depth > 0 && is_passed && legal_moves(*board, color).len() == 0 ==> (r matches Some(v) ==> v
            == result_sign(*board, color) * INF),
    decreases depth, 0int,
{
    proof {
        lemma_negamax_bounds(
            *board,
            *board_p,
            color,
            depth as int,
            count - initial_depth,
            is_passed,
        );
    }
    if cancelled {
        return None;
    }
    if depth == 0 {
        return Some(evaluate(board, board_p, color, count as i8 + depth - initial_depth));
    }
    let ghost leaf: int = count - initial_depth;
    let nodes = get_move_ordering_score(board, color);
    proof {
        lemma_sort_desc(candidates(*board, color));
    }
    let mut lower = alpha;
    if nodes.len() == 0 {
        if is_passed {
            let res = get_result(board, color);
            return Some(res as i32 * INF);
        }
        let r = nega_scout(
            board,
            board_p,
            !color,
            -beta,
            -alpha,
            depth - 1,
            initial_depth,
            true,
            count,
            cancel,
        );
        return match r {
            Some(x) => Some(-x),
            None => None,
        };
    }
    let ghost best = best_reply(*board, color, depth as int, leaf, nodes.len() as int);
    proof {
        lemma_nodes(*board, color, depth as int, leaf, nodes@);
    }
    let first = nodes[0];
    let r = nega_scout(
        &first.2,
        board,
        !color,
        -beta,
        -alpha,
        depth - 1,
        initial_depth,
        false,
        count,
        cancel,
    );
    let v = match r {
        Some(x) => -x,
        None => {
            return None;
        },
    };
    let mut max = v;
    if beta <= v {
        return Some(v);
    }
    if lower < v {
        lower = v;
    }
    let mut k: usize = 1;
    while k < nodes.len()
        invariant
            1 <= k <= nodes.len(),
            0 < depth <= initial_depth,
            count <= 127,
            leaf == count - initial_depth,
            board_wf(*board),
            best == best_reply(*board, color, depth as int, leaf, nodes.len() as int),
            best == negamax(*board, *board_p, color, depth as int, leaf, is_passed),
            -INF <= best <= INF,
            legal_moves(*board, color).len() > 0,
            !cancelled,
            forall|j: int|
                0 <= j < nodes.len() ==> board_wf(#[trigger] nodes[j].2) && reply_of(
                    nodes[j].2,
                    *board,
                    color,
                    depth as int,
                    leaf,
                ) <= best,
            -INF <= alpha <= lower < beta <= INF,
            -INF <= max <= lower,
            lower == alpha || lower == max,
            forall|j: int|
                0 <= j < k ==> reply_of(#[trigger] nodes[j].2, *board, color, depth as int, leaf)
                    <= max,
            max > alpha ==> exists|j: int|
                0 <= j < k && reply_of(#[trigger] nodes[j].2, *board, color, depth as int, leaf)
                    == max,
        decreases nodes.len() - k,
    {
        let nboard = nodes[k].2;
        let ghost exact = reply_of(nboard, *board, color, depth as int, leaf);
        let r = nega_scout(
            &nboard,
            board,
            !color,
            -lower - 1,
            -lower,
            depth - 1,
            initial_depth,
            false,
            count,
            cancel,
        );
        let mut score = match r {
            Some(x) => -x,
            None => {
                return None;
            },
        };
        if beta <= score {
            return Some(score);
        }
        if lower < score {
            lower = score;
            let r = nega_scout(
                &nboard,
                board,
                !color,
                -beta,
                -lower,
                depth - 1,
                initial_depth,
                false,
                count,
                cancel,
            );
            score = match r {
                Some(x) => -x,
                None => {
                    return None;
                },
            };
            if beta <= score {
                return Some(score);
            }
            if lower < score {
                lower = score;
            }
            assert(exact == score);
        }
        if max < score {
            max = score;
        }
        k = k + 1;
    }
    proof {
        let j = choose|j: int|
            0 <= j < nodes.len() && reply_of(
                #[trigger] nodes[j].2,
                *board,
                color,
                depth as int,
                leaf,
            ) == best;
        assert(best <= max);
    }
    Some(max)
}

} // verus!
