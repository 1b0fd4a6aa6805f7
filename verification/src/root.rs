//! The root of a search by scores: the candidates dealt out to workers
//! that share a bound, and the ranking of what they find.
use crate::ordering::{
    candidates, get_move_ordering_score, is_falling, lemma_legal_move, lemma_sort_desc,
    sort_by_score, sort_desc, Candidate,
};
use crate::play::{board_wf, legal_moves, Board, Color};
use crate::search::{
    is_cancelled, lemma_negamax_bounds, nega_scout_node, negamax, within_window, INF,
};
use std::sync::atomic::AtomicBool;
use std::sync::atomic::AtomicI32;
use std::sync::atomic::Ordering;
use vstd::prelude::*;

verus! {

/// How many workers share the candidates of a root search.
pub const THREAD_NUM: usize = 4;

/// The bound that the workers of a root search share, never below `-INF`.
pub fn shared_bound(alpha: &AtomicI32) -> (v: i32)
    ensures
        -INF <= v <= INF,
{
    let raw = alpha.load(Ordering::SeqCst);
    bound_of(raw)
}

/// Raises the shared bound to `score` where it is lower, and returns the
/// bound as it then stands.
pub fn raise_bound(alpha: &AtomicI32, score: i32) -> (v: i32)
    ensures
        score <= v,
{
    let old = alpha.fetch_max(score, Ordering::SeqCst);
    higher(old, score)
}

/// The bound that a value found in the shared cell stands for: the value
/// itself, and `-INF` where the value is lower than that.
pub fn bound_of(raw: i32) -> (v: i32)
    ensures
        v == (if raw < -INF {
            -INF as int
        } else {
            raw as int
        }),
{
    if raw < -INF {
        -INF
    } else {
        raw
    }
}

/// The bound after it has been raised to `score`: the higher of `score`
/// and the bound `old` that was found.
pub fn higher(old: i32, score: i32) -> (v: i32)
    ensures
        v == (if old < score {
            score
        } else {
            old
        }),
{
    if old < score {
        score
    } else {
        old
    }
}

/// The candidates that worker `i` of `step` workers takes: those at
/// `i`, `i + step`, `i + 2 * step` and so on.
pub open spec fn chunk_of(items: Seq<Candidate>, i: int, step: int) -> Seq<Candidate>
    decreases
            (if i < items.len() {
                items.len() - i
            } else {
                0
            }),
{
    if i < 0 || i >= items.len() || step <= 0 {
        Seq::empty()
    } else {
        seq![items[i]] + chunk_of(items, i + step, step)
    }
}

/// Every candidate of a chunk is one of the candidates that were shared
/// out.
pub proof fn lemma_chunk_of(items: Seq<Candidate>, i: int, step: int)
    ensures
        forall|k: int|
            0 <= k < chunk_of(items, i, step).len() ==> items.contains(
                #[trigger] chunk_of(items, i, step)[k],
            ),
    decreases
            (if i < items.len() {
                items.len() - i
            } else {
                0
            }),
{
    if !(i < 0 || i >= items.len() || step <= 0) {
        lemma_chunk_of(items, i + step, step);
        let rest = chunk_of(items, i + step, step);
        assert forall|k: int| 0 <= k < chunk_of(items, i, step).len() implies items.contains(
            #[trigger] chunk_of(items, i, step)[k],
        ) by {
            if k == 0 {
                assert(items[i] == chunk_of(items, i, step)[0]);
            } else {
                assert(chunk_of(items, i, step)[k] == rest[k - 1]);
            }
        }
    }
}

/// Deals the candidates out to `workers` workers in turn, so that strong
/// and weak candidates are spread evenly.
pub fn round_robin(items: &Vec<Candidate>, workers: usize) -> (chunks: Vec<Vec<Candidate>>)
    requires
        workers > 0,
    ensures
        chunks.len() == workers,
        forall|i: int| 0 <= i < workers ==> (#[trigger] chunks[i])@ == chunk_of(items@, i, workers as int),
{
    let len = items.len();
    let mut chunks: Vec<Vec<Candidate>> = Vec::new();
    let mut i: usize = 0;
    while i < workers
        invariant
            0 <= i <= workers,
            len == items.len(),
            chunks.len() == i,
            forall|w: int| 0 <= w < i ==> (#[trigger] chunks[w])@ == chunk_of(items@, w, workers as int),
        decreases workers - i,
    {
        let mut chunk: Vec<Candidate> = Vec::new();
        let mut j: usize = i;
        let mut more = j < len;
        while more
            invariant
                workers > 0,
                len == items.len(),
                i <= j,
                more ==> j < len,
                !more ==> chunk_of(items@, j as int, workers as int).len() == 0,
                chunk_of(items@, i as int, workers as int) == chunk@ + chunk_of(
                    items@,
                    j as int,
                    workers as int,
                ),
            decreases len - j + (if more {
                1int
            } else {
                0int
            }),
        {
            chunk.push(items[j]);
            proof {
                assert(chunk_of(items@, j as int, workers as int) == seq![items@[j as int]]
                    + chunk_of(items@, j + workers, workers as int));
                assert(chunk@ + chunk_of(items@, j + workers, workers as int) =~= chunk@.drop_last()
                    + (seq![items@[j as int]] + chunk_of(items@, j + workers, workers as int)));
            }
            if len - j <= workers {
                more = false;
                proof {
                    assert(chunk_of(items@, j + workers, workers as int).len() == 0);
                    assert(chunk_of(items@, i as int, workers as int) =~= chunk@);
                }
                j = len;
            } else {
                j = j + workers;
            }
        }
        proof {
            assert(chunk_of(items@, i as int, workers as int) =~= chunk@);
        }
        chunks.push(chunk);
        i = i + 1;
    }
    chunks
}

/// What the move to `child` is worth to the player `color` at the root of
/// a search to `depth` plies, with `count` plies estimated to be left in
/// the game.
pub open spec fn root_value(child: Board, board: Board, color: Color, depth: int, count: int) -> int {
    -negamax(child, board, !color, depth, count - depth, false)
}

/// `scored` is the candidate `c` with a score that is at least what its
/// move is worth.
pub open spec fn scores_candidate(
    scored: Candidate,
    c: Candidate,
    board: Board,
    color: Color,
    depth: int,
    count: int,
) -> bool {
    &&& scored.1 == c.1
    &&& scored.2 == c.2
    &&& root_value(c.2, board, color, depth, count) <= scored.0 <= INF
}

/// Searches the best-ordered candidate with the whole range of scores as
/// its window, and finds what its move is worth.
pub fn score_first(
    board: &Board,
    color: Color,
    depth: i8,
    count: u8,
    first: &Candidate,
    cancel: &AtomicBool,
) -> (r: Option<i32>)
    requires
        board_wf(first.2),
        0 <= depth,
        count <= 127,
    ensures
        r matches Some(v) ==> v == root_value(first.2, *board, color, depth as int, count as int)
            && -INF <= v <= INF,
{
    let cancelled = is_cancelled(cancel);
    root_score(&first.2, board, color, depth, count, -INF, INF, cancelled, cancel)
}

/// The score of the move to `child` at the root of a search to `depth`
/// plies, searched inside the window from `lo` to `hi`, once the flag has
/// been looked at: `cancelled` is what was found. A cancelled search
/// gives up at once; a search that goes on finds at depth 0 what the move
/// is worth, and deeper it gives up where a search below it does.
pub fn root_score(
    child: &Board,
    board: &Board,
    color: Color,
    depth: i8,
    count: u8,
    lo: i32,
    hi: i32,
    cancelled: bool,
    cancel: &AtomicBool,
) -> (r: Option<i32>)
    requires
        board_wf(*child),
        0 <= depth,
        count <= 127,
        -INF <= lo < hi <= INF,
    ensures
        cancelled ==> r is None,
        !cancelled && depth == 0 ==> r == Some(
            root_value(*child, *board, color, depth as int, count as int) as i32,
        ),
        r matches Some(v) ==> within_window(
            v as int,
            root_value(*child, *board, color, depth as int, count as int),
            lo as int,
            hi as int,
        ),
        lo == -INF && hi == INF ==> (r matches Some(v) ==> v == root_value(
            *child,
            *board,
            color,
            depth as int,
            count as int,
        )),
{
    proof {
        lemma_negamax_bounds(*child, *board, !color, depth as int, count - depth, false);
    }
    let r = nega_scout_node(
        child,
        board,
        !color,
        -hi,
        -lo,
        depth,
        depth,
        false,
        count,
        cancelled,
        cancel,
    );
    match r {
        Some(val) => Some(-val),
        None => None,
    }
}

/// What a worker makes of one candidate.
#[derive(Debug, Clone, Copy)]
pub enum Scouted {
    /// The search was cancelled, or a certain win was found elsewhere: the
    /// worker stops and the candidate goes without a score.
    Stop,
    /// The candidate is a certain win: it is scored, and the worker stops.
    Last(Candidate),
    /// The candidate is scored, and the worker goes on.
    Scored(Candidate),
}

/// Scores one candidate of a worker, once the shared bound and the flag
/// have been looked at: `alpha_v` and `cancelled` are what was found. The
/// candidate is searched with a window of width one above `alpha_v` and,
/// where it turns out better, again with the window above the bound as
/// it stands after it has been raised to that score. A cancelled search
/// stops the worker; at depth 0 a candidate that is worth no more than
/// `alpha_v` is scored with what it is worth.
pub fn scout_candidate(
    cand: &Candidate,
    board: &Board,
    color: Color,
    depth: i8,
    count: u8,
    alpha_v: i32,
    cancelled: bool,
    alpha: &AtomicI32,
    cancel: &AtomicBool,
) -> (r: Scouted)
    requires
        board_wf(cand.2),
        0 <= depth,
        count <= 127,
        -INF <= alpha_v < INF,
    ensures
        cancelled ==> r is Stop,
        !cancelled && depth == 0 && root_value(cand.2, *board, color, depth as int, count as int)
            <= alpha_v ==> (r matches Scouted::Scored(c) && c == (
            root_value(cand.2, *board, color, depth as int, count as int) as i32,
            cand.1,
            cand.2,
        )),
        r matches Scouted::Scored(c) ==> scores_candidate(
            c,
            *cand,
            *board,
            color,
            depth as int,
            count as int,
        ),
        r matches Scouted::Last(c) ==> c.0 == INF && scores_candidate(
            c,
            *cand,
            *board,
            color,
            depth as int,
            count as int,
        ),
{
    let action = cand.1;
    let nboard = cand.2;
    proof {
        lemma_negamax_bounds(nboard, *board, !color, depth as int, count - depth, false);
    }
    let mut score = match root_score(
        &nboard,
        board,
        color,
        depth,
        count,
        alpha_v,
        alpha_v + 1,
        cancelled,
        cancel,
    ) {
        Some(val) => val,
        None => {
            return Scouted::Stop;
        },
    };
    if alpha_v < score {
        let raised = raise_bound(alpha, score);
        if raised >= INF {
            if score >= INF {
                return Scouted::Last((score, action, nboard));
            }
            return Scouted::Stop;
        }
        let again = is_cancelled(cancel);
        score = match root_score(&nboard, board, color, depth, count, raised, INF, again, cancel) {
            Some(val) => val,
            None => {
                return Scouted::Stop;
            },
        };
        raise_bound(alpha, score);
    }
    Scouted::Scored((score, action, nboard))
}

/// One worker of a root search. It takes its candidates in order; each is
/// searched with a window of width one above the bound that the workers
/// share and, where it turns out better, again with the window above the
/// raised bound. The worker stops when the search is cancelled or when the
/// shared bound has reached the score of a certain win; what it has scored
/// until then it returns, in order.
pub fn scout_worker(
    chunk: &Vec<Candidate>,
    board: &Board,
    color: Color,
    depth: i8,
    count: u8,
    alpha: &AtomicI32,
    cancel: &AtomicBool,
) -> (res: Vec<Candidate>)
    requires
        forall|k: int| 0 <= k < chunk.len() ==> board_wf(#[trigger] chunk[k].2),
        0 <= depth,
        count <= 127,
    ensures
        res.len() <= chunk.len(),
        forall|k: int|
            0 <= k < res.len() ==> scores_candidate(
                #[trigger] res[k],
                chunk[k],
                *board,
                color,
                depth as int,
                count as int,
            ),
{
    let mut res: Vec<Candidate> = Vec::new();
    let mut k: usize = 0;
    while k < chunk.len()
        invariant_except_break
            res.len() == k,
        invariant
            0 <= k <= chunk.len(),
            0 <= depth,
            count <= 127,
            forall|j: int| 0 <= j < chunk.len() ==> board_wf(#[trigger] chunk[j].2),
            forall|j: int|
                0 <= j < res.len() ==> scores_candidate(
                    #[trigger] res[j],
                    chunk[j],
                    *board,
                    color,
                    depth as int,
                    count as int,
                ),
        ensures
            res.len() <= chunk.len(),
        decreases chunk.len() - k,
    {
        let alpha_v = shared_bound(alpha);
        if alpha_v >= INF {
            break;
        }
        let cancelled = is_cancelled(cancel);
        match scout_candidate(&chunk[k], board, color, depth, count, alpha_v, cancelled, alpha, cancel) {
            Scouted::Stop => {
                break;
            },
            Scouted::Last(c) => {
                res.push(c);
                break;
            },
            Scouted::Scored(c) => {
                res.push(c);
            },
        }
        k = k + 1;
    }
    res
}

/// The scored candidates of all workers, one worker after the other.
pub open spec fn gathered(results: Seq<Vec<Candidate>>) -> Seq<Candidate>
    decreases results.len(),
{
    if results.len() == 0 {
        Seq::empty()
    } else {
        gathered(results.drop_last()) + results.last()@
    }
}

/// The ranking of a root search: the first candidate with its score and
/// what the workers have scored, in falling order of score.
pub fn rank_candidates(first: Candidate, v: i32, results: &Vec<Vec<Candidate>>) -> (res: Vec<
    Candidate,
>)
    ensures
        res@ == sort_desc(seq![(v, first.1, first.2)] + gathered(results@)),
        res.len() >= 1,
{
    let mut res: Vec<Candidate> = Vec::new();
    res.push((v, first.1, first.2));
    let mut w: usize = 0;
    while w < results.len()
        invariant
            0 <= w <= results.len(),
            res@ == seq![(v, first.1, first.2)] + gathered(results@.take(w as int)),
        decreases results.len() - w,
    {
        let part = &results[w];
        let ghost before = res@;
        let mut k: usize = 0;
        while k < part.len()
            invariant
                0 <= k <= part.len(),
                res@ == before + part@.take(k as int),
            decreases part.len() - k,
        {
            res.push(part[k]);
            proof {
                assert(part@.take(k + 1) =~= part@.take(k as int).push(part@[k as int]));
                assert(res@ =~= before + part@.take(k + 1));
            }
            k = k + 1;
        }
        proof {
            assert(part@.take(part.len() as int) =~= part@);
            assert(results@.take(w + 1).drop_last() =~= results@.take(w as int));
            assert(res@ =~= seq![(v, first.1, first.2)] + gathered(results@.take(w + 1)));
        }
        w = w + 1;
    }
    proof {
        assert(results@.take(results.len() as int) =~= results@);
        lemma_sort_desc(res@);
    }
    sort_by_score(&mut res);
    res
}

/// What holds of every gathered candidate when it holds of every candidate
/// of every worker.
pub proof fn lemma_gathered(results: Seq<Vec<Candidate>>, pred: spec_fn(Candidate) -> bool)
    requires
        forall|w: int, k: int|
            0 <= w < results.len() && 0 <= k < results[w].len() ==> pred(
                #[trigger] results[w]@[k],
            ),
    ensures
        forall|i: int| 0 <= i < gathered(results).len() ==> pred(#[trigger] gathered(results)[i]),
    decreases results.len(),
{
    if results.len() > 0 {
        let front = results.drop_last();
        assert forall|w: int, k: int| 0 <= w < front.len() && 0 <= k < front[w].len() implies pred(
            #[trigger] front[w]@[k],
        ) by {
            assert(front[w] == results[w]);
        }
        lemma_gathered(front, pred);
        assert forall|i: int| 0 <= i < gathered(results).len() implies pred(
            #[trigger] gathered(results)[i],
        ) by {
            if i >= gathered(front).len() {
                let k = i - gathered(front).len();
                assert(gathered(results)[i] == results[results.len() - 1]@[k]);
            } else {
                assert(gathered(results)[i] == gathered(front)[i]);
            }
        }
    }
}

/// `c` is one of the candidates `items` with a score that is at least
/// what its move is worth.
pub open spec fn ranked(
    c: Candidate,
    items: Seq<Candidate>,
    board: Board,
    color: Color,
    depth: int,
    count: int,
) -> bool {
    exists|j: int|
        0 <= j < items.len() && #[trigger] scores_candidate(c, items[j], board, color, depth, count)
}

/// `c` has the move and the board of one of the candidates `items`.
pub open spec fn taken_from(c: Candidate, items: Seq<Candidate>) -> bool {
    exists|j: int| 0 <= j < items.len() && c.1 == (#[trigger] items[j]).1 && c.2 == items[j].2
}

/// A root search to `depth` plies over the candidates `scores`, with the
/// workers taking their turns one after the other. Without candidates
/// there is no result. Where the search is cancelled before the first
/// candidate is scored, the result is that candidate as it came. Otherwise
/// the result ranks, in falling order of score, the first candidate with
/// what its move is worth and every candidate that a worker has scored,
/// each with a score that is at least what its move is worth.
pub fn nega_scout_actions(
    board: &Board,
    color: Color,
    depth: i8,
    scores: &Vec<Candidate>,
    count: u8,
    cancel: &AtomicBool,
) -> (res: Vec<Candidate>)
    requires
        forall|j: int| 0 <= j < scores.len() ==> board_wf(#[trigger] scores[j].2),
        0 <= depth,
        count <= 127,
    ensures
        scores.len() == 0 ==> res.len() == 0,
        scores.len() > 0 ==> res.len() >= 1,
        forall|i: int| 0 <= i < res.len() ==> taken_from(#[trigger] res[i], scores@),
        scores.len() > 0 ==> res@ == seq![scores@[0]] || {
            &&& is_falling(res@)
            &&& res@.contains(
                (
                    root_value(scores[0].2, *board, color, depth as int, count as int) as i32,
                    scores[0].1,
                    scores[0].2,
                ),
            )
            &&& forall|i: int|
                0 <= i < res.len() ==> ranked(
                    #[trigger] res[i],
                    scores@,
                    *board,
                    color,
                    depth as int,
                    count as int,
                )
        },
{
    if scores.len() == 0 {
        return Vec::new();
    }
    let first = scores[0];
    let v = match score_first(board, color, depth, count, &first, cancel) {
        Some(val) => val,
        None => {
            let mut res: Vec<Candidate> = Vec::new();
            res.push(first);
            assert(res@ =~= seq![scores@[0]]);
            assert(taken_from(res[0], scores@));
            return res;
        },
    };
    let alpha = AtomicI32::new(v);
    let mut trail: Vec<Candidate> = Vec::new();
    let mut t: usize = 1;
    while t < scores.len()
        invariant
            1 <= t <= scores.len(),
            trail.len() == t - 1,
            forall|j: int| 0 <= j < trail.len() ==> trail[j] == scores[j + 1],
        decreases scores.len() - t,
    {
        trail.push(scores[t]);
        t = t + 1;
    }
    let chunks = round_robin(&trail, THREAD_NUM);
    let ghost pred = |c: Candidate| ranked(c, scores@, *board, color, depth as int, count as int);
    let mut results: Vec<Vec<Candidate>> = Vec::new();
    let mut w: usize = 0;
    while w < THREAD_NUM
        invariant
            0 <= w <= THREAD_NUM,
            results.len() == w,
            chunks.len() == THREAD_NUM,
            0 <= depth,
            count <= 127,
            forall|j: int| 0 <= j < scores.len() ==> board_wf(#[trigger] scores[j].2),
            trail.len() == scores.len() - 1,
            forall|j: int| 0 <= j < trail.len() ==> trail[j] == scores[j + 1],
            forall|i: int|
                0 <= i < THREAD_NUM ==> (#[trigger] chunks[i])@ == chunk_of(
                    trail@,
                    i,
                    THREAD_NUM as int,
                ),
            pred == |c: Candidate| ranked(c, scores@, *board, color, depth as int, count as int),
            forall|i: int, k: int|
                0 <= i < results.len() && 0 <= k < results[i].len() ==> pred(
                    #[trigger] results[i]@[k],
                ),
        decreases THREAD_NUM - w,
    {
        let chunk = &chunks[w];
        proof {
            lemma_chunk_of(trail@, w as int, THREAD_NUM as int);
            assert forall|k: int| 0 <= k < chunk.len() implies board_wf(#[trigger] chunk[k].2) by {
                assert(trail@.contains(chunk@[k]));
                let j = choose|j: int| 0 <= j < trail.len() && trail@[j] == chunk@[k];
                assert(trail[j] == scores[j + 1]);
            }
        }
        let part = scout_worker(chunk, board, color, depth, count, &alpha, cancel);
        proof {
            assert forall|k: int| 0 <= k < part.len() implies pred(#[trigger] part@[k]) by {
                assert(trail@.contains(chunk@[k]));
                let j = choose|j: int| 0 <= j < trail.len() && trail@[j] == chunk@[k];
                assert(trail[j] == scores[j + 1]);
                assert(scores_candidate(
                    part[k],
                    scores@[j + 1],
                    *board,
                    color,
                    depth as int,
                    count as int,
                ));
            }
        }
        results.push(part);
        w = w + 1;
    }
    let res = rank_candidates(first, v, &results);
    proof {
        let scored_first = (v, first.1, first.2);
        let all = seq![scored_first] + gathered(results@);
        lemma_gathered(results@, pred);
        lemma_sort_desc(all);
        assert(scores_candidate(
            scored_first,
            scores@[0],
            *board,
            color,
            depth as int,
            count as int,
        ));
        assert(pred(scored_first));
        assert(all[0] == scored_first);
        assert(all.contains(scored_first));
        assert forall|i: int| 0 <= i < res.len() implies ranked(
            #[trigger] res[i],
            scores@,
            *board,
            color,
            depth as int,
            count as int,
        ) && taken_from(res[i], scores@) by {
            assert(res@.contains(res[i]));
            assert(all.contains(res[i]));
            let a = choose|a: int| 0 <= a < all.len() && all[a] == res[i];
            if a > 0 {
                assert(all[a] == gathered(results@)[a - 1]);
            }
            assert(pred(res[i]));
            let j = choose|j: int|
                0 <= j < scores.len() && #[trigger] scores_candidate(
                    res[i],
                    scores@[j],
                    *board,
                    color,
                    depth as int,
                    count as int,
                );
            assert(res[i].1 == scores@[j].1 && res[i].2 == scores@[j].2);
        }
    }
    res
}

/// Whether a ladder of searches goes on to its next depth after a search
/// that ranked `scores`: not once a certain win is found, and not once the
/// search is cancelled.
pub fn ladder_goes_on(scores: &Vec<Candidate>, cancelled: bool) -> (r: bool)
    ensures
        r == (!(scores.len() > 0 && scores[0].0 == INF) && !cancelled),
{
    if scores.len() > 0 && scores[0].0 == INF {
        false
    } else {
        !cancelled
    }
}

/// The move that a ranking stands for: the move of its first candidate,
/// and `(-1, -1)`, which stands for a pass, where it is empty.
pub fn best_action(scores: &Vec<Candidate>) -> (r: (i8, i8))
    ensures
        r == (if scores.len() == 0 {
            (-1i8, -1i8)
        } else {
            scores[0].1
        }),
{
    if scores.len() == 0 {
        (-1, -1)
    } else {
        scores[0].1
    }
}

/// Picks a move by searching to each of the depths `depths` in turn, each
/// search ranking the candidates for the next. The ladder ends early once
/// a certain win is found or the search is cancelled. The move is a legal
/// move of the player `color`, and `(-1, -1)` where there is none.
pub fn nega_scout_action(
    board: &Board,
    color: Color,
    depths: Vec<i8>,
    count: u8,
    cancel: &AtomicBool,
) -> (r: (i8, i8))
    requires
        board_wf(*board),
        forall|i: int| 0 <= i < depths.len() ==> 0 <= #[trigger] depths[i],
        count <= 127,
    ensures
        legal_moves(*board, color).len() == 0 ==> r == (-1i8, -1i8),
        legal_moves(*board, color).len() > 0 ==> legal_moves(*board, color).contains(r),
{
    let mut scores = get_move_ordering_score(board, color);
    let ghost all = candidates(*board, color);
    proof {
        lemma_sort_desc(all);
        assert forall|i: int| 0 <= i < scores.len() implies taken_from(#[trigger] scores[i], all)
            && board_wf(scores[i].2) by {
            assert(scores@.contains(scores[i]));
            let j = choose|j: int| 0 <= j < all.len() && all[j] == scores[i];
            lemma_legal_move(*board, color, j);
        }
    }
    let mut i: usize = 0;
    while i < depths.len()
        invariant
            0 <= i <= depths.len(),
            board_wf(*board),
            count <= 127,
            all == candidates(*board, color),
            forall|k: int| 0 <= k < depths.len() ==> 0 <= #[trigger] depths[k],
            (scores.len() == 0) == (all.len() == 0),
            forall|k: int| 0 <= k < scores.len() ==> taken_from(#[trigger] scores[k], all),
        decreases depths.len() - i,
    {
        proof {
            assert forall|k: int| 0 <= k < scores.len() implies board_wf(#[trigger] scores[k].2) by {
                lemma_taken_is_legal(*board, color, scores[k]);
            }
        }
        let ghost before = scores@;
        scores = nega_scout_actions(board, color, depths[i], &scores, count, cancel);
        proof {
            assert forall|k: int| 0 <= k < scores.len() implies taken_from(
                #[trigger] scores[k],
                all,
            ) by {
                assert(taken_from(scores[k], before));
                let j = choose|j: int|
                    0 <= j < before.len() && scores[k].1 == (#[trigger] before[j]).1 && scores[k].2
                        == before[j].2;
                assert(taken_from(before[j], all));
                let a = choose|a: int|
                    0 <= a < all.len() && before[j].1 == (#[trigger] all[a]).1 && before[j].2
                        == all[a].2;
                assert(scores[k].1 == all[a].1 && scores[k].2 == all[a].2);
            }
        }
        if !ladder_goes_on(&scores, is_cancelled(cancel)) {
            break;
        }
        i = i + 1;
    }
    proof {
        if scores.len() > 0 {
            lemma_taken_is_legal(*board, color, scores[0]);
        }
    }
    best_action(&scores)
}

/// A candidate that has the move and the board of one of the candidates of
/// a position holds a legal move and a well-formed board.
pub proof fn lemma_taken_is_legal(board: Board, color: Color, c: Candidate)
    requires
        board_wf(board),
        taken_from(c, candidates(board, color)),
    ensures
        legal_moves(board, color).contains(c.1),
        board_wf(c.2),
{
    let all = candidates(board, color);
    let j = choose|j: int| 0 <= j < all.len() && c.1 == (#[trigger] all[j]).1 && c.2 == all[j].2;
    lemma_legal_move(board, color, j);
    assert(legal_moves(board, color)[j] == c.1);
}

} // verus!
