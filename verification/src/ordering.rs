//! Candidates for a move, and their order by a cheap value.
use crate::bits::{cells, count};
use crate::command::Move;
use crate::eval::mobility;
use crate::geometry::{legal_cell, on_board, stone};
use crate::play::{
    board_wf, do_move, legal_moves, lemma_moves_below, lemma_placed, mover_mask, moves_below,
    opponent_mask, placed, valid_mask, valid_moves, Board, Color,
};
use vstd::prelude::*;
use vstd::seq_lib::to_multiset_build;

verus! {

/// A move under consideration: its score, its cell and the board that it
/// leads to.
pub type Candidate = (i32, (i8, i8), Board);

/// `s`, kept in falling order of score, with `c` put behind every
/// candidate whose score is at least its own.
pub open spec fn insert_desc(s: Seq<Candidate>, c: Candidate) -> Seq<Candidate>
    decreases s.len(),
{
    if s.len() == 0 {
        seq![c]
    } else if s.last().0 >= c.0 {
        s.push(c)
    } else {
        insert_desc(s.drop_last(), c).push(s.last())
    }
}

/// The candidates of `s` in falling order of score; candidates with the
/// same score keep the order that they have in `s`.
pub open spec fn sort_desc(s: Seq<Candidate>) -> Seq<Candidate>
    decreases s.len(),
{
    if s.len() == 0 {
        Seq::empty()
    } else {
        insert_desc(sort_desc(s.drop_last()), s.last())
    }
}

/// Whether the scores of `s` never rise.
pub open spec fn is_falling(s: Seq<Candidate>) -> bool {
    forall|i: int, j: int| 0 <= i < j < s.len() ==> s[i].0 >= s[j].0
}

/// Inserting keeps the order, adds one candidate and loses none.
pub proof fn lemma_insert_desc(s: Seq<Candidate>, c: Candidate)
    requires
        is_falling(s),
    ensures
        is_falling(insert_desc(s, c)),
        insert_desc(s, c).len() == s.len() + 1,
        insert_desc(s, c).to_multiset() == s.to_multiset().insert(c),
        forall|x: Candidate| #[trigger]
            insert_desc(s, c).contains(x) <==> (x == c || s.contains(x)),
        s.len() > 0 ==> insert_desc(s, c)[0].0 >= s[0].0,
        insert_desc(s, c)[0].0 >= c.0,
    decreases s.len(),
{
    let r = insert_desc(s, c);
    if s.len() == 0 {
        assert(r[0] == c);
        assert(r.to_multiset() =~= s.to_multiset().insert(c)) by {
            assert(r =~= s.push(c));
            to_multiset_build(s, c);
        }
        assert forall|x: Candidate| #[trigger] r.contains(x) <==> (x == c || s.contains(x)) by {
            if x == c {
                assert(r[0] == x);
            }
        }
    } else if s.last().0 >= c.0 {
        to_multiset_build(s, c);
        assert forall|x: Candidate| #[trigger] r.contains(x) <==> (x == c || s.contains(x)) by {
            if x == c {
                assert(r[s.len() as int] == x);
            }
            if s.contains(x) {
                let i = choose|i: int| 0 <= i < s.len() && s[i] == x;
                assert(r[i] == x);
            }
            if r.contains(x) {
                let i = choose|i: int| 0 <= i < r.len() && r[i] == x;
                if i < s.len() {
                    assert(s[i] == x);
                }
            }
        }
    } else {
        let front = s.drop_last();
        let inner = insert_desc(front, c);
        assert(is_falling(front));
        lemma_insert_desc(front, c);
        assert(s =~= front.push(s.last()));
        to_multiset_build(front, s.last());
        to_multiset_build(inner, s.last());
        assert(r.to_multiset() =~= s.to_multiset().insert(c));
        assert forall|x: Candidate| #[trigger] r.contains(x) <==> (x == c || s.contains(x)) by {
            if r.contains(x) {
                let i = choose|i: int| 0 <= i < r.len() && r[i] == x;
                if i < inner.len() {
                    assert(inner.contains(x));
                    if front.contains(x) {
                        let k = choose|k: int| 0 <= k < front.len() && front[k] == x;
                        assert(s[k] == x);
                    }
                } else {
                    assert(s[s.len() - 1] == x);
                }
            }
            if x == c {
                assert(inner.contains(c));
                let i = choose|i: int| 0 <= i < inner.len() && inner[i] == c;
                assert(r[i] == x);
            }
            if s.contains(x) {
                let k = choose|k: int| 0 <= k < s.len() && s[k] == x;
                if k < front.len() {
                    assert(front[k] == x);
                    assert(inner.contains(x));
                    let i = choose|i: int| 0 <= i < inner.len() && inner[i] == x;
                    assert(r[i] == x);
                } else {
                    assert(r[inner.len() as int] == x);
                }
            }
        }
        assert forall|i: int, j: int| 0 <= i < j < r.len() implies r[i].0 >= r[j].0 by {
            if j == r.len() - 1 {
                assert(inner.contains(inner[i]));
                if inner[i] != c {
                    let k = choose|k: int| 0 <= k < front.len() && front[k] == inner[i];
                    assert(s[k].0 >= s[s.len() - 1].0);
                }
            }
        }
    }
}

/// Sorting leaves the candidates in falling order and neither adds nor
/// loses one.
pub proof fn lemma_sort_desc(s: Seq<Candidate>)
    ensures
        is_falling(sort_desc(s)),
        sort_desc(s).len() == s.len(),
        sort_desc(s).to_multiset() == s.to_multiset(),
        forall|x: Candidate| #[trigger] sort_desc(s).contains(x) <==> s.contains(x),
    decreases s.len(),
{
    if s.len() == 0 {
        assert(sort_desc(s) =~= s);
    } else {
        let front = s.drop_last();
        lemma_sort_desc(front);
        lemma_insert_desc(sort_desc(front), s.last());
        assert(s =~= front.push(s.last()));
        to_multiset_build(front, s.last());
        assert forall|x: Candidate| #[trigger] sort_desc(s).contains(x) <==> s.contains(x) by {
            if s.contains(x) {
                let k = choose|k: int| 0 <= k < s.len() && s[k] == x;
                if k < front.len() {
                    assert(front[k] == x);
                }
            }
            if front.contains(x) {
                let k = choose|k: int| 0 <= k < front.len() && front[k] == x;
                assert(s[k] == x);
            }
            if x == s.last() {
                assert(s[s.len() - 1] == x);
            }
        }
    }
}

/// Where `c` goes in a list in falling order: behind the last candidate
/// whose score is at least its own.
proof fn lemma_insert_at(s: Seq<Candidate>, c: Candidate, pos: int)
    requires
        0 <= pos <= s.len(),
        pos > 0 ==> s[pos - 1].0 >= c.0,
        forall|k: int| pos <= k < s.len() ==> s[k].0 < c.0,
    ensures
        insert_desc(s, c) == s.insert(pos, c),
    decreases s.len() - pos,
{
    if s.len() == 0 {
        assert(s.insert(pos, c) =~= seq![c]);
    } else if pos == s.len() {
        assert(s.insert(pos, c) =~= s.push(c));
    } else {
        lemma_insert_at(s.drop_last(), c, pos);
        assert(s.insert(pos, c) =~= s.drop_last().insert(pos, c).push(s.last()));
    }
}

/// Puts the candidates in falling order of score; candidates with the same
/// score keep their order.
pub fn sort_by_score(v: &mut Vec<Candidate>)
    ensures
        final(v)@ == sort_desc(old(v)@),
{
    let mut sorted: Vec<Candidate> = Vec::new();
    let n = v.len();
    let mut i: usize = 0;
    while i < n
        invariant
            0 <= i <= n,
            n == v.len(),
            sorted@ == sort_desc(v@.take(i as int)),
            v@ == old(v)@,
        decreases n - i,
    {
        let c = v[i];
        let mut pos: usize = sorted.len();
        while pos > 0 && sorted[pos - 1].0 < c.0
            invariant
                0 <= pos <= sorted.len(),
                forall|k: int| pos <= k < sorted.len() ==> sorted[k].0 < c.0,
            decreases pos,
        {
            pos = pos - 1;
        }
        proof {
            lemma_insert_at(sorted@, c, pos as int);
            assert(v@.take(i + 1).drop_last() =~= v@.take(i as int));
        }
        sorted.insert(pos, c);
        i = i + 1;
    }
    proof {
        assert(v@.take(n as int) =~= v@);
    }
    *v = sorted;
}

/// The value by which moves are tried in order: the fewer placements the
/// board leaves to the opponent of `color`, the higher.
pub open spec fn ordering_value(board: Board, color: Color) -> int {
    -mobility(mover_mask(board, !color), opponent_mask(board, !color))
}

/// The value by which moves are tried in order.
pub fn calc_move_ordering_value(board: &Board, color: Color) -> (r: i32)
    ensures
        r == ordering_value(*board, color),
        -64 <= r <= 0,
{
    let mask = valid_mask(board, !color);
    proof {
        let p = mover_mask(*board, !color);
        let o = opponent_mask(*board, !color);
        let legal = Set::new(|c: int| 0 <= c < 64 && legal_cell(p, o, c / 8, c % 8));
        assert forall|c: int| cells(mask).contains(c) <==> legal.contains(c) by {
            if 0 <= c < 64 {
                assert(stone(mask, c / 8, c % 8) <==> legal_cell(p, o, c / 8, c % 8));
            }
        }
        assert(cells(mask) =~= legal);
    }
    -(count(mask) as i32)
}

/// The candidate that the `i`-th legal move of the player `color` makes.
pub open spec fn candidate_of(board: Board, color: Color, i: int) -> Candidate {
    let m = legal_moves(board, color)[i];
    let next = placed(board, color, m.0 as int, m.1 as int);
    (ordering_value(next, color) as i32, m, next)
}

/// The candidates of the legal moves of the player `color`, in the order
/// of their cells.
pub open spec fn candidates(board: Board, color: Color) -> Seq<Candidate> {
    Seq::new(legal_moves(board, color).len(), |i: int| candidate_of(board, color, i))
}

/// Every legal move is a placement on an empty cell of the board, and the
/// board that it leads to is well formed.
pub proof fn lemma_legal_move(board: Board, color: Color, i: int)
    requires
        board_wf(board),
        0 <= i < legal_moves(board, color).len(),
    ensures
        legal_moves(board, color).len() <= 64,
        on_board(legal_moves(board, color)[i].0 as int, legal_moves(board, color)[i].1 as int),
        legal_cell(
            mover_mask(board, color),
            opponent_mask(board, color),
            legal_moves(board, color)[i].0 as int,
            legal_moves(board, color)[i].1 as int,
        ),
        board_wf(candidate_of(board, color, i).2),
        cells(candidate_of(board, color, i).2.0).len() + cells(
            candidate_of(board, color, i).2.1,
        ).len() == cells(board.0).len() + cells(board.1).len() + 1,
{
    let p = mover_mask(board, color);
    let o = opponent_mask(board, color);
    let m = legal_moves(board, color)[i];
    lemma_moves_below(p, o, 64);
    assert(moves_below(p, o, 64).contains(m));
    lemma_placed(board, color, m.0 as int, m.1 as int);
}

/// The legal moves of the player `color` with the boards that they lead
/// to, in falling order of the value by which moves are tried.
pub fn get_move_ordering_score(board: &Board, color: Color) -> (nodes: Vec<Candidate>)
    requires
        board_wf(*board),
    ensures
        nodes@ == sort_desc(candidates(*board, color)),
{
    let valid_moves = valid_moves(board, color);
    let mut nodes: Vec<Candidate> = Vec::new();
    let mut i: usize = 0;
    while i < valid_moves.len()
        invariant
            0 <= i <= valid_moves.len(),
            board_wf(*board),
            valid_moves@ == legal_moves(*board, color),
            nodes@ == candidates(*board, color).take(i as int),
        decreases valid_moves.len() - i,
    {
        let action = valid_moves[i];
        proof {
            lemma_legal_move(*board, color, i as int);
        }
        let mut n_board = *board;
        do_move(&mut n_board, &Move::Mv(action.0, action.1), color);
        let value = calc_move_ordering_value(&n_board, color);
        nodes.push((value, action, n_board));
        proof {
            assert(nodes@ =~= candidates(*board, color).take(i + 1));
        }
        i = i + 1;
    }
    proof {
        assert(nodes@ =~= candidates(*board, color));
    }
    sort_by_score(&mut nodes);
    nodes
}

} // verus!
