//! The record of a game and the table of scores as text.
use crate::command::{move_text, push_char, Move};
use vstd::prelude::*;

verus! {

/// A move with the side that made it: this player or the opponent.
#[derive(Debug, PartialEq, Eq, Structural)]
pub enum OpMove {
    PMove(Move),
    OMove(Move),
}

/// The text of a move in the record of a game: `+` before a move of this
/// player, `-` before a move of the opponent.
pub open spec fn opmove_text(m: OpMove) -> Seq<char> {
    match m {
        OpMove::PMove(mv) => seq!['+'] + move_text(mv),
        OpMove::OMove(mv) => seq!['-'] + move_text(mv),
    }
}

impl OpMove {
    /// The move that was made.
    pub open spec fn the_move(&self) -> Move {
        match *self {
            OpMove::PMove(mv) => mv,
            OpMove::OMove(mv) => mv,
        }
    }

    /// The text of this move in the record of a game.
    pub fn string_of_opmove(&self) -> (r: String)
        requires
            self.the_move().wf(),
        ensures
            r@ == opmove_text(*self),
    {
        let mut r = String::new();
        match self {
            OpMove::PMove(mv) => {
                push_char(&mut r, '+');
                let text = mv.string_of_move();
                r.append(text.as_str());
            },
            OpMove::OMove(mv) => {
                push_char(&mut r, '-');
                let text = mv.string_of_move();
                r.append(text.as_str());
            },
        }
        assert(r@ =~= opmove_text(*self));
        r
    }
}

/// The text of the first `n` moves of a game, one after the other.
pub open spec fn hist_text(hist: Seq<OpMove>, n: int) -> Seq<char>
    decreases n,
{
    if n <= 0 {
        Seq::empty()
    } else {
        hist_text(hist, n - 1) + opmove_text(hist[n - 1])
    }
}

/// The record of a game as one text.
pub fn string_of_hist(hist: &Vec<OpMove>) -> (r: String)
    requires
        forall|i: int| 0 <= i < hist.len() ==> (#[trigger] hist[i]).the_move().wf(),
    ensures
        r@ == hist_text(hist@, hist.len() as int),
{
    let mut r = String::new();
    let mut i: usize = 0;
    while i < hist.len()
        invariant
            0 <= i <= hist.len(),
            forall|k: int| 0 <= k < hist.len() ==> (#[trigger] hist[k]).the_move().wf(),
            r@ == hist_text(hist@, i as int),
        decreases hist.len() - i,
    {
        let text = hist[i].string_of_opmove();
        r.append(text.as_str());
        i = i + 1;
    }
    r
}

/// The character of a digit.
pub open spec fn digit_char(d: int) -> char {
    (d + 48) as u8 as char
}

/// The decimal digits of a number that is not negative.
pub open spec fn digits_text(n: int) -> Seq<char>
    decreases n,
{
    if n < 10 {
        seq![digit_char(n)]
    } else {
        digits_text(n / 10).push(digit_char(n % 10))
    }
}

/// A number in decimal notation, with `-` before a negative one.
pub open spec fn decimal_text(n: int) -> Seq<char> {
    if n < 0 {
        seq!['-'] + digits_text(-n)
    } else {
        digits_text(n)
    }
}

/// A number in decimal notation. Trusted: formatting an `i32` with `{}`
/// gives its decimal digits without leading zeros, after a `-` where it
/// is negative.
#[verifier::external_body]
fn decimal_string(n: i32) -> (r: String)
    ensures
        r@ == decimal_text(n as int),
{
    format!("{}", n)
}

/// The number of bytes that a text takes, as the machine counts them.
pub open spec fn byte_len(text: Seq<char>) -> usize {
    vstd::utf8::encode_utf8(text).len() as usize
}

/// The length in bytes of the longest of the first `n` names.
pub open spec fn longest_name(scores: Seq<(String, (i32, i32, i32))>, n: int) -> int
    decreases n,
{
    if n <= 0 {
        0
    } else {
        let before = longest_name(scores, n - 1);
        let here = byte_len(scores[n - 1].0@) as int;
        if here > before {
            here
        } else {
            before
        }
    }
}

/// The length of the longest of the first `n` scores in decimal notation.
pub open spec fn longest_score(scores: Seq<(String, (i32, i32, i32))>, n: int) -> int
    decreases n,
{
    if n <= 0 {
        0
    } else {
        let before = longest_score(scores, n - 1);
        let here = decimal_text(scores[n - 1].1.0 as int).len() as int;
        if here > before {
            here
        } else {
            before
        }
    }
}

/// `n` spaces.
pub open spec fn spaces(n: int) -> Seq<char> {
    Seq::new(
        if n > 0 {
            n as nat
        } else {
            0
        },
        |i: int| ' ',
    )
}

/// The line of one player in the table of scores: the name and a colon,
/// then the score set flush right in a column one space away from the
/// longest name, then the games won and lost.
pub open spec fn score_line(entry: (String, (i32, i32, i32)), name_width: int, score_width: int) -> Seq<
    char,
> {
    entry.0@ + seq![':'] + spaces(name_width - byte_len(entry.0@)) + seq![' ']
        + spaces(score_width - decimal_text(entry.1.0 as int).len()) + decimal_text(
        entry.1.0 as int,
    ) + " (Win "@ + decimal_text(entry.1.1 as int) + ", Lose "@ + decimal_text(entry.1.2 as int)
        + ")\n"@
}

/// The first `n` lines of the table of scores.
pub open spec fn score_lines(
    scores: Seq<(String, (i32, i32, i32))>,
    n: int,
    name_width: int,
    score_width: int,
) -> Seq<char>
    decreases n,
{
    if n <= 0 {
        Seq::empty()
    } else {
        score_lines(scores, n - 1, name_width, score_width) + score_line(
            scores[n - 1],
            name_width,
            score_width,
        )
    }
}

/// Appends `n` spaces.
fn pad(r: &mut String, n: usize)
    ensures
        final(r)@ == old(r)@ + spaces(n as int),
{
    let mut i: usize = 0;
    while i < n
        invariant
            0 <= i <= n,
            r@ == old(r)@ + spaces(i as int),
        decreases n - i,
    {
        push_char(r, ' ');
        i = i + 1;
        assert(r@ =~= old(r)@ + spaces(i as int));
    }
    assert(r@ =~= old(r)@ + spaces(n as int));
}

/// The table of scores at the end of a match: one line for every player,
/// with the scores in one column.
pub fn string_of_scores(scores: &Vec<(String, (i32, i32, i32))>) -> (r: String)
    ensures
        r@ == score_lines(
            scores@,
            scores.len() as int,
            longest_name(scores@, scores.len() as int),
            longest_score(scores@, scores.len() as int),
        ),
{
    let mut maxlen: usize = 0;
    let mut maxslen: usize = 0;
    let mut i: usize = 0;
    while i < scores.len()
        invariant
            0 <= i <= scores.len(),
            maxlen == longest_name(scores@, i as int),
            maxslen == longest_score(scores@, i as int),
        decreases scores.len() - i,
    {
        let len = scores[i].0.as_str().len();
        if len > maxlen {
            maxlen = len;
        }
        let slen = decimal_string(scores[i].1.0).as_str().unicode_len();
        if slen > maxslen {
            maxslen = slen;
        }
        i = i + 1;
    }
    let mut r = String::new();
    let mut i: usize = 0;
    while i < scores.len()
        invariant
            0 <= i <= scores.len(),
            maxlen == longest_name(scores@, scores.len() as int),
            maxslen == longest_score(scores@, scores.len() as int),
            r@ == score_lines(scores@, i as int, maxlen as int, maxslen as int),
        decreases scores.len() - i,
    {
        let ghost before = r@;
        let entry = &scores[i];
        let score = decimal_string(entry.1.0);
        let wins = decimal_string(entry.1.1);
        let loses = decimal_string(entry.1.2);
        proof {
            lemma_longest(scores@, scores.len() as int, i as int);
        }
        r.append(entry.0.as_str());
        push_char(&mut r, ':');
        pad(&mut r, maxlen - entry.0.as_str().len());
        push_char(&mut r, ' ');
        pad(&mut r, maxslen - score.as_str().unicode_len());
        r.append(score.as_str());
        r.append(" (Win ");
        r.append(wins.as_str());
        r.append(", Lose ");
        r.append(loses.as_str());
        r.append(")\n");
        proof {
            assert(r@ =~= before + score_line(scores@[i as int], maxlen as int, maxslen as int));
        }
        i = i + 1;
    }
    r
}

/// No name is longer than the longest name, and no score longer than the
/// longest score.
proof fn lemma_longest(scores: Seq<(String, (i32, i32, i32))>, n: int, i: int)
    requires
        0 <= i < n,
    ensures
        byte_len(scores[i].0@) <= longest_name(scores, n),
        decimal_text(scores[i].1.0 as int).len() <= longest_score(scores, n),
    decreases n,
{
    if i < n - 1 {
        lemma_longest(scores, n - 1, i);
    }
}

} // verus!
