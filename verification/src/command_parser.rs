//! Reading the messages of the game protocol from lines of text.
use crate::command::{Command, CommandText, Move, Wl};
use crate::play::Color;
use vstd::prelude::*;

verus! {

/// The words of a line: its runs of characters other than white space, in
/// order. What counts as white space is what `str::split_whitespace`
/// takes for it, the characters with the Unicode property White_Space.
pub uninterp spec fn words(line: Seq<char>) -> Seq<Seq<char>>;

/// The words of a line. Trusted: `str::split_whitespace` yields the
/// substrings of the line that white space separates, in order; the
/// result is named, not described.
#[verifier::external_body]
pub(crate) fn split_words(line: &str) -> (r: Vec<String>)
    ensures
        r@.len() == words(line@).len(),
        forall|i: int| 0 <= i < r@.len() ==> (#[trigger] r@[i])@ == words(line@)[i],
{
    let mut r: Vec<String> = Vec::new();
    for w in line.split_whitespace() {
        r.push(w.to_string());
    }
    r
}

/// The value of a run of decimal digits.
pub open spec fn digits_value(s: Seq<char>) -> int
    decreases s.len(),
{
    if s.len() == 0 {
        0
    } else {
        digits_value(s.drop_last()) * 10 + (s.last() as int - '0' as int)
    }
}

/// Whether `s` is a run of at least one decimal digit.
pub open spec fn is_digits(s: Seq<char>) -> bool {
    s.len() > 0 && forall|i: int| 0 <= i < s.len() ==> '0' <= #[trigger] s[i] <= '9'
}

/// The number that a word stands for: an optional sign `+` or `-`, then
/// decimal digits and nothing else, with a value that a 32-bit integer
/// holds.
pub open spec fn decimal_i32(s: Seq<char>) -> Option<i32> {
    let negative = s.len() > 0 && s[0] == '-';
    let body = if s.len() > 0 && (s[0] == '-' || s[0] == '+') {
        s.drop_first()
    } else {
        s
    };
    let value = if negative {
        -digits_value(body)
    } else {
        digits_value(body)
    };
    if is_digits(body) && i32::MIN <= value <= i32::MAX {
        Some(value as i32)
    } else {
        None
    }
}

/// The number that a word stands for. Trusted: `str::parse::<i32>` accepts
/// an optional sign followed by decimal digits only, and fails on
/// anything else and on a value out of range.
#[verifier::external_body]
fn parse_i32(word: &str) -> (r: Option<i32>)
    ensures
        r == decimal_i32(word@),
{
    word.parse::<i32>().ok()
}

/// Whether the word is exactly `text`.
fn is_word(word: &String, text: &str) -> (r: bool)
    ensures
        r == (word@ == text@),
{
    let other = String::from_str(text);
    *word == other
}

/// The color that a word names.
pub open spec fn color_of(word: Seq<char>) -> Option<Color> {
    if word == "BLACK"@ {
        Some(true)
    } else if word == "WHITE"@ {
        Some(false)
    } else {
        None
    }
}

/// The color that a word names: `BLACK` is the first player, `WHITE` the
/// second.
pub fn color_from_string(word: &String) -> (r: Option<Color>)
    ensures
        r == color_of(word@),
{
    if is_word(word, "BLACK") {
        Some(true)
    } else if is_word(word, "WHITE") {
        Some(false)
    } else {
        None
    }
}

/// The end of a game that a word names.
pub open spec fn wl_of(word: Seq<char>) -> Option<Wl> {
    if word == "WIN"@ {
        Some(Wl::Win)
    } else if word == "LOSE"@ {
        Some(Wl::Lose)
    } else if word == "TIE"@ {
        Some(Wl::Tie)
    } else {
        None
    }
}

/// The end of a game that a word names.
pub fn wl_from_string(word: &String) -> (r: Option<Wl>)
    ensures
        r == wl_of(word@),
{
    if is_word(word, "WIN") {
        Some(Wl::Win)
    } else if is_word(word, "LOSE") {
        Some(Wl::Lose)
    } else if is_word(word, "TIE") {
        Some(Wl::Tie)
    } else {
        None
    }
}

/// The move that a word stands for: `PASS`, `GIVEUP`, or a placement given
/// by two characters of the basic Latin alphabet, counted from `A` and
/// from `1`. A word that is none of these stands for no move.
pub open spec fn move_of_word(word: Seq<char>) -> Option<Move> {
    if word == "PASS"@ {
        Some(Move::Pass)
    } else if word == "GIVEUP"@ {
        Some(Move::GiveUp)
    } else if word.len() >= 2 && (word[0] as u32) < 128 && (word[1] as u32) < 128 {
        Some(Move::Mv((word[0] as u32 - 65) as i8, (word[1] as u32 - 49) as i8))
    } else {
        None
    }
}

/// The move that a word stands for.
pub fn move_from_string(word: &String) -> (r: Option<Move>)
    ensures
        r == move_of_word(word@),
{
    if is_word(word, "PASS") {
        Some(Move::Pass)
    } else if is_word(word, "GIVEUP") {
        Some(Move::GiveUp)
    } else if word.as_str().unicode_len() >= 2 {
        let a = word.as_str().get_char(0) as u32;
        let b = word.as_str().get_char(1) as u32;
        if a < 128 && b < 128 {
            Some(Move::Mv(a as i8 - 65, b as i8 - 49))
        } else {
            None
        }
    } else {
        None
    }
}

/// The scores that the first `n` groups of four words after the first
/// word give: a group is a name and three numbers, and a group with a
/// word that is no number gives nothing.
pub open spec fn scores_of(ws: Seq<Seq<char>>, n: int) -> Seq<(Seq<char>, (i32, i32, i32))>
    decreases n,
{
    if n <= 0 {
        Seq::empty()
    } else {
        let before = scores_of(ws, n - 1);
        let g = 4 * n - 3;
        match (decimal_i32(ws[g + 1]), decimal_i32(ws[g + 2]), decimal_i32(ws[g + 3])) {
            (Some(score), Some(wins), Some(losses)) => before.push((ws[g], (score, wins, losses))),
            _ => before,
        }
    }
}

/// The message that a line of words stands for. The first word says what
/// kind of message it is; a line that is too short for its kind, or has a
/// word that is no number where one is due, or is of no known kind,
/// stands for the empty message. A line that names a move, a color or an
/// end of the game that there is not stands for no message at all.
pub open spec fn command_of(ws: Seq<Seq<char>>) -> Option<CommandText> {
    if ws.len() == 0 {
        Some(CommandText::Empty)
    } else if ws[0] == "MOVE"@ {
        if ws.len() >= 2 {
            match move_of_word(ws[1]) {
                Some(mv) => Some(CommandText::Move(mv)),
                None => None,
            }
        } else {
            Some(CommandText::Empty)
        }
    } else if ws[0] == "START"@ {
        if ws.len() >= 4 {
            match decimal_i32(ws[3]) {
                Some(time) => match color_of(ws[1]) {
                    Some(color) => Some(CommandText::Start(color, ws[2], time)),
                    None => None,
                },
                None => Some(CommandText::Empty),
            }
        } else {
            Some(CommandText::Empty)
        }
    } else if ws[0] == "ACK"@ {
        if ws.len() >= 2 {
            match decimal_i32(ws[1]) {
                Some(time) => Some(CommandText::Ack(time)),
                None => Some(CommandText::Empty),
            }
        } else {
            Some(CommandText::Empty)
        }
    } else if ws[0] == "END"@ {
        if ws.len() >= 5 {
            match (decimal_i32(ws[2]), decimal_i32(ws[3])) {
                (Some(n), Some(m)) => match wl_of(ws[1]) {
                    Some(wl) => Some(CommandText::End(wl, n, m, ws[4])),
                    None => None,
                },
                _ => Some(CommandText::Empty),
            }
        } else {
            Some(CommandText::Empty)
        }
    } else if ws[0] == "BYE"@ {
        Some(CommandText::Bye(scores_of(ws, (ws.len() - 1) / 4)))
    } else {
        Some(CommandText::Empty)
    }
}

/// The words as sequences of characters.
pub open spec fn texts(ws: Seq<String>) -> Seq<Seq<char>> {
    Seq::new(ws.len(), |i: int| ws[i]@)
}

/// Whether `r` is the message `expected`, or no message where none is
/// expected.
pub open spec fn is_command(r: Option<Command>, expected: Option<CommandText>) -> bool {
    match r {
        Some(c) => expected == Some(c@),
        None => expected is None,
    }
}

/// The message that a line of words stands for.
pub fn command_from_words(ws: &Vec<String>) -> (r: Option<Command>)
    ensures
        is_command(r, command_of(texts(ws@))),
{
    let ghost t = texts(ws@);
    if ws.len() == 0 {
        return Some(Command::Empty);
    }
    if is_word(&ws[0], "MOVE") {
        if ws.len() >= 2 {
            return match move_from_string(&ws[1]) {
                Some(mv) => Some(Command::Move(mv)),
                None => None,
            };
        }
    } else if is_word(&ws[0], "START") {
        if ws.len() >= 4 {
            match parse_i32(ws[3].as_str()) {
                Some(time) => {
                    return match color_from_string(&ws[1]) {
                        Some(color) => Some(Command::Start(color, ws[2].clone(), time)),
                        None => None,
                    };
                },
                None => {},
            }
        }
    } else if is_word(&ws[0], "ACK") {
        if ws.len() >= 2 {
            match parse_i32(ws[1].as_str()) {
                Some(time) => {
                    return Some(Command::Ack(time));
                },
                None => {},
            }
        }
    } else if is_word(&ws[0], "END") {
        if ws.len() >= 5 {
            let n = parse_i32(ws[2].as_str());
            let m = parse_i32(ws[3].as_str());
            match (n, m) {
                (Some(n), Some(m)) => {
                    return match wl_from_string(&ws[1]) {
                        Some(wl) => Some(Command::End(wl, n, m, ws[4].clone())),
                        None => None,
                    };
                },
                _ => {},
            }
        }
    } else if is_word(&ws[0], "BYE") {
        let mut stat: Vec<(String, (i32, i32, i32))> = Vec::new();
        let groups = (ws.len() - 1) / 4;
        let mut g: usize = 0;
        while g < groups
            invariant
                0 <= g <= groups,
                groups == (ws.len() - 1) / 4,
                t == texts(ws@),
                Seq::new(stat@.len(), |i: int| (stat@[i].0@, stat@[i].1)) == scores_of(t, g as int),
            decreases groups - g,
        {
            let at = 4 * g + 1;
            let score = parse_i32(ws[at + 1].as_str());
            let wins = parse_i32(ws[at + 2].as_str());
            let loses = parse_i32(ws[at + 3].as_str());
            let ghost before = Seq::new(stat@.len(), |i: int| (stat@[i].0@, stat@[i].1));
            match (score, wins, loses) {
                (Some(score), Some(wins), Some(loses)) => {
                    stat.push((ws[at].clone(), (score, wins, loses)));
                    proof {
                        assert(Seq::new(stat@.len(), |i: int| (stat@[i].0@, stat@[i].1))
                            =~= before.push((t[at as int], (score, wins, loses))));
                    }
                },
                _ => {},
            }
            g = g + 1;
        }
        return Some(Command::Bye(stat));
    }
    Some(Command::Empty)
}

/// The message that a line stands for.
pub fn parse_command(line: &String) -> (r: Option<Command>)
    ensures
        is_command(r, command_of(words(line@))),
{
    let ws = split_words(line.as_str());
    proof {
        assert(texts(ws@) =~= words(line@));
    }
    command_from_words(&ws)
}

} // verus!
