//! The moves and the messages of the game protocol.
use crate::play::Color;
use vstd::prelude::*;

verus! {

/// How a game ended for this player.
#[derive(Debug, Clone, Copy, PartialEq, Eq, Structural)]
pub enum Wl {
    Win,
    Lose,
    Tie,
}

/// What a player does on a turn: place a stone on a cell, pass, or resign.
#[derive(Debug, PartialEq, Eq, Structural)]
pub enum Move {
    Mv(i8, i8),
    Pass,
    GiveUp,
}

/// A message of the game protocol.
#[derive(Debug)]
pub enum Command {
    Open(String),
    End(Wl, i32, i32, String),
    Move(Move),
    Start(Color, String, i32),
    Ack(i32),
    Bye(Vec<(String, (i32, i32, i32))>),
    Empty,
}

/// What a message holds, with every text as the sequence of its
/// characters.
pub enum CommandText {
    Open(Seq<char>),
    End(Wl, i32, i32, Seq<char>),
    Move(Move),
    Start(Color, Seq<char>, i32),
    Ack(i32),
    Bye(Seq<(Seq<char>, (i32, i32, i32))>),
    Empty,
}

impl View for Command {
    type V = CommandText;

    open spec fn view(&self) -> CommandText {
        match *self {
            Command::Open(name) => CommandText::Open(name@),
            Command::End(wl, n, m, reason) => CommandText::End(wl, n, m, reason@),
            Command::Move(mv) => CommandText::Move(mv),
            Command::Start(color, name, time) => CommandText::Start(color, name@, time),
            Command::Ack(time) => CommandText::Ack(time),
            Command::Bye(scores) => CommandText::Bye(
                Seq::new(scores@.len(), |i: int| (scores@[i].0@, scores@[i].1)),
            ),
            Command::Empty => CommandText::Empty,
        }
    }
}

/// The text of a move: a letter from `A` for the first coordinate and a
/// digit from `1` for the second, or one of the two fixed words.
pub open spec fn move_text(m: Move) -> Seq<char> {
    match m {
        Move::Pass => "PASS"@,
        Move::GiveUp => "GIVEUP"@,
        Move::Mv(i, j) => seq![((i + 65) as u8) as char, ((j + 49) as u8) as char],
    }
}

/// Appends one character. Trusted: `String::push` puts the character at the
/// end of the string and leaves the rest as it was.
#[verifier::external_body]
pub(crate) fn push_char(s: &mut String, c: char)
    ensures
        final(s)@ == old(s)@.push(c),
{
    s.push(c)
}

impl Move {
    /// A placement names a cell of the board; a pass and a resignation are
    /// always well formed.
    pub open spec fn wf(&self) -> bool {
        match *self {
            Move::Mv(i, j) => 0 <= i < 8 && 0 <= j < 8,
            _ => true,
        }
    }

    /// The text that stands for this move in the protocol.
    pub fn string_of_move(&self) -> (r: String)
        requires
            self.wf(),
        ensures
            r@ == move_text(*self),
    {
        match self {
            Move::Pass => String::from_str("PASS"),
            Move::GiveUp => String::from_str("GIVEUP"),
            Move::Mv(i, j) => {
                let ci = ((*i as u8) + 65u8) as char;
                let cj = ((*j as u8) + 49u8) as char;
                let mut r = String::new();
                push_char(&mut r, ci);
                push_char(&mut r, cj);
                assert(r@ =~= seq![ci, cj]);
                r
            },
        }
    }

    /// A copy of this move.
    pub fn clone(&self) -> (r: Move)
        ensures
            r == *self,
    {
        match self {
            Move::Pass => Move::Pass,
            Move::GiveUp => Move::GiveUp,
            Move::Mv(i, j) => Move::Mv(*i, *j),
        }
    }
}

} // verus!
