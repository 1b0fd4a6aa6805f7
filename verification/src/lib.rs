//! The decision core of an Othello player: bitboard move generation with
//! its meaning cell by cell, a scoring of positions, a search by scores
//! inside a window, an exact search of the endgame, the pieces of a root
//! search that several workers share, an opening book, and the scheduler
//! that picks among them by the phase of the game.
pub mod ai;
pub mod bits;
pub mod book;
pub mod command;
pub mod command_parser;
pub mod endgame;
pub mod eval;
pub mod geometry;
pub mod lines;
pub mod logbook;
pub mod ordering;
pub mod play;
pub mod report;
pub mod root;
pub mod search;
pub mod symmetry;
