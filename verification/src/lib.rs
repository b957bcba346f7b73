//! Exhaustive solver for a two-player stacking game on a three-by-three board.
//!
//! Each player owns two small, two medium and two large figures. A move brings a
//! figure in from the reserve or moves a figure that lies on top; a figure may be set
//! on any cell that holds none of its size, and the largest figure of a cell lies on
//! top. Whoever fills a line of three cells with the own colour on top wins.
//!
//! The solver visits the boards that can be reached from a start, breadth first and up
//! to quarter turns, and carries every decided game back to the boards it was reached
//! from.
//!
//! - [`codec`] packs a position into one integer.
//! - [`rules`] reads squares and lines.
//! - [`canonical`] turns boards and picks the smallest of the four turns.
//! - [`moves`] lists the moves of a board.
//! - [`outcome`] keeps the table of visited boards and carries waves through it.
//! - [`select`] picks the best of the boards that one move reaches.
//! - [`explore`] visits the boards.
//! - [`tally`], [`counts`], [`edges`], [`verdicts`] and [`sound`] hold what is proved of
//!   a search: the counts never run over, every move is accounted for, and the outcomes
//!   are true of the game.

pub mod codec;
pub mod rules;
pub mod canonical;
pub mod moves;
pub mod tally;
pub mod outcome;
pub mod select;
pub mod counts;
pub mod edges;
pub mod verdicts;
pub mod sound;
pub mod explore;
