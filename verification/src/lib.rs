//! A verified interpreter for tabletop dice-roll commands.
//!
//! A command string mixes dice terms (`2d20kh1`) with ordinary arithmetic.
//! The library locates every dice term, resolves it into kept and discarded
//! rolls, substitutes each term's kept total back into the text, and renders
//! a human-readable trace of the whole roll.  Everything except the calls
//! into the random-number generator and the infix arithmetic evaluator is
//! verified.

pub mod actions;
pub mod errors;
pub mod render;
pub mod resolve;
pub mod rolls;
pub mod scan;
pub mod text;
pub mod videos;
