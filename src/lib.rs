//! Odds of completing a line on a five-by-five lottery card.
//!
//! The library counts, exactly, the ordered sequences of future draws that
//! complete a winning line, round after round, and exposes the count as a
//! pull-driven, cancellable engine.
pub mod perm;
pub mod lines;
pub mod search;
pub mod engine;
pub mod card;
pub mod agreement;
