//! Candidate counting for a sequential word-guessing game.
//!
//! Given an ordered transcript of five-letter guesses whose final entry is
//! the hidden solution, the library replays the guesses, accumulates the
//! knowledge each one reveals about the solution, and counts how many
//! dictionary words remain consistent with that knowledge after every step.

pub mod detector;
