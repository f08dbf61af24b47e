//! Enumeration of "bad games" in a Wordle-like word game: chains of guesses that
//! share no letter with the answer nor with each other.
//!
//! - `encode`: words to 26-bit letter masks.
//! - `pool`: the sorted guess pool and the reverse index from masks to words.
//! - `search`: the pruned depth-first search for letter-disjoint chains.
//! - `dispatch`: one independent search per answer, run in parallel.

pub mod encode;
pub mod search;
pub mod pool;
pub mod dispatch;
pub mod report;
