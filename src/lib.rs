//! Runs a shell command template over the cartesian product of wordlists.
//!
//! The library holds the logic of a run: compiling a command template into
//! literal and placeholder segments, decomposing a linear job index into one
//! offset per wordlist, rendering the command of a job, handing out job
//! indices, and checking the configuration before any job starts.
use vstd::prelude::*;

pub mod indexer;
pub mod text;
pub mod wordlist;
pub mod template;
pub mod render;
pub mod dispatch;
pub mod config;
pub mod outcome;

verus! {

} // verus!
