//! Ranked-choice surveys: ballots are checked against a survey's choices and time window,
//! stored append-only, and reduced by instant-runoff elimination into rounds of per-option,
//! per-rank-position counts.
//!
//! - `ordinal`: the field names of rank positions ("top choice", "2nd choice", ...).
//! - `tally`: the elimination rounds, specified over plain sequences.
//! - `survey`: a survey's state, ballot submission and labelled results.
//! - `registry`: surveys by identifier, with identifiers that never repeat.
use vstd::prelude::*;

pub mod ordinal;
pub mod tally;
pub mod survey;
pub mod registry;

verus! {

} // verus!
