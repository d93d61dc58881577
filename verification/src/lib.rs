//! Tools for processing two-player battle logs: searching for battles by
//! participant, aggregating win/loss statistics per format, and anonymizing
//! logs for redistribution.
//!
//! The core is a directory-processing engine that hands each file's contents
//! to a handler, together with the three handlers.  All text is handled as
//! bytes; callers convert to and from `String` at the edge.

use vstd::prelude::*;

pub mod id;
pub mod bytes;
pub mod rewrite;
pub mod transcript;
pub mod pseudonym;
pub mod record;
pub mod anonymize;
pub mod extract;
pub mod search;
pub mod stats;
pub mod engine;
pub mod serialize;
pub mod parse;

verus! {

/// Errors a handler can produce while processing one log file.
#[derive(Debug)]
pub enum BattleToolsError {
    /// A file could not be read or written; the payload describes the failure.
    IOError(String),
    /// A log was malformed or structurally incomplete.
    InvalidLog(String),
}

} // verus!
