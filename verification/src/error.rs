//! Failure categories shared by the solvers' text adapters.

use vstd::prelude::*;

verus! {

/// What can go wrong while feeding a solver: malformed text, a grammar
/// mismatch, or an unreadable source. The payload carries the offending
/// text or a description of it.
#[derive(Debug)]
pub enum AocError {
    ParseError(String),
    NomError(String),
    IoError(String),
}

pub type AocResult<R> = Result<R, AocError>;

} // verus!
