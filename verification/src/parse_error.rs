//! The error reported when a message definition or payload cannot be parsed.

use vstd::prelude::*;

verus! {

/// Why a message could not be parsed.
#[derive(Debug)]
pub enum ParseError {
    UnknownType(String),
    ParseError(String),
    CdrError(String),
}

} // verus!
