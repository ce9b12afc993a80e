//! Errors of the Universal Hive Protocol front end.

use vstd::prelude::*;

verus! {

#[verifier::external_type_specification]
#[verifier::external_body]
pub struct ExIoError(std::io::Error);

/// What can go wrong with a protocol command.
#[derive(Debug)]
pub enum UhpError {
    IoError(std::io::Error),
    UnknownPiece(String),
    InvalidGameString(String),
    InvalidGameType(String),
    InvalidMove(String),
    InvalidOption(String),
    UnrecognizedCommand(String),
    SyntaxError(String),
    EngineError(String),
    TooManyUndos,
}

} // verus!
