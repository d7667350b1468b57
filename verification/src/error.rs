//! The errors that the operations on an engine report, and how the
//! failures of the engine, of the program parser and of file reading become
//! such errors.

use vstd::prelude::*;
use vstd::std_specs::convert::FromSpecImpl;

verus! {

/// The error type of `std::io`. Nothing is known of what an error holds; it
/// is carried from where a read failed to the caller.
#[verifier::external_type_specification]
#[verifier::external_body]
pub struct ExIoError(std::io::Error);

/// The part of the engine's work in which it failed.
#[derive(Clone, Copy, Debug, PartialEq, Eq)]
pub enum EngineStage {
    /// Installing a parsed program.
    Load,
    /// Running a scan cycle.
    Step,
}

/// A failure that the engine reported.
#[derive(Debug, PartialEq, Eq)]
pub struct EngineFailure {
    /// What the engine was doing.
    pub stage: EngineStage,
    /// The engine's own words.
    pub message: String,
}

/// What an operation on an engine reports when it fails.
#[derive(Debug)]
pub enum Error {
    /// The engine refused a program or failed during a scan cycle.
    VM(EngineFailure),
    /// The program description is malformed.
    IRLoad(String),
    /// A program could not be read from storage.
    IO(std::io::Error),
    /// A JSON document is malformed; the variant holds what the JSON reader
    /// said of it.
    JSON(String),
    /// No signal or coil of the given name exists.
    NotFound(String),
    /// The operation cannot be carried out on what it was given.
    InvalidOperation(String),
}

/// The result of an operation on an engine.
pub type Result<T> = std::result::Result<T, Error>;

impl Error {
    /// The error for a program description that the parser refused with
    /// `message`.
    pub fn from_parse_failure(message: String) -> (r: Error)
        ensures
            r == Error::IRLoad(message),
    {
        Error::IRLoad(message)
    }

    /// The error for a failure that the engine reported with `message`
    /// while it was at `stage`.
    pub fn from_engine_failure(stage: EngineStage, message: String) -> (r: Error)
        ensures
            r == Error::VM(EngineFailure { stage, message }),
    {
        Error::VM(EngineFailure { stage, message })
    }
}

impl From<std::io::Error> for Error {
    /// The error for a failed read.
    fn from(e: std::io::Error) -> (r: Error) {
        Error::IO(e)
    }
}

impl FromSpecImpl<std::io::Error> for Error {
    open spec fn obeys_from_spec() -> bool {
        true
    }

    open spec fn from_spec(e: std::io::Error) -> Error {
        Error::IO(e)
    }
}

} // verus!
