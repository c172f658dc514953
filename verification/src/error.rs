use vstd::prelude::*;

verus! {

/// The grammar rule that rejected an input.
#[derive(Clone, Copy, Debug, PartialEq, Eq, Structural)]
pub enum ErrorKind {
    Tag,
    IsNot,
    Char,
    OneOf,
    CrLf,
    Digit,
}

/// How many more bytes a streaming parser asked for.
#[derive(Clone, Copy, Debug, PartialEq, Eq, Structural)]
pub enum Needed {
    Unknown,
    Size(usize),
}

/// A parse failure: more input was needed, the input was rejected at the
/// given remaining bytes, or the rejection is final.
#[derive(Clone, Debug, PartialEq, Eq)]
pub enum NomErr {
    Incomplete(Needed),
    Error(Vec<u8>, ErrorKind),
    Failure(Vec<u8>, ErrorKind),
}

/// `std::io::Error`, carried through unchanged.
#[verifier::external_type_specification]
#[verifier::external_body]
pub struct ExIoError(std::io::Error);

/// `anyhow::Error`, carried through unchanged.
#[verifier::external_type_specification]
#[verifier::external_body]
pub struct ExAnyhowError(anyhow::Error);

/// Why a connection task stopped.
pub enum TuziError {
    /// The channel the bytes came from was closed.
    ReceiveClosed,
    /// Reading or writing a socket failed.
    Io(std::io::Error),
    /// The bytes could not be parsed.
    Nom(NomErr),
    /// Anything else.
    Other(anyhow::Error),
}

pub type TuziResult<T> = Result<T, TuziError>;

} // verus!
