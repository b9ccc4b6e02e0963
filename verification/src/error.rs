//! The error taxonomy of the codec and the dispatcher.

use vstd::prelude::*;

verus! {

/// The failure of the transport underneath a connection.  Nothing in this
/// library inspects it; it is only carried to whoever tears the connection
/// down.
#[verifier::external_type_specification]
#[verifier::external_body]
pub struct ExIoError(std::io::Error);

/// Everything that can go wrong between the bytes of a connection and the
/// reply to a request.
#[derive(Debug)]
pub enum RESPError {
    /// The first byte of a value is not a known type prefix.
    UnsupportedValue,
    /// A carriage return is present but the byte after it is not a line feed.
    WordNotEndingWithNewLine,
    /// A simple string holds a bare line feed.
    NewLineInSimpleString,
    /// The declared length of a blob string is not the length of its payload.
    InvalidNumberSize,
    /// A known command was given the wrong number of words; carries its name.
    WrongNumberOfArguments(String),
    /// The first word of a request is not a known command.
    UnsupportedCommand,
    /// A length or count field is not valid UTF-8.
    IntegerParseEncodingError,
    /// A length or count field is not a decimal integer that fits 64 bits.
    IntegerParseError,
    /// The payload of a string is not valid UTF-8.
    StringParseEncodingError,
    /// The transport failed.
    IOError(std::io::Error),
}

impl From<std::io::Error> for RESPError {
    fn from(e: std::io::Error) -> (r: RESPError)
    {
        RESPError::IOError(e)
    }
}

impl vstd::std_specs::convert::FromSpecImpl<std::io::Error> for RESPError {
    open spec fn obeys_from_spec() -> bool {
        true
    }

    open spec fn from_spec(e: std::io::Error) -> RESPError {
        RESPError::IOError(e)
    }
}

} // verus!
