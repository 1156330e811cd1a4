use vstd::prelude::*;

verus! {

/// Why a text or binary image could not be read.
#[derive(Debug, Clone, PartialEq, Eq)]
pub enum ParseError {
    InvalidRecord { line: usize, message: String },
    ChecksumMismatch { line: usize, expected: u8, actual: u8 },
    UnexpectedEof,
    AddressOverflow(String),
    InvalidHexDigit { line: usize, char: char },
    UnsupportedRecordType { line: usize, record_type: u8 },
    InvalidOutput(String),
}

/// The kind of a parse error with the facts it carries, messages aside.
pub enum ParseFault {
    Record(int),
    Checksum(int, u8, u8),
    Eof,
    Overflow,
    Digit(int, char),
    RecordType(int, u8),
    Output,
}

pub open spec fn fault_of(e: ParseError) -> ParseFault {
    match e {
        ParseError::InvalidRecord { line, .. } => ParseFault::Record(line as int),
        ParseError::ChecksumMismatch { line, expected, actual } => ParseFault::Checksum(line as int, expected, actual),
        ParseError::UnexpectedEof => ParseFault::Eof,
        ParseError::AddressOverflow(_) => ParseFault::Overflow,
        ParseError::InvalidHexDigit { line, char } => ParseFault::Digit(line as int, char),
        ParseError::UnsupportedRecordType { line, record_type } => ParseFault::RecordType(line as int, record_type),
        ParseError::InvalidOutput(_) => ParseFault::Output,
    }
}

} // verus!
