use vstd::prelude::*;

verus! {

/// Why an operation on an image failed.
#[derive(Debug, Clone, PartialEq, Eq)]
pub enum OpsError {
    AddressOverflow,
    AddressNotDivisible { address: u32, divisor: u32 },
    LengthNotMultiple { length: usize, expected: usize, operation: String },
    InvalidAlignment(u32),
    InvalidRemapParams(String),
    RangeNotCovered { start: u32, length: u32 },
    UnsupportedChecksumAlgorithm(u8),
    InvalidTarget(String),
}

} // verus!
