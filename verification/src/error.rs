//! The library's error type.

use vstd::prelude::*;

use crate::v3::part_executor::PartJob;

verus! {

/// Why a base64 text could not be decoded into four bytes.
#[derive(Debug, Clone, Copy, PartialEq, Eq, Structural)]
pub enum Base64Error {
    /// A byte outside the alphabet, with its offset.
    InvalidByte(usize, u8),
    /// The number of symbols cannot come from an encoder.
    InvalidLength(usize),
    /// The last symbol has bits set that are discarded.
    InvalidLastSymbol(usize, u8),
    /// The padding is not canonical.
    InvalidPadding,
    /// The text stands for more bytes than the output takes.
    OutputTooSmall,
}

/// Everything that can go wrong inside the library.
#[derive(Debug)]
pub enum Error {
    /// A CRC-32 was not valid base64.
    Crc32Parse(Base64Error),
    /// A part job that cannot be given to a sub-worker.
    InvalidPartJobConversion { message: &'static str, part_job: PartJob },
    /// Any other failure, with its message.
    Custom(String),
}

impl From<String> for Error {
    fn from(err: String) -> (e: Self) {
        Error::Custom(err)
    }
}

impl vstd::std_specs::convert::FromSpecImpl<String> for Error {
    open spec fn obeys_from_spec() -> bool {
        true
    }

    open spec fn from_spec(err: String) -> Self {
        Error::Custom(err)
    }
}

} // verus!
