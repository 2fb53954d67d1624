//! The error that every parser and every encoder of the library reports.

use vstd::prelude::*;

verus! {

/// Why a bitstream element could not be read or written.
#[derive(Debug, Clone, Copy, PartialEq, Eq)]
pub enum Error {
    /// The buffer ended before the element did.
    ShortHeader,
    /// The element breaks a rule of the syntax; the text names the rule.
    InvalidBitstream(&'static str),
}

/// The result of every fallible function of the library.
pub type Result<T> = core::result::Result<T, Error>;

} // verus!
