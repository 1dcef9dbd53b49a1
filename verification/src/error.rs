//! What can go wrong while a database is built or read.

use vstd::prelude::*;

verus! {

/// The ways in which building or reading a database fails.
#[derive(Clone, Copy, Debug, PartialEq, Eq, Structural)]
pub enum Error {
    /// The bytes at hand are not a database: too short, too long, or a
    /// pointer or a length in them leads outside of them.
    Format,
    /// A key or a value is too long for its length field.
    InvalidInput,
    /// The database would outgrow what 32-bit offsets can address.
    TooBig,
}

impl Error {
    /// A short description of the failure.
    pub fn message(&self) -> (text: &'static str)
        ensures
            text@ == match *self {
                Error::Format => "Invalid file format"@,
                Error::InvalidInput => "Key or data too big"@,
                Error::TooBig => "File too big"@,
            },
    {
        match self {
            Error::Format => "Invalid file format",
            Error::InvalidInput => "Key or data too big",
            Error::TooBig => "File too big",
        }
    }
}

/// The error of bytes that are not a database.
pub fn err_badfile<T>() -> (r: Result<T, Error>)
    ensures
        r == Err::<T, Error>(Error::Format),
{
    Err(Error::Format)
}

/// The error of a database that outgrows its offsets.
pub fn err_toobig<T>() -> (r: Result<T, Error>)
    ensures
        r == Err::<T, Error>(Error::TooBig),
{
    Err(Error::TooBig)
}

} // verus!
