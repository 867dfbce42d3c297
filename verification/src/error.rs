//! The failure codes of the protocol.

use vstd::prelude::*;

verus! {

/// The failure codes a protocol call can answer with.
#[derive(Clone, Copy, Debug, PartialEq, Eq, Structural)]
pub enum SchemeError {
    /// Invalid argument: a malformed path, a repeated query key, a missing or
    /// unreadable `buf_sz`, an unusable combination of access flags, a mapping
    /// at a non-zero offset or of a size other than the buffer's.
    Einval,
    /// No endpoint carries the name a connection asked for.
    Enoent,
    /// The id is not live, or not of the class the call works on.
    Ebadf,
}

impl SchemeError {
    /// The numeric code of the failure.
    pub open spec fn code(self) -> int {
        match self {
            SchemeError::Einval => 22,
            SchemeError::Enoent => 2,
            SchemeError::Ebadf => 9,
        }
    }

    /// The numeric code of the failure, as it travels in a response packet.
    pub fn errno(self) -> (code: i32)
        ensures
            code == self.code(),
    {
        match self {
            SchemeError::Einval => 22,
            SchemeError::Enoent => 2,
            SchemeError::Ebadf => 9,
        }
    }
}

} // verus!
