//! The system error numbers the library reports itself.

use vstd::prelude::*;

verus! {

/// Input/output error.
pub const EIO: i32 = 5;

/// Try again.
pub const EAGAIN: i32 = 11;

/// Out of memory.
pub const ENOMEM: i32 = 12;

/// Invalid argument.
pub const EINVAL: i32 = 22;

/// Too many open files.
pub const EMFILE: i32 = 24;

/// Value too large for its type.
pub const EOVERFLOW: i32 = 75;

/// A system error, by its number.
#[derive(Debug, Clone, Copy, PartialEq, Eq, Structural)]
pub struct Errno {
    /// The raw error number.
    pub raw: i32,
}

impl Errno {
    /// The error with this number.
    pub fn new(raw: i32) -> (errno: Self)
        ensures
            errno.raw == raw,
    {
        Errno { raw }
    }
}

} // verus!
