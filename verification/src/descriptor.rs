//! The descriptor value: the number under which the child finds the socket.
//!
//! The operating system hands out the reference to the socket. What happens to
//! it afterwards differs by platform and is decided here: a file descriptor is
//! inherited as it is, a handle must have been duplicated as inheritable first,
//! and either becomes the one unsigned number that goes into the child's
//! arguments and into the status file.

use vstd::prelude::*;

verus! {

/// The two kinds of platform that the bridge runs on.
#[derive(Clone, Copy, Debug, PartialEq, Eq, Structural)]
pub enum Platform {
    /// Sockets are handles, which a child inherits only if they were
    /// duplicated as inheritable.
    HandleBased,
    /// Sockets are file descriptors, which a child inherits as they are.
    DescriptorBased,
}

/// Why no descriptor value was obtained.
#[derive(Clone, Debug, PartialEq, Eq)]
pub struct DuplicationError {
    /// What the operating system said of the failed duplication.
    pub diagnostic: String,
}

/// The number that a file descriptor becomes: itself, or, for a negative one,
/// the number with the same 64 bits in two's complement.
pub open spec fn fd_value(fd: i32) -> nat {
    if fd >= 0 {
        fd as nat
    } else {
        (0x1_0000_0000_0000_0000 + fd) as nat
    }
}

/// The descriptor value of a file descriptor. There is nothing to duplicate:
/// a child inherits the descriptor under its own number.
pub fn descriptor_from_fd(fd: i32) -> (value: u64)
    ensures
        value == fd_value(fd),
{
    if fd >= 0 {
        fd as u64
    } else {
        let below: u64 = (-(fd as i64)) as u64;
        u64::MAX - below + 1
    }
}

/// The descriptor value after an attempt to duplicate a handle as
/// inheritable: the number of the duplicate if the attempt succeeded, and
/// otherwise the failure with the system's diagnostic. There is no other way
/// to a value: the handle that was not duplicated is never used in its place.
pub fn descriptor_from_duplicate(succeeded: bool, duplicate: usize, diagnostic: String) -> (value:
    Result<u64, DuplicationError>)
    ensures
        succeeded ==> value == Ok::<u64, DuplicationError>(duplicate as u64),
        !succeeded ==> value == Err::<u64, DuplicationError>(DuplicationError { diagnostic }),
{
    if succeeded {
        Ok(duplicate as u64)
    } else {
        Err(DuplicationError { diagnostic })
    }
}

} // verus!
