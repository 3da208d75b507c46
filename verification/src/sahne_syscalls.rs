//! Numbers and result decoding of the host kernel's trap interface.
//!
//! The traps themselves are issued by the embedding program; this module holds
//! what is computed from their raw results.

use vstd::prelude::*;

verus! {

pub const SYSCALL_MEMORY_ALLOCATE: u64 = 1;
pub const SYSCALL_MEMORY_RELEASE: u64 = 2;
pub const SYSCALL_TASK_SPAWN: u64 = 3;
pub const SYSCALL_TASK_EXIT: u64 = 4;
pub const SYSCALL_RESOURCE_ACQUIRE: u64 = 5;
pub const SYSCALL_RESOURCE_READ: u64 = 6;
pub const SYSCALL_RESOURCE_WRITE: u64 = 7;
pub const SYSCALL_RESOURCE_RELEASE: u64 = 8;
pub const SYSCALL_GET_TASK_ID: u64 = 9;
pub const SYSCALL_TASK_SLEEP: u64 = 10;
pub const SYSCALL_LOCK_CREATE: u64 = 11;
pub const SYSCALL_LOCK_ACQUIRE: u64 = 12;
pub const SYSCALL_LOCK_RELEASE: u64 = 13;
pub const SYSCALL_GET_SYSTEM_TIME: u64 = 16;
pub const SYSCALL_RESOURCE_CONTROL: u64 = 102;
pub const SYSCALL_RESOURCE_SEEK: u64 = 103;

pub type ResourceHandle = u64;
pub type Offset = u64;
pub type Length = usize;
pub type SyscallResult = isize;

/// A failure reported by the host kernel.
#[derive(Debug, Clone, Copy, PartialEq, Eq, Structural)]
pub enum SyscallError {
    /// I/O failure (`-1001`).
    EIO,
    /// Invalid argument (`-1002`).
    EINVAL,
    /// Out of memory (`-1003`).
    ENOMEM,
    /// Try again (`-1004`).
    EAGAIN,
    /// Any other code, kept as it came.
    Unknown(isize),
}

impl SyscallError {
    /// The error that a raw code stands for: the four known codes are
    /// recognised by magnitude, every other value is opaque.
    pub open spec fn decode(raw_code: isize) -> SyscallError {
        if raw_code == 1001 || raw_code == -1001 {
            SyscallError::EIO
        } else if raw_code == 1002 || raw_code == -1002 {
            SyscallError::EINVAL
        } else if raw_code == 1003 || raw_code == -1003 {
            SyscallError::ENOMEM
        } else if raw_code == 1004 || raw_code == -1004 {
            SyscallError::EAGAIN
        } else {
            SyscallError::Unknown(raw_code)
        }
    }

    /// Decodes a raw trap result into an error kind.
    pub fn from_raw(raw_code: isize) -> (e: Self)
        ensures
            e == Self::decode(raw_code),
    {
        if raw_code == 1001 || raw_code == -1001 {
            SyscallError::EIO
        } else if raw_code == 1002 || raw_code == -1002 {
            SyscallError::EINVAL
        } else if raw_code == 1003 || raw_code == -1003 {
            SyscallError::ENOMEM
        } else if raw_code == 1004 || raw_code == -1004 {
            SyscallError::EAGAIN
        } else {
            SyscallError::Unknown(raw_code)
        }
    }
}

/// What a raw trap result means: a negative value is a failure, anything else
/// is the value or handle that the kernel returned.
pub open spec fn result_of(raw: isize) -> Result<u64, SyscallError> {
    if raw < 0 {
        Err(SyscallError::decode(raw))
    } else {
        Ok(raw as u64)
    }
}

/// Splits a raw trap result into the returned value and the error kind.
pub fn decode_result(raw: SyscallResult) -> (r: Result<u64, SyscallError>)
    ensures
        r == result_of(raw),
{
    if raw < 0 {
        Err(SyscallError::from_raw(raw))
    } else {
        Ok(raw as u64)
    }
}

/// What a memory-allocation trap result means: the kernel answers an
/// exhausted pool with a null address.
pub fn decode_allocation(raw: SyscallResult) -> (r: Result<u64, SyscallError>)
    ensures
        r == (if raw == 0 { Err(SyscallError::ENOMEM) } else { result_of(raw) }),
{
    if raw == 0 {
        Err(SyscallError::ENOMEM)
    } else {
        decode_result(raw)
    }
}

} // verus!
