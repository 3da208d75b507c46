use sadak_fs::sahne_syscalls::{
    decode_allocation, decode_result, SyscallError, SYSCALL_GET_SYSTEM_TIME, SYSCALL_LOCK_ACQUIRE,
    SYSCALL_LOCK_CREATE, SYSCALL_LOCK_RELEASE, SYSCALL_MEMORY_ALLOCATE, SYSCALL_MEMORY_RELEASE,
    SYSCALL_RESOURCE_ACQUIRE, SYSCALL_RESOURCE_READ, SYSCALL_RESOURCE_SEEK, SYSCALL_RESOURCE_WRITE,
};

#[test]
fn trap_numbers() {
    assert_eq!(SYSCALL_MEMORY_ALLOCATE, 1);
    assert_eq!(SYSCALL_MEMORY_RELEASE, 2);
    assert_eq!(SYSCALL_RESOURCE_ACQUIRE, 5);
    assert_eq!(SYSCALL_RESOURCE_READ, 6);
    assert_eq!(SYSCALL_RESOURCE_WRITE, 7);
    assert_eq!(SYSCALL_LOCK_CREATE, 11);
    assert_eq!(SYSCALL_LOCK_ACQUIRE, 12);
    assert_eq!(SYSCALL_LOCK_RELEASE, 13);
    assert_eq!(SYSCALL_GET_SYSTEM_TIME, 16);
    assert_eq!(SYSCALL_RESOURCE_SEEK, 103);
}

#[test]
fn from_raw_knows_the_four_codes() {
    assert_eq!(SyscallError::from_raw(-1001), SyscallError::EIO);
    assert_eq!(SyscallError::from_raw(-1002), SyscallError::EINVAL);
    assert_eq!(SyscallError::from_raw(-1003), SyscallError::ENOMEM);
    assert_eq!(SyscallError::from_raw(-1004), SyscallError::EAGAIN);
}

#[test]
fn from_raw_goes_by_magnitude() {
    assert_eq!(SyscallError::from_raw(1001), SyscallError::EIO);
    assert_eq!(SyscallError::from_raw(1004), SyscallError::EAGAIN);
}

#[test]
fn from_raw_keeps_other_codes() {
    assert_eq!(SyscallError::from_raw(-1), SyscallError::Unknown(-1));
    assert_eq!(SyscallError::from_raw(-1005), SyscallError::Unknown(-1005));
    assert_eq!(SyscallError::from_raw(0), SyscallError::Unknown(0));
    assert_eq!(SyscallError::from_raw(isize::MIN), SyscallError::Unknown(isize::MIN));
    assert_eq!(SyscallError::from_raw(isize::MAX), SyscallError::Unknown(isize::MAX));
}

#[test]
fn decode_result_splits_at_zero() {
    assert_eq!(decode_result(0), Ok(0));
    assert_eq!(decode_result(42), Ok(42));
    assert_eq!(decode_result(-1001), Err(SyscallError::EIO));
    assert_eq!(decode_result(-7), Err(SyscallError::Unknown(-7)));
}

#[test]
fn decode_allocation_takes_null_for_exhaustion() {
    assert_eq!(decode_allocation(0), Err(SyscallError::ENOMEM));
    assert_eq!(decode_allocation(4096), Ok(4096));
    assert_eq!(decode_allocation(-1003), Err(SyscallError::ENOMEM));
    assert_eq!(decode_allocation(-1002), Err(SyscallError::EINVAL));
}
