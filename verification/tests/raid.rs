use sadak_fs::block_device::{BlockDevice, MockDevice, BLOCK_SIZE};
use sadak_fs::raid::{read_any_verdict, write_all_verdict, Raid1Device, RaidError};
use sadak_fs::sahne_syscalls::SyscallError;

fn mirror(members: usize, blocks: u64) -> Raid1Device<MockDevice> {
    let mut devices = Vec::new();
    for _ in 0..members {
        devices.push(MockDevice::new(blocks));
    }
    match Raid1Device::new(devices) {
        Ok(m) => m,
        Err(_) => panic!("the members are alike"),
    }
}

#[test]
fn mirror_needs_two_devices() {
    assert!(matches!(Raid1Device::<MockDevice>::new(vec![]), Err(RaidError::NotEnoughDevices)));
    assert!(matches!(
        Raid1Device::new(vec![MockDevice::new(8)]),
        Err(RaidError::NotEnoughDevices)
    ));
}

#[test]
fn mirror_refuses_unequal_devices() {
    assert!(matches!(
        Raid1Device::new(vec![MockDevice::new(8), MockDevice::new(9)]),
        Err(RaidError::SizeMismatch)
    ));
    assert!(matches!(
        Raid1Device::new(vec![MockDevice::new(9), MockDevice::new(9), MockDevice::new(8)]),
        Err(RaidError::SizeMismatch)
    ));
}

#[test]
fn mirror_reports_the_common_capacity() {
    assert_eq!(mirror(2, 64).total_blocks(), 64);
    assert_eq!(mirror(3, 100).total_blocks(), 100);
}

#[test]
fn mirror_degraded_read() {
    let mut m = mirror(2, 64);
    let pattern = vec![0xAAu8; BLOCK_SIZE];
    assert!(m.write_block(42, &pattern).is_ok());
    let mut devices = m.into_devices();
    devices[0].set_read_fault(true);
    let m = match Raid1Device::new(devices) {
        Ok(m) => m,
        Err(_) => panic!("the members are alike"),
    };
    let mut buf = vec![0u8; BLOCK_SIZE];
    assert!(m.read_block(42, &mut buf).is_ok());
    assert_eq!(buf, pattern);
}

#[test]
fn mirror_read_fails_when_every_member_does() {
    let m = mirror(3, 16);
    let mut devices = m.into_devices();
    for d in devices.iter_mut() {
        d.set_read_fault(true);
    }
    let m = match Raid1Device::new(devices) {
        Ok(m) => m,
        Err(_) => panic!("the members are alike"),
    };
    let mut buf = vec![0u8; BLOCK_SIZE];
    match m.read_block(1, &mut buf) {
        Err(RaidError::IoError(errors)) => {
            assert_eq!(errors, vec![SyscallError::EIO, SyscallError::EIO, SyscallError::EIO]);
        }
        _ => panic!("every member fails"),
    }
}

#[test]
fn mirror_write_reaches_every_member() {
    let mut m = mirror(3, 16);
    let data = vec![0x11u8; BLOCK_SIZE];
    assert!(m.write_block(5, &data).is_ok());
    for d in m.into_devices() {
        let mut buf = vec![0u8; BLOCK_SIZE];
        assert_eq!(d.read_block(5, &mut buf), Ok(()));
        assert_eq!(buf, data);
    }
}

#[test]
fn mirror_write_goes_on_after_a_failure() {
    let mut devices = vec![MockDevice::new(16), MockDevice::new(16), MockDevice::new(16)];
    devices[0].halt_after_flushes(0);
    let mut m = match Raid1Device::new(devices) {
        Ok(m) => m,
        Err(_) => panic!("the members are alike"),
    };
    let data = vec![0x22u8; BLOCK_SIZE];
    match m.write_block(5, &data) {
        Err(RaidError::IoError(errors)) => assert_eq!(errors, vec![SyscallError::EIO]),
        _ => panic!("one member is halted"),
    }
    let devices = m.into_devices();
    let mut buf = vec![0u8; BLOCK_SIZE];
    assert_eq!(devices[0].read_block(5, &mut buf), Ok(()));
    assert_eq!(buf, vec![0u8; BLOCK_SIZE]);
    assert_eq!(devices[1].read_block(5, &mut buf), Ok(()));
    assert_eq!(buf, data);
    assert_eq!(devices[2].read_block(5, &mut buf), Ok(()));
    assert_eq!(buf, data);
}

#[test]
fn mirror_write_refuses_wrong_length() {
    let mut m = mirror(2, 16);
    match m.write_block(5, &vec![0u8; 10]) {
        Err(RaidError::IoError(errors)) => {
            assert_eq!(errors, vec![SyscallError::EINVAL, SyscallError::EINVAL])
        }
        _ => panic!("the buffer is short"),
    }
}

#[test]
fn mirror_flush_needs_every_member() {
    let mut m = mirror(2, 16);
    assert!(m.flush().is_ok());
    let mut devices = m.into_devices();
    devices[1].halt_after_flushes(0);
    let mut m = match Raid1Device::new(devices) {
        Ok(m) => m,
        Err(_) => panic!("the members are alike"),
    };
    match m.flush() {
        Err(RaidError::IoError(errors)) => assert_eq!(errors, vec![SyscallError::EIO]),
        _ => panic!("one member is halted"),
    }
}

#[test]
fn write_all_verdict_collects_failures_in_order() {
    let all_ok: Vec<Result<(), SyscallError>> = vec![Ok(()), Ok(()), Ok(())];
    assert!(write_all_verdict::<MockDevice>(all_ok).is_ok());
    assert!(write_all_verdict::<MockDevice>(vec![]).is_ok());
    let mixed: Vec<Result<(), SyscallError>> =
        vec![Err(SyscallError::EAGAIN), Ok(()), Err(SyscallError::EIO)];
    match write_all_verdict::<MockDevice>(mixed) {
        Err(RaidError::IoError(errors)) => {
            assert_eq!(errors, vec![SyscallError::EAGAIN, SyscallError::EIO])
        }
        _ => panic!("two members failed"),
    }
}

#[test]
fn mirror_of_healthy_members_takes_every_flush() {
    let mut m = mirror(3, 16);
    for _ in 0..4 {
        assert!(m.write_block(2, &vec![7u8; BLOCK_SIZE]).is_ok());
        assert!(m.flush().is_ok());
    }
}

#[test]
fn read_any_verdict_needs_one_answer() {
    let answered: Vec<Result<(), SyscallError>> =
        vec![Err(SyscallError::EIO), Err(SyscallError::EAGAIN), Ok(())];
    assert!(read_any_verdict::<MockDevice>(answered).is_ok());
    let first: Vec<Result<(), SyscallError>> = vec![Ok(())];
    assert!(read_any_verdict::<MockDevice>(first).is_ok());
    let none: Vec<Result<(), SyscallError>> =
        vec![Err(SyscallError::EAGAIN), Err(SyscallError::EIO), Err(SyscallError::EINVAL)];
    match read_any_verdict::<MockDevice>(none) {
        Err(RaidError::IoError(errors)) => assert_eq!(
            errors,
            vec![SyscallError::EAGAIN, SyscallError::EIO, SyscallError::EINVAL]
        ),
        _ => panic!("no member answered"),
    }
    match read_any_verdict::<MockDevice>(vec![]) {
        Err(RaidError::IoError(errors)) => assert!(errors.is_empty()),
        _ => panic!("nobody was asked"),
    }
}

#[test]
fn mirror_read_reports_one_error_for_each_member() {
    let mut devices = vec![MockDevice::new(16), MockDevice::new(16), MockDevice::new(16)];
    for dev in devices.iter_mut() {
        dev.set_read_fault(true);
    }
    let m = match Raid1Device::new(devices) {
        Ok(m) => m,
        Err(_) => panic!("the members are alike"),
    };
    let mut buf = vec![0u8; BLOCK_SIZE];
    match m.read_block(3, &mut buf) {
        Err(RaidError::IoError(errors)) => assert_eq!(errors.len(), 3),
        _ => panic!("no member can be read"),
    }
}

#[test]
fn mirror_write_reaches_the_members_behind_a_failed_one() {
    let mut devices = vec![MockDevice::new(16), MockDevice::new(16), MockDevice::new(16)];
    devices[1].halt_after_flushes(0);
    let mut m = match Raid1Device::new(devices) {
        Ok(m) => m,
        Err(_) => panic!("the members are alike"),
    };
    let data = vec![0x5Au8; BLOCK_SIZE];
    match m.write_block(9, &data) {
        Err(RaidError::IoError(errors)) => assert_eq!(errors.len(), 1),
        _ => panic!("one member is halted"),
    }
    let devices = m.into_devices();
    let mut buf = vec![0u8; BLOCK_SIZE];
    for i in [0usize, 2] {
        assert_eq!(devices[i].read_block(9, &mut buf), Ok(()));
        assert_eq!(buf, data);
        assert_eq!(devices[i].read_block(8, &mut buf), Ok(()));
        assert_eq!(buf, vec![0u8; BLOCK_SIZE]);
    }
    assert_eq!(devices[1].read_block(9, &mut buf), Ok(()));
    assert_eq!(buf, vec![0u8; BLOCK_SIZE]);
}
