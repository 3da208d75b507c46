use sadak_fs::block_device::{BlockDevice, MockDevice, Sahne64Device, TransferStep, BLOCK_SIZE};
use sadak_fs::sahne_syscalls::SyscallError;

#[test]
fn block_size_is_4096() {
    assert_eq!(BLOCK_SIZE, 4096);
}

#[test]
fn mock_device_starts_zeroed() {
    let dev = MockDevice::new(8);
    assert_eq!(dev.total_blocks(), 8);
    let mut buf = vec![0xFFu8; BLOCK_SIZE];
    assert_eq!(dev.read_block(7, &mut buf), Ok(()));
    assert_eq!(buf, vec![0u8; BLOCK_SIZE]);
}

#[test]
fn mock_device_reads_back_what_was_written() {
    let mut dev = MockDevice::new(8);
    let data = vec![0x5Au8; BLOCK_SIZE];
    assert_eq!(dev.write_block(3, &data), Ok(()));
    let mut buf = vec![0u8; BLOCK_SIZE];
    assert_eq!(dev.read_block(3, &mut buf), Ok(()));
    assert_eq!(buf, data);
    assert_eq!(dev.read_block(2, &mut buf), Ok(()));
    assert_eq!(buf, vec![0u8; BLOCK_SIZE]);
}

#[test]
fn mock_device_refuses_wrong_buffer_length() {
    let mut dev = MockDevice::new(8);
    let mut short = vec![7u8; BLOCK_SIZE - 1];
    assert_eq!(dev.read_block(0, &mut short), Err(SyscallError::EINVAL));
    assert_eq!(short, vec![7u8; BLOCK_SIZE - 1]);
    let long = vec![0u8; BLOCK_SIZE + 1];
    assert_eq!(dev.write_block(0, &long), Err(SyscallError::EINVAL));
}

#[test]
fn mock_device_refuses_blocks_beyond_capacity() {
    let mut dev = MockDevice::new(8);
    let mut buf = vec![0u8; BLOCK_SIZE];
    assert_eq!(dev.read_block(8, &mut buf), Err(SyscallError::EINVAL));
    assert_eq!(dev.write_block(8, &buf), Err(SyscallError::EINVAL));
}

#[test]
fn mock_device_read_fault() {
    let mut dev = MockDevice::new(4);
    dev.set_read_fault(true);
    let mut buf = vec![1u8; BLOCK_SIZE];
    assert_eq!(dev.read_block(0, &mut buf), Err(SyscallError::EIO));
    assert_eq!(buf, vec![1u8; BLOCK_SIZE]);
    dev.set_read_fault(false);
    assert_eq!(dev.read_block(0, &mut buf), Ok(()));
}

#[test]
fn mock_device_halts_after_scheduled_flushes() {
    let mut dev = MockDevice::new(4);
    let data = vec![9u8; BLOCK_SIZE];
    dev.halt_after_flushes(2);
    assert_eq!(dev.write_block(1, &data), Ok(()));
    assert_eq!(dev.flush(), Ok(()));
    assert_eq!(dev.write_block(2, &data), Ok(()));
    assert_eq!(dev.flush(), Ok(()));
    assert_eq!(dev.write_block(3, &data), Err(SyscallError::EIO));
    assert_eq!(dev.flush(), Err(SyscallError::EIO));
    let mut buf = vec![0u8; BLOCK_SIZE];
    assert_eq!(dev.read_block(2, &mut buf), Ok(()));
    assert_eq!(buf, data);
    assert_eq!(dev.read_block(3, &mut buf), Ok(()));
    assert_eq!(buf, vec![0u8; BLOCK_SIZE]);
    dev.restart();
    assert_eq!(dev.write_block(3, &data), Ok(()));
    assert_eq!(dev.flush(), Ok(()));
}

#[test]
fn mock_device_halts_at_once() {
    let mut dev = MockDevice::new(4);
    dev.halt_after_flushes(0);
    assert_eq!(dev.write_block(1, &vec![9u8; BLOCK_SIZE]), Err(SyscallError::EIO));
    assert_eq!(dev.flush(), Err(SyscallError::EIO));
}

#[test]
fn kernel_device_from_acquire_result() {
    match Sahne64Device::new(17, 100) {
        Ok(dev) => {
            assert_eq!(dev.handle(), 17);
            assert_eq!(dev.total_blocks(), 100);
        }
        Err(_) => panic!("a handle was returned"),
    }
    assert!(matches!(Sahne64Device::new(-1001, 100), Err(SyscallError::EIO)));
    assert!(matches!(Sahne64Device::new(-5, 100), Err(SyscallError::Unknown(-5))));
}

#[test]
fn kernel_device_transfer_steps() {
    let dev = match Sahne64Device::new(3, 100) {
        Ok(dev) => dev,
        Err(_) => panic!("a handle was returned"),
    };
    assert_eq!(dev.begin_transfer(5, 4096), TransferStep::Seek { handle: 3, offset: 5 * 4096 });
    assert_eq!(dev.begin_transfer(5, 4095), TransferStep::Failed(SyscallError::EINVAL));
    assert_eq!(dev.begin_transfer(u64::MAX, 4096), TransferStep::Failed(SyscallError::EINVAL));
    assert_eq!(
        dev.begin_transfer(u64::MAX / 4096, 4096),
        TransferStep::Seek { handle: 3, offset: (u64::MAX / 4096) * 4096 }
    );
    assert_eq!(dev.after_seek(0), TransferStep::Transfer { handle: 3, length: 4096 });
    assert_eq!(dev.after_seek(-1002), TransferStep::Failed(SyscallError::EINVAL));
    assert_eq!(Sahne64Device::finish_transfer(4096), Ok(()));
    assert_eq!(Sahne64Device::finish_transfer(4095), Err(SyscallError::EIO));
    assert_eq!(Sahne64Device::finish_transfer(0), Err(SyscallError::EIO));
    assert_eq!(Sahne64Device::finish_transfer(-1004), Err(SyscallError::EAGAIN));
}
