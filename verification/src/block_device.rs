//! The block device contract and an in-memory device.

use vstd::prelude::*;
use crate::sahne_syscalls::{ResourceHandle, SyscallError, SyscallResult};

verus! {

/// The size of every block, in bytes.
pub const BLOCK_SIZE: usize = 4096;

/// A logical block address.
pub type BlockId = u64;

/// The last block whose byte offset fits 64 bits.
pub const LAST_ADDRESSABLE_BLOCK: BlockId = 0x000F_FFFF_FFFF_FFFF;

/// Marks the error types that block devices report.
pub trait BlockDeviceError {

}

impl BlockDeviceError for SyscallError {

}

/// A device of fixed-size blocks.
///
/// A device is described by its capacity and, for every block address, by the
/// set of images that a successful read of that block may return. A device
/// that stores one copy of each block has exactly one candidate per block; a
/// composite device whose copies have diverged has several. A device also
/// says how many flushes it has acknowledged and which blocks have been
/// written to since the last of them, and it may promise to be readable or
/// reliable.
pub trait BlockDevice {
    /// The error that I/O on this device reports.
    type Error: BlockDeviceError;

    /// The device's internal consistency. A device that does not say what
    /// its consistency is has none, and nothing is promised of it.
    open spec fn wf(&self) -> bool {
        false
    }

    /// The number of blocks.
    open spec fn capacity(&self) -> u64 {
        0
    }

    /// The images that a successful read of block `id` may return.
    open spec fn candidates(&self, id: BlockId) -> Set<Seq<u8>> {
        Set::empty()
    }

    /// Whether the device, as it is, takes every write of a whole block
    /// within its capacity and every flush, and goes on doing so. A device
    /// that cannot promise that says no.
    open spec fn reliable(&self) -> bool {
        false
    }

    /// Whether the device, as it is, answers every read of a whole block
    /// within its capacity, and goes on doing so. A device that cannot
    /// promise that says no.
    open spec fn readable(&self) -> bool {
        false
    }

    /// The number of flushes that the device has acknowledged.
    open spec fn flushes(&self) -> nat {
        0
    }

    /// The blocks that may have been written to since the device last
    /// acknowledged a flush: what a loss of power could still undo.
    open spec fn unflushed(&self) -> Set<BlockId> {
        Set::empty()
    }

    /// Reads block `id` into `buffer`, which must hold exactly one block. A
    /// readable device answers for every block within its capacity.
    fn read_block(&self, id: BlockId, buffer: &mut [u8]) -> (r: Result<(), Self::Error>)
        requires
            self.wf(),
        ensures
            final(buffer)@.len() == old(buffer)@.len(),
            r is Ok ==> old(buffer)@.len() == BLOCK_SIZE && self.candidates(id).contains(
                final(buffer)@,
            ),
            old(buffer)@.len() != BLOCK_SIZE ==> r is Err && final(buffer)@ == old(buffer)@,
            self.readable() && old(buffer)@.len() == BLOCK_SIZE && id < self.capacity() ==> r is Ok,
    ;

    /// Writes one block of `data` to block `id`.
    ///
    /// A successful write leaves `data` as the only candidate of the block. A
    /// failed write leaves the block with old candidates, the new image, or
    /// both. No other block is touched either way, and no other block
    /// becomes unflushed. A reliable device takes every whole block within
    /// its capacity, and stays reliable.
    fn write_block(&mut self, id: BlockId, data: &[u8]) -> (r: Result<(), Self::Error>)
        requires
            old(self).wf(),
        ensures
            final(self).wf(),
            final(self).capacity() == old(self).capacity(),
            forall|other: BlockId|
                other != id ==> #[trigger] final(self).candidates(other) == old(self).candidates(
                    other,
                ),
            r is Ok ==> data@.len() == BLOCK_SIZE && final(self).candidates(id) == set![data@],
            r is Err ==> final(self).candidates(id).subset_of(
                old(self).candidates(id).insert(data@),
            ),
            data@.len() != BLOCK_SIZE ==> r is Err
                && final(self).candidates(id) == old(self).candidates(id),
            old(self).reliable() && data@.len() == BLOCK_SIZE && id < old(self).capacity()
                ==> r is Ok,
            old(self).reliable() ==> final(self).reliable(),
            old(self).readable() ==> final(self).readable(),
            final(self).flushes() == old(self).flushes(),
            final(self).unflushed().subset_of(old(self).unflushed().insert(id)),
    ;

    /// The number of blocks.
    fn total_blocks(&self) -> (n: BlockId)
        requires
            self.wf(),
        ensures
            n == self.capacity(),
    ;

    /// Asks the device to make earlier writes durable. No block changes.
    /// A flush that succeeds is one more flush that the device has
    /// acknowledged, and leaves no block unflushed. A reliable device acknowledges, and stays reliable.
    fn flush(&mut self) -> (r: Result<(), Self::Error>)
        requires
            old(self).wf(),
        ensures
            final(self).wf(),
            final(self).capacity() == old(self).capacity(),
            forall|id: BlockId| #[trigger] final(self).candidates(id) == old(self).candidates(id),
            r is Ok ==> final(self).flushes() == old(self).flushes() + 1,
            final(self).flushes() >= old(self).flushes(),
            r is Ok ==> final(self).unflushed() == Set::<BlockId>::empty(),
            final(self).unflushed().subset_of(old(self).unflushed()),
            old(self).reliable() ==> r is Ok,
            old(self).reliable() ==> final(self).reliable(),
            old(self).readable() ==> final(self).readable(),
    ;
}

/// An in-memory device with switches that make it fail.
///
/// Reads can be made to fail, and the device can be told to halt once it has
/// acknowledged a given number of flushes: a halted device refuses every write
/// and flush, and keeps what it held.
pub struct MockDevice {
    blocks: Vec<Vec<u8>>,
    fail_reads: bool,
    halted: bool,
    flushes_until_halt: Option<u64>,
    acknowledged: Ghost<nat>,
    written: Ghost<Set<BlockId>>,
}

impl MockDevice {
    /// The stored image of every block.
    pub closed spec fn image(&self) -> Seq<Seq<u8>> {
        Seq::new(self.blocks@.len(), |i: int| self.blocks@[i]@)
    }

    /// Whether reads are switched to fail.
    pub closed spec fn reads_fail(&self) -> bool {
        self.fail_reads
    }

    /// Whether the device has halted.
    pub closed spec fn is_halted(&self) -> bool {
        self.halted
    }

    /// The number of flushes that the device has acknowledged so far.
    pub closed spec fn flushed(&self) -> nat {
        self.acknowledged@
    }

    /// The blocks that were written since the last acknowledged flush.
    pub closed spec fn waiting(&self) -> Set<BlockId> {
        self.written@
    }

    /// The number of flushes that the device will still acknowledge before it
    /// halts, if a halt is scheduled.
    pub closed spec fn flushes_left(&self) -> Option<u64> {
        self.flushes_until_halt
    }

    /// Every stored block has the block size, and a scheduled halt is at
    /// least one flush away.
    pub closed spec fn valid(&self) -> bool {
        &&& self.blocks@.len() <= u64::MAX
        &&& forall|i: int| 0 <= i < self.blocks@.len()
            ==> (#[trigger] self.blocks@[i])@.len() == BLOCK_SIZE
        &&& self.flushes_until_halt != Some(0u64)
    }

    /// A healthy device of `total_blocks` zeroed blocks.
    pub fn new(total_blocks: BlockId) -> (dev: Self)
        requires
            total_blocks <= usize::MAX,
        ensures
            dev.wf(),
            dev.image().len() == total_blocks,
            forall|i: int| 0 <= i < total_blocks
                ==> dev.image()[i] == Seq::new(BLOCK_SIZE as nat, |k: int| 0u8),
            !dev.reads_fail(),
            !dev.is_halted(),
            dev.flushes_left() is None,
            dev.flushed() == 0,
            dev.waiting() == Set::<BlockId>::empty(),
    {
        let mut blocks: Vec<Vec<u8>> = Vec::new();
        let mut i: u64 = 0;
        while i < total_blocks
            invariant
                i <= total_blocks,
                blocks@.len() == i,
                forall|j: int| 0 <= j < i
                    ==> (#[trigger] blocks@[j])@ == Seq::new(BLOCK_SIZE as nat, |k: int| 0u8),
            decreases total_blocks - i,
        {
            let block: Vec<u8> = vec![0u8; BLOCK_SIZE];
            assert(block@ =~= Seq::new(BLOCK_SIZE as nat, |k: int| 0u8));
            blocks.push(block);
            i += 1;
        }
        MockDevice {
            blocks,
            fail_reads: false,
            halted: false,
            flushes_until_halt: None,
            acknowledged: Ghost(0),
            written: Ghost(Set::empty()),
        }
    }

    /// Switches read failures on or off.
    pub fn set_read_fault(&mut self, fail: bool)
        ensures
            final(self).reads_fail() == fail,
            final(self).image() == old(self).image(),
            final(self).is_halted() == old(self).is_halted(),
            final(self).flushes_left() == old(self).flushes_left(),
            final(self).flushed() == old(self).flushed(),
            final(self).waiting() == old(self).waiting(),
            final(self).valid() == old(self).valid(),
    {
        self.fail_reads = fail;
    }

    /// Schedules a halt right after the device has acknowledged `flushes`
    /// more flushes; with `0` it halts at once.
    pub fn halt_after_flushes(&mut self, flushes: u64)
        ensures
            final(self).image() == old(self).image(),
            final(self).reads_fail() == old(self).reads_fail(),
            flushes == 0 ==> final(self).is_halted() && final(self).flushes_left() is None,
            flushes > 0 ==> final(self).is_halted() == old(self).is_halted()
                && final(self).flushes_left() == Some(flushes),
            final(self).flushed() == old(self).flushed(),
            final(self).waiting() == old(self).waiting(),
            old(self).valid() ==> final(self).valid(),
    {
        if flushes == 0 {
            self.halted = true;
            self.flushes_until_halt = None;
        } else {
            self.flushes_until_halt = Some(flushes);
        }
    }

    /// Brings a halted device back, as after a restart, and clears any
    /// scheduled halt. What it stores is untouched.
    pub fn restart(&mut self)
        ensures
            final(self).image() == old(self).image(),
            final(self).reads_fail() == old(self).reads_fail(),
            !final(self).is_halted(),
            final(self).flushes_left() is None,
            final(self).flushed() == old(self).flushed(),
            final(self).waiting() == old(self).waiting(),
            old(self).valid() ==> final(self).valid(),
    {
        self.halted = false;
        self.flushes_until_halt = None;
    }
}

impl BlockDevice for MockDevice {
    type Error = SyscallError;

    open spec fn wf(&self) -> bool {
        self.valid()
    }

    open spec fn capacity(&self) -> u64 {
        self.image().len() as u64
    }

    open spec fn candidates(&self, id: BlockId) -> Set<Seq<u8>> {
        if id < self.image().len() {
            set![self.image()[id as int]]
        } else {
            Set::empty()
        }
    }

    /// The device is reliable while it has not halted and no halt is
    /// scheduled.
    open spec fn reliable(&self) -> bool {
        !self.is_halted() && self.flushes_left() is None
    }

    /// The device is readable while reads are not switched to fail.
    open spec fn readable(&self) -> bool {
        !self.reads_fail()
    }

    open spec fn flushes(&self) -> nat {
        self.flushed()
    }

    open spec fn unflushed(&self) -> Set<BlockId> {
        self.waiting()
    }

    fn read_block(&self, id: BlockId, buffer: &mut [u8]) -> (r: Result<(), SyscallError>)
        ensures
            r == (if old(buffer)@.len() != BLOCK_SIZE || id >= self.image().len() {
                Err::<(), SyscallError>(SyscallError::EINVAL)
            } else if self.reads_fail() {
                Err(SyscallError::EIO)
            } else {
                Ok(())
            }),
            r is Ok ==> final(buffer)@ == self.image()[id as int],
            r is Err ==> final(buffer)@ == old(buffer)@,
    {
        if buffer.len() != BLOCK_SIZE || id >= self.blocks.len() as u64 {
            return Err(SyscallError::EINVAL);
        }
        if self.fail_reads {
            return Err(SyscallError::EIO);
        }
        copy_block(&self.blocks[id as usize], buffer);
        Ok(())
    }

    fn write_block(&mut self, id: BlockId, data: &[u8]) -> (r: Result<(), SyscallError>)
        ensures
            r == (if data@.len() != BLOCK_SIZE || id >= old(self).image().len() {
                Err::<(), SyscallError>(SyscallError::EINVAL)
            } else if old(self).is_halted() {
                Err(SyscallError::EIO)
            } else {
                Ok(())
            }),
            r is Ok ==> final(self).image() == old(self).image().update(id as int, data@),
            r is Err ==> final(self).image() == old(self).image(),
            final(self).reads_fail() == old(self).reads_fail(),
            final(self).is_halted() == old(self).is_halted(),
            final(self).flushes_left() == old(self).flushes_left(),
            final(self).flushed() == old(self).flushed(),
            final(self).waiting() == (if r is Ok {
                old(self).waiting().insert(id)
            } else {
                old(self).waiting()
            }),
    {
        if data.len() != BLOCK_SIZE || id >= self.blocks.len() as u64 {
            return Err(SyscallError::EINVAL);
        }
        if self.halted {
            return Err(SyscallError::EIO);
        }
        let block: Vec<u8> = vstd::slice::slice_to_vec(data);
        self.blocks[id as usize] = block;
        self.written = Ghost(self.written@.insert(id));
        assert(self.image() =~= old(self).image().update(id as int, data@));
        Ok(())
    }

    fn total_blocks(&self) -> (n: BlockId) {
        self.blocks.len() as u64
    }

    fn flush(&mut self) -> (r: Result<(), SyscallError>)
        ensures
            r == (if old(self).is_halted() {
                Err::<(), SyscallError>(SyscallError::EIO)
            } else {
                Ok(())
            }),
            final(self).image() == old(self).image(),
            final(self).reads_fail() == old(self).reads_fail(),
            final(self).is_halted() == (old(self).is_halted()
                || old(self).flushes_left() == Some(1u64)),
            final(self).flushes_left() == (match old(self).flushes_left() {
                Some(n) => if old(self).is_halted() {
                    Some(n)
                } else if n == 1 {
                    None
                } else {
                    Some((n - 1) as u64)
                },
                None => None,
            }),
            final(self).flushed() == old(self).flushed() + if r is Ok {
                1nat
            } else {
                0nat
            },
            final(self).waiting() == (if r is Ok {
                Set::<BlockId>::empty()
            } else {
                old(self).waiting()
            }),
    {
        if self.halted {
            return Err(SyscallError::EIO);
        }
        match self.flushes_until_halt {
            Some(n) => {
                if n == 1 {
                    self.halted = true;
                    self.flushes_until_halt = None;
                } else {
                    self.flushes_until_halt = Some(n - 1);
                }
            },
            None => {},
        }
        self.acknowledged = Ghost((self.acknowledged@ + 1) as nat);
        self.written = Ghost(Set::empty());
        Ok(())
    }
}

/// A device behind a resource handle of the host kernel.
///
/// The traps are issued by the embedding program. This type holds the
/// handle and the capacity, and decides what each transfer asks of the
/// kernel and what the kernel's answers mean.
pub struct Sahne64Device {
    handle: ResourceHandle,
    capacity_blocks: BlockId,
}

/// What a block transfer asks of the embedding program next.
#[derive(Clone, Copy, Debug, PartialEq, Eq, Structural)]
pub enum TransferStep {
    /// Seek the handle to an absolute byte offset and report the result.
    Seek { handle: ResourceHandle, offset: u64 },
    /// Move one block between the buffer and the handle and report the
    /// result.
    Transfer { handle: ResourceHandle, length: u64 },
    /// The transfer cannot be made, for this reason.
    Failed(SyscallError),
}

impl Sahne64Device {
    /// The resource handle.
    pub closed spec fn resource(&self) -> ResourceHandle {
        self.handle
    }

    /// The capacity in blocks.
    pub closed spec fn blocks(&self) -> BlockId {
        self.capacity_blocks
    }

    /// The device behind the handle that acquiring the resource returned,
    /// given as the raw result of the trap, with `capacity` blocks.
    ///
    /// Fails with the kernel's error when the result is negative.
    pub fn new(acquired: SyscallResult, capacity: BlockId) -> (r: Result<Self, SyscallError>)
        ensures
            match r {
                Ok(device) => acquired >= 0 && device.resource() == acquired as u64
                    && device.blocks()
                    == capacity,
                Err(e) => acquired < 0 && e == SyscallError::decode(acquired),
            },
    {
        match crate::sahne_syscalls::decode_result(acquired) {
            Ok(handle) => Ok(Sahne64Device { handle, capacity_blocks: capacity }),
            Err(e) => Err(e),
        }
    }

    /// The resource handle.
    pub fn handle(&self) -> (handle: ResourceHandle)
        ensures
            handle == self.resource(),
    {
        self.handle
    }

    /// The capacity in blocks.
    pub fn total_blocks(&self) -> (n: BlockId)
        ensures
            n == self.blocks(),
    {
        self.capacity_blocks
    }

    /// How a transfer of block `id` with a buffer of `buffer_len` bytes
    /// begins: with a seek to the block's byte offset, or at once with
    /// `EINVAL` when the buffer is not one block long or the offset does not
    /// fit.
    pub open spec fn first_step(&self, id: BlockId, buffer_len: usize) -> TransferStep {
        if buffer_len != BLOCK_SIZE || id * BLOCK_SIZE > u64::MAX {
            TransferStep::Failed(SyscallError::EINVAL)
        } else {
            TransferStep::Seek { handle: self.resource(), offset: (id * BLOCK_SIZE) as u64 }
        }
    }

    /// What follows the seek, given its raw result: the transfer of one
    /// block, or the kernel's error.
    pub open spec fn step_after_seek(&self, seek_result: SyscallResult) -> TransferStep {
        if seek_result < 0 {
            TransferStep::Failed(SyscallError::decode(seek_result))
        } else {
            TransferStep::Transfer { handle: self.resource(), length: BLOCK_SIZE as u64 }
        }
    }

    /// The outcome of the transfer, given its raw result: success when a
    /// whole block was moved, the kernel's error for a negative result, and
    /// `EIO` for a short transfer.
    pub open spec fn outcome(transferred: SyscallResult) -> Result<(), SyscallError> {
        if transferred == BLOCK_SIZE {
            Ok(())
        } else if transferred < 0 {
            Err(SyscallError::decode(transferred))
        } else {
            Err(SyscallError::EIO)
        }
    }

    /// Begins a transfer of block `id`.
    pub fn begin_transfer(&self, id: BlockId, buffer_len: usize) -> (step: TransferStep)
        ensures
            step == self.first_step(id, buffer_len),
    {
        if buffer_len != BLOCK_SIZE || id > LAST_ADDRESSABLE_BLOCK {
            return TransferStep::Failed(SyscallError::EINVAL);
        }
        TransferStep::Seek { handle: self.handle, offset: id * (BLOCK_SIZE as u64) }
    }

    /// Continues a transfer after the seek.
    pub fn after_seek(&self, seek_result: SyscallResult) -> (step: TransferStep)
        ensures
            step == self.step_after_seek(seek_result),
    {
        if seek_result < 0 {
            TransferStep::Failed(SyscallError::from_raw(seek_result))
        } else {
            TransferStep::Transfer { handle: self.handle, length: BLOCK_SIZE as u64 }
        }
    }

    /// Ends a transfer: judges the raw result of the read or write.
    pub fn finish_transfer(transferred: SyscallResult) -> (r: Result<(), SyscallError>)
        ensures
            r == Self::outcome(transferred),
    {
        if transferred == BLOCK_SIZE as isize {
            Ok(())
        } else if transferred < 0 {
            Err(SyscallError::from_raw(transferred))
        } else {
            Err(SyscallError::EIO)
        }
    }
}

fn copy_block(src: &Vec<u8>, buffer: &mut [u8])
    requires
        src@.len() == old(buffer)@.len(),
    ensures
        final(buffer)@ == src@,
{
    let mut k: usize = 0;
    while k < src.len()
        invariant
            k <= src@.len(),
            src@.len() == buffer@.len(),
            forall|j: int| 0 <= j < k ==> buffer@[j] == src@[j],
        decreases src@.len() - k,
    {
        buffer[k] = src[k];
        k += 1;
    }
    assert(buffer@ =~= src@);
}

} // verus!
