//! Little-endian fields at fixed offsets, and the checksum that a metadata
//! block carries over itself.

use vstd::prelude::*;
use vstd::bytes::{
    spec_u16_from_le_bytes, spec_u16_to_le_bytes, spec_u32_from_le_bytes, spec_u32_to_le_bytes,
    spec_u64_from_le_bytes, spec_u64_to_le_bytes, u16_from_le_bytes, u16_to_le_bytes,
    u32_from_le_bytes, u32_to_le_bytes, u64_from_le_bytes, u64_to_le_bytes,
    lemma_auto_spec_u32_to_from_le_bytes,
};
use vstd::slice::slice_subrange;
use crate::checksum::{checksum_data, crc32c};

verus! {

/// The 16-bit field at `off`.
pub open spec fn u16_at(bytes: Seq<u8>, off: int) -> u16 {
    spec_u16_from_le_bytes(bytes.subrange(off, off + 2))
}

/// The 32-bit field at `off`.
pub open spec fn u32_at(bytes: Seq<u8>, off: int) -> u32 {
    spec_u32_from_le_bytes(bytes.subrange(off, off + 4))
}

/// The 64-bit field at `off`.
pub open spec fn u64_at(bytes: Seq<u8>, off: int) -> u64 {
    spec_u64_from_le_bytes(bytes.subrange(off, off + 8))
}

/// `bytes` with `src` laid over it from `off` on.
pub open spec fn overwrite(bytes: Seq<u8>, off: int, src: Seq<u8>) -> Seq<u8> {
    bytes.subrange(0, off) + src + bytes.subrange(off + src.len(), bytes.len() as int)
}

/// A block of `len` zero bytes.
pub open spec fn zeros(len: nat) -> Seq<u8> {
    Seq::new(len, |i: int| 0u8)
}

/// The checksum of `bytes` with the four bytes at `off` counted as zero.
pub open spec fn block_checksum(bytes: Seq<u8>, off: int) -> u32 {
    crc32c(overwrite(bytes, off, zeros(4)), 0)
}

/// Whether the checksum stored at `off` is the checksum of the block.
pub open spec fn checksum_ok(bytes: Seq<u8>, off: int) -> bool {
    u32_at(bytes, off) == block_checksum(bytes, off)
}

/// `bytes` with its checksum computed and stored at `off`.
pub open spec fn sealed(bytes: Seq<u8>, off: int) -> Seq<u8> {
    overwrite(bytes, off, spec_u32_to_le_bytes(block_checksum(bytes, off)))
}

pub proof fn lemma_overwrite_len(bytes: Seq<u8>, off: int, src: Seq<u8>)
    requires
        0 <= off,
        off + src.len() <= bytes.len(),
    ensures
        overwrite(bytes, off, src).len() == bytes.len(),
        overwrite(bytes, off, src).subrange(off, off + src.len()) == src,
        forall|i: int| 0 <= i < off ==> overwrite(bytes, off, src)[i] == bytes[i],
        forall|i: int| off <= i < off + src.len() ==> overwrite(bytes, off, src)[i] == src[i - off],
        forall|i: int| off + src.len() <= i < bytes.len()
            ==> overwrite(bytes, off, src)[i] == bytes[i],
{
    assert(overwrite(bytes, off, src).subrange(off, off + src.len()) =~= src);
}

/// Overwriting the same range twice keeps the second.
pub proof fn lemma_overwrite_twice(bytes: Seq<u8>, off: int, first: Seq<u8>, second: Seq<u8>)
    requires
        0 <= off,
        first.len() == second.len(),
        off + first.len() <= bytes.len(),
    ensures
        overwrite(overwrite(bytes, off, first), off, second) == overwrite(bytes, off, second),
{
    lemma_overwrite_len(bytes, off, first);
    assert(overwrite(overwrite(bytes, off, first), off, second) =~= overwrite(bytes, off, second));
}

/// A sealed block carries a valid checksum, and sealing changes nothing but
/// the checksum field.
pub proof fn lemma_sealed_ok(bytes: Seq<u8>, off: int)
    requires
        0 <= off,
        off + 4 <= bytes.len(),
    ensures
        checksum_ok(sealed(bytes, off), off),
        sealed(bytes, off).len() == bytes.len(),
        u32_at(sealed(bytes, off), off) == block_checksum(bytes, off),
        block_checksum(sealed(bytes, off), off) == block_checksum(bytes, off),
{
    lemma_auto_spec_u32_to_from_le_bytes();
    let sum = spec_u32_to_le_bytes(block_checksum(bytes, off));
    lemma_overwrite_len(bytes, off, sum);
    lemma_overwrite_twice(bytes, off, sum, zeros(4));
}

pub(crate) fn read_u8(bytes: &[u8], off: usize) -> (v: u8)
    requires
        off < bytes@.len(),
    ensures
        v == bytes@[off as int],
{
    bytes[off]
}

pub(crate) fn read_u16(bytes: &[u8], off: usize) -> (v: u16)
    requires
        off + 2 <= bytes@.len(),
    ensures
        v == u16_at(bytes@, off as int),
{
    let len: usize = bytes.len();
    assert(off + 2 <= len);
    u16_from_le_bytes(slice_subrange(bytes, off, off + 2))
}

pub(crate) fn read_u32(bytes: &[u8], off: usize) -> (v: u32)
    requires
        off + 4 <= bytes@.len(),
    ensures
        v == u32_at(bytes@, off as int),
{
    let len: usize = bytes.len();
    assert(off + 4 <= len);
    u32_from_le_bytes(slice_subrange(bytes, off, off + 4))
}

pub(crate) fn read_u64(bytes: &[u8], off: usize) -> (v: u64)
    requires
        off + 8 <= bytes@.len(),
    ensures
        v == u64_at(bytes@, off as int),
{
    let len: usize = bytes.len();
    assert(off + 8 <= len);
    u64_from_le_bytes(slice_subrange(bytes, off, off + 8))
}

/// Copies `src` into `buf` from `off` on.
pub(crate) fn write_bytes(buf: &mut [u8], off: usize, src: &[u8])
    requires
        off + src@.len() <= old(buf)@.len(),
    ensures
        final(buf)@ == overwrite(old(buf)@, off as int, src@),
        final(buf)@.len() == old(buf)@.len(),
{
    let len: usize = buf.len();
    let mut k: usize = 0;
    while k < src.len()
        invariant
            k <= src@.len(),
            off + src@.len() <= buf@.len(),
            buf@.len() == len,
            buf@.len() == old(buf)@.len(),
            forall|i: int| 0 <= i < off ==> buf@[i] == old(buf)@[i],
            forall|i: int| off <= i < off + k ==> buf@[i] == src@[i - off],
            forall|i: int| off + k <= i < buf@.len() ==> buf@[i] == old(buf)@[i],
        decreases src@.len() - k,
    {
        buf[off + k] = src[k];
        k += 1;
    }
    assert(buf@ =~= overwrite(old(buf)@, off as int, src@));
}

pub(crate) fn write_u16(buf: &mut [u8], off: usize, v: u16)
    requires
        off + 2 <= old(buf)@.len(),
    ensures
        final(buf)@ == overwrite(old(buf)@, off as int, spec_u16_to_le_bytes(v)),
        final(buf)@.len() == old(buf)@.len(),
{
    let src: Vec<u8> = u16_to_le_bytes(v);
    write_bytes(buf, off, src.as_slice());
}

pub(crate) fn write_u32(buf: &mut [u8], off: usize, v: u32)
    requires
        off + 4 <= old(buf)@.len(),
    ensures
        final(buf)@ == overwrite(old(buf)@, off as int, spec_u32_to_le_bytes(v)),
        final(buf)@.len() == old(buf)@.len(),
{
    let src: Vec<u8> = u32_to_le_bytes(v);
    write_bytes(buf, off, src.as_slice());
}

pub(crate) fn write_u64(buf: &mut [u8], off: usize, v: u64)
    requires
        off + 8 <= old(buf)@.len(),
    ensures
        final(buf)@ == overwrite(old(buf)@, off as int, spec_u64_to_le_bytes(v)),
        final(buf)@.len() == old(buf)@.len(),
{
    let src: Vec<u8> = u64_to_le_bytes(v);
    write_bytes(buf, off, src.as_slice());
}

/// Computes the checksum of `bytes` with the field at `off` counted as zero.
pub(crate) fn compute_checksum(bytes: &[u8], off: usize) -> (sum: u32)
    requires
        off + 4 <= bytes@.len(),
    ensures
        sum == block_checksum(bytes@, off as int),
{
    let mut copy: Vec<u8> = vstd::slice::slice_to_vec(bytes);
    let zero: [u8; 4] = [0u8, 0u8, 0u8, 0u8];
    assert(zero@ =~= zeros(4));
    write_bytes(copy.as_mut_slice(), off, zero.as_slice());
    checksum_data(copy.as_slice())
}

/// Computes the checksum of the block and stores it at `off`.
pub(crate) fn seal(buf: &mut [u8], off: usize)
    requires
        off + 4 <= old(buf)@.len(),
    ensures
        final(buf)@ == sealed(old(buf)@, off as int),
        final(buf)@.len() == old(buf)@.len(),
{
    let sum: u32 = compute_checksum(buf, off);
    write_u32(buf, off, sum);
}

/// Tells whether the checksum stored at `off` matches the block.
pub(crate) fn verify(bytes: &[u8], off: usize) -> (ok: bool)
    requires
        off + 4 <= bytes@.len(),
    ensures
        ok == checksum_ok(bytes@, off as int),
{
    let stored: u32 = read_u32(bytes, off);
    let sum: u32 = compute_checksum(bytes, off);
    stored == sum
}

} // verus!
