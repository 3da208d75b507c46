//! CRC32C (Castagnoli), reflected, table driven.

use vstd::prelude::*;

verus! {

/// The reflected Castagnoli polynomial.
pub const CRC32C_POLY: u32 = 0x82F63B78;

/// The mask applied to the register before the first and after the last byte.
pub const CRC32C_INITIAL: u32 = 0xFFFFFFFF;

/// One bit step of the reflected division.
pub open spec fn crc_shift(crc: u32) -> u32 {
    if crc & 1 == 1 {
        (crc >> 1) ^ CRC32C_POLY
    } else {
        crc >> 1
    }
}

/// `n` bit steps.
pub open spec fn crc_shift_n(crc: u32, n: nat) -> u32
    decreases n,
{
    if n == 0 {
        crc
    } else {
        crc_shift(crc_shift_n(crc, (n - 1) as nat))
    }
}

/// Eight bit steps, written out.
pub open spec fn crc_shift8(crc: u32) -> u32 {
    crc_shift(crc_shift(crc_shift(crc_shift(crc_shift(crc_shift(crc_shift(crc_shift(crc))))))))
}

/// The register after one more byte, by the bitwise definition.
pub open spec fn crc_update(crc: u32, byte: u8) -> u32 {
    crc_shift_n(crc ^ (byte as u32), 8)
}

/// The register after all of `data`, starting from `register`.
pub open spec fn crc_register(register: u32, data: Seq<u8>) -> u32
    decreases data.len(),
{
    if data.len() == 0 {
        register
    } else {
        crc_update(crc_register(register, data.drop_last()), data.last())
    }
}

/// CRC32C of `data`, continuing from the checksum `initial_crc` of what came
/// before (`0` when nothing did).
pub open spec fn crc32c(data: Seq<u8>, initial_crc: u32) -> u32 {
    crc_register(initial_crc ^ CRC32C_INITIAL, data) ^ CRC32C_INITIAL
}

/// The lookup table's entry for a byte.
pub open spec fn table_entry(index: int) -> u32 {
    crc_shift_n(index as u32, 8)
}

proof fn lemma_shift8_unfold(crc: u32)
    ensures
        crc_shift_n(crc, 8) == crc_shift8(crc),
{
    reveal_with_fuel(crc_shift_n, 9);
}

proof fn lemma_shift8_split(x: u32)
    ensures
        crc_shift8(x) == (x >> 8) ^ crc_shift8(x & 0xff),
{
    assert(crc_shift8(x) == (x >> 8) ^ crc_shift8(x & 0xff)) by (bit_vector);
}

/// The table step equals the bitwise definition.
proof fn lemma_table_step(crc: u32, byte: u8)
    ensures
        crc_update(crc, byte) == (crc >> 8) ^ table_entry((((crc & 0xff) as u8) ^ byte) as int),
        (crc as u8) == (crc & 0xff) as u8,
{
    let x: u32 = crc ^ (byte as u32);
    let idx: u8 = ((crc & 0xff) as u8) ^ byte;
    lemma_shift8_unfold(x);
    lemma_shift8_unfold(idx as u32);
    lemma_shift8_split(x);
    assert((crc ^ (byte as u32)) & 0xff == (((crc & 0xff) as u8) ^ byte) as u32) by (bit_vector);
    assert((crc ^ (byte as u32)) >> 8 == crc >> 8) by (bit_vector);
    assert((crc as u8) == (crc & 0xff) as u8) by (bit_vector);
}

fn shift_once(crc: u32) -> (r: u32)
    ensures
        r == crc_shift(crc),
{
    if crc & 1 == 1 {
        (crc >> 1) ^ CRC32C_POLY
    } else {
        crc >> 1
    }
}

/// Builds the 256-entry lookup table.
pub fn init_crc32c_table() -> (table: [u32; 256])
    ensures
        forall|i: int| 0 <= i < 256 ==> table@[i] == table_entry(i),
{
    let mut table: [u32; 256] = [0u32; 256];
    let mut i: usize = 0;
    while i < 256
        invariant
            i <= 256,
            forall|k: int| 0 <= k < i ==> table@[k] == table_entry(k),
        decreases 256 - i,
    {
        let mut crc: u32 = i as u32;
        let mut j: u32 = 0;
        while j < 8
            invariant
                j <= 8,
                i < 256,
                crc == crc_shift_n(i as u32, j as nat),
            decreases 8 - j,
        {
            crc = shift_once(crc);
            j += 1;
        }
        table[i] = crc;
        i += 1;
    }
    table
}

/// Computes the CRC32C of `data`, continuing from `initial_crc`.
pub fn calculate_crc32c(data: &[u8], initial_crc: u32) -> (crc: u32)
    ensures
        crc == crc32c(data@, initial_crc),
{
    let table: [u32; 256] = init_crc32c_table();
    let mut crc: u32 = initial_crc ^ CRC32C_INITIAL;
    let mut i: usize = 0;
    while i < data.len()
        invariant
            i <= data.len(),
            crc == crc_register(initial_crc ^ CRC32C_INITIAL, data@.take(i as int)),
            forall|k: int| 0 <= k < 256 ==> table@[k] == table_entry(k),
        decreases data.len() - i,
    {
        let byte: u8 = data[i];
        let index: u8 = (crc as u8) ^ byte;
        proof {
            lemma_table_step(crc, byte);
            assert(data@.take(i + 1).drop_last() == data@.take(i as int));
            assert(data@.take(i + 1).last() == byte);
        }
        crc = (crc >> 8) ^ table[index as usize];
        i += 1;
    }
    proof {
        assert(data@.take(data.len() as int) == data@);
    }
    crc ^ CRC32C_INITIAL
}

/// Computes the CRC32C of `data` from the start.
pub fn checksum_data(data: &[u8]) -> (crc: u32)
    ensures
        crc == crc32c(data@, 0),
{
    calculate_crc32c(data, 0)
}

/// A checksum can be computed piecewise: feeding the checksum of a prefix as
/// the initial value for the rest gives the checksum of the whole.
pub proof fn lemma_crc32c_append(a: Seq<u8>, b: Seq<u8>, initial_crc: u32)
    ensures
        crc32c(a + b, initial_crc) == crc32c(b, crc32c(a, initial_crc)),
    decreases b.len(),
{
    let start: u32 = initial_crc ^ CRC32C_INITIAL;
    lemma_register_append(start, a, b);
    let mid: u32 = crc_register(start, a);
    assert((mid ^ 0xFFFFFFFFu32) ^ 0xFFFFFFFFu32 == mid) by (bit_vector);
}

proof fn lemma_register_append(register: u32, a: Seq<u8>, b: Seq<u8>)
    ensures
        crc_register(register, a + b) == crc_register(crc_register(register, a), b),
    decreases b.len(),
{
    if b.len() == 0 {
        assert(a + b == a);
    } else {
        lemma_register_append(register, a, b.drop_last());
        assert((a + b).drop_last() == a + b.drop_last());
        assert((a + b).last() == b.last());
    }
}

/// The checksum of no bytes is zero.
pub proof fn lemma_crc32c_empty()
    ensures
        crc32c(Seq::<u8>::empty(), 0) == 0,
{
    assert((0u32 ^ 0xFFFFFFFFu32) ^ 0xFFFFFFFFu32 == 0u32) by (bit_vector);
}

} // verus!
