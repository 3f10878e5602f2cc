//! Little-endian integer reads and the cell framing rules.
//!
//! Every multi-byte integer of the format is little-endian.  A cell is a
//! signed 32-bit length prefix (negative when the cell is allocated)
//! followed by its payload; cell offsets are relative to the start of the
//! cell-data region, which begins `base` bytes into the store.

use vstd::prelude::*;

use crate::errors::HiveError;

verus! {

broadcast use vstd::std_specs::vec::axiom_spec_len;

/// The all-ones offset that means "absent": it must never be dereferenced.
pub const ABSENT_OFFSET: u32 = 0xFFFF_FFFF;

/// Largest backing store the decoder accepts, so that every position
/// computation fits the machine's integer types.
pub const MAX_STORE_LEN: u64 = 0x1000_0000_0000;

/// The 16-bit little-endian integer at position `p` of `d`.
pub open spec fn le16(d: Seq<u8>, p: int) -> u16 {
    (d[p] as u16) | ((d[p + 1] as u16) << 8)
}

/// The 32-bit little-endian integer at position `p` of `d`.
pub open spec fn le32(d: Seq<u8>, p: int) -> u32 {
    (d[p] as u32) | ((d[p + 1] as u32) << 8) | ((d[p + 2] as u32) << 16) | ((d[p + 3] as u32)
        << 24)
}

/// The 64-bit little-endian integer at position `p` of `d`.
pub open spec fn le64(d: Seq<u8>, p: int) -> u64 {
    (le32(d, p) as u64) | ((le32(d, p + 4) as u64) << 32)
}

pub fn read_le16(d: &Vec<u8>, p: usize) -> (r: u16)
    requires
        p + 2 <= d@.len(),
    ensures
        r == le16(d@, p as int),
{
    let _n: usize = d.len();
    (d[p] as u16) | ((d[p + 1] as u16) << 8)
}

pub fn read_le32(d: &Vec<u8>, p: usize) -> (r: u32)
    requires
        p + 4 <= d@.len(),
    ensures
        r == le32(d@, p as int),
{
    let _n: usize = d.len();
    (d[p] as u32) | ((d[p + 1] as u32) << 8) | ((d[p + 2] as u32) << 16) | ((d[p + 3] as u32)
        << 24)
}

pub fn read_le64(d: &Vec<u8>, p: usize) -> (r: u64)
    requires
        p + 8 <= d@.len(),
    ensures
        r == le64(d@, p as int),
{
    let _n: usize = d.len();
    let lo = read_le32(d, p);
    let hi = read_le32(d, p + 4);
    (lo as u64) | ((hi as u64) << 32)
}

/// Whether the store is small enough for every position computation of
/// this crate to stay in range, and `base` names a position in it.
pub open spec fn store_ok(d: Seq<u8>, base: int) -> bool {
    &&& 0 <= base <= d.len()
    &&& d.len() <= MAX_STORE_LEN
}

/// First byte of the payload of the cell at relative offset `off`.
pub open spec fn cell_payload(base: int, off: u32) -> int {
    base + off + 4
}

/// Why the cell at relative offset `off` cannot be consumed, if it cannot:
/// the offset is the absent sentinel, its length prefix lies outside the
/// store, or the prefix's sign says the cell is free rather than allocated.
pub open spec fn cell_err(d: Seq<u8>, base: int, off: u32) -> Option<HiveError> {
    if off == ABSENT_OFFSET {
        Some(HiveError::Malformed)
    } else if base + off + 4 > d.len() {
        Some(HiveError::OutOfBounds)
    } else if le32(d, base + off) < 0x8000_0000 {
        Some(HiveError::Malformed)
    } else {
        None
    }
}

/// Checks the framing of the cell at `off`; `None` means the cell is
/// present and allocated, and its payload starts at `cell_payload(base, off)`.
pub fn check_cell(d: &Vec<u8>, base: usize, off: u32) -> (r: Option<HiveError>)
    requires
        store_ok(d@, base as int),
    ensures
        r == cell_err(d@, base as int, off),
{
    if off == ABSENT_OFFSET {
        Some(HiveError::Malformed)
    } else if (base as u64) + (off as u64) + 4 > d.len() as u64 {
        Some(HiveError::OutOfBounds)
    } else {
        let size = read_le32(d, base + (off as usize));
        if size < 0x8000_0000 {
            Some(HiveError::Malformed)
        } else {
            None
        }
    }
}

} // verus!
