//! Value records and the value list.
//!
//! A key node's value list is a cell holding an ordered array of offsets,
//! each naming one value record.  The record's own field layout is decoded
//! here only as far as the core needs: its magic, its name, and its
//! type/size/offset words.  Any failure while decoding one record fails
//! the whole list read; nothing is skipped.

use vstd::prelude::*;

use crate::bytes::{cell_err, cell_payload, check_cell, le16, le32, read_le16, read_le32, store_ok};
use crate::errors::HiveError;
use crate::names::{decode_name, name_points, points};

verus! {

broadcast use vstd::std_specs::vec::axiom_spec_len;

/// What one decoded value record holds, mathematically: the name as code
/// points and the three data words.
pub struct KeyValueView {
    pub name: Seq<u32>,
    pub data_size: u32,
    pub data_offset: u32,
    pub data_type: u32,
    pub flags: u16,
}

/// One decoded value record.
pub struct KeyValue {
    name: String,
    data_size: u32,
    data_offset: u32,
    data_type: u32,
    flags: u16,
}

impl View for KeyValue {
    type V = KeyValueView;

    closed spec fn view(&self) -> KeyValueView {
        KeyValueView {
            name: points(self.name@),
            data_size: self.data_size,
            data_offset: self.data_offset,
            data_type: self.data_type,
            flags: self.flags,
        }
    }
}

impl KeyValue {
    /// The value's name.
    pub fn name(&self) -> (r: &str)
        ensures
            points(r@) == self@.name,
    {
        self.name.as_str()
    }

    /// Size in bytes of the value's data.
    pub fn data_size(&self) -> (r: u32)
        ensures
            r == self@.data_size,
    {
        self.data_size
    }

    /// Cell offset of the value's data.
    pub fn data_offset(&self) -> (r: u32)
        ensures
            r == self@.data_offset,
    {
        self.data_offset
    }

    /// The value's type word.
    pub fn data_type(&self) -> (r: u32)
        ensures
            r == self@.data_type,
    {
        self.data_type
    }

    /// The value's flags word; bit 0 selects the name's 8-bit encoding.
    pub fn value_flags(&self) -> (r: u16)
        ensures
            r == self@.flags,
    {
        self.flags
    }
}

/// The value record at relative offset `off`, or `None` if anything about
/// it fails to decode: cell framing, bounds, the `vk` magic, or the name.
pub open spec fn spec_value(d: Seq<u8>, base: int, off: u32) -> Option<KeyValueView> {
    if cell_err(d, base, off) is Some {
        None
    } else {
        let p = cell_payload(base, off);
        if p + 20 > d.len() {
            None
        } else if !(d[p] == 0x76 && d[p + 1] == 0x6B) {
            None
        } else {
            let name_len = le16(d, p + 2) as int;
            if p + 20 + name_len > d.len() {
                None
            } else {
                match name_points(
                    d.subrange(p + 20, p + 20 + name_len),
                    le16(d, p + 16) & 0x0001 != 0,
                ) {
                    None => None,
                    Some(nm) => Some(
                        KeyValueView {
                            name: nm,
                            data_size: le32(d, p + 4),
                            data_offset: le32(d, p + 8),
                            data_type: le32(d, p + 12),
                            flags: le16(d, p + 16),
                        },
                    ),
                }
            }
        }
    }
}

/// Decodes the value record at `off`; every failure is reported as a
/// value-decode error, exactly when `spec_value` gives nothing.
pub fn decode_value(d: &Vec<u8>, base: usize, off: u32) -> (r: Result<KeyValue, HiveError>)
    requires
        store_ok(d@, base as int),
    ensures
        match spec_value(d@, base as int, off) {
            Some(v) => r is Ok && r.unwrap()@ == v,
            None => r == Err::<KeyValue, HiveError>(HiveError::ValueDecode),
        },
{
    let _n: usize = d.len();
    if check_cell(d, base, off).is_some() {
        return Err(HiveError::ValueDecode);
    }
    let p = base + (off as usize) + 4;
    if (p as u64) + 20 > d.len() as u64 {
        return Err(HiveError::ValueDecode);
    }
    if !(d[p] == 0x76 && d[p + 1] == 0x6B) {
        return Err(HiveError::ValueDecode);
    }
    let name_len = read_le16(d, p + 2) as usize;
    if (p as u64) + 20 + (name_len as u64) > d.len() as u64 {
        return Err(HiveError::ValueDecode);
    }
    let flags = read_le16(d, p + 16);
    let name = match decode_name(d, p + 20, name_len, flags & 0x0001 != 0) {
        Ok(s) => s,
        Err(_) => {
            return Err(HiveError::ValueDecode);
        },
    };
    Ok(
        KeyValue {
            name,
            data_size: read_le32(d, p + 4),
            data_offset: read_le32(d, p + 8),
            data_type: read_le32(d, p + 12),
            flags,
        },
    )
}

} // verus!
