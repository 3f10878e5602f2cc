//! The key node: one directory entry of the hive.
//!
//! A key node is decoded eagerly up to and including its name and its
//! value list; its subkeys are resolved lazily by the tree (the node
//! record itself only carries the subkey count and list offset).

use vstd::prelude::*;

use crate::bytes::{
    cell_err, cell_payload, check_cell, le16, le32, le64, read_le16, read_le32, read_le64,
    store_ok, ABSENT_OFFSET,
};
use crate::errors::HiveError;
use crate::flags::KeyNodeFlags;
use crate::names::{decode_name, name_points, points};
use crate::value::{decode_value, spec_value, KeyValue, KeyValueView};

verus! {

broadcast use vstd::std_specs::vec::axiom_spec_len;

/// What one decoded key node holds, mathematically.  The name is given as
/// code points; the values are the views of the eagerly decoded records.
pub struct KeyNodeView {
    pub flags: u16,
    pub timestamp: u64,
    pub access_bits: u32,
    pub parent: u32,
    pub subkey_count: u32,
    pub subkeys_list_offset: u32,
    pub values_count: u32,
    pub values_list_offset: u32,
    pub security_offset: u32,
    pub class_name_offset: u32,
    pub name: Seq<u32>,
    pub values: Seq<KeyValueView>,
}

/// One decoded key node.
pub struct KeyNode {
    cell_offset: u32,
    flags: KeyNodeFlags,
    timestamp: u64,
    access_bits: u32,
    parent: u32,
    subkey_count: u32,
    subkeys_list_offset: u32,
    values_count: u32,
    values_list_offset: u32,
    security_offset: u32,
    class_name_offset: u32,
    name: String,
    values: Vec<KeyValue>,
}

impl View for KeyNode {
    type V = KeyNodeView;

    closed spec fn view(&self) -> KeyNodeView {
        KeyNodeView {
            flags: self.flags.spec_bits(),
            timestamp: self.timestamp,
            access_bits: self.access_bits,
            parent: self.parent,
            subkey_count: self.subkey_count,
            subkeys_list_offset: self.subkeys_list_offset,
            values_count: self.values_count,
            values_list_offset: self.values_list_offset,
            security_offset: self.security_offset,
            class_name_offset: self.class_name_offset,
            name: points(self.name@),
            values: Seq::new(self.values@.len(), |i: int| self.values@[i]@),
        }
    }
}

impl KeyNode {
    /// The cell offset this node was decoded from.
    pub closed spec fn spec_offset(self) -> u32 {
        self.cell_offset
    }

    /// The cell offset this node was decoded from.
    pub fn offset(&self) -> (r: u32)
        ensures
            r == self.spec_offset(),
    {
        self.cell_offset
    }

    /// The node's name.
    pub fn name(&self) -> (r: &str)
        ensures
            points(r@) == self@.name,
    {
        self.name.as_str()
    }

    /// The node's last-write time, as a raw 64-bit Windows file time.
    pub fn timestamp(&self) -> (r: u64)
        ensures
            r == self@.timestamp,
    {
        self.timestamp
    }

    /// The node's flags.
    pub fn flags(&self) -> (r: KeyNodeFlags)
        ensures
            r.spec_bits() == self@.flags,
    {
        self.flags
    }

    /// The node's access bits.
    pub fn access_bits(&self) -> (r: u32)
        ensures
            r == self@.access_bits,
    {
        self.access_bits
    }

    /// Cell offset of the parent node; informational only, never resolved.
    pub fn parent(&self) -> (r: u32)
        ensures
            r == self@.parent,
    {
        self.parent
    }

    /// How many stable subkeys the node claims to have.
    pub fn subkey_count(&self) -> (r: u32)
        ensures
            r == self@.subkey_count,
    {
        self.subkey_count
    }

    /// Cell offset of the stable subkeys list.
    pub fn subkeys_list_offset(&self) -> (r: u32)
        ensures
            r == self@.subkeys_list_offset,
    {
        self.subkeys_list_offset
    }

    /// The raw count field of the value list.
    pub fn values_count(&self) -> (r: u32)
        ensures
            r == self@.values_count,
    {
        self.values_count
    }

    /// Cell offset of the value list.
    pub fn values_list_offset(&self) -> (r: u32)
        ensures
            r == self@.values_list_offset,
    {
        self.values_list_offset
    }

    /// Cell offset of the security descriptor.
    pub fn security_offset(&self) -> (r: u32)
        ensures
            r == self@.security_offset,
    {
        self.security_offset
    }

    /// Cell offset of the class name.
    pub fn class_name_offset(&self) -> (r: u32)
        ensures
            r == self@.class_name_offset,
    {
        self.class_name_offset
    }

    /// The node's values, decoded when the node was.
    pub fn values(&self) -> (r: &Vec<KeyValue>)
        ensures
            r@.len() == self@.values.len(),
            forall|i: int| 0 <= i < r@.len() ==> r@[i]@ == self@.values[i],
    {
        &self.values
    }
}

/// The views of the first `n` value records named by the offset array at
/// position `lp`; nothing if any of them fails to decode.
pub open spec fn spec_value_run(d: Seq<u8>, base: int, lp: int, n: int) -> Option<
    Seq<KeyValueView>,
>
    decreases n,
{
    if n <= 0 {
        Some(Seq::empty())
    } else {
        match spec_value_run(d, base, lp, n - 1) {
            None => None,
            Some(pre) => match spec_value(d, base, le32(d, lp + 4 * (n - 1))) {
                None => None,
                Some(v) => Some(pre.push(v)),
            },
        }
    }
}

proof fn lemma_value_run_len(d: Seq<u8>, base: int, lp: int, n: int)
    requires
        0 <= n,
        spec_value_run(d, base, lp, n) is Some,
    ensures
        spec_value_run(d, base, lp, n).unwrap().len() == n,
    decreases n,
{
    if n > 0 {
        lemma_value_run_len(d, base, lp, n - 1);
    }
}

proof fn lemma_value_run_none_persists(d: Seq<u8>, base: int, lp: int, j: int, n: int)
    requires
        0 <= j <= n,
        spec_value_run(d, base, lp, j) is None,
    ensures
        spec_value_run(d, base, lp, n) is None,
    decreases n,
{
    if n > j {
        lemma_value_run_none_persists(d, base, lp, j, n - 1);
    }
}

/// The value list at `off` with `count` entries: the cell must frame and
/// hold `count` offsets, and every named record must decode; one bad
/// record fails the whole read as a value-decode error.
pub open spec fn spec_values_list(d: Seq<u8>, base: int, off: u32, count: u32) -> Result<
    Seq<KeyValueView>,
    HiveError,
> {
    match cell_err(d, base, off) {
        Some(e) => Err(e),
        None => {
            let p = cell_payload(base, off);
            if p + 4 * count > d.len() {
                Err(HiveError::OutOfBounds)
            } else {
                match spec_value_run(d, base, p, count as int) {
                    None => Err(HiveError::ValueDecode),
                    Some(vs) => Ok(vs),
                }
            }
        },
    }
}

/// Reads the value list at `off`; agrees exactly with `spec_values_list`.
pub fn read_values_list(d: &Vec<u8>, base: usize, off: u32, count: u32) -> (r: Result<
    Vec<KeyValue>,
    HiveError,
>)
    requires
        store_ok(d@, base as int),
    ensures
        match spec_values_list(d@, base as int, off, count) {
            Ok(vs) => r is Ok && r.unwrap()@.len() == vs.len() && (forall|i: int|
                0 <= i < vs.len() ==> r.unwrap()@[i]@ == vs[i]),
            Err(e) => r == Err::<Vec<KeyValue>, HiveError>(e),
        },
{
    let _n: usize = d.len();
    if let Some(e) = check_cell(d, base, off) {
        return Err(e);
    }
    let p = base + (off as usize) + 4;
    if (p as u64) + 4 * (count as u64) > d.len() as u64 {
        return Err(HiveError::OutOfBounds);
    }
    let mut out: Vec<KeyValue> = Vec::new();
    let mut i: usize = 0;
    while i < count as usize
        invariant
            store_ok(d@, base as int),
            d@.len() <= usize::MAX,
            cell_err(d@, base as int, off) is None,
            p == base + off + 4,
            p + 4 * count <= d@.len(),
            i <= count,
            out@.len() == i,
            spec_value_run(d@, base as int, p as int, i as int) is Some,
            forall|j: int|
                0 <= j < i ==> out@[j]@ == spec_value_run(
                    d@,
                    base as int,
                    p as int,
                    i as int,
                ).unwrap()[j],
        decreases count - i,
    {
        let voff = read_le32(d, p + 4 * i);
        let v = match decode_value(d, base, voff) {
            Ok(v) => v,
            Err(_) => {
                proof {
                    lemma_value_run_none_persists(
                        d@,
                        base as int,
                        p as int,
                        i + 1,
                        count as int,
                    );
                }
                return Err(HiveError::ValueDecode);
            },
        };
        out.push(v);
        proof {
            let pre = spec_value_run(d@, base as int, p as int, i as int);
            lemma_value_run_len(d@, base as int, p as int, i as int);
            let run = spec_value_run(d@, base as int, p as int, i + 1);
            assert(run is Some);
            assert forall|j: int| 0 <= j < i + 1 implies out@[j]@ == run.unwrap()[j] by {
                assert(run.unwrap() == pre.unwrap().push(
                    spec_value(d@, base as int, le32(d@, p + 4 * (i as int))).unwrap(),
                ));
            }
        }
        i += 1;
    }
    proof {
        lemma_value_run_len(d@, base as int, p as int, count as int);
    }
    Ok(out)
}

/// The key node at relative offset `off`: every fixed field, the decoded
/// name, and the eagerly decoded values — or the exact error that stops
/// the decode.  A zero value count or an absent-sentinel value-list
/// offset yields an empty value sequence, never a dereference.
pub open spec fn spec_key_node(d: Seq<u8>, base: int, off: u32) -> Result<KeyNodeView, HiveError> {
    match cell_err(d, base, off) {
        Some(e) => Err(e),
        None => {
            let p = cell_payload(base, off);
            if p + 76 > d.len() {
                Err(HiveError::OutOfBounds)
            } else if !(d[p] == 0x6E && d[p + 1] == 0x6B) {
                Err(HiveError::MagicMismatch)
            } else if le16(d, p + 2) & 0xFC00 != 0 {
                Err(HiveError::Malformed)
            } else {
                let name_len = le16(d, p + 72) as int;
                if p + 76 + name_len > d.len() {
                    Err(HiveError::OutOfBounds)
                } else {
                    match name_points(
                        d.subrange(p + 76, p + 76 + name_len),
                        le16(d, p + 2) & 0x0020 != 0,
                    ) {
                        None => Err(HiveError::StringEncoding),
                        Some(nm) => {
                            let vcount = le32(d, p + 36);
                            let voff = le32(d, p + 40);
                            let vals = if vcount == 0 || voff == ABSENT_OFFSET {
                                Ok(Seq::<KeyValueView>::empty())
                            } else {
                                spec_values_list(d, base, voff, vcount)
                            };
                            match vals {
                                Err(e) => Err(e),
                                Ok(values) => Ok(
                                    KeyNodeView {
                                        flags: le16(d, p + 2),
                                        timestamp: le64(d, p + 4),
                                        access_bits: le32(d, p + 12),
                                        parent: le32(d, p + 16),
                                        subkey_count: le32(d, p + 20),
                                        subkeys_list_offset: le32(d, p + 28),
                                        values_count: vcount,
                                        values_list_offset: voff,
                                        security_offset: le32(d, p + 44),
                                        class_name_offset: le32(d, p + 48),
                                        name: nm,
                                        values,
                                    },
                                ),
                            }
                        },
                    }
                }
            }
        },
    }
}

/// Decodes the key node at `off`; agrees exactly with `spec_key_node`,
/// and the returned node remembers `off` as its cell offset.
pub fn decode_node(d: &Vec<u8>, base: usize, off: u32) -> (r: Result<KeyNode, HiveError>)
    requires
        store_ok(d@, base as int),
    ensures
        match spec_key_node(d@, base as int, off) {
            Ok(v) => r is Ok && r.unwrap()@ == v && r.unwrap().spec_offset() == off,
            Err(e) => r == Err::<KeyNode, HiveError>(e),
        },
{
    let _n: usize = d.len();
    if let Some(e) = check_cell(d, base, off) {
        return Err(e);
    }
    let p = base + (off as usize) + 4;
    if (p as u64) + 76 > d.len() as u64 {
        return Err(HiveError::OutOfBounds);
    }
    if !(d[p] == 0x6E && d[p + 1] == 0x6B) {
        return Err(HiveError::MagicMismatch);
    }
    let raw_flags = read_le16(d, p + 2);
    let flags = match KeyNodeFlags::from_bits(raw_flags) {
        Some(f) => f,
        None => {
            return Err(HiveError::Malformed);
        },
    };
    let name_len = read_le16(d, p + 72) as usize;
    if (p as u64) + 76 + (name_len as u64) > d.len() as u64 {
        return Err(HiveError::OutOfBounds);
    }
    let name = match decode_name(d, p + 76, name_len, raw_flags & 0x0020 != 0) {
        Ok(s) => s,
        Err(e) => {
            return Err(e);
        },
    };
    let vcount = read_le32(d, p + 36);
    let voff = read_le32(d, p + 40);
    let values: Vec<KeyValue> = if vcount == 0 || voff == ABSENT_OFFSET {
        Vec::new()
    } else {
        match read_values_list(d, base, voff, vcount) {
            Ok(vs) => vs,
            Err(e) => {
                return Err(e);
            },
        }
    };
    let node = KeyNode {
        cell_offset: off,
        flags,
        timestamp: read_le64(d, p + 4),
        access_bits: read_le32(d, p + 12),
        parent: read_le32(d, p + 16),
        subkey_count: read_le32(d, p + 20),
        subkeys_list_offset: read_le32(d, p + 28),
        values_count: vcount,
        values_list_offset: voff,
        security_offset: read_le32(d, p + 44),
        class_name_offset: read_le32(d, p + 48),
        name,
        values,
    };
    proof {
        let v = spec_key_node(d@, base as int, off).unwrap();
        assert(node@.name == v.name);
        assert(node@.values =~= v.values);
        assert(node@ == v);
    }
    Ok(node)
}

} // verus!
