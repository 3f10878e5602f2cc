//! The four subkey-index list variants and their one level of indirection.
//!
//! Three variants are leaves (an ordered array of child-node offsets,
//! optionally paired with a name hash that this core never trusts), and
//! the fourth, the index root, is an ordered array of offsets to other
//! lists.  An index root referenced by an index root is a malformed hive.

use vstd::prelude::*;

use crate::bytes::{cell_err, cell_payload, check_cell, le16, le32, read_le16, read_le32, store_ok};
use crate::errors::HiveError;

verus! {

broadcast use vstd::std_specs::vec::axiom_spec_len;

/// The on-disk shape of one subkeys list.
#[derive(Clone, Copy, Debug, PartialEq, Eq, Structural)]
pub enum ListKind {
    /// Magic `li`: offsets only.
    IndexLeaf,
    /// Magic `lf`: offset and name-hash pairs.
    FastLeaf,
    /// Magic `lh`: offset and name-hash pairs.
    HashLeaf,
    /// Magic `ri`: offsets of other lists.
    IndexRoot,
}

/// What one decoded list holds: its shape and its entry offsets in
/// on-disk order (hashes, where present, are skipped; they are a lookup
/// accelerator, never ground truth).
pub struct SubKeysListView {
    pub kind: ListKind,
    pub offsets: Seq<u32>,
}

/// One decoded subkeys list.
pub struct SubKeysList {
    kind: ListKind,
    offsets: Vec<u32>,
}

impl View for SubKeysList {
    type V = SubKeysListView;

    closed spec fn view(&self) -> SubKeysListView {
        SubKeysListView { kind: self.kind, offsets: self.offsets@ }
    }
}

impl SubKeysList {
    /// The list's on-disk shape.
    pub fn kind(&self) -> (r: ListKind)
        ensures
            r == self@.kind,
    {
        self.kind
    }

    /// Whether this list is an index root (its entries name other lists).
    pub fn is_index_root(&self) -> (r: bool)
        ensures
            r == (self@.kind is IndexRoot),
    {
        match self.kind {
            ListKind::IndexRoot => true,
            _ => false,
        }
    }

    /// The entry offsets, exactly as stored on disk and in on-disk order:
    /// no deduplication and no sorting.
    pub fn into_offsets(self) -> (r: Vec<u32>)
        ensures
            r@ == self@.offsets,
    {
        self.offsets
    }
}

/// The list shape a 2-byte magic announces, if any.
pub open spec fn spec_list_kind(m0: u8, m1: u8) -> Option<ListKind> {
    if m0 == 0x6C && m1 == 0x69 {
        Some(ListKind::IndexLeaf)
    } else if m0 == 0x6C && m1 == 0x66 {
        Some(ListKind::FastLeaf)
    } else if m0 == 0x6C && m1 == 0x68 {
        Some(ListKind::HashLeaf)
    } else if m0 == 0x72 && m1 == 0x69 {
        Some(ListKind::IndexRoot)
    } else {
        None
    }
}

/// Bytes of one entry: offset-and-hash variants store 8, the rest 4.
pub open spec fn spec_entry_size(k: ListKind) -> int {
    match k {
        ListKind::FastLeaf => 8,
        ListKind::HashLeaf => 8,
        _ => 4,
    }
}

/// The subkeys list at relative offset `off`: its shape and the entry
/// offsets in on-disk order, or the exact error that stops the decode.
pub open spec fn spec_list(d: Seq<u8>, base: int, off: u32) -> Result<
    SubKeysListView,
    HiveError,
> {
    match cell_err(d, base, off) {
        Some(e) => Err(e),
        None => {
            let p = cell_payload(base, off);
            if p + 4 > d.len() {
                Err(HiveError::OutOfBounds)
            } else {
                match spec_list_kind(d[p], d[p + 1]) {
                    None => Err(HiveError::MagicMismatch),
                    Some(kind) => {
                        let count = le16(d, p + 2) as int;
                        if p + 4 + count * spec_entry_size(kind) > d.len() {
                            Err(HiveError::OutOfBounds)
                        } else {
                            Ok(
                                SubKeysListView {
                                    kind,
                                    offsets: Seq::new(
                                        count as nat,
                                        |i: int| le32(d, p + 4 + i * spec_entry_size(kind)),
                                    ),
                                },
                            )
                        }
                    },
                }
            }
        },
    }
}

/// Decodes the subkeys list at `off`; agrees exactly with `spec_list`.
pub fn decode_list(d: &Vec<u8>, base: usize, off: u32) -> (r: Result<SubKeysList, HiveError>)
    requires
        store_ok(d@, base as int),
    ensures
        match spec_list(d@, base as int, off) {
            Ok(v) => r is Ok && r.unwrap()@ == v,
            Err(e) => r == Err::<SubKeysList, HiveError>(e),
        },
{
    let _n: usize = d.len();
    if let Some(e) = check_cell(d, base, off) {
        return Err(e);
    }
    let p = base + (off as usize) + 4;
    if (p as u64) + 4 > d.len() as u64 {
        return Err(HiveError::OutOfBounds);
    }
    let m0 = d[p];
    let m1 = d[p + 1];
    let kind = if m0 == 0x6C && m1 == 0x69 {
        ListKind::IndexLeaf
    } else if m0 == 0x6C && m1 == 0x66 {
        ListKind::FastLeaf
    } else if m0 == 0x6C && m1 == 0x68 {
        ListKind::HashLeaf
    } else if m0 == 0x72 && m1 == 0x69 {
        ListKind::IndexRoot
    } else {
        return Err(HiveError::MagicMismatch);
    };
    let count = read_le16(d, p + 2) as usize;
    let entry: usize = match kind {
        ListKind::FastLeaf => 8,
        ListKind::HashLeaf => 8,
        _ => 4,
    };
    if (p as u64) + 4 + (count as u64) * (entry as u64) > d.len() as u64 {
        return Err(HiveError::OutOfBounds);
    }
    let mut offsets: Vec<u32> = Vec::new();
    let mut i: usize = 0;
    while i < count
        invariant
            store_ok(d@, base as int),
            d@.len() <= usize::MAX,
            p == base + off + 4,
            p + 4 + count * entry <= d@.len(),
            entry == spec_entry_size(kind),
            i <= count,
            offsets@.len() == i,
            forall|j: int| 0 <= j < i ==> offsets@[j] == le32(d@, p + 4 + j * entry),
        decreases count - i,
    {
        offsets.push(read_le32(d, p + 4 + i * entry));
        i += 1;
    }
    let r = SubKeysList { kind, offsets };
    proof {
        assert(r@.offsets =~= spec_list(d@, base as int, off).unwrap().offsets);
    }
    Ok(r)
}

/// The entry offsets of the non-root list at `off`.
pub open spec fn leaf_offsets(d: Seq<u8>, base: int, off: u32) -> Seq<u32> {
    spec_list(d, base, off).unwrap().offsets
}

/// Flattens the first `n` lists referenced by an index root: the
/// referenced lists' offsets, concatenated in referenced-list order.  A
/// reference that fails to decode stops the flattening with its error; a
/// referenced list that is itself an index root is a malformed hive.
pub open spec fn spec_flatten(d: Seq<u8>, base: int, refs: Seq<u32>, n: int) -> Result<
    Seq<u32>,
    HiveError,
>
    decreases n,
{
    if n <= 0 {
        Ok(Seq::empty())
    } else {
        match spec_flatten(d, base, refs, n - 1) {
            Err(e) => Err(e),
            Ok(pre) => match spec_list(d, base, refs[n - 1]) {
                Err(e) => Err(e),
                Ok(v) => if v.kind is IndexRoot {
                    Err(HiveError::Malformed)
                } else {
                    Ok(pre + v.offsets)
                },
            },
        }
    }
}

/// The flattened child-node offsets reachable from the list at `off`:
/// a leaf's own entries, or, for an index root, the concatenation of the
/// referenced leaves' entries, resolving exactly one level of indirection.
pub open spec fn spec_child_offsets(d: Seq<u8>, base: int, off: u32) -> Result<
    Seq<u32>,
    HiveError,
> {
    match spec_list(d, base, off) {
        Err(e) => Err(e),
        Ok(v) => if v.kind is IndexRoot {
            spec_flatten(d, base, v.offsets, v.offsets.len() as int)
        } else {
            Ok(v.offsets)
        },
    }
}

/// The concatenation, in referenced-list order, of each referenced
/// list's own offsets.
pub open spec fn concat_leaf_offsets(d: Seq<u8>, base: int, refs: Seq<u32>, n: int) -> Seq<u32>
    decreases n,
{
    if n <= 0 {
        Seq::empty()
    } else {
        concat_leaf_offsets(d, base, refs, n - 1) + leaf_offsets(d, base, refs[n - 1])
    }
}

/// Law: when flattening an index root succeeds, every referenced list
/// decodes, none of them is itself an index root, and the result is
/// exactly the concatenation, in referenced-list order, of each
/// referenced list's own entry offsets.
pub proof fn lemma_flatten_is_concat(d: Seq<u8>, base: int, refs: Seq<u32>, n: int)
    requires
        0 <= n <= refs.len(),
        spec_flatten(d, base, refs, n) is Ok,
    ensures
        forall|j: int|
            0 <= j < n ==> (#[trigger] spec_list(d, base, refs[j])) is Ok && !(spec_list(
                d,
                base,
                refs[j],
            ).unwrap().kind is IndexRoot),
        spec_flatten(d, base, refs, n).unwrap() == concat_leaf_offsets(d, base, refs, n),
    decreases n,
{
    if n > 0 {
        lemma_flatten_is_concat(d, base, refs, n - 1);
    }
}

/// Once flattening has failed after `j` references, taking more
/// references into account keeps the same failure.
pub proof fn lemma_flatten_err_persists(d: Seq<u8>, base: int, refs: Seq<u32>, j: int, n: int)
    requires
        0 <= j <= n <= refs.len(),
        spec_flatten(d, base, refs, j) is Err,
    ensures
        spec_flatten(d, base, refs, n) == spec_flatten(d, base, refs, j),
    decreases n,
{
    if n > j {
        lemma_flatten_err_persists(d, base, refs, j, n - 1);
    }
}

/// Law: a list referenced by an index root that is itself an index root
/// makes the whole flattening fail as malformed, however many references
/// follow it (given that the references before it decode).
pub proof fn lemma_nested_root_fails(d: Seq<u8>, base: int, refs: Seq<u32>, j: int, n: int)
    requires
        0 <= j < n <= refs.len(),
        spec_flatten(d, base, refs, j) is Ok,
        spec_list(d, base, refs[j]) is Ok,
        spec_list(d, base, refs[j]).unwrap().kind is IndexRoot,
    ensures
        spec_flatten(d, base, refs, n) == Err::<Seq<u32>, HiveError>(HiveError::Malformed),
{
    lemma_flatten_err_persists(d, base, refs, j + 1, n);
}

/// Resolves the child-node offsets reachable from the list at `off`,
/// flattening one level of indirection; agrees exactly with
/// `spec_child_offsets`.
pub fn read_child_offsets(d: &Vec<u8>, base: usize, off: u32) -> (r: Result<Vec<u32>, HiveError>)
    requires
        store_ok(d@, base as int),
    ensures
        match spec_child_offsets(d@, base as int, off) {
            Ok(s) => r is Ok && r.unwrap()@ == s,
            Err(e) => r == Err::<Vec<u32>, HiveError>(e),
        },
{
    let list = match decode_list(d, base, off) {
        Ok(l) => l,
        Err(e) => {
            return Err(e);
        },
    };
    if !list.is_index_root() {
        return Ok(list.into_offsets());
    }
    let refs = list.into_offsets();
    let n = refs.len();
    let mut out: Vec<u32> = Vec::new();
    let mut i: usize = 0;
    while i < n
        invariant
            store_ok(d@, base as int),
            n == refs@.len(),
            refs@ == spec_list(d@, base as int, off).unwrap().offsets,
            spec_list(d@, base as int, off).unwrap().kind is IndexRoot,
            spec_list(d@, base as int, off) is Ok,
            i <= n,
            spec_flatten(d@, base as int, refs@, i as int) == Ok::<Seq<u32>, HiveError>(out@),
        decreases n - i,
    {
        let sub = match decode_list(d, base, refs[i]) {
            Ok(l) => l,
            Err(e) => {
                proof {
                    lemma_flatten_err_persists(d@, base as int, refs@, i + 1, refs@.len() as int);
                }
                return Err(e);
            },
        };
        if sub.is_index_root() {
            proof {
                lemma_flatten_err_persists(d@, base as int, refs@, i + 1, refs@.len() as int);
            }
            return Err(HiveError::Malformed);
        }
        let mut sub_offsets = sub.into_offsets();
        out.append(&mut sub_offsets);
        i += 1;
    }
    Ok(out)
}

} // verus!
