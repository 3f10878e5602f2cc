//! Error kinds reported by the decoding engine.

use vstd::prelude::*;

verus! {

/// A typed failure of one decode operation.
///
/// Every fallible operation of this crate surfaces one of these kinds to
/// its immediate caller; no operation substitutes default or partial data
/// on a structural violation.
#[derive(Clone, Copy, Debug, PartialEq, Eq, Structural)]
pub enum HiveError {
    /// A seek or read would fall outside the backing store.
    OutOfBounds,
    /// The record at the given offset does not carry the expected magic.
    MagicMismatch,
    /// A structural invariant of the format is violated: a free cell where
    /// an allocated one is required, an index root referencing another
    /// index root, an absent-sentinel offset that would be dereferenced,
    /// or a flags word with unknown bits set.
    Malformed,
    /// A key or value name holds an invalid code unit.
    StringEncoding,
    /// A value record could not be decoded.
    ValueDecode,
}

impl HiveError {
    /// A short human-readable description of the error kind.
    pub fn describe(&self) -> (r: &'static str)
        ensures
            r@ == self.spec_describe(),
    {
        match self {
            HiveError::OutOfBounds => "read beyond the end of the backing store",
            HiveError::MagicMismatch => "wrong record type at the given offset",
            HiveError::Malformed => "structural invariant of the hive format violated",
            HiveError::StringEncoding => "invalid code unit in a name",
            HiveError::ValueDecode => "a value record could not be decoded",
        }
    }

    /// What `describe` returns for each kind.
    pub open spec fn spec_describe(self) -> Seq<char> {
        match self {
            HiveError::OutOfBounds => "read beyond the end of the backing store"@,
            HiveError::MagicMismatch => "wrong record type at the given offset"@,
            HiveError::Malformed => "structural invariant of the hive format violated"@,
            HiveError::StringEncoding => "invalid code unit in a name"@,
            HiveError::ValueDecode => "a value record could not be decoded"@,
        }
    }
}

} // verus!
