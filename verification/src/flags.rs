//! The flags word of a key node.

use vstd::prelude::*;

verus! {

/// This is a volatile key (not stored on disk).
pub const KEY_IS_VOLATILE: u16 = 0x0001;

/// This is the mount point of another hive (not stored on disk).
pub const KEY_HIVE_EXIT: u16 = 0x0002;

/// This is the root key.
pub const KEY_HIVE_ENTRY: u16 = 0x0004;

/// This key cannot be deleted.
pub const KEY_NO_DELETE: u16 = 0x0008;

/// This key is a symbolic link.
pub const KEY_SYM_LINK: u16 = 0x0010;

/// The key name is in the 8-bit extended encoding instead of UTF-16LE.
pub const KEY_COMP_NAME: u16 = 0x0020;

/// This key is a predefined handle.
pub const KEY_PREDEF_HANDLE: u16 = 0x0040;

/// This key was virtualized at least once.
pub const KEY_VIRT_MIRRORED: u16 = 0x0080;

/// This is a virtual key.
pub const KEY_VIRT_TARGET: u16 = 0x0100;

/// This key is part of a virtual store path.
pub const KEY_VIRTUAL_STORE: u16 = 0x0200;

/// Every bit the format defines; a set bit outside this mask is invalid.
pub const KEY_FLAGS_MASK: u16 = 0x03FF;

/// A key node's flags word.  Only `KEY_COMP_NAME` affects parsing (it
/// selects the name's byte encoding); the rest are exposed as metadata.
#[derive(Clone, Copy, Debug, PartialEq, Eq, Structural)]
pub struct KeyNodeFlags {
    bits: u16,
}

impl KeyNodeFlags {
    /// The raw word behind this flags value.
    pub closed spec fn spec_bits(self) -> u16 {
        self.bits
    }

    /// The raw flags word.
    pub fn bits(&self) -> (r: u16)
        ensures
            r == self.spec_bits(),
    {
        self.bits
    }

    /// Wraps a raw flags word; `None` exactly when a bit outside the
    /// defined vocabulary is set.
    pub fn from_bits(bits: u16) -> (r: Option<KeyNodeFlags>)
        ensures
            r is Some <==> bits & 0xFC00 == 0,
            r is Some ==> r.unwrap().spec_bits() == bits,
    {
        if bits & 0xFC00 == 0 {
            Some(KeyNodeFlags { bits })
        } else {
            None
        }
    }

    /// Whether any bit of `flag` is set in this word.
    pub fn contains(&self, flag: u16) -> (r: bool)
        ensures
            r == ((self.spec_bits() & flag) != 0),
    {
        self.bits & flag != 0
    }
}

} // verus!
