//! Decoder for the on-disk format of a Windows NT registry hive.
//!
//! A hive is a single binary blob: a fixed-size file header followed by a
//! cell-data region of length-prefixed allocation units ("cells").  This
//! crate decodes key-node records, the four subkey-index list variants,
//! and value lists out of an in-memory copy of such a blob, builds a
//! lazily populated tree of key nodes, and resolves backslash-delimited
//! paths through it.

pub mod bytes;
pub mod errors;
pub mod flags;
pub mod hive;
pub mod list;
pub mod names;
pub mod node;
pub mod time;
pub mod value;

pub use bytes::ABSENT_OFFSET;
pub use errors::HiveError;
pub use flags::KeyNodeFlags;
pub use hive::{Hive, SubPath};
pub use list::{ListKind, SubKeysList};
pub use node::KeyNode;
pub use value::KeyValue;
