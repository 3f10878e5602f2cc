use nthive::{Hive, HiveError, KeyNode, ListKind, SubPath, ABSENT_OFFSET};

// ---- tiny hive builder ------------------------------------------------

fn put_u16(v: &mut Vec<u8>, x: u16) {
    v.extend_from_slice(&x.to_le_bytes());
}

fn put_u32(v: &mut Vec<u8>, x: u32) {
    v.extend_from_slice(&x.to_le_bytes());
}

fn put_u64(v: &mut Vec<u8>, x: u64) {
    v.extend_from_slice(&x.to_le_bytes());
}

const ALLOCATED: u32 = 0x8000_0040;

/// Appends a key-node cell; returns its cell offset.
#[allow(clippy::too_many_arguments)]
fn nk_cell(
    v: &mut Vec<u8>,
    flags: u16,
    timestamp: u64,
    subkey_count: u32,
    subkeys_off: u32,
    values_count: u32,
    values_off: u32,
    name: &[u8],
) -> u32 {
    let off = v.len() as u32;
    put_u32(v, ALLOCATED);
    v.extend_from_slice(b"nk");
    put_u16(v, flags);
    put_u64(v, timestamp);
    put_u32(v, 0); // access bits
    put_u32(v, 0); // parent
    put_u32(v, subkey_count);
    put_u32(v, 0); // volatile subkey count
    put_u32(v, subkeys_off);
    put_u32(v, ABSENT_OFFSET); // volatile subkeys list
    put_u32(v, values_count);
    put_u32(v, values_off);
    put_u32(v, ABSENT_OFFSET); // security
    put_u32(v, ABSENT_OFFSET); // class name
    put_u32(v, 0); // max subkey name
    put_u32(v, 0); // max subkey class name
    put_u32(v, 0); // max value name
    put_u32(v, 0); // max value data
    put_u32(v, 0); // reserved
    put_u16(v, name.len() as u16);
    put_u16(v, 0); // class name length
    v.extend_from_slice(name);
    off
}

/// Appends a value record cell; returns its cell offset.
fn vk_cell(v: &mut Vec<u8>, flags: u16, data_type: u32, name: &[u8]) -> u32 {
    let off = v.len() as u32;
    put_u32(v, ALLOCATED);
    v.extend_from_slice(b"vk");
    put_u16(v, name.len() as u16);
    put_u32(v, 4); // data size
    put_u32(v, 0); // data offset
    put_u32(v, data_type);
    put_u16(v, flags);
    put_u16(v, 0); // spare
    v.extend_from_slice(name);
    off
}

/// Appends a value-list cell (offsets only); returns its cell offset.
fn value_list_cell(v: &mut Vec<u8>, offsets: &[u32]) -> u32 {
    let off = v.len() as u32;
    put_u32(v, ALLOCATED);
    for o in offsets {
        put_u32(v, *o);
    }
    off
}

/// Appends a subkeys-list cell; returns its cell offset.  `magic` is one
/// of `li`, `lf`, `lh`, `ri`; `entries` are (offset, hash) pairs, the hash
/// written only for `lf` and `lh`.
fn list_cell(v: &mut Vec<u8>, magic: &[u8; 2], entries: &[(u32, u32)]) -> u32 {
    let off = v.len() as u32;
    put_u32(v, ALLOCATED);
    v.extend_from_slice(magic);
    put_u16(v, entries.len() as u16);
    let wide = magic == b"lf" || magic == b"lh";
    for (o, h) in entries {
        put_u32(v, *o);
        if wide {
            put_u32(v, *h);
        }
    }
    off
}

fn utf16le(s: &str) -> Vec<u8> {
    let mut out = Vec::new();
    for unit in s.encode_utf16() {
        out.extend_from_slice(&unit.to_le_bytes());
    }
    out
}

/// A root named ROOT (UTF-16LE name) with two children on a fast leaf,
/// the first child carrying two values.  Returns (store, root offset).
fn testhive_vec() -> (Vec<u8>, u32) {
    let mut v = Vec::new();
    let vk1 = vk_cell(&mut v, 1, 1, b"first");
    let vk2 = vk_cell(&mut v, 1, 4, b"second");
    let vlist = value_list_cell(&mut v, &[vk1, vk2]);
    let child1 = nk_cell(&mut v, 0x20, 7, 0, ABSENT_OFFSET, 2, vlist, b"Child");
    let child2 = nk_cell(&mut v, 0x20, 8, 0, ABSENT_OFFSET, 0, ABSENT_OFFSET, b"Other");
    let leaf = list_cell(&mut v, b"lf", &[(child1, 0), (child2, 0)]);
    let root = nk_cell(&mut v, 0x04, 9, 2, leaf, 0, ABSENT_OFFSET, &utf16le("ROOT"));
    (v, root)
}

// ---- tests ------------------------------------------------------------

#[test]
fn enum_subkeys() {
    let (store, root_off) = testhive_vec();
    let mut hive = Hive::new(store, 0).unwrap();
    let root = hive.read_key_node(root_off).unwrap();
    let k: &KeyNode = hive.node(root);
    assert_eq!(k.name(), "ROOT");
    for sk in hive.subkeys(root).unwrap() {
        println!("{}", hive.node(sk).name());
    }
    assert!(hive.subkeys(root).is_ok());
}

#[test]
fn name_utf16_root() {
    let (store, root_off) = testhive_vec();
    let mut hive = Hive::new(store, 0).unwrap();
    let root = hive.read_key_node(root_off).unwrap();
    assert_eq!(hive.node(root).name(), "ROOT");
    assert!(!hive.node(root).flags().contains(nthive::flags::KEY_COMP_NAME));
}

#[test]
fn name_latin1_software() {
    let mut v = Vec::new();
    let off = nk_cell(&mut v, 0x20, 0, 0, ABSENT_OFFSET, 0, ABSENT_OFFSET, b"Software");
    let mut hive = Hive::new(v, 0).unwrap();
    let id = hive.read_key_node(off).unwrap();
    assert_eq!(hive.node(id).name(), "Software");
}

#[test]
fn name_utf16_surrogate_pair() {
    // U+10437 as the pair D801 DC37
    let mut v = Vec::new();
    let name = [0x01u8, 0xD8, 0x37, 0xDC];
    let off = nk_cell(&mut v, 0, 0, 0, ABSENT_OFFSET, 0, ABSENT_OFFSET, &name);
    let mut hive = Hive::new(v, 0).unwrap();
    let id = hive.read_key_node(off).unwrap();
    assert_eq!(hive.node(id).name(), "\u{10437}");
}

#[test]
fn name_lone_surrogate_is_encoding_error() {
    let mut v = Vec::new();
    let name = [0x01u8, 0xD8, 0x41, 0x00]; // high surrogate then 'A'
    let off = nk_cell(&mut v, 0, 0, 0, ABSENT_OFFSET, 0, ABSENT_OFFSET, &name);
    let mut hive = Hive::new(v, 0).unwrap();
    assert_eq!(hive.read_key_node(off), Err(HiveError::StringEncoding));
}

#[test]
fn subpath_chain() {
    let mut v = Vec::new();
    let c = nk_cell(&mut v, 0x20, 0, 0, ABSENT_OFFSET, 0, ABSENT_OFFSET, b"C");
    let leaf_b = list_cell(&mut v, b"li", &[(c, 0)]);
    let b = nk_cell(&mut v, 0x20, 0, 1, leaf_b, 0, ABSENT_OFFSET, b"B");
    let leaf_a = list_cell(&mut v, b"li", &[(b, 0)]);
    let a = nk_cell(&mut v, 0x20, 0, 1, leaf_a, 0, ABSENT_OFFSET, b"A");
    let leaf_root = list_cell(&mut v, b"li", &[(a, 0)]);
    let root_off = nk_cell(&mut v, 0, 0, 1, leaf_root, 0, ABSENT_OFFSET, &utf16le("ROOT"));
    let mut hive = Hive::new(v, 0).unwrap();
    let root = hive.read_key_node(root_off).unwrap();

    let found = hive.subpath(root, "A\\B\\C").unwrap().expect("C not found");
    assert_eq!(hive.node(found).name(), "C");
    assert_eq!(hive.subpath(root, "A\\X").unwrap(), None);
    assert_eq!(hive.subpath(root, "").unwrap(), None);
    let owned = String::from("A\\B");
    let found_b = hive.subpath(root, &owned).unwrap().expect("B not found");
    assert_eq!(hive.node(found_b).name(), "B");
}

#[test]
fn round_trip_minimal() {
    let (store, root_off) = testhive_vec();
    let mut hive = Hive::new(store, 0).unwrap();
    let root = hive.read_key_node(root_off).unwrap();
    assert_eq!(hive.node(root).name(), "ROOT");
    let kids = hive.subkeys(root).unwrap();
    assert_eq!(kids.len(), 2);
    let child = hive.subkey(root, "Child").unwrap().expect("Child not found");
    assert_eq!(hive.node(child).values().len(), 2);
    assert_eq!(hive.node(child).values()[0].name(), "first");
    assert_eq!(hive.node(child).values()[1].name(), "second");
    let by_path = hive.subpath(root, "Child").unwrap().expect("Child not found");
    assert_eq!(by_path, kids[0]);
    assert_eq!(child, kids[0]);
}

#[test]
fn sentinel_value_list_yields_no_values() {
    let mut v = Vec::new();
    let off = nk_cell(&mut v, 0x20, 0, 0, ABSENT_OFFSET, 5, ABSENT_OFFSET, b"K");
    let mut hive = Hive::new(v, 0).unwrap();
    let id = hive.read_key_node(off).unwrap();
    assert_eq!(hive.node(id).values_count(), 5);
    assert_eq!(hive.node(id).values().len(), 0);
}

#[test]
fn zero_subkey_count_ignores_garbage_offset() {
    let mut v = Vec::new();
    // subkey count 0, but the list offset holds a non-sentinel garbage value
    let off = nk_cell(&mut v, 0x20, 0, 0, 0xDEAD_BEEF, 0, ABSENT_OFFSET, b"K");
    let mut hive = Hive::new(v, 0).unwrap();
    let id = hive.read_key_node(off).unwrap();
    let before = hive.reads();
    let kids = hive.subkeys(id).unwrap();
    assert_eq!(kids.len(), 0);
    assert_eq!(hive.reads(), before);
}

#[test]
fn subkeys_decodes_store_once() {
    let (store, root_off) = testhive_vec();
    let mut hive = Hive::new(store, 0).unwrap();
    let root = hive.read_key_node(root_off).unwrap();
    let first = hive.subkeys(root).unwrap();
    let reads_after_first = hive.reads();
    let second = hive.subkeys(root).unwrap();
    assert_eq!(hive.reads(), reads_after_first);
    assert_eq!(first, second);
    let third = hive.subkeys(root).unwrap();
    assert_eq!(hive.reads(), reads_after_first);
    assert_eq!(first, third);
}

#[test]
fn leaf_offsets_kept_in_disk_order() {
    let mut v = Vec::new();
    let off = list_cell(&mut v, b"li", &[(9, 0), (3, 0), (9, 0), (1, 0)]);
    let mut hive = Hive::new(v, 0).unwrap();
    let list = hive.read_subkeys_list(off).unwrap();
    assert_eq!(list.kind(), ListKind::IndexLeaf);
    assert_eq!(list.into_offsets(), vec![9, 3, 9, 1]);
}

#[test]
fn fast_leaf_skips_hashes() {
    let mut v = Vec::new();
    let off = list_cell(&mut v, b"lf", &[(7, 0xAAAA_AAAA), (5, 0xBBBB_BBBB)]);
    let mut hive = Hive::new(v, 0).unwrap();
    let list = hive.read_subkeys_list(off).unwrap();
    assert_eq!(list.kind(), ListKind::FastLeaf);
    assert_eq!(list.into_offsets(), vec![7, 5]);
}

#[test]
fn index_root_flattens_in_order() {
    let mut v = Vec::new();
    let c1 = nk_cell(&mut v, 0x20, 0, 0, ABSENT_OFFSET, 0, ABSENT_OFFSET, b"a");
    let c2 = nk_cell(&mut v, 0x20, 0, 0, ABSENT_OFFSET, 0, ABSENT_OFFSET, b"b");
    let c3 = nk_cell(&mut v, 0x20, 0, 0, ABSENT_OFFSET, 0, ABSENT_OFFSET, b"c");
    let leaf1 = list_cell(&mut v, b"lh", &[(c1, 0), (c2, 0)]);
    let leaf2 = list_cell(&mut v, b"li", &[(c3, 0)]);
    let root_list = list_cell(&mut v, b"ri", &[(leaf1, 0), (leaf2, 0)]);
    let root_off = nk_cell(&mut v, 0, 0, 3, root_list, 0, ABSENT_OFFSET, &utf16le("ROOT"));
    let mut hive = Hive::new(v, 0).unwrap();
    let root = hive.read_key_node(root_off).unwrap();
    let kids = hive.subkeys(root).unwrap();
    let names: Vec<String> =
        kids.iter().map(|k| hive.node(*k).name().to_string()).collect();
    assert_eq!(names, vec!["a", "b", "c"]);
}

#[test]
fn index_root_in_index_root_is_malformed() {
    let mut v = Vec::new();
    let inner = list_cell(&mut v, b"ri", &[]);
    let outer = list_cell(&mut v, b"ri", &[(inner, 0)]);
    let root_off = nk_cell(&mut v, 0, 0, 1, outer, 0, ABSENT_OFFSET, &utf16le("ROOT"));
    let mut hive = Hive::new(v, 0).unwrap();
    let root = hive.read_key_node(root_off).unwrap();
    assert_eq!(hive.subkeys(root), Err(HiveError::Malformed));
}

#[test]
fn wrong_magic_is_mismatch() {
    let mut v = Vec::new();
    let off = v.len() as u32;
    put_u32(&mut v, ALLOCATED);
    v.extend_from_slice(b"xx");
    v.extend_from_slice(&[0u8; 74]);
    let mut hive = Hive::new(v, 0).unwrap();
    assert_eq!(hive.read_key_node(off), Err(HiveError::MagicMismatch));
}

#[test]
fn free_cell_is_malformed() {
    let mut v = Vec::new();
    let off = v.len() as u32;
    put_u32(&mut v, 0x0000_0040); // positive size: free cell
    v.extend_from_slice(b"nk");
    v.extend_from_slice(&[0u8; 74]);
    let mut hive = Hive::new(v, 0).unwrap();
    assert_eq!(hive.read_key_node(off), Err(HiveError::Malformed));
}

#[test]
fn read_past_end_is_out_of_bounds() {
    let mut hive = Hive::new(vec![0u8; 16], 0).unwrap();
    assert_eq!(hive.read_key_node(1000), Err(HiveError::OutOfBounds));
}

#[test]
fn sentinel_offset_never_dereferenced() {
    let mut hive = Hive::new(vec![0u8; 16], 0).unwrap();
    assert_eq!(hive.read_key_node(ABSENT_OFFSET), Err(HiveError::Malformed));
}

#[test]
fn unknown_flag_bits_are_malformed() {
    let mut v = Vec::new();
    let off = nk_cell(&mut v, 0x8020, 0, 0, ABSENT_OFFSET, 0, ABSENT_OFFSET, b"K");
    let mut hive = Hive::new(v, 0).unwrap();
    assert_eq!(hive.read_key_node(off), Err(HiveError::Malformed));
}

#[test]
fn bad_value_record_fails_whole_list() {
    let mut v = Vec::new();
    let good = vk_cell(&mut v, 1, 1, b"ok");
    let bad = v.len() as u32;
    put_u32(&mut v, ALLOCATED);
    v.extend_from_slice(b"zz"); // not a value record
    v.extend_from_slice(&[0u8; 16]);
    let vlist = value_list_cell(&mut v, &[good, bad]);
    let off = nk_cell(&mut v, 0x20, 0, 0, ABSENT_OFFSET, 2, vlist, b"K");
    let mut hive = Hive::new(v, 0).unwrap();
    assert_eq!(hive.read_key_node(off), Err(HiveError::ValueDecode));
}

#[test]
fn filetime_unix_epoch() {
    assert_eq!(nthive::time::filetime_to_unix(116_444_736_000_000_000), (0, 0));
    assert_eq!(
        nthive::time::filetime_to_unix(116_444_736_012_345_600),
        (1, 234_560_000)
    );
    assert_eq!(nthive::time::filetime_to_unix(0), (-11_644_473_600, 0));
}

#[test]
fn filetime_epoch_through_chrono() {
    let (secs, nanos) = nthive::time::filetime_to_unix(116_444_736_000_000_000);
    let dt = chrono::DateTime::from_timestamp(secs, nanos).unwrap();
    assert_eq!(dt.to_string(), "1970-01-01 00:00:00 UTC");
}

#[test]
fn timestamp_field_is_kept() {
    let (store, root_off) = testhive_vec();
    let mut hive = Hive::new(store, 0).unwrap();
    let root = hive.read_key_node(root_off).unwrap();
    assert_eq!(hive.node(root).timestamp(), 9);
    assert_eq!(hive.node(root).subkey_count(), 2);
}

#[test]
fn error_descriptions() {
    assert_eq!(
        HiveError::OutOfBounds.describe(),
        "read beyond the end of the backing store"
    );
    assert_eq!(
        HiveError::StringEncoding.describe(),
        "invalid code unit in a name"
    );
}
