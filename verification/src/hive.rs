//! The hive: an in-memory backing store plus the lazily grown tree of
//! decoded key nodes.
//!
//! Decoded nodes live in an arena, named by their index; a separate
//! resolved-children table maps a node to the indices of its decoded
//! children.  A node's children are resolved from the store at most once:
//! the first `subkeys` call writes the table entry, every later call
//! answers from it without touching the store.

use vstd::prelude::*;
use vstd::string::{StrSliceExecFns, StringExecFns};

use crate::bytes::{store_ok, ABSENT_OFFSET, MAX_STORE_LEN};
use crate::errors::HiveError;
use crate::list::{decode_list, read_child_offsets, spec_child_offsets, spec_list, SubKeysList};
use crate::names::{points, str_eq};
use crate::node::{decode_node, spec_key_node, KeyNode, KeyNodeView};

verus! {

broadcast use vstd::std_specs::vec::axiom_spec_len;

/// The first error among the key nodes at the first `n` of the offsets,
/// in order, if any of them fails to decode.
pub open spec fn first_node_err(d: Seq<u8>, base: int, offs: Seq<u32>, n: int) -> Option<HiveError>
    decreases n,
{
    if n <= 0 {
        None
    } else {
        match first_node_err(d, base, offs, n - 1) {
            Some(e) => Some(e),
            None => match spec_key_node(d, base, offs[n - 1]) {
                Err(e) => Some(e),
                Ok(_) => None,
            },
        }
    }
}

/// Once a node among the first `j` offsets has failed to decode, looking
/// at more offsets reports the same first error.
pub proof fn lemma_node_err_persists(d: Seq<u8>, base: int, offs: Seq<u32>, j: int, n: int)
    requires
        0 <= j <= n <= offs.len(),
        first_node_err(d, base, offs, j) is Some,
    ensures
        first_node_err(d, base, offs, n) == first_node_err(d, base, offs, j),
    decreases n,
{
    if n > j {
        lemma_node_err_persists(d, base, offs, j, n - 1);
    }
}

/// The cell offsets of the immediate children of a node whose subkey
/// count and stable subkeys-list offset are given.  A zero count or an
/// absent-sentinel list offset means no children, with no store access;
/// otherwise the list is resolved (one level of indirection flattened)
/// and every child node must decode.
pub open spec fn spec_subkeys(d: Seq<u8>, base: int, count: u32, list_off: u32) -> Result<
    Seq<u32>,
    HiveError,
> {
    if count == 0 {
        Ok(Seq::empty())
    } else if list_off == ABSENT_OFFSET {
        Ok(Seq::empty())
    } else {
        match spec_child_offsets(d, base, list_off) {
            Err(e) => Err(e),
            Ok(offs) => match first_node_err(d, base, offs, offs.len() as int) {
                Some(e) => Err(e),
                None => Ok(offs),
            },
        }
    }
}

/// The key node at cell offset `off` decodes and its name spells exactly
/// the characters `s`.
pub open spec fn node_name_matches(d: Seq<u8>, base: int, off: u32, s: Seq<char>) -> bool {
    &&& spec_key_node(d, base, off) is Ok
    &&& spec_key_node(d, base, off).unwrap().name == points(s)
}

/// The position of the first of the offsets whose node's name spells `s`,
/// if any does: a linear scan in list order, first match wins.
pub open spec fn first_name_match(d: Seq<u8>, base: int, offs: Seq<u32>, s: Seq<char>) -> Option<
    int,
>
    decreases offs.len(),
{
    if offs.len() == 0 {
        None
    } else if node_name_matches(d, base, offs[0], s) {
        Some(0)
    } else {
        match first_name_match(d, base, offs.skip(1), s) {
            Some(k) => Some(k + 1),
            None => None,
        }
    }
}

/// Characterization of the first match: if nothing before `k` matches,
/// the scan answers `k` when `k` matches and nothing when the list is
/// exhausted.
pub proof fn lemma_first_name_match_at(d: Seq<u8>, base: int, offs: Seq<u32>, s: Seq<char>, k: int)
    requires
        0 <= k <= offs.len(),
        forall|j: int| 0 <= j < k ==> !node_name_matches(d, base, #[trigger] offs[j], s),
        k < offs.len() ==> node_name_matches(d, base, offs[k], s),
    ensures
        first_name_match(d, base, offs, s) == if k < offs.len() {
            Some(k)
        } else {
            None::<int>
        },
    decreases offs.len(),
{
    if offs.len() > 0 {
        if k == 0 {
        } else {
            assert(!node_name_matches(d, base, offs[0], s));
            assert forall|j: int|
                0 <= j < k - 1 implies !node_name_matches(
                d,
                base,
                #[trigger] offs.skip(1)[j],
                s,
            ) by {
                assert(offs.skip(1)[j] == offs[j + 1]);
            }
            if k < offs.len() {
                assert(offs.skip(1)[k - 1] == offs[k]);
            }
            lemma_first_name_match_at(d, base, offs.skip(1), s, k - 1);
        }
    }
}

/// The components of a path split on the backslash delimiter, in order.
/// An empty path has one empty component; adjacent delimiters produce
/// empty components.
pub open spec fn spec_split(s: Seq<char>) -> Seq<Seq<char>>
    decreases s.len(),
{
    if s.len() == 0 {
        seq![Seq::<char>::empty()]
    } else if s[0] == '\\' {
        seq![Seq::<char>::empty()] + spec_split(s.skip(1))
    } else {
        let rest = spec_split(s.skip(1));
        seq![seq![s[0]] + rest[0]] + rest.skip(1)
    }
}

/// Splitting yields at least one component.
pub proof fn lemma_split_len(s: Seq<char>)
    ensures
        spec_split(s).len() >= 1,
    decreases s.len(),
{
    if s.len() > 0 {
        lemma_split_len(s.skip(1));
    }
}

/// Splits a path on the backslash delimiter; agrees with `spec_split`.
fn split_path(path: &str) -> (r: Vec<String>)
    ensures
        r.deep_view() == spec_split(path@),
    decreases path@.len(),
{
    let n = path.unicode_len();
    if n == 0 {
        let mut r: Vec<String> = Vec::new();
        r.push(String::new());
        proof {
            assert(r.deep_view() =~~= spec_split(path@));
        }
        return r;
    }
    let c = path.get_char(0);
    let rest = path.substring_char(1, n);
    proof {
        assert(rest@ =~= path@.skip(1));
    }
    let mut tail = split_path(rest);
    proof {
        lemma_split_len(rest@);
    }
    if c == '\\' {
        let mut r: Vec<String> = Vec::new();
        r.push(String::new());
        r.append(&mut tail);
        proof {
            assert(r.deep_view() =~~= spec_split(path@));
        }
        r
    } else {
        let head = tail[0].clone();
        let mut first = String::new();
        first.push(c);
        first.append(head.as_str());
        let ghost gfirst = first@;
        tail[0] = first;
        proof {
            assert(gfirst =~= seq![c] + spec_split(rest@)[0]);
            assert(tail.deep_view() =~~= spec_split(path@));
        }
        tail
    }
}

/// Resolving a backslash path from a node with the given subkey count and
/// list offset: components are matched left to right by exact name, the
/// walk stops with nothing as soon as a component has no match, and the
/// last matched component's node offset is the result.
pub open spec fn spec_subpath(
    d: Seq<u8>,
    base: int,
    count: u32,
    list_off: u32,
    parts: Seq<Seq<char>>,
) -> Result<Option<u32>, HiveError>
    decreases parts.len(),
{
    if parts.len() == 0 {
        Ok(None)
    } else {
        match spec_subkeys(d, base, count, list_off) {
            Err(e) => Err(e),
            Ok(offs) => match first_name_match(d, base, offs, parts[0]) {
                None => Ok(None),
                Some(k) => if parts.len() == 1 {
                    Ok(Some(offs[k]))
                } else {
                    let v = spec_key_node(d, base, offs[k]).unwrap();
                    spec_subpath(d, base, v.subkey_count, v.subkeys_list_offset, parts.skip(1))
                },
            },
        }
    }
}

/// A first match lies within the list and its node's name matches.
pub proof fn lemma_first_name_match_bounds(d: Seq<u8>, base: int, offs: Seq<u32>, s: Seq<char>)
    ensures
        match first_name_match(d, base, offs, s) {
            Some(k) => 0 <= k < offs.len() && node_name_matches(d, base, offs[k], s),
            None => true,
        },
    decreases offs.len(),
{
    if offs.len() > 0 && !node_name_matches(d, base, offs[0], s) {
        lemma_first_name_match_bounds(d, base, offs.skip(1), s);
    }
}

/// Copies a list of arena indices.
fn clone_ids(v: &Vec<usize>) -> (r: Vec<usize>)
    ensures
        r@ == v@,
{
    let mut r: Vec<usize> = Vec::new();
    let mut i: usize = 0;
    while i < v.len()
        invariant
            i <= v@.len(),
            r@ == v@.subrange(0, i as int),
        decreases v@.len() - i,
    {
        r.push(v[i]);
        proof {
            assert(r@ =~= v@.subrange(0, i + 1));
        }
        i += 1;
    }
    proof {
        assert(v@.subrange(0, v@.len() as int) =~= v@);
    }
    r
}

/// A hive: the backing store, the arena of decoded key nodes, and the
/// resolved-children table.
pub struct Hive {
    data: Vec<u8>,
    base: usize,
    reads: u64,
    nodes: Vec<KeyNode>,
    children: Vec<Option<Vec<usize>>>,
}

impl Hive {
    /// The bytes of the backing store.
    pub closed spec fn store(self) -> Seq<u8> {
        self.data@
    }

    /// Where the cell-data region starts in the store.
    pub closed spec fn sbase(self) -> int {
        self.base as int
    }

    /// How many cells have been read from the store so far.
    pub closed spec fn sreads(self) -> u64 {
        self.reads
    }

    /// How many nodes the arena holds.
    pub closed spec fn node_count(self) -> int {
        self.nodes@.len() as int
    }

    /// The arena node with index `i`.
    pub closed spec fn node_at(self, i: int) -> KeyNode {
        self.nodes@[i]
    }

    /// The resolved-children entry of node `i`: `None` until the node's
    /// subkeys are first resolved, then the child indices in list order.
    pub closed spec fn children_at(self, i: int) -> Option<Seq<usize>> {
        match self.children@[i] {
            Some(v) => Some(v@),
            None => None,
        }
    }

    /// Everything the arena claims holds of node `i`: the node decodes
    /// from its cell offset, and a resolved-children entry names exactly
    /// the nodes decoded from the child offsets the store gives.
    pub closed spec fn node_wf(self, i: int) -> bool {
        let n = self.nodes@[i];
        &&& spec_key_node(self.data@, self.base as int, n.spec_offset()) == Ok::<
            KeyNodeView,
            HiveError,
        >(n@)
        &&& match self.children@[i] {
            None => true,
            Some(ids) => {
                let sk = spec_subkeys(
                    self.data@,
                    self.base as int,
                    n@.subkey_count,
                    n@.subkeys_list_offset,
                );
                &&& sk is Ok
                &&& ids@.len() == sk.unwrap().len()
                &&& forall|k: int|
                    0 <= k < ids@.len() ==> (#[trigger] ids@[k]) < self.nodes@.len()
                        && self.nodes@[ids@[k] as int].spec_offset() == sk.unwrap()[k]
            },
        }
    }

    /// The indices `ids` name, in order, nodes of this arena decoded from
    /// the cell offsets `offs`.
    pub open spec fn child_ids_match(self, ids: Seq<usize>, offs: Seq<u32>) -> bool {
        &&& ids.len() == offs.len()
        &&& forall|k: int|
            0 <= k < ids.len() ==> (#[trigger] ids[k]) < self.node_count() && self.node_at(
                ids[k] as int,
            ).spec_offset() == offs[k]
    }

    /// The hive's invariant.
    pub closed spec fn wf(self) -> bool {
        &&& store_ok(self.data@, self.base as int)
        &&& self.nodes@.len() == self.children@.len()
        &&& forall|i: int| 0 <= i < self.nodes@.len() ==> #[trigger] self.node_wf(i)
    }

    /// Wraps an in-memory store whose cell-data region starts at `base`.
    /// Exactly the stores with `base` in range and a length the decoder's
    /// position arithmetic can handle are accepted.
    pub fn new(data: Vec<u8>, base: usize) -> (r: Result<Hive, HiveError>)
        ensures
            r is Ok <==> (base <= data@.len() && data@.len() <= MAX_STORE_LEN),
            r is Ok ==> {
                let h = r.unwrap();
                &&& h.wf()
                &&& h.store() == data@
                &&& h.sbase() == base
                &&& h.sreads() == 0
                &&& h.node_count() == 0
            },
            r is Err ==> r == Err::<Hive, HiveError>(HiveError::OutOfBounds),
    {
        if (data.len() as u64) <= MAX_STORE_LEN && base <= data.len() {
            Ok(Hive { data, base, reads: 0, nodes: Vec::new(), children: Vec::new() })
        } else {
            Err(HiveError::OutOfBounds)
        }
    }

    /// How many cells have been read from the store so far.
    pub fn reads(&self) -> (r: u64)
        ensures
            r == self.sreads(),
    {
        self.reads
    }

    /// How many nodes the arena holds.
    pub fn num_nodes(&self) -> (r: usize)
        ensures
            r as int == self.node_count(),
    {
        self.nodes.len()
    }

    /// The decoded node with arena index `id`.
    pub fn node(&self, id: usize) -> (r: &KeyNode)
        requires
            id < self.node_count(),
        ensures
            *r == self.node_at(id as int),
    {
        &self.nodes[id]
    }

    proof fn lemma_same_shape_wf(a: Hive, c: Hive)
        requires
            a.wf(),
            c.data == a.data,
            c.base == a.base,
            c.nodes == a.nodes,
            c.children == a.children,
        ensures
            c.wf(),
    {
        assert forall|i: int| 0 <= i < c.nodes@.len() implies #[trigger] c.node_wf(i) by {
            assert(a.node_wf(i));
        }
    }

    fn note_read(&mut self)
        ensures
            final(self).data == old(self).data,
            final(self).base == old(self).base,
            final(self).nodes == old(self).nodes,
            final(self).children == old(self).children,
            final(self).reads >= old(self).reads,
            old(self).wf() ==> final(self).wf(),
    {
        self.reads = if self.reads == u64::MAX {
            u64::MAX
        } else {
            self.reads + 1
        };
        proof {
            if old(self).wf() {
                Self::lemma_same_shape_wf(*old(self), *self);
            }
        }
    }

    /// Decodes the subkeys list at cell offset `off`; agrees exactly with
    /// `spec_list`.  The arena is untouched.
    pub fn read_subkeys_list(&mut self, off: u32) -> (r: Result<SubKeysList, HiveError>)
        requires
            old(self).wf(),
        ensures
            final(self).wf(),
            final(self).store() == old(self).store(),
            final(self).sbase() == old(self).sbase(),
            final(self).node_count() == old(self).node_count(),
            forall|j: int|
                0 <= j < old(self).node_count() ==> final(self).node_at(j) == old(self).node_at(j)
                    && final(self).children_at(j) == old(self).children_at(j),
            match spec_list(old(self).store(), old(self).sbase(), off) {
                Ok(v) => r is Ok && r.unwrap()@ == v,
                Err(e) => r == Err::<SubKeysList, HiveError>(e),
            },
    {
        self.note_read();
        decode_list(&self.data, self.base, off)
    }

    /// Decodes the key node at cell offset `off` into the arena and
    /// returns its index; agrees exactly with `spec_key_node`.  Nothing
    /// already in the arena changes.
    pub fn read_key_node(&mut self, off: u32) -> (r: Result<usize, HiveError>)
        requires
            old(self).wf(),
        ensures
            final(self).wf(),
            final(self).store() == old(self).store(),
            final(self).sbase() == old(self).sbase(),
            old(self).node_count() <= final(self).node_count(),
            forall|j: int|
                0 <= j < old(self).node_count() ==> final(self).node_at(j) == old(self).node_at(j)
                    && final(self).children_at(j) == old(self).children_at(j),
            match spec_key_node(old(self).store(), old(self).sbase(), off) {
                Ok(v) => {
                    &&& r is Ok
                    &&& r.unwrap() as int == old(self).node_count()
                    &&& final(self).node_count() == old(self).node_count() + 1
                    &&& final(self).node_at(r.unwrap() as int)@ == v
                    &&& final(self).node_at(r.unwrap() as int).spec_offset() == off
                    &&& final(self).children_at(r.unwrap() as int) is None
                },
                Err(e) => r == Err::<usize, HiveError>(e) && final(self).node_count() == old(
                    self,
                ).node_count(),
            },
    {
        self.note_read();
        let n = match decode_node(&self.data, self.base, off) {
            Ok(n) => n,
            Err(e) => {
                return Err(e);
            },
        };
        let id = self.nodes.len();
        self.nodes.push(n);
        self.children.push(None);
        proof {
            assert forall|i: int| 0 <= i < self.nodes@.len() implies #[trigger] self.node_wf(
                i,
            ) by {
                if i < old(self).nodes@.len() {
                    assert(old(self).node_wf(i));
                    assert(self.nodes@[i] == old(self).nodes@[i]);
                    assert(self.children@[i] == old(self).children@[i]);
                    if old(self).children@[i] is Some {
                        let ids = old(self).children@[i].unwrap();
                        assert(forall|k: int|
                            0 <= k < ids@.len() ==> self.nodes@[#[trigger] ids@[k] as int]
                                == old(self).nodes@[ids@[k] as int]);
                    }
                }
            }
        }
        Ok(id)
    }

    /// Records the resolved children of node `id`.
    fn set_children(&mut self, id: usize, ids: Vec<usize>, Ghost(offs): Ghost<Seq<u32>>)
        requires
            old(self).wf(),
            id < old(self).node_count(),
            spec_subkeys(
                old(self).store(),
                old(self).sbase(),
                old(self).node_at(id as int)@.subkey_count,
                old(self).node_at(id as int)@.subkeys_list_offset,
            ) == Ok::<Seq<u32>, HiveError>(offs),
            old(self).child_ids_match(ids@, offs),
        ensures
            final(self).wf(),
            final(self).store() == old(self).store(),
            final(self).sbase() == old(self).sbase(),
            final(self).sreads() == old(self).sreads(),
            final(self).node_count() == old(self).node_count(),
            forall|j: int|
                0 <= j < old(self).node_count() ==> final(self).node_at(j) == old(self).node_at(j),
            forall|j: int|
                0 <= j < old(self).node_count() && j != id ==> final(self).children_at(j) == old(
                    self,
                ).children_at(j),
            final(self).children_at(id as int) == Some(ids@),
    {
        let ghost gids = ids@;
        self.children[id] = Some(ids);
        proof {
            assert forall|i: int| 0 <= i < self.nodes@.len() implies #[trigger] self.node_wf(
                i,
            ) by {
                assert(old(self).node_wf(i));
                assert(self.nodes@[i] == old(self).nodes@[i]);
                if i != id {
                    assert(self.children@[i] == old(self).children@[i]);
                }
            }
        }
    }

    /// Decodes into the arena one key node per offset in `offs`, in
    /// order, stopping at the first that fails.
    fn decode_child_nodes(&mut self, offs: &Vec<u32>) -> (r: Result<Vec<usize>, HiveError>)
        requires
            old(self).wf(),
        ensures
            final(self).wf(),
            final(self).store() == old(self).store(),
            final(self).sbase() == old(self).sbase(),
            old(self).node_count() <= final(self).node_count(),
            forall|j: int|
                0 <= j < old(self).node_count() ==> final(self).node_at(j) == old(self).node_at(j),
            forall|j: int|
                0 <= j < old(self).node_count() ==> final(self).children_at(j) == old(
                    self,
                ).children_at(j),
            ({
                let d = old(self).store();
                let b = old(self).sbase();
                match first_node_err(d, b, offs@, offs@.len() as int) {
                    None => r is Ok && final(self).child_ids_match(r.unwrap()@, offs@),
                    Some(e) => r == Err::<Vec<usize>, HiveError>(e),
                }
            }),
    {
        let ghost d = self.store();
        let ghost b = self.sbase();
        let n = offs.len();
        let mut ids: Vec<usize> = Vec::new();
        let mut k: usize = 0;
        while k < n
            invariant
                self.wf(),
                self.store() == d,
                self.sbase() == b,
                d == old(self).store(),
                b == old(self).sbase(),
                old(self).node_count() <= self.node_count(),
                forall|j: int|
                    0 <= j < old(self).node_count() ==> self.node_at(j) == old(self).node_at(j),
                forall|j: int|
                    0 <= j < old(self).node_count() ==> self.children_at(j) == old(
                        self,
                    ).children_at(j),
                n == offs@.len(),
                k <= n,
                first_node_err(d, b, offs@, k as int) is None,
                ids@.len() == k,
                forall|j: int|
                    0 <= j < k ==> (#[trigger] ids@[j]) < self.node_count() && self.node_at(
                        ids@[j] as int,
                    ).spec_offset() == offs@[j],
            decreases n - k,
        {
            let cid = match self.read_key_node(offs[k]) {
                Ok(c) => c,
                Err(e) => {
                    proof {
                        lemma_node_err_persists(d, b, offs@, k + 1, offs@.len() as int);
                    }
                    return Err(e);
                },
            };
            ids.push(cid);
            k += 1;
        }
        Ok(ids)
    }

    /// The node's immediate children, resolved lazily and cached.
    ///
    /// The first call for a node reads its subkeys list (one level of
    /// indirection flattened), decodes every named child into the arena,
    /// and records the child indices; later calls return the recorded
    /// indices and change nothing — in particular they read nothing from
    /// the store.  A node claiming zero subkeys has no children and its
    /// list offset is never dereferenced, whatever that field holds.
    #[verifier::rlimit(100)]
    pub fn subkeys(&mut self, id: usize) -> (r: Result<Vec<usize>, HiveError>)
        requires
            old(self).wf(),
            id < old(self).node_count(),
        ensures
            final(self).wf(),
            final(self).store() == old(self).store(),
            final(self).sbase() == old(self).sbase(),
            old(self).node_count() <= final(self).node_count(),
            forall|j: int|
                0 <= j < old(self).node_count() ==> final(self).node_at(j) == old(self).node_at(j),
            forall|j: int|
                0 <= j < old(self).node_count() && j != id ==> final(self).children_at(j) == old(
                    self,
                ).children_at(j),
            old(self).children_at(id as int) is Some ==> *final(self) == *old(self) && r is Ok
                && r.unwrap()@ == old(self).children_at(id as int).unwrap(),
            old(self).node_at(id as int)@.subkey_count == 0 ==> *final(self) == *old(self)
                && r is Ok && r.unwrap()@ == Seq::<usize>::empty(),
            ({
                let pre = *old(self);
                let post = *final(self);
                match spec_subkeys(
                    pre.store(),
                    pre.sbase(),
                    pre.node_at(id as int)@.subkey_count,
                    pre.node_at(id as int)@.subkeys_list_offset,
                ) {
                    Ok(offs) => {
                        &&& r is Ok
                        &&& post.child_ids_match(r.unwrap()@, offs)
                        &&& (post.children_at(id as int) == Some(r.unwrap()@) || (pre.node_at(
                            id as int,
                        )@.subkey_count == 0 && post.children_at(id as int) == pre.children_at(
                            id as int,
                        )))
                    },
                    Err(e) => r == Err::<Vec<usize>, HiveError>(e),
                }
            }),
    {
        let cached: Option<Vec<usize>> = match &self.children[id] {
            Some(v) => Some(clone_ids(v)),
            None => None,
        };
        if let Some(ids) = cached {
            proof {
                assert(self.node_wf(id as int));
            }
            return Ok(ids);
        }
        let count = self.nodes[id].subkey_count();
        proof {
            assert(self.node_wf(id as int));
        }
        if count == 0 {
            return Ok(Vec::new());
        }
        let list_off = self.nodes[id].subkeys_list_offset();
        if list_off == ABSENT_OFFSET {
            let empty: Vec<usize> = Vec::new();
            self.set_children(id, empty, Ghost(Seq::empty()));
            return Ok(Vec::new());
        }
        self.note_read();
        let ghost d = self.store();
        let ghost b = self.sbase();
        let offs = match read_child_offsets(&self.data, self.base, list_off) {
            Ok(o) => o,
            Err(e) => {
                return Err(e);
            },
        };
        let ghost goffs = offs@;
        let ids = match self.decode_child_nodes(&offs) {
            Ok(ids) => ids,
            Err(e) => {
                proof {
                    assert(spec_subkeys(d, b, count, list_off) == Err::<Seq<u32>, HiveError>(e));
                }
                return Err(e);
            },
        };
        let out = clone_ids(&ids);
        proof {
            assert(spec_subkeys(d, b, count, list_off) == Ok::<Seq<u32>, HiveError>(goffs));
        }
        self.set_children(id, ids, Ghost(goffs));
        Ok(out)
    }

    /// Looks up the first immediate child of node `id` whose name equals
    /// `name` exactly (no case folding), resolving the children first if
    /// they are not cached yet.  `Ok(None)` when no child has that name.
    pub fn subkey(&mut self, id: usize, name: &str) -> (r: Result<Option<usize>, HiveError>)
        requires
            old(self).wf(),
            id < old(self).node_count(),
        ensures
            final(self).wf(),
            final(self).store() == old(self).store(),
            final(self).sbase() == old(self).sbase(),
            old(self).node_count() <= final(self).node_count(),
            forall|j: int|
                0 <= j < old(self).node_count() ==> final(self).node_at(j) == old(self).node_at(j),
            forall|j: int|
                0 <= j < old(self).node_count() && j != id ==> final(self).children_at(j) == old(
                    self,
                ).children_at(j),
            ({
                let pre = *old(self);
                let post = *final(self);
                let d = pre.store();
                let b = pre.sbase();
                match spec_subkeys(
                    d,
                    b,
                    pre.node_at(id as int)@.subkey_count,
                    pre.node_at(id as int)@.subkeys_list_offset,
                ) {
                    Ok(offs) => r is Ok && (match first_name_match(d, b, offs, name@) {
                        Some(k) => {
                            &&& r.unwrap() is Some
                            &&& r.unwrap().unwrap() < post.node_count()
                            &&& post.node_at(r.unwrap().unwrap() as int).spec_offset() == offs[k]
                            &&& post.node_at(r.unwrap().unwrap() as int)@.name == points(name@)
                        },
                        None => r.unwrap() is None,
                    }),
                    Err(e) => r == Err::<Option<usize>, HiveError>(e),
                }
            }),
    {
        let ghost d = old(self).store();
        let ghost b = old(self).sbase();
        let ghost count0 = old(self).node_at(id as int)@.subkey_count;
        let ghost off0 = old(self).node_at(id as int)@.subkeys_list_offset;
        let ids = match self.subkeys(id) {
            Ok(v) => v,
            Err(e) => {
                return Err(e);
            },
        };
        let ghost offs = spec_subkeys(d, b, count0, off0).unwrap();
        let n = ids.len();
        let mut k: usize = 0;
        while k < n
            invariant
                self.wf(),
                self.store() == d,
                self.sbase() == b,
                d == old(self).store(),
                b == old(self).sbase(),
                old(self).node_count() <= self.node_count(),
                forall|j: int|
                    0 <= j < old(self).node_count() ==> self.node_at(j) == old(self).node_at(j),
                forall|j: int|
                    0 <= j < old(self).node_count() && j != id ==> self.children_at(j) == old(
                        self,
                    ).children_at(j),
                spec_subkeys(d, b, count0, off0) == Ok::<Seq<u32>, HiveError>(offs),
                count0 == old(self).node_at(id as int)@.subkey_count,
                off0 == old(self).node_at(id as int)@.subkeys_list_offset,
                n == ids@.len(),
                self.child_ids_match(ids@, offs),
                k <= n,
                forall|j: int| 0 <= j < k ==> !node_name_matches(d, b, #[trigger] offs[j], name@),
            decreases n - k,
        {
            let cid = ids[k];
            let node_name = self.nodes[cid].name();
            let eq = str_eq(node_name, name);
            proof {
                assert(self.node_wf(cid as int));
                if eq {
                    assert(node_name_matches(d, b, offs[k as int], name@));
                    lemma_first_name_match_at(d, b, offs, name@, k as int);
                } else {
                    if node_name_matches(d, b, offs[k as int], name@) {
                        crate::names::lemma_points_injective(node_name@, name@);
                        assert(false);
                    }
                }
            }
            if eq {
                return Ok(Some(cid));
            }
            k += 1;
        }
        proof {
            lemma_first_name_match_at(d, b, offs, name@, n as int);
        }
        Ok(None)
    }

    /// Resolves the components `parts[i..]` from node `cur` by repeated
    /// name lookups.
    #[verifier::rlimit(100)]
    #[verifier::spinoff_prover]
    fn subpath_from(&mut self, cur: usize, parts: &Vec<String>, i: usize) -> (r: Result<
        Option<usize>,
        HiveError,
    >)
        requires
            old(self).wf(),
            cur < old(self).node_count(),
            i < parts@.len(),
        ensures
            final(self).wf(),
            final(self).store() == old(self).store(),
            final(self).sbase() == old(self).sbase(),
            old(self).node_count() <= final(self).node_count(),
            forall|j: int|
                0 <= j < old(self).node_count() ==> final(self).node_at(j) == old(self).node_at(j),
            ({
                let pre = *old(self);
                let post = *final(self);
                let d = pre.store();
                let b = pre.sbase();
                match spec_subpath(
                    d,
                    b,
                    pre.node_at(cur as int)@.subkey_count,
                    pre.node_at(cur as int)@.subkeys_list_offset,
                    parts.deep_view().skip(i as int),
                ) {
                    Ok(None) => r == Ok::<Option<usize>, HiveError>(None),
                    Ok(Some(coff)) => r is Ok && r.unwrap() is Some && r.unwrap().unwrap()
                        < post.node_count() && post.node_at(
                        r.unwrap().unwrap() as int,
                    ).spec_offset() == coff,
                    Err(e) => r == Err::<Option<usize>, HiveError>(e),
                }
            }),
        decreases parts@.len() - i,
    {
        let _np: usize = parts.len();
        let ghost d = old(self).store();
        let ghost b = old(self).sbase();
        let ghost nv = old(self).node_at(cur as int)@;
        let ghost rem = parts.deep_view().skip(i as int);
        let ghost sk = spec_subkeys(d, b, nv.subkey_count, nv.subkeys_list_offset);
        proof {
            assert(rem[0] == parts.deep_view()[i as int]);
            assert(parts.deep_view()[i as int] == parts@[i as int]@);
            assert(rem.len() == parts@.len() - i);
        }
        let comp = parts[i].as_str();
        let found = match self.subkey(cur, comp) {
            Err(e) => {
                proof {
                    assert(sk == Err::<Seq<u32>, HiveError>(e));
                    assert(spec_subpath(d, b, nv.subkey_count, nv.subkeys_list_offset, rem)
                        == Err::<Option<u32>, HiveError>(e));
                }
                return Err(e);
            },
            Ok(found) => found,
        };
        let ghost offs = sk.unwrap();
        let ghost fm = first_name_match(d, b, offs, rem[0]);
        let cid = match found {
            None => {
                proof {
                    assert(sk is Ok);
                    assert(fm is None);
                    assert(spec_subpath(d, b, nv.subkey_count, nv.subkeys_list_offset, rem)
                        == Ok::<Option<u32>, HiveError>(None));
                }
                return Ok(None);
            },
            Some(cid) => cid,
        };
        proof {
            assert(sk is Ok);
            assert(fm is Some);
            lemma_first_name_match_bounds(d, b, offs, rem[0]);
            assert(self.node_at(cid as int).spec_offset() == offs[fm.unwrap()]);
        }
        if i + 1 == parts.len() {
            proof {
                assert(rem.len() == 1);
                assert(spec_subpath(d, b, nv.subkey_count, nv.subkeys_list_offset, rem)
                    == Ok::<Option<u32>, HiveError>(Some(offs[fm.unwrap()])));
            }
            Ok(Some(cid))
        } else {
            let ghost cv = spec_key_node(d, b, offs[fm.unwrap()]).unwrap();
            proof {
                assert(self.node_wf(cid as int));
                assert(self.node_at(cid as int)@ == cv);
                assert(rem.skip(1) =~= parts.deep_view().skip(i + 1));
                assert(spec_subpath(d, b, nv.subkey_count, nv.subkeys_list_offset, rem)
                    == spec_subpath(d, b, cv.subkey_count, cv.subkeys_list_offset, rem.skip(1)));
            }
            let r = self.subpath_from(cid, parts, i + 1);
            proof {
                assert(spec_subpath(d, b, cv.subkey_count, cv.subkeys_list_offset, rem.skip(1))
                    == spec_subpath(
                    d,
                    b,
                    cv.subkey_count,
                    cv.subkeys_list_offset,
                    parts.deep_view().skip(i + 1),
                ));
            }
            r
        }
    }
}

/// Backslash-path resolution from a node of a lazily decoded tree.
pub trait SubPath<T> {
    /// Well-formedness of the resolver's state.
    spec fn resolver_wf(&self) -> bool;

    /// How many nodes the resolver's arena holds.
    spec fn resolver_nodes(&self) -> int;

    /// Resolves `path` from node `id` by successive exact-name child
    /// lookups, one per delimited component, left to right.
    fn subpath(&mut self, id: usize, path: T) -> (r: Result<Option<usize>, HiveError>)
        requires
            old(self).resolver_wf(),
            id < old(self).resolver_nodes(),
        ensures
            final(self).resolver_wf(),
            old(self).resolver_nodes() <= final(self).resolver_nodes(),
    ;
}

impl SubPath<&str> for Hive {
    open spec fn resolver_wf(&self) -> bool {
        self.wf()
    }

    open spec fn resolver_nodes(&self) -> int {
        self.node_count()
    }

    /// Resolves `path` from node `id`.  The empty path is a degenerate
    /// case: no lookup is performed and nothing is found.
    fn subpath(&mut self, id: usize, path: &str) -> (r: Result<Option<usize>, HiveError>)
        ensures
            final(self).store() == old(self).store(),
            final(self).sbase() == old(self).sbase(),
            forall|j: int|
                0 <= j < old(self).node_count() ==> final(self).node_at(j) == old(self).node_at(j),
            path@.len() == 0 ==> r == Ok::<Option<usize>, HiveError>(None) && *final(self) == *old(
                self,
            ),
            path@.len() > 0 ==> ({
                let pre = *old(self);
                let post = *final(self);
                match spec_subpath(
                    pre.store(),
                    pre.sbase(),
                    pre.node_at(id as int)@.subkey_count,
                    pre.node_at(id as int)@.subkeys_list_offset,
                    spec_split(path@),
                ) {
                    Ok(None) => r == Ok::<Option<usize>, HiveError>(None),
                    Ok(Some(coff)) => r is Ok && r.unwrap() is Some && r.unwrap().unwrap()
                        < post.node_count() && post.node_at(
                        r.unwrap().unwrap() as int,
                    ).spec_offset() == coff,
                    Err(e) => r == Err::<Option<usize>, HiveError>(e),
                }
            }),
    {
        if path.unicode_len() == 0 {
            return Ok(None);
        }
        let parts = split_path(path);
        proof {
            lemma_split_len(path@);
            assert(parts.deep_view().skip(0) =~= parts.deep_view());
        }
        self.subpath_from(id, &parts, 0)
    }
}

impl SubPath<&String> for Hive {
    open spec fn resolver_wf(&self) -> bool {
        self.wf()
    }

    open spec fn resolver_nodes(&self) -> int {
        self.node_count()
    }

    /// Resolves `path` from node `id`, as the string-slice resolver does.
    fn subpath(&mut self, id: usize, path: &String) -> (r: Result<Option<usize>, HiveError>)
        ensures
            final(self).store() == old(self).store(),
            final(self).sbase() == old(self).sbase(),
            forall|j: int|
                0 <= j < old(self).node_count() ==> final(self).node_at(j) == old(self).node_at(j),
            path@.len() == 0 ==> r == Ok::<Option<usize>, HiveError>(None) && *final(self) == *old(
                self,
            ),
            path@.len() > 0 ==> ({
                let pre = *old(self);
                let post = *final(self);
                match spec_subpath(
                    pre.store(),
                    pre.sbase(),
                    pre.node_at(id as int)@.subkey_count,
                    pre.node_at(id as int)@.subkeys_list_offset,
                    spec_split(path@),
                ) {
                    Ok(None) => r == Ok::<Option<usize>, HiveError>(None),
                    Ok(Some(coff)) => r is Ok && r.unwrap() is Some && r.unwrap().unwrap()
                        < post.node_count() && post.node_at(
                        r.unwrap().unwrap() as int,
                    ).spec_offset() == coff,
                    Err(e) => r == Err::<Option<usize>, HiveError>(e),
                }
            }),
    {
        <Hive as SubPath<&str>>::subpath(self, id, path.as_str())
    }
}

} // verus!
