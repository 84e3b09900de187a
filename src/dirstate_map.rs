//! The dirstate index: the tree of nodes over a backing image, its
//! counters, its public operations, its v1 encoding and decoding, and the
//! laws that relate them.
use vstd::prelude::*;

use crate::codec::DirstateError;
use crate::codec::PARENTS_SIZE;
use crate::codec::RECORD_HEADER_SIZE;
use crate::codec::Record;
use crate::codec::decode_state;
use crate::codec::decodable_v1;
use crate::codec::distinct_paths;
use crate::codec::find_nul;
use crate::codec::first_nul;
use crate::codec::get_be32;
use crate::codec::header_ok;
use crate::codec::lemma_v1_image;
use crate::codec::pack_entry;
use crate::codec::parents_bytes;
use crate::codec::parents_of;
use crate::codec::parse_records;
use crate::codec::record_at;
use crate::codec::record_copy;
use crate::codec::record_end;
use crate::codec::record_entry;
use crate::codec::record_fits;
use crate::codec::records_bytes;
use crate::codec::valid_v1;
use crate::entry::DirstateEntry;
use crate::entry::DirstateParents;
use crate::entry::EntryState;
use crate::entry::Timestamp;
use crate::node::key_borrowed_in;
use crate::node::lemma_entries_of_listing;
use crate::node::lemma_nodes_in_post_order;
use crate::node::borrows_image;
use crate::node::owns_bytes;
use crate::node::lemma_node_holds;
use crate::node::lemma_untracked_entry_counted;
use crate::node::lemma_tracked_le_entries;
use crate::node::ChildNode;
use crate::node::CountKind;
use crate::node::EntryFilter;
use crate::node::Node;
use crate::node::PathSlice;
use crate::node::after_dir;
use crate::node::cleared_entry;
use crate::node::copies_of;
use crate::node::copy_bytes;
use crate::node::copy_in;
use crate::node::count_in;
use crate::node::entries_of;
use crate::node::entry_in;
use crate::node::is_empty_node;
use crate::node::lemma_lookup_child;
use crate::node::lemma_lookup_extend;
use crate::node::lemma_lookup_wf;
use crate::node::lemma_lookup_wf_dir;
use crate::node::lemma_nodes_in_lookup;
use crate::node::lemma_nodes_in_wf;
use crate::node::lemma_split_below;
use crate::node::lemma_tracked_count_positive;
use crate::node::lookup;
use crate::node::nodes_in;
use crate::node::pairs_view;
use crate::node::paths_where;
use crate::node::selects;
use crate::node::strictly_below;
use crate::node::suffix;
use crate::node::tracked_of;
use crate::node::wf_children;
use crate::path::SLASH;
use crate::path_tree::AncestorUpdate;
use crate::path_tree::KeySource;
use crate::path_tree::Removal;
use crate::path_tree::clear_ambiguous_at;
use crate::path_tree::clear_ambiguous_everywhere;
use crate::path_tree::collect_nodes;
use crate::path_tree::entry_selected;
use crate::path_tree::get_node_in;
use crate::path_tree::get_or_insert_node;
use crate::path_tree::remove_from_node;

verus! {

broadcast use vstd::seq::group_seq_axioms, vstd::std_specs::vec::group_vec_axioms;

/// `d` followed by the records in `o`, if there are any.
pub open spec fn prepend(d: Seq<Record>, o: Option<Seq<Record>>) -> Option<Seq<Record>> {
    match o {
        Some(rs) => Some(d + rs),
        None => None,
    }
}

/// The records give an entry for `p` exactly when one of them names it.
pub proof fn lemma_record_entry_some(rs: Seq<Record>, p: Seq<u8>)
    ensures
        (record_entry(rs, p) is Some) == (exists|k: int| 0 <= k < rs.len() && (#[trigger] rs[k]).0 == p),
        !(exists|k: int| 0 <= k < rs.len() && (#[trigger] rs[k]).0 == p) ==> record_copy(rs, p) is None,
    decreases rs.len(),
{
    if rs.len() > 0 {
        let pre = rs.subrange(0, rs.len() - 1);
        lemma_record_entry_some(pre, p);
        if exists|k: int| 0 <= k < pre.len() && (#[trigger] pre[k]).0 == p {
            let k = choose|k: int| 0 <= k < pre.len() && (#[trigger] pre[k]).0 == p;
            assert(rs[k] == pre[k]);
        }
        if exists|k: int| 0 <= k < rs.len() && (#[trigger] rs[k]).0 == p {
            let k = choose|k: int| 0 <= k < rs.len() && (#[trigger] rs[k]).0 == p;
            if k < rs.len() - 1 {
                assert(pre[k] == rs[k]);
            }
        }
    }
}

/// The 20 bytes of `s` from `at`.
fn node_id_at(s: &[u8], at: usize) -> (r: [u8; 20])
    requires
        at + 20 <= s@.len(),
    ensures
        r@ == s@.subrange(at as int, at + 20),
{
    let n = s.len();
    let mut r = [0u8; 20];
    let mut i: usize = 0;
    while i < 20
        invariant
            i <= 20,
            n == s@.len(),
            at + 20 <= s@.len(),
            forall|k: int| 0 <= k < i ==> r@[k] == s@[at + k],
        decreases 20 - i,
    {
        r[i] = s[at + i];
        i = i + 1;
    }
    proof {
        assert(r@ =~= s@.subrange(at as int, at + 20));
    }
    r
}

/// The records that a v1 image holds for the files among `ns`, in order.
pub open spec fn packed_records(ns: Seq<(Seq<u8>, Node)>, img: Seq<u8>) -> Seq<Record>
    decreases ns.len(),
{
    if ns.len() == 0 {
        Seq::empty()
    } else {
        let x = ns[ns.len() - 1];
        packed_records(ns.subrange(0, ns.len() - 1), img) + match x.1.entry {
            Some(e) => seq![
                (
                    x.0,
                    e,
                    match x.1.copy_source {
                        Some(c) => Some(c.bytes(img)),
                        None => None,
                    },
                ),
            ],
            None => Seq::empty(),
        }
    }
}

/// How a change of state moves the count of tracked files: by one up when
/// a file becomes tracked, by one down when it stops being tracked.
pub open spec fn tracked_delta(old_state: EntryState, new_state: EntryState) -> int {
    (if new_state.spec_is_tracked() { 1int } else { 0 }) - (if old_state.spec_is_tracked() { 1int } else { 0 })
}

/// The index: the backing image, the tree, and the number of nodes that
/// have an entry and that have a copy source.
pub struct DirstateMap<'on_disk> {
    on_disk: &'on_disk [u8],
    root: Vec<ChildNode>,
    nodes_with_entry_count: u32,
    nodes_with_copy_source_count: u32,
}

impl<'on_disk> DirstateMap<'on_disk> {
    /// The children of the root.
    pub closed spec fn root_view(&self) -> Seq<ChildNode> {
        self.root@
    }

    /// The backing image.
    pub closed spec fn image(&self) -> Seq<u8> {
        self.on_disk@
    }

    /// The counter of nodes with an entry, as stored.
    pub closed spec fn stored_entry_count(&self) -> nat {
        self.nodes_with_entry_count as nat
    }

    /// The counter of nodes with a copy source, as stored.
    pub closed spec fn stored_copy_count(&self) -> nat {
        self.nodes_with_copy_source_count as nat
    }

    /// The tree is well formed and both counters equal what they count.
    pub open spec fn wf(&self) -> bool {
        &&& wf_children(self.root_view(), Seq::empty(), self.image())
        &&& self.stored_entry_count() == count_in(self.root_view(), CountKind::Entries)
        &&& self.stored_copy_count() == count_in(self.root_view(), CountKind::CopySources)
    }

    /// The node at path `p`.
    pub open spec fn node_at(&self, p: Seq<u8>) -> Option<Node> {
        lookup(self.root_view(), p, self.image())
    }

    /// The entry of the file at `p`.
    pub open spec fn entry_at(&self, p: Seq<u8>) -> Option<DirstateEntry> {
        entry_in(self.root_view(), p, self.image())
    }

    /// The bytes of the copy source recorded for `p`.
    pub open spec fn copy_at(&self, p: Seq<u8>) -> Option<Seq<u8>> {
        match copy_in(self.root_view(), p, self.image()) {
            Some(s) => Some(s.bytes(self.image())),
            None => None,
        }
    }

    /// Number of nodes that have an entry.
    pub open spec fn entry_count(&self) -> nat {
        count_in(self.root_view(), CountKind::Entries)
    }

    /// Number of nodes that have a copy source.
    pub open spec fn copy_count(&self) -> nat {
        count_in(self.root_view(), CountKind::CopySources)
    }

    /// Number of tracked files.
    pub open spec fn tracked_count(&self) -> nat {
        count_in(self.root_view(), CountKind::TrackedFiles)
    }

    /// Every key and copy source of the tree borrows its bytes from the
    /// image.
    pub open spec fn keys_borrow_image(&self) -> bool {
        borrows_image(self.root_view())
    }

    /// Whether the key of the node at `p` borrows its bytes from the image
    /// (`Some(false)`: it holds bytes of its own; `None`: no node is there).
    pub open spec fn key_borrowed_at(&self, p: Seq<u8>) -> Option<bool> {
        key_borrowed_in(self.root_view(), p, self.image())
    }

    /// Every key and copy source of the tree holds bytes of its own.
    pub open spec fn keys_owned(&self) -> bool {
        owns_bytes(self.root_view())
    }

    /// Whether the tree holds no node at all.
    pub open spec fn is_empty_tree(&self) -> bool {
        self.root_view().len() == 0
    }

    /// An empty index over `on_disk`.
    pub fn empty(on_disk: &'on_disk [u8]) -> (r: Self)
        ensures
            r.wf(),
            r.image() == on_disk@,
            r.is_empty_tree(),
            r.entry_count() == 0,
            r.copy_count() == 0,
            forall|p: Seq<u8>| r.node_at(p) is None,
            forall|p: Seq<u8>| r.entry_at(p) is None && r.copy_at(p) is None,
            r.nodes().len() == 0,
            r.keys_owned(),
    {
        let r = DirstateMap { on_disk, root: Vec::new(), nodes_with_entry_count: 0, nodes_with_copy_source_count: 0 };
        proof {
            assert(owns_bytes(r.root@));
            assert(nodes_in(r.root@, on_disk@) =~= Seq::empty());
            assert(count_in(r.root@, CountKind::Entries) == 0);
            assert(count_in(r.root@, CountKind::CopySources) == 0);
        }
        r
    }

    /// The node at `path`, if there is one.
    pub fn get_node(&self, path: &[u8]) -> (r: Option<&Node>)
        requires
            self.wf(),
        ensures
            match r {
                Some(n) => self.node_at(path@) == Some(*n),
                None => self.node_at(path@) is None,
            },
    {
        proof {
            assert(suffix(path@, 0) =~= path@);
        }
        get_node_in(&self.root, self.on_disk, path, 0, Ghost(Seq::empty()))
    }

    /// Decodes a v1 image. Keys and copy sources of the decoded tree borrow
    /// their bytes from `on_disk`. An empty image gives an empty index and
    /// no parents. An image with more records than the counters can count
    /// is refused.
    pub fn new_v1(on_disk: &'on_disk [u8]) -> (r: Result<(Self, Option<DirstateParents>), DirstateError>)
        ensures
            (r is Ok) == decodable_v1(on_disk@),
            r matches Err(e) ==> (e == DirstateError::CorruptImage && !valid_v1(on_disk@)) || (e
                == DirstateError::TooManyEntries && !(parse_records(on_disk@, PARENTS_SIZE as int) matches Some(rs)
                && rs.len() <= u32::MAX)),
            r matches Ok((m, parents)) ==> {
                &&& m.wf()
                &&& m.image() == on_disk@
                &&& m.keys_borrow_image()
                &&& forall|q: Seq<u8>| m.node_at(q) is Some ==> m.key_borrowed_at(q) == Some(true)
                &&& on_disk@.len() == 0 ==> {
                    &&& parents is None
                    &&& m.is_empty_tree()
                    &&& m.entry_count() == 0
                    &&& m.copy_count() == 0
                    &&& m.nodes().len() == 0
                    &&& forall|p: Seq<u8>| m.node_at(p) is None && m.entry_at(p) is None && m.copy_at(p) is None
                }
                &&& on_disk@.len() > 0 ==> {
                    let rs = parse_records(on_disk@, PARENTS_SIZE as int)->0;
                    &&& parents matches Some(p) && p.p1@ == parents_of(on_disk@).0 && p.p2@ == parents_of(on_disk@).1
                    &&& forall|q: Seq<u8>| m.entry_at(q) == record_entry(rs, q)
                    &&& forall|q: Seq<u8>| m.copy_at(q) == record_copy(rs, q)
                    &&& m.entry_count() == rs.len()
                }
            },
    {
        let mut map = Self::empty(on_disk);
        proof {
            assert(borrows_image(map.root@));
        }
        if on_disk.len() == 0 {
            return Ok((map, None));
        }
        if on_disk.len() < PARENTS_SIZE {
            return Err(DirstateError::CorruptImage);
        }
        let parents = DirstateParents { p1: node_id_at(on_disk, 0), p2: node_id_at(on_disk, 20) };
        let ghost img = on_disk@;
        let mut pos: usize = PARENTS_SIZE;
        let ghost mut done: Seq<Record> = Seq::empty();
        proof {
            assert(prepend(done, parse_records(img, pos as int)) == parse_records(img, PARENTS_SIZE as int)) by {
                if parse_records(img, pos as int) is Some {
                    assert(done + parse_records(img, pos as int)->0 =~= parse_records(img, pos as int)->0);
                }
            }
        }
        while pos < on_disk.len()
            invariant
                map.wf(),
                map.on_disk == on_disk,
                img == on_disk@,
                PARENTS_SIZE <= pos <= img.len(),
                parse_records(img, PARENTS_SIZE as int) == prepend(done, parse_records(img, pos as int)),
                distinct_paths(done),
                forall|q: Seq<u8>| map.entry_at(q) == record_entry(done, q),
                forall|q: Seq<u8>| map.copy_at(q) == record_copy(done, q),
                map.entry_count() == done.len(),
                map.copy_count() <= done.len(),
                PARENTS_SIZE + RECORD_HEADER_SIZE * done.len() <= pos,
                borrows_image(map.root@),
                forall|q: Seq<u8>| lookup(map.root@, q, img) is Some ==> key_borrowed_in(map.root@, q, img) == Some(true),
            decreases img.len() - pos,
        {
            if on_disk.len() - pos < RECORD_HEADER_SIZE {
                return Err(DirstateError::CorruptImage);
            }
            let state = match decode_state(on_disk[pos]) {
                Some(st) => st,
                None => {
                    return Err(DirstateError::CorruptImage);
                },
            };
            let mode = get_be32(on_disk, pos + 1);
            let size = get_be32(on_disk, pos + 5);
            let mtime = get_be32(on_disk, pos + 9);
            let length = get_be32(on_disk, pos + 13);
            let path_start = pos + RECORD_HEADER_SIZE;
            if length < 0 || length as usize > on_disk.len() - path_start {
                return Err(DirstateError::CorruptImage);
            }
            let end = path_start + length as usize;
            let ghost rec = record_at(img, pos as int);
            proof {
                assert(header_ok(img, pos as int));
                assert(record_end(img, pos as int) == end);
            }
            let z = find_nul(on_disk, path_start, end);
            let path = &on_disk[path_start..z];
            let has_copy = z < end;
            let copy_source = if has_copy {
                Some(PathSlice::Borrowed { start: z + 1, end })
            } else {
                None
            };
            let entry = DirstateEntry { state, mode, size, mtime };
            proof {
                let body = img.subrange(path_start as int, end as int);
                assert(path@ =~= body.subrange(0, first_nul(body)));
                assert(rec.0 == path@);
                assert(rec.1 == entry);
                if has_copy {
                    assert(img.subrange(z + 1, end as int) =~= body.subrange(first_nul(body) + 1, body.len() as int));
                }
                assert(copy_source matches Some(c) ==> rec.2 == Some(c.bytes(img)));
                assert(copy_source is None ==> rec.2 is None);
                lemma_record_entry_some(done, path@);
                assert(parse_records(img, pos as int) == match parse_records(img, end as int) {
                    Some(rest) => Some(seq![rec] + rest),
                    None => None,
                });
            }
            if map.get(path).is_some() {
                proof {
                    let k = choose|k: int| 0 <= k < done.len() && (#[trigger] done[k]).0 == path@;
                    if parse_records(img, end as int) is Some {
                        let all = parse_records(img, PARENTS_SIZE as int)->0;
                        let rest = parse_records(img, end as int)->0;
                        assert(all == done + (seq![rec] + rest));
                        assert(all[k] == done[k]);
                        assert(all[done.len() as int] == rec);
                    }
                }
                return Err(DirstateError::CorruptImage);
            }
            if map.nodes_with_entry_count == u32::MAX {
                return Err(DirstateError::TooManyEntries);
            }
            let ancestor_update = if state.is_tracked() {
                AncestorUpdate::Increment
            } else {
                AncestorUpdate::Keep
            };
            proof {
                assert(suffix(path@, 0) =~= path@);
                assert(path@.subrange(0, 0) =~= Seq::<u8>::empty());
                assert(img.subrange(path_start as int, path_start + path@.len()) =~= path@);
                assert(map.copy_at(path@) is None);
                lemma_tracked_le_entries(map.root@);
                assert forall|q: Seq<u8>|
                    entry_in(map.root@, q, img) == record_entry(done, q) && match copy_in(map.root@, q, img) {
                        Some(c) => Some(c.bytes(img)),
                        None => None,
                    } == record_copy(done, q) by {
                    assert(map.entry_at(q) == record_entry(done, q));
                    assert(map.copy_at(q) == record_copy(done, q));
                }
            }
            let ghost old_root = map.root@;
            get_or_insert_node(
                &mut map.root,
                on_disk,
                path,
                0,
                &KeySource::Image { offset: path_start },
                ancestor_update,
                Some(entry),
                copy_source,
                Ghost(Seq::empty()),
            );
            map.nodes_with_entry_count = map.nodes_with_entry_count + 1;
            if has_copy {
                map.nodes_with_copy_source_count = map.nodes_with_copy_source_count + 1;
            }
            proof {
                let nd = done.push(rec);
                assert(nd.subrange(0, done.len() as int) =~= done);
                assert(distinct_paths(nd)) by {
                    assert forall|i: int, j: int| 0 <= i < nd.len() && 0 <= j < nd.len() && i != j implies (
                    #[trigger] nd[i]).0 != (#[trigger] nd[j]).0 by {
                        if i < done.len() && j < done.len() {
                            assert(nd[i] == done[i] && nd[j] == done[j]);
                        } else if i < done.len() {
                            assert(nd[i] == done[i]);
                        } else {
                            assert(nd[j] == done[j]);
                        }
                    }
                }
                if parse_records(img, end as int) is Some {
                    let rest = parse_records(img, end as int)->0;
                    assert(done + (seq![rec] + rest) =~= nd + rest);
                }
                assert forall|q: Seq<u8>| map.entry_at(q) == record_entry(nd, q) && map.copy_at(q) == record_copy(nd, q) by {
                    if q != path@ {
                        assert(entry_in(map.root@, q, img) == entry_in(old_root, q, img));
                        assert(copy_in(map.root@, q, img) == copy_in(old_root, q, img));
                        assert(record_entry(nd, q) == record_entry(done, q));
                        assert(record_copy(nd, q) == record_copy(done, q));
                    } else {
                        assert(entry_in(map.root@, q, img) == Some(entry));
                        assert(record_entry(nd, q) == Some(entry));
                        assert(copy_in(old_root, q, img) is None);
                        assert(copy_in(map.root@, q, img) == copy_source);
                        assert(record_copy(nd, q) == rec.2);
                    }
                }
                done = nd;
            }
            pos = end;
        }
        proof {
            assert(done + Seq::<Record>::empty() =~= done);
        }
        Ok((map, Some(parents)))
    }

    /// Clears every modification time equal to `now`, in the tree itself.
    fn clear_known_ambiguous_mtimes(&mut self, now: i32)
        requires
            old(self).wf(),
        ensures
            final(self).wf(),
            final(self).image() == old(self).image(),
            forall|q: Seq<u8>| final(self).entry_at(q) == cleared_entry(old(self).entry_at(q), now),
            forall|q: Seq<u8>| final(self).copy_at(q) == old(self).copy_at(q),
            forall|q: Seq<u8>| (final(self).node_at(q) is Some) == (old(self).node_at(q) is Some),
            final(self).entry_count() == old(self).entry_count(),
            old(self).keys_owned() ==> final(self).keys_owned(),
            forall|q: Seq<u8>| final(self).key_borrowed_at(q) == old(self).key_borrowed_at(q),
    {
        let mut taken: Vec<ChildNode> = Vec::new();
        std::mem::swap(&mut self.root, &mut taken);
        self.root = clear_ambiguous_everywhere(taken, self.on_disk, now, Ghost(Seq::empty()));
    }

    /// Encodes the index in the v1 layout after clearing, in the tree, every
    /// modification time equal to `now`: such a time cannot tell a later
    /// change of the file apart. Fails when `now` does not fit 32 bits.
    pub fn pack_v1(&mut self, parents: &DirstateParents, now: Timestamp) -> (r: Result<Vec<u8>, DirstateError>)
        requires
            old(self).wf(),
        ensures
            (r is Err) == (now.0 < i32::MIN || now.0 > i32::MAX),
            r matches Err(e) ==> e == DirstateError::TimeOverflow && *final(self) == *old(self),
            old(self).keys_owned() ==> final(self).keys_owned(),
            forall|q: Seq<u8>| final(self).key_borrowed_at(q) == old(self).key_borrowed_at(q),
            r matches Ok(bytes) ==> {
                &&& final(self).wf()
                &&& final(self).image() == old(self).image()
                &&& forall|q: Seq<u8>| final(self).entry_at(q) == cleared_entry(old(self).entry_at(q), now.0 as i32)
                &&& forall|q: Seq<u8>| final(self).copy_at(q) == old(self).copy_at(q)
                &&& forall|q: Seq<u8>| (final(self).node_at(q) is Some) == (old(self).node_at(q) is Some)
                &&& bytes@ == parents_bytes(*parents) + records_bytes(packed_records(final(self).nodes(), final(self).image()))
            },
    {
        if now.0 < i32::MIN as i64 || now.0 > i32::MAX as i64 {
            return Err(DirstateError::TimeOverflow);
        }
        let now = now.0 as i32;
        self.clear_known_ambiguous_mtimes(now);
        let mut packed: Vec<u8> = Vec::new();
        packed.extend_from_slice(parents.p1.as_slice());
        packed.extend_from_slice(parents.p2.as_slice());
        let nodes = self.iter_nodes();
        let ghost nv = pairs_view(nodes@);
        let ghost head = packed@;
        proof {
            assert(head =~= parents_bytes(*parents));
            assert(records_bytes(packed_records(nv.subrange(0, 0), self.on_disk@)) =~= Seq::empty());
            assert(head + Seq::<u8>::empty() =~= head);
        }
        let mut i: usize = 0;
        while i < nodes.len()
            invariant
                self.wf(),
                i <= nodes@.len(),
                nv == pairs_view(nodes@),
                nv == self.nodes(),
                head == parents_bytes(*parents),
                packed@ == head + records_bytes(packed_records(nv.subrange(0, i as int), self.on_disk@)),
            decreases nodes@.len() - i,
        {
            let (path, node) = nodes[i];
            let ghost before = packed@;
            proof {
                lemma_nodes_in_wf(self.root@, Seq::empty(), self.on_disk@, i as int);
                assert(nv.subrange(0, i + 1).subrange(0, i as int) =~= nv.subrange(0, i as int));
            }
            if let Some(entry) = &node.entry {
                let copy_source = match &node.copy_source {
                    Some(c) => Some(c.as_bytes(self.on_disk)),
                    None => None,
                };
                pack_entry(path, entry, copy_source, &mut packed);
                proof {
                    let rs = packed_records(nv.subrange(0, i as int), self.on_disk@);
                    let x = nv[i as int];
                    let rec: Record = (
                        x.0,
                        x.1.entry->0,
                        match x.1.copy_source {
                            Some(c) => Some(c.bytes(self.on_disk@)),
                            None => None,
                        },
                    );
                    assert(packed_records(nv.subrange(0, i + 1), self.on_disk@) == rs + seq![rec]);
                    assert((rs + seq![rec]).subrange(0, rs.len() as int) =~= rs);
                    assert(records_bytes(rs + seq![rec]) == records_bytes(rs) + crate::codec::record_bytes(rec));
                    assert(packed@ =~= head + records_bytes(packed_records(nv.subrange(0, i + 1), self.on_disk@)));
                }
            } else {
                proof {
                    assert(packed_records(nv.subrange(0, i + 1), self.on_disk@) =~= packed_records(
                        nv.subrange(0, i as int),
                        self.on_disk@,
                    ));
                }
            }
            i = i + 1;
        }
        proof {
            assert(nv.subrange(0, nodes@.len() as int) =~= nv);
        }
        Ok(packed)
    }

    /// Sets the entry of the file at `path`, creating the nodes on the way,
    /// and moves the tracked-descendant counters of its strict ancestors by
    /// the change from `old_state` to the new state.
    pub fn add_or_remove_file(&mut self, path: &[u8], old_state: EntryState, new_entry: DirstateEntry)
        requires
            old(self).wf(),
            old_state.spec_is_tracked() == tracked_of(old(self).entry_at(path@)),
            old(self).entry_at(path@) is None ==> old(self).entry_count() < u32::MAX,
        ensures
            final(self).wf(),
            final(self).image() == old(self).image(),
            final(self).entry_at(path@) == Some(new_entry),
            forall|q: Seq<u8>| q != path@ ==> final(self).entry_at(q) == old(self).entry_at(q),
            forall|q: Seq<u8>| final(self).copy_at(q) == old(self).copy_at(q),
            final(self).entry_count() == old(self).entry_count() + (if old(self).entry_at(path@) is None {
                1int
            } else {
                0
            }),
            final(self).copy_count() == old(self).copy_count(),
            final(self).node_at(path@) is Some,
            forall|q: Seq<u8>| old(self).node_at(q) is Some ==> final(self).key_borrowed_at(q) == old(self).key_borrowed_at(q),
            forall|q: Seq<u8>|
                old(self).node_at(q) is None && final(self).node_at(q) is Some ==> final(self).key_borrowed_at(q) == Some(false),
            old(self).keys_owned() ==> final(self).keys_owned(),
            forall|q: Seq<u8>| old(self).node_at(q) is Some ==> final(self).node_at(q) is Some,
            forall|q: Seq<u8>| strictly_below(path@, q) ==> final(self).node_at(q) is Some,
            forall|q: Seq<u8>|
                strictly_below(path@, q) ==> (final(self).node_at(q) matches Some(n) && n.tracked_descendants_count
                    == (match old(self).node_at(q) {
                    Some(o) => o.tracked_descendants_count as int,
                    None => 0int,
                }) + tracked_delta(old_state, new_entry.state)),
    {
        let ghost before = *self;
        let tracked_count_increment = match (old_state.is_tracked(), new_entry.state.is_tracked()) {
            (false, true) => AncestorUpdate::Increment,
            (true, false) => AncestorUpdate::Decrement,
            _ => AncestorUpdate::Keep,
        };
        proof {
            assert(suffix(path@, 0) =~= path@);
            assert(path@.subrange(0, 0) =~= Seq::<u8>::empty());
            lemma_tracked_le_entries(self.root@);
            if self.entry_at(path@) is Some && !self.entry_at(path@)->0.spec_is_tracked() {
                lemma_untracked_entry_counted(self.root@, path@, self.on_disk@);
            }
        }
        let prev = get_or_insert_node(
            &mut self.root,
            self.on_disk,
            path,
            0,
            &KeySource::Owned,
            tracked_count_increment,
            Some(new_entry),
            None,
            Ghost(Seq::empty()),
        );
        if prev.0.is_none() {
            self.nodes_with_entry_count = self.nodes_with_entry_count + 1;
        }
        proof {
            assert(self.holds(path@));
            lemma_nodes_kept(before, *self, path@);
        }
    }

    /// Records `entry` for the file at `path`.
    pub fn add_file(&mut self, path: &[u8], old_state: EntryState, entry: DirstateEntry) -> (r: Result<(), DirstateMapError>)
        requires
            old(self).wf(),
            old_state.spec_is_tracked() == tracked_of(old(self).entry_at(path@)),
            old(self).entry_at(path@) is None ==> old(self).entry_count() < u32::MAX,
        ensures
            r is Ok,
            final(self).wf(),
            final(self).image() == old(self).image(),
            final(self).entry_at(path@) == Some(entry),
            forall|q: Seq<u8>| q != path@ ==> final(self).entry_at(q) == old(self).entry_at(q),
            forall|q: Seq<u8>| final(self).copy_at(q) == old(self).copy_at(q),
            final(self).entry_count() == old(self).entry_count() + (if old(self).entry_at(path@) is None {
                1int
            } else {
                0
            }),
            final(self).copy_count() == old(self).copy_count(),
            final(self).node_at(path@) is Some,
            forall|q: Seq<u8>| old(self).node_at(q) is Some ==> final(self).key_borrowed_at(q) == old(self).key_borrowed_at(q),
            forall|q: Seq<u8>|
                old(self).node_at(q) is None && final(self).node_at(q) is Some ==> final(self).key_borrowed_at(q) == Some(false),
            old(self).keys_owned() ==> final(self).keys_owned(),
            forall|q: Seq<u8>| old(self).node_at(q) is Some ==> final(self).node_at(q) is Some,
            forall|q: Seq<u8>| strictly_below(path@, q) ==> final(self).node_at(q) is Some,
            forall|q: Seq<u8>|
                strictly_below(path@, q) ==> (final(self).node_at(q) matches Some(n) && n.tracked_descendants_count
                    == (match old(self).node_at(q) {
                    Some(o) => o.tracked_descendants_count as int,
                    None => 0int,
                }) + tracked_delta(old_state, entry.state)),
    {
        self.add_or_remove_file(path, old_state, entry);
        Ok(())
    }

    /// Marks the file at `path` removed, keeping `size`.
    pub fn remove_file(&mut self, path: &[u8], old_state: EntryState, size: i32) -> (r: Result<(), DirstateMapError>)
        requires
            old(self).wf(),
            old_state.spec_is_tracked() == tracked_of(old(self).entry_at(path@)),
            old(self).entry_at(path@) is None ==> old(self).entry_count() < u32::MAX,
        ensures
            r is Ok,
            final(self).wf(),
            final(self).image() == old(self).image(),
            final(self).entry_at(path@) == Some(
                DirstateEntry { state: EntryState::Removed, mode: 0, size, mtime: 0 },
            ),
            forall|q: Seq<u8>| q != path@ ==> final(self).entry_at(q) == old(self).entry_at(q),
            forall|q: Seq<u8>| final(self).copy_at(q) == old(self).copy_at(q),
            final(self).entry_count() == old(self).entry_count() + (if old(self).entry_at(path@) is None {
                1int
            } else {
                0
            }),
            final(self).copy_count() == old(self).copy_count(),
            final(self).node_at(path@) is Some,
            forall|q: Seq<u8>| old(self).node_at(q) is Some ==> final(self).key_borrowed_at(q) == old(self).key_borrowed_at(q),
            forall|q: Seq<u8>|
                old(self).node_at(q) is None && final(self).node_at(q) is Some ==> final(self).key_borrowed_at(q) == Some(false),
            old(self).keys_owned() ==> final(self).keys_owned(),
            forall|q: Seq<u8>| old(self).node_at(q) is Some ==> final(self).node_at(q) is Some,
            forall|q: Seq<u8>| strictly_below(path@, q) ==> final(self).node_at(q) is Some,
            forall|q: Seq<u8>|
                strictly_below(path@, q) ==> (final(self).node_at(q) matches Some(n) && n.tracked_descendants_count
                    == (match old(self).node_at(q) {
                    Some(o) => o.tracked_descendants_count as int,
                    None => 0int,
                }) + tracked_delta(old_state, EntryState::Removed)),
    {
        let entry = DirstateEntry { state: EntryState::Removed, mode: 0, size, mtime: 0 };
        self.add_or_remove_file(path, old_state, entry);
        Ok(())
    }

    /// Removes the entry of the file at `path`, pruning the nodes left
    /// empty. Says whether there was an entry.
    pub fn drop_file(&mut self, path: &[u8], old_state: EntryState) -> (r: Result<bool, DirstateMapError>)
        requires
            old(self).wf(),
            old_state.spec_is_tracked() ==> old(self).node_at(path@) is Some,
        ensures
            r == Ok::<bool, DirstateMapError>(old(self).entry_at(path@) is Some),
            final(self).wf(),
            final(self).image() == old(self).image(),
            final(self).entry_at(path@) is None,
            forall|q: Seq<u8>| q != path@ ==> final(self).entry_at(q) == old(self).entry_at(q),
            forall|q: Seq<u8>| final(self).copy_at(q) == old(self).copy_at(q),
            final(self).entry_count() + (if old(self).entry_at(path@) is Some { 1int } else { 0 })
                == old(self).entry_count(),
            final(self).copy_count() == old(self).copy_count(),
            old(self).node_at(path@) is None ==> *final(self) == *old(self),
            forall|q: Seq<u8>| final(self).node_at(q) is Some ==> final(self).key_borrowed_at(q) == old(self).key_borrowed_at(q),
            old(self).keys_owned() ==> final(self).keys_owned(),
            forall|q: Seq<u8>| final(self).node_at(q) is Some ==> old(self).node_at(q) is Some,
            forall|q: Seq<u8>| q != path@ && old(self).holds(q) ==> final(self).node_at(q) is Some,
            forall|q: Seq<u8>| old(self).holds_at_or_below(q) && !(q == path@ || strictly_below(path@, q)) ==> final(self).node_at(q) is Some,
    {
        if self.get_node(path).is_none() {
            proof {
                assert forall|q: Seq<u8>| self.holds_at_or_below(q) implies self.node_at(q) is Some by {
                    self.lemma_node_iff_holder(q);
                }
            }
            return Ok(false);
        }
        let ghost before = *self;
        proof {
            assert(suffix(path@, 0) =~= path@);
        }
        let r = match remove_from_node(&mut self.root, self.on_disk, path, 0, Removal::Entry, Ghost(Seq::empty())) {
            Some(dropped) => {
                if dropped.entry.is_some() {
                    self.nodes_with_entry_count = self.nodes_with_entry_count - 1;
                }
                Ok(dropped.entry.is_some())
            },
            None => Ok(false),
        };
        proof {
            lemma_nodes_not_created(before, *self, path@);
        }
        r
    }

    /// Clears the modification time of each of `filenames` whose entry has
    /// it equal to `now`.
    pub fn clear_ambiguous_times(&mut self, filenames: Vec<Vec<u8>>, now: i32)
        requires
            old(self).wf(),
        ensures
            final(self).wf(),
            final(self).image() == old(self).image(),
            forall|q: Seq<u8>|
                final(self).entry_at(q) == if exists|k: int| 0 <= k < filenames@.len() && (#[trigger] filenames@[k])@ == q {
                    cleared_entry(old(self).entry_at(q), now)
                } else {
                    old(self).entry_at(q)
                },
            forall|q: Seq<u8>| final(self).copy_at(q) == old(self).copy_at(q),
            forall|q: Seq<u8>| (final(self).node_at(q) is Some) == (old(self).node_at(q) is Some),
            final(self).entry_count() == old(self).entry_count(),
            final(self).copy_count() == old(self).copy_count(),
            old(self).keys_owned() ==> final(self).keys_owned(),
            forall|q: Seq<u8>| final(self).node_at(q) is Some ==> final(self).key_borrowed_at(q) == old(self).key_borrowed_at(q),
    {
        let ghost old_root = self.root@;
        let mut i: usize = 0;
        while i < filenames.len()
            invariant
                self.wf(),
                self.on_disk == old(self).on_disk,
                0 <= i <= filenames@.len(),
                count_in(self.root@, CountKind::Entries) == count_in(old_root, CountKind::Entries),
                count_in(self.root@, CountKind::CopySources) == count_in(old_root, CountKind::CopySources),
                owns_bytes(old_root) ==> owns_bytes(self.root@),
                forall|q: Seq<u8>| key_borrowed_in(self.root@, q, self.on_disk@) == key_borrowed_in(old_root, q, self.on_disk@),
                forall|q: Seq<u8>|
                    entry_in(self.root@, q, self.on_disk@) == if exists|k: int|
                        0 <= k < i && (#[trigger] filenames@[k])@ == q {
                        cleared_entry(entry_in(old_root, q, self.on_disk@), now)
                    } else {
                        entry_in(old_root, q, self.on_disk@)
                    },
                forall|q: Seq<u8>| copy_in(self.root@, q, self.on_disk@) == copy_in(old_root, q, self.on_disk@),
                forall|q: Seq<u8>| (lookup(self.root@, q, self.on_disk@) is Some) == (lookup(old_root, q, self.on_disk@) is Some),
            decreases filenames@.len() - i,
        {
            let path = filenames[i].as_slice();
            proof {
                assert(suffix(path@, 0) =~= path@);
                assert(path@.subrange(0, 0) =~= Seq::<u8>::empty());
            }
            let ghost before = self.root@;
            clear_ambiguous_at(&mut self.root, self.on_disk, path, 0, now, Ghost(Seq::empty()));
            proof {
                assert forall|q: Seq<u8>|
                    entry_in(self.root@, q, self.on_disk@) == if exists|k: int|
                        0 <= k < i + 1 && (#[trigger] filenames@[k])@ == q {
                        cleared_entry(entry_in(old_root, q, self.on_disk@), now)
                    } else {
                        entry_in(old_root, q, self.on_disk@)
                    } by {
                    if q == path@ {
                        assert(filenames@[i as int]@ == q);
                        let e = entry_in(old_root, q, self.on_disk@);
                        if e is Some {
                            let x = e->0;
                            assert(x.spec_cleared_if_ambiguous(now).spec_cleared_if_ambiguous(now) == x.spec_cleared_if_ambiguous(now));
                        }
                    } else {
                        if exists|k: int| 0 <= k < i + 1 && (#[trigger] filenames@[k])@ == q {
                            let k = choose|k: int| 0 <= k < i + 1 && (#[trigger] filenames@[k])@ == q;
                            assert(k < i);
                        }
                    }
                }
            }
            i = i + 1;
        }
    }

    /// Whether the entry at `key` is non-normal.
    pub fn non_normal_entries_contains(&self, key: &[u8]) -> (r: bool)
        requires
            self.wf(),
        ensures
            r == (self.entry_at(key@) matches Some(e) && e.spec_is_non_normal()),
    {
        match self.get(key) {
            Some(e) => e.is_non_normal(),
            None => false,
        }
    }

    /// Non-normal entries are found by filtering the tree: there is no
    /// separate set to keep up to date.
    pub fn non_normal_entries_remove(&mut self, _key: &[u8])
        ensures
            *final(self) == *old(self),
    {
    }

    /// There is no separate set of non-normal or other-parent entries to
    /// recompute.
    pub fn set_non_normal_other_parent_entries(&mut self, _force: bool)
        ensures
            *final(self) == *old(self),
    {
    }

    /// There is no separate set of directories to recompute.
    pub fn set_all_dirs(&mut self) -> (r: Result<(), DirstateMapError>)
        ensures
            r is Ok,
            *final(self) == *old(self),
    {
        Ok(())
    }

    /// There is no separate set of directories to recompute.
    pub fn set_dirs(&mut self) -> (r: Result<(), DirstateMapError>)
        ensures
            r is Ok,
            *final(self) == *old(self),
    {
        Ok(())
    }

    /// Whether `directory` names a node without an entry whose strict
    /// descendants include a tracked file.
    pub fn has_tracked_dir(&self, directory: &[u8]) -> (r: Result<bool, DirstateMapError>)
        requires
            self.wf(),
        ensures
            r == Ok::<bool, DirstateMapError>(
                self.node_at(directory@) matches Some(n) && n.entry is None && n.tracked_descendants_count > 0,
            ),
    {
        match self.get_node(directory) {
            Some(node) => Ok(node.entry.is_none() && node.tracked_descendants_count > 0),
            None => Ok(false),
        }
    }

    /// Whether `directory` names a node without an entry.
    pub fn has_dir(&self, directory: &[u8]) -> (r: Result<bool, DirstateMapError>)
        requires
            self.wf(),
        ensures
            r == Ok::<bool, DirstateMapError>(self.node_at(directory@) matches Some(n) && n.entry is None),
    {
        match self.get_node(directory) {
            Some(node) => Ok(node.entry.is_none()),
            None => Ok(false),
        }
    }

    /// Removes every node.
    pub fn clear(&mut self)
        ensures
            final(self).wf(),
            final(self).image() == old(self).image(),
            final(self).is_empty_tree(),
            forall|q: Seq<u8>| final(self).node_at(q) is None,
            final(self).entry_count() == 0,
            final(self).copy_count() == 0,
            forall|p: Seq<u8>| final(self).entry_at(p) is None && final(self).copy_at(p) is None,
            final(self).nodes().len() == 0,
            final(self).keys_owned(),
    {
        self.root = Vec::new();
        self.nodes_with_entry_count = 0;
        self.nodes_with_copy_source_count = 0;
        proof {
            assert(count_in(self.root@, CountKind::Entries) == 0);
            assert(count_in(self.root@, CountKind::CopySources) == 0);
            assert(nodes_in(self.root@, self.on_disk@) =~= Seq::empty());
            assert(owns_bytes(self.root@));
        }
    }

    /// Number of copy sources.
    pub fn copy_map_len(&self) -> (r: usize)
        requires
            self.wf(),
        ensures
            r == self.copy_count(),
    {
        self.nodes_with_copy_source_count as usize
    }

    /// Whether `key` has a copy source.
    pub fn copy_map_contains_key(&self, key: &[u8]) -> (r: bool)
        requires
            self.wf(),
        ensures
            r == (self.copy_at(key@) is Some),
    {
        match self.get_node(key) {
            Some(node) => node.copy_source.is_some(),
            None => false,
        }
    }

    /// The copy source of `key`.
    pub fn copy_map_get(&self, key: &[u8]) -> (r: Option<&[u8]>)
        requires
            self.wf(),
        ensures
            match r {
                Some(b) => self.copy_at(key@) == Some(b@),
                None => self.copy_at(key@) is None,
            },
    {
        proof {
            lemma_lookup_wf(self.root@, key@, Seq::empty(), self.on_disk@);
        }
        match self.get_node(key) {
            Some(node) => match &node.copy_source {
                Some(src) => Some(src.as_bytes(self.on_disk)),
                None => None,
            },
            None => None,
        }
    }

    /// Removes the copy source of `key`, pruning the nodes left empty, and
    /// returns it.
    pub fn copy_map_remove(&mut self, key: &[u8]) -> (r: Option<Vec<u8>>)
        requires
            old(self).wf(),
        ensures
            match r {
                Some(v) => old(self).copy_at(key@) == Some(v@),
                None => old(self).copy_at(key@) is None,
            },
            final(self).wf(),
            final(self).image() == old(self).image(),
            final(self).copy_at(key@) is None,
            forall|q: Seq<u8>| q != key@ ==> final(self).copy_at(q) == old(self).copy_at(q),
            forall|q: Seq<u8>| final(self).entry_at(q) == old(self).entry_at(q),
            final(self).entry_count() == old(self).entry_count(),
            final(self).copy_count() + (if old(self).copy_at(key@) is Some { 1int } else { 0 }) == old(self).copy_count(),
            old(self).copy_at(key@) is None ==> *final(self) == *old(self),
            forall|q: Seq<u8>| final(self).node_at(q) is Some ==> final(self).key_borrowed_at(q) == old(self).key_borrowed_at(q),
            old(self).keys_owned() ==> final(self).keys_owned(),
            forall|q: Seq<u8>| final(self).node_at(q) is Some ==> old(self).node_at(q) is Some,
            forall|q: Seq<u8>| q != key@ && old(self).holds(q) ==> final(self).node_at(q) is Some,
            forall|q: Seq<u8>| old(self).holds_at_or_below(q) && !(q == key@ || strictly_below(key@, q)) ==> final(self).node_at(q) is Some,
    {
        if !self.copy_map_contains_key(key) {
            proof {
                assert forall|q: Seq<u8>| self.holds_at_or_below(q) implies self.node_at(q) is Some by {
                    self.lemma_node_iff_holder(q);
                }
            }
            return None;
        }
        let ghost before = *self;
        proof {
            assert(suffix(key@, 0) =~= key@);
            lemma_lookup_wf(self.root@, key@, Seq::empty(), self.on_disk@);
        }
        let r = match remove_from_node(&mut self.root, self.on_disk, key, 0, Removal::CopySource, Ghost(Seq::empty())) {
            Some(dropped) => match dropped.copy_source {
                Some(src) => {
                    self.nodes_with_copy_source_count = self.nodes_with_copy_source_count - 1;
                    Some(src.to_owned_bytes(self.on_disk))
                },
                None => None,
            },
            None => None,
        };
        proof {
            lemma_nodes_not_created(before, *self, key@);
        }
        r
    }

    /// Records `value` as the copy source of `key`, creating the nodes on
    /// the way, and returns the copy source it replaces.
    pub fn copy_map_insert(&mut self, key: Vec<u8>, value: Vec<u8>) -> (r: Option<Vec<u8>>)
        requires
            old(self).wf(),
            old(self).copy_at(key@) is None ==> old(self).copy_count() < u32::MAX,
        ensures
            match r {
                Some(v) => old(self).copy_at(key@) == Some(v@),
                None => old(self).copy_at(key@) is None,
            },
            final(self).wf(),
            final(self).image() == old(self).image(),
            final(self).copy_at(key@) == Some(value@),
            forall|q: Seq<u8>| q != key@ ==> final(self).copy_at(q) == old(self).copy_at(q),
            forall|q: Seq<u8>| final(self).entry_at(q) == old(self).entry_at(q),
            final(self).entry_count() == old(self).entry_count(),
            final(self).copy_count() == old(self).copy_count() + (if old(self).copy_at(key@) is None { 1int } else { 0 }),
            final(self).node_at(key@) is Some,
            forall|q: Seq<u8>| old(self).node_at(q) is Some ==> final(self).key_borrowed_at(q) == old(self).key_borrowed_at(q),
            forall|q: Seq<u8>|
                old(self).node_at(q) is None && final(self).node_at(q) is Some ==> final(self).key_borrowed_at(q) == Some(false),
            old(self).keys_owned() ==> final(self).keys_owned(),
            forall|q: Seq<u8>| old(self).node_at(q) is Some ==> final(self).node_at(q) is Some,
            forall|q: Seq<u8>| strictly_below(key@, q) ==> final(self).node_at(q) is Some,
    {
        let ghost before = *self;
        proof {
            assert(suffix(key@, 0) =~= key@);
            assert(key@.subrange(0, 0) =~= Seq::<u8>::empty());
            lemma_lookup_wf(self.root@, key@, Seq::empty(), self.on_disk@);
        }
        let prev = get_or_insert_node(
            &mut self.root,
            self.on_disk,
            key.as_slice(),
            0,
            &KeySource::Owned,
            AncestorUpdate::Keep,
            None,
            Some(PathSlice::Owned(value)),
            Ghost(Seq::empty()),
        );
        let r = match prev.1 {
            Some(src) => Some(src.to_owned_bytes(self.on_disk)),
            None => {
                self.nodes_with_copy_source_count = self.nodes_with_copy_source_count + 1;
                None
            },
        };
        proof {
            assert(self.holds(key@));
            lemma_nodes_kept(before, *self, key@);
        }
        r
    }

    /// Number of entries.
    pub fn len(&self) -> (r: usize)
        requires
            self.wf(),
        ensures
            r == self.entry_count(),
    {
        self.nodes_with_entry_count as usize
    }

    /// Whether `key` has an entry.
    pub fn contains_key(&self, key: &[u8]) -> (r: bool)
        requires
            self.wf(),
        ensures
            r == (self.entry_at(key@) is Some),
    {
        self.get(key).is_some()
    }

    /// The entry of `key`.
    pub fn get(&self, key: &[u8]) -> (r: Option<DirstateEntry>)
        requires
            self.wf(),
        ensures
            r == self.entry_at(key@),
    {
        match self.get_node(key) {
            Some(node) => node.entry,
            None => None,
        }
    }

    /// Every node with its full path, depth first.
    pub open spec fn nodes(&self) -> Seq<(Seq<u8>, Node)> {
        nodes_in(self.root_view(), self.image())
    }

    /// Every node with its full path: the children of a node, in their
    /// stored order, come before the node itself.
    pub fn iter_nodes<'a>(&'a self) -> (r: Vec<(&'a [u8], &'a Node)>)
        requires
            self.wf(),
        ensures
            pairs_view(r@) == self.nodes(),
    {
        let mut out: Vec<(&'a [u8], &'a Node)> = Vec::new();
        proof {
            assert(pairs_view(out@) =~= Seq::empty());
        }
        collect_nodes(&self.root, self.on_disk, &mut out, Ghost(Seq::empty()));
        proof {
            assert(pairs_view(out@) =~= self.nodes());
        }
        out
    }

    /// Every file with its entry, in the order of `iter_nodes`.
    pub fn iter<'a>(&'a self) -> (r: Vec<(&'a [u8], DirstateEntry)>)
        requires
            self.wf(),
        ensures
            r@.map_values(|x: (&[u8], DirstateEntry)| (x.0@, x.1)) == entries_of(self.nodes()),
    {
        let nodes = self.iter_nodes();
        let ghost nv = pairs_view(nodes@);
        let mut out: Vec<(&'a [u8], DirstateEntry)> = Vec::new();
        let mut i: usize = 0;
        while i < nodes.len()
            invariant
                i <= nodes@.len(),
                nv == pairs_view(nodes@),
                out@.map_values(|x: (&[u8], DirstateEntry)| (x.0@, x.1)) == entries_of(nv.subrange(0, i as int)),
            decreases nodes@.len() - i,
        {
            let ghost before = out@;
            let (path, node) = nodes[i];
            if let Some(e) = node.entry {
                out.push((path, e));
            }
            proof {
                assert(nv.subrange(0, i + 1).subrange(0, i as int) =~= nv.subrange(0, i as int));
                assert(out@.map_values(|x: (&[u8], DirstateEntry)| (x.0@, x.1)) =~= entries_of(nv.subrange(0, i + 1)));
            }
            i = i + 1;
        }
        proof {
            assert(nv.subrange(0, nodes@.len() as int) =~= nv);
        }
        out
    }

    /// Every path that has a copy source, with it, in the order of
    /// `iter_nodes`.
    pub fn copy_map_iter<'a>(&'a self) -> (r: Vec<(&'a [u8], &'a [u8])>)
        requires
            self.wf(),
        ensures
            r@.map_values(|x: (&[u8], &[u8])| (x.0@, x.1@)) == copies_of(self.nodes(), self.image()),
    {
        let nodes = self.iter_nodes();
        let ghost nv = pairs_view(nodes@);
        let mut out: Vec<(&'a [u8], &'a [u8])> = Vec::new();
        let mut i: usize = 0;
        while i < nodes.len()
            invariant
                self.wf(),
                i <= nodes@.len(),
                nv == pairs_view(nodes@),
                nv == self.nodes(),
                out@.map_values(|x: (&[u8], &[u8])| (x.0@, x.1@)) == copies_of(nv.subrange(0, i as int), self.on_disk@),
            decreases nodes@.len() - i,
        {
            let (path, node) = nodes[i];
            proof {
                lemma_nodes_in_wf(self.root@, Seq::empty(), self.on_disk@, i as int);
            }
            if let Some(src) = &node.copy_source {
                out.push((path, src.as_bytes(self.on_disk)));
            }
            proof {
                assert(nv.subrange(0, i + 1).subrange(0, i as int) =~= nv.subrange(0, i as int));
                assert(out@.map_values(|x: (&[u8], &[u8])| (x.0@, x.1@)) =~= copies_of(nv.subrange(0, i + 1), self.on_disk@));
            }
            i = i + 1;
        }
        proof {
            assert(nv.subrange(0, nodes@.len() as int) =~= nv);
        }
        out
    }

    /// The paths whose entry `filter` selects, in the order of `iter_nodes`.
    fn paths_with<'a>(&'a self, filter: EntryFilter) -> (r: Vec<&'a [u8]>)
        requires
            self.wf(),
        ensures
            r@.map_values(|x: &[u8]| x@) == paths_where(self.nodes(), filter),
    {
        let nodes = self.iter_nodes();
        let ghost nv = pairs_view(nodes@);
        let mut out: Vec<&'a [u8]> = Vec::new();
        let mut i: usize = 0;
        while i < nodes.len()
            invariant
                i <= nodes@.len(),
                nv == pairs_view(nodes@),
                out@.map_values(|x: &[u8]| x@) == paths_where(nv.subrange(0, i as int), filter),
            decreases nodes@.len() - i,
        {
            let (path, node) = nodes[i];
            if let Some(e) = &node.entry {
                if entry_selected(filter, e) {
                    out.push(path);
                }
            }
            proof {
                assert(nv.subrange(0, i + 1).subrange(0, i as int) =~= nv.subrange(0, i as int));
                assert(out@.map_values(|x: &[u8]| x@) =~= paths_where(nv.subrange(0, i + 1), filter));
            }
            i = i + 1;
        }
        proof {
            assert(nv.subrange(0, nodes@.len() as int) =~= nv);
        }
        out
    }

    /// Paths of the entries that are non-normal or come from the other parent.
    pub fn non_normal_or_other_parent_paths<'a>(&'a self) -> (r: Vec<&'a [u8]>)
        requires
            self.wf(),
        ensures
            r@.map_values(|x: &[u8]| x@) == paths_where(self.nodes(), EntryFilter::NonNormalOrOtherParent),
    {
        self.paths_with(EntryFilter::NonNormalOrOtherParent)
    }

    /// Paths of the non-normal entries.
    pub fn iter_non_normal_paths<'a>(&'a self) -> (r: Vec<&'a [u8]>)
        requires
            self.wf(),
        ensures
            r@.map_values(|x: &[u8]| x@) == paths_where(self.nodes(), EntryFilter::NonNormal),
    {
        self.iter_non_normal_paths_panic()
    }

    /// Paths of the non-normal entries.
    pub fn iter_non_normal_paths_panic<'a>(&'a self) -> (r: Vec<&'a [u8]>)
        requires
            self.wf(),
        ensures
            r@.map_values(|x: &[u8]| x@) == paths_where(self.nodes(), EntryFilter::NonNormal),
    {
        self.paths_with(EntryFilter::NonNormal)
    }

    /// Paths of the entries that come from the other parent.
    pub fn iter_other_parent_paths<'a>(&'a self) -> (r: Vec<&'a [u8]>)
        requires
            self.wf(),
        ensures
            r@.map_values(|x: &[u8]| x@) == paths_where(self.nodes(), EntryFilter::OtherParent),
    {
        self.paths_with(EntryFilter::OtherParent)
    }
}

/// Errors of the map's mutating methods; none of them fails today.
#[derive(Clone, Copy, Debug, PartialEq, Eq, Structural)]
pub enum DirstateMapError {
    PathNotFound,
}

impl<'on_disk> DirstateMap<'on_disk> {
    /// The stored counters equal what they count: nodes with an entry,
    /// nodes with a copy source, and for every node its tracked strict
    /// descendants.
    pub proof fn lemma_counters_match(&self, p: Seq<u8>)
        requires
            self.wf(),
        ensures
            self.stored_entry_count() == self.entry_count(),
            self.stored_copy_count() == self.copy_count(),
            self.node_at(p) matches Some(n) ==> n.tracked_descendants_count == count_in(
                n.children@,
                CountKind::TrackedFiles,
            ),
    {
        lemma_lookup_wf(self.root@, p, Seq::empty(), self.on_disk@);
    }

    /// The entry and copy source found at a path are those of the node there;
    /// where there is no node there is neither.
    pub proof fn lemma_lookup_agrees_with_node(&self, p: Seq<u8>)
        ensures
            self.entry_at(p) == match self.node_at(p) {
                Some(n) => n.entry,
                None => None,
            },
            self.copy_at(p) == match self.node_at(p) {
                Some(n) => match n.copy_source {
                    Some(c) => Some(c.bytes(self.image())),
                    None => None,
                },
                None => None,
            },
            self.node_at(p) is None ==> self.entry_at(p) is None && self.copy_at(p) is None,
            (self.copy_at(p) is Some) == (self.node_at(p) matches Some(n) && n.copy_source is Some),
    {
    }

    /// Whether `t` holds an entry or a copy source.
    pub open spec fn holds(&self, t: Seq<u8>) -> bool {
        self.entry_at(t) is Some || self.copy_at(t) is Some
    }

    /// Whether some path at or strictly below `q` holds an entry or a copy
    /// source.
    pub open spec fn holds_at_or_below(&self, q: Seq<u8>) -> bool {
        exists|t: Seq<u8>| (t == q || strictly_below(t, q)) && #[trigger] self.holds(t)
    }

    /// In a well-formed index a path names a node exactly when it, or some
    /// path strictly below it, holds an entry or a copy source. So the
    /// entries and copy sources decide which nodes exist.
    pub proof fn lemma_node_iff_holder(&self, q: Seq<u8>)
        requires
            self.wf(),
        ensures
            (self.node_at(q) is Some) == self.holds_at_or_below(q),
    {
        let img = self.image();
        let root = self.root_view();
        lemma_lookup_wf(root, q, Seq::empty(), img);
        if let Some(n) = self.node_at(q) {
            lemma_lookup_wf_dir(root, q, Seq::empty(), img);
            let d = choose|d: Seq<u8>| wf_children(n.children@, d, img);
            lemma_node_holds(n, d, img);
            if n.entry is Some || n.copy_source is Some {
                assert(self.holds(q));
            } else {
                let t = choose|t: Seq<u8>|
                    #[trigger] entry_in(n.children@, t, img) is Some || copy_in(n.children@, t, img) is Some;
                lemma_lookup_extend(root, q, t, img);
                let w = q.push(SLASH) + t;
                assert(w.subrange(0, q.len() as int) =~= q);
                assert(strictly_below(w, q));
                assert(self.holds(w));
            }
        }
        if self.holds_at_or_below(q) {
            let t = choose|t: Seq<u8>| (t == q || strictly_below(t, q)) && #[trigger] self.holds(t);
            if t != q {
                lemma_split_below(t, q);
                lemma_lookup_extend(root, q, t.subrange(q.len() as int + 1, t.len() as int), img);
            }
        }
    }

    /// The depth-first listing names every node once, under its full path,
    /// and nothing else.
    pub proof fn lemma_nodes_listing(&self)
        requires
            self.wf(),
        ensures
            forall|k: int|
                0 <= k < self.nodes().len() ==> self.node_at((#[trigger] self.nodes()[k]).0) == Some(
                    self.nodes()[k].1,
                ),
            forall|k1: int, k2: int|
                0 <= k1 < self.nodes().len() && 0 <= k2 < self.nodes().len() && k1 != k2 ==> (
                #[trigger] self.nodes()[k1]).0 != (#[trigger] self.nodes()[k2]).0,
            forall|q: Seq<u8>|
                #[trigger] self.node_at(q) is Some ==> exists|k: int|
                    0 <= k < self.nodes().len() && (#[trigger] self.nodes()[k]) == (q, self.node_at(q)->0),
            forall|k1: int, k2: int|
                0 <= k1 < self.nodes().len() && 0 <= k2 < self.nodes().len() && strictly_below(
                    (#[trigger] self.nodes()[k1]).0,
                    (#[trigger] self.nodes()[k2]).0,
                ) ==> k1 < k2,
    {
        lemma_nodes_in_post_order(self.root_view(), Seq::empty(), self.image());
        let e = Seq::<u8>::empty();
        let l = self.nodes();
        lemma_nodes_in_lookup(self.root_view(), e, self.image());
        assert forall|k: int| 0 <= k < l.len() implies self.node_at((#[trigger] l[k]).0) == Some(l[k].1) by {
            assert(after_dir(l[k].0, e) =~= l[k].0);
        }
        assert forall|q: Seq<u8>| #[trigger] self.node_at(q) is Some implies exists|k: int|
            0 <= k < l.len() && (#[trigger] l[k]) == (q, self.node_at(q)->0) by {
            assert(e + q =~= q);
        }
    }

    /// The listing of files names each file once, with its entry, and
    /// nothing else.
    pub proof fn lemma_iter_lists_entries(&self)
        requires
            self.wf(),
        ensures
            forall|k: int|
                0 <= k < entries_of(self.nodes()).len() ==> self.entry_at(
                    (#[trigger] entries_of(self.nodes())[k]).0,
                ) == Some(entries_of(self.nodes())[k].1),
            forall|q: Seq<u8>|
                #[trigger] self.entry_at(q) is Some ==> exists|k: int|
                    0 <= k < entries_of(self.nodes()).len() && (#[trigger] entries_of(self.nodes())[k]) == (
                        q,
                        self.entry_at(q)->0,
                    ),
            forall|k1: int, k2: int|
                0 <= k1 < entries_of(self.nodes()).len() && 0 <= k2 < entries_of(self.nodes()).len() && k1 != k2
                    ==> (#[trigger] entries_of(self.nodes())[k1]).0 != (#[trigger] entries_of(self.nodes())[k2]).0,
    {
        let l = self.nodes();
        let e = entries_of(l);
        self.lemma_nodes_listing();
        lemma_entries_of_listing(l);
        assert forall|k: int| 0 <= k < e.len() implies self.entry_at((#[trigger] e[k]).0) == Some(e[k].1) by {
            let j = choose|j: int| 0 <= j < l.len() && (#[trigger] l[j]).0 == e[k].0 && l[j].1.entry == Some(e[k].1);
        }
        assert forall|q: Seq<u8>| #[trigger] self.entry_at(q) is Some implies exists|k: int|
            0 <= k < e.len() && (#[trigger] e[k]) == (q, self.entry_at(q)->0) by {
            let j = choose|j: int| 0 <= j < l.len() && (#[trigger] l[j]) == (q, self.node_at(q)->0);
            assert(l[j].1.entry is Some);
        }
    }

    /// The listing of files has one item per entry.
    pub proof fn lemma_listing_length(&self)
        ensures
            entries_of(self.nodes()).len() == self.entry_count(),
            copies_of(self.nodes(), self.image()).len() == self.copy_count(),
    {
        lemma_entries_of_nodes(self.root_view(), self.image());
    }

    /// No node is left without entry, copy source and children.
    pub proof fn lemma_no_empty_node(&self, p: Seq<u8>)
        requires
            self.wf(),
        ensures
            self.node_at(p) matches Some(n) ==> !is_empty_node(n),
    {
        lemma_lookup_wf(self.root@, p, Seq::empty(), self.on_disk@);
    }

    /// `p` names a node without an entry exactly when some node lies
    /// strictly below `p` — for a `p` whose node, if any, has no children
    /// when it has an entry, and has children when it holds only a copy
    /// source.
    pub proof fn lemma_has_dir_iff_below(&self, p: Seq<u8>)
        requires
            self.wf(),
            self.node_at(p) matches Some(n) ==> (n.entry is Some ==> n.children@.len() == 0) && (n.entry is None
                && n.copy_source is Some ==> n.children@.len() > 0),
        ensures
            (self.node_at(p) matches Some(n) && n.entry is None) == (exists|q: Seq<u8>|
                strictly_below(q, p) && (#[trigger] self.node_at(q)) is Some),
    {
        let img = self.on_disk@;
        lemma_lookup_wf(self.root@, p, Seq::empty(), img);
        if self.node_at(p) is Some && self.node_at(p)->0.entry is None {
            let n = self.node_at(p)->0;
            assert(n.children@.len() > 0);
            let c = n.children@[0];
            let b = c.key.base_name(img);
            lemma_lookup_wf_dir(self.root@, p, Seq::empty(), img);
            let d = choose|d: Seq<u8>| wf_children(n.children@, d, img);
            lemma_lookup_child(n.children@, 0, d, img);
            lemma_lookup_extend(self.root@, p, b, img);
            let q = p.push(SLASH) + b;
            assert(q.subrange(0, p.len() as int) =~= p);
            assert(strictly_below(q, p));
            assert(self.node_at(q) is Some);
        }
        if exists|q: Seq<u8>| strictly_below(q, p) && (#[trigger] self.node_at(q)) is Some {
            let q = choose|q: Seq<u8>| strictly_below(q, p) && (#[trigger] self.node_at(q)) is Some;
            lemma_split_below(q, p);
            let t = q.subrange(p.len() as int + 1, q.len() as int);
            lemma_lookup_extend(self.root@, p, t, img);
            if let Some(n) = self.node_at(p) {
                if n.entry is Some {
                    assert(lookup(n.children@, t, img) is None);
                }
            }
        }
    }

    /// `p` names a node without an entry and with a tracked file strictly
    /// below it exactly when some tracked file lies strictly below `p` — for
    /// a `p` whose node, if it has an entry, has no tracked descendant.
    pub proof fn lemma_has_tracked_dir_iff_below(&self, p: Seq<u8>)
        requires
            self.wf(),
            self.node_at(p) matches Some(n) ==> (n.entry is Some ==> n.tracked_descendants_count == 0),
        ensures
            (self.node_at(p) matches Some(n) && n.entry is None && n.tracked_descendants_count > 0) == (exists|
                q: Seq<u8>,
            | strictly_below(q, p) && tracked_of(#[trigger] self.entry_at(q))),
    {
        let img = self.on_disk@;
        lemma_lookup_wf(self.root@, p, Seq::empty(), img);
        if let Some(n) = self.node_at(p) {
            lemma_lookup_wf_dir(self.root@, p, Seq::empty(), img);
            let d = choose|d: Seq<u8>| wf_children(n.children@, d, img);
            lemma_tracked_count_positive(n.children@, d, img);
            if n.tracked_descendants_count > 0 {
                let t = choose|t: Seq<u8>| tracked_of(#[trigger] entry_in(n.children@, t, img));
                lemma_lookup_extend(self.root@, p, t, img);
                let q = p.push(SLASH) + t;
                assert(q.subrange(0, p.len() as int) =~= p);
                assert(strictly_below(q, p));
                assert(tracked_of(self.entry_at(q)));
            }
        }
        if exists|q: Seq<u8>| strictly_below(q, p) && tracked_of(#[trigger] self.entry_at(q)) {
            let q = choose|q: Seq<u8>| strictly_below(q, p) && tracked_of(#[trigger] self.entry_at(q));
            lemma_split_below(q, p);
            let t = q.subrange(p.len() as int + 1, q.len() as int);
            lemma_lookup_extend(self.root@, p, t, img);
            let n = self.node_at(p)->0;
            assert(tracked_of(entry_in(n.children@, t, img)));
        }
    }

    /// Two listings of the same index, with no change in between, are the
    /// same.
    pub proof fn lemma_iteration_is_stable(&self, a: Seq<(Seq<u8>, DirstateEntry)>, b: Seq<(Seq<u8>, DirstateEntry)>)
        requires
            a == entries_of(self.nodes()),
            b == entries_of(self.nodes()),
        ensures
            a == b,
    {
    }
}

/// Packing a listing with distinct paths gives one record per file, found
/// again by its path.
pub proof fn lemma_packed_records(l: Seq<(Seq<u8>, Node)>, img: Seq<u8>, q: Seq<u8>)
    requires
        forall|k1: int, k2: int| 0 <= k1 < l.len() && 0 <= k2 < l.len() && k1 != k2 ==> (#[trigger] l[k1]).0 != (#[trigger] l[k2]).0,
    ensures
        distinct_paths(packed_records(l, img)),
        forall|j: int|
            0 <= j < packed_records(l, img).len() ==> exists|k: int|
                0 <= k < l.len() && (#[trigger] l[k]).0 == (#[trigger] packed_records(l, img)[j]).0,
        forall|k: int|
            0 <= k < l.len() && (#[trigger] l[k]).0 == q ==> record_entry(packed_records(l, img), q) == l[k].1.entry
                && record_copy(packed_records(l, img), q) == (if l[k].1.entry is Some {
                copy_bytes(l[k].1, img)
            } else {
                None
            }),
        !(exists|k: int| 0 <= k < l.len() && (#[trigger] l[k]).0 == q) ==> record_entry(packed_records(l, img), q) is None
            && record_copy(packed_records(l, img), q) is None,
    decreases l.len(),
{
    if l.len() == 0 {
        return ;
    }
    let n = l.len() - 1;
    let pre = l.subrange(0, n);
    let x = l[n];
    let pp = packed_records(pre, img);
    let p = packed_records(l, img);
    assert forall|k1: int, k2: int| 0 <= k1 < pre.len() && 0 <= k2 < pre.len() && k1 != k2 implies (
    #[trigger] pre[k1]).0 != (#[trigger] pre[k2]).0 by {
        assert(pre[k1] == l[k1] && pre[k2] == l[k2]);
    }
    lemma_packed_records(pre, img, q);
    assert forall|j: int| 0 <= j < pp.len() implies exists|k: int| 0 <= k < n && (#[trigger] l[k]).0 == (#[trigger] pp[j]).0 by {
        let k = choose|k: int| 0 <= k < pre.len() && (#[trigger] pre[k]).0 == pp[j].0;
        assert(l[k] == pre[k]);
    }
    if x.1.entry is Some {
        let r: Record = (x.0, x.1.entry->0, copy_bytes(x.1, img));
        assert(p == pp + seq![r]);
        assert(p.subrange(0, pp.len() as int) =~= pp);
        assert forall|j: int| 0 <= j < p.len() implies exists|k: int| 0 <= k < l.len() && (#[trigger] l[k]).0 == (
        #[trigger] p[j]).0 by {
            if j < pp.len() {
                assert(p[j] == pp[j]);
                let k = choose|k: int| 0 <= k < n && (#[trigger] l[k]).0 == pp[j].0;
            } else {
                assert(l[n].0 == p[j].0);
            }
        }
        assert forall|i: int, j: int| 0 <= i < p.len() && 0 <= j < p.len() && i != j implies (#[trigger] p[i]).0 != (
        #[trigger] p[j]).0 by {
            if i < pp.len() && j < pp.len() {
                assert(p[i] == pp[i] && p[j] == pp[j]);
            } else if i < pp.len() {
                assert(p[i] == pp[i]);
                let k = choose|k: int| 0 <= k < n && (#[trigger] l[k]).0 == pp[i].0;
                assert(l[k].0 != l[n].0);
            } else {
                assert(p[j] == pp[j]);
                let k = choose|k: int| 0 <= k < n && (#[trigger] l[k]).0 == pp[j].0;
                assert(l[k].0 != l[n].0);
            }
        }
    } else {
        assert(p =~= pp);
    }
    assert forall|k: int| 0 <= k < l.len() && (#[trigger] l[k]).0 == q implies record_entry(p, q) == l[k].1.entry
        && record_copy(p, q) == (if l[k].1.entry is Some {
        copy_bytes(l[k].1, img)
    } else {
        None
    }) by {
        if k < n {
            assert(pre[k] == l[k]);
            assert(l[k].0 != l[n].0);
        }
    }
    if !(exists|k: int| 0 <= k < l.len() && (#[trigger] l[k]).0 == q) {
        assert(!(exists|k: int| 0 <= k < pre.len() && (#[trigger] pre[k]).0 == q)) by {
            if exists|k: int| 0 <= k < pre.len() && (#[trigger] pre[k]).0 == q {
                let k = choose|k: int| 0 <= k < pre.len() && (#[trigger] pre[k]).0 == q;
                assert(l[k] == pre[k]);
            }
        }
        assert(l[n].0 != q);
    }
}

impl<'on_disk> DirstateMap<'on_disk> {
    /// The records that `pack_v1` writes for the index name each file once,
    /// with its entry and copy source.
    pub proof fn lemma_packed_records_match(&self, q: Seq<u8>)
        requires
            self.wf(),
        ensures
            distinct_paths(packed_records(self.nodes(), self.image())),
            record_entry(packed_records(self.nodes(), self.image()), q) == self.entry_at(q),
            record_copy(packed_records(self.nodes(), self.image()), q) == (if self.entry_at(q) is Some {
                self.copy_at(q)
            } else {
                None
            }),
    {
        let img = self.on_disk@;
        let l = nodes_in(self.root@, img);
        let e = Seq::<u8>::empty();
        lemma_nodes_in_lookup(self.root@, e, img);
        lemma_packed_records(l, img, q);
        assert(e + q =~= q);
        if lookup(self.root@, q, img) is Some {
            let k = choose|k: int| 0 <= k < l.len() && (#[trigger] l[k]) == (e + q, lookup(self.root@, q, img)->0);
            assert(l[k].0 == q);
        } else {
            if exists|k: int| 0 <= k < l.len() && (#[trigger] l[k]).0 == q {
                let k = choose|k: int| 0 <= k < l.len() && (#[trigger] l[k]).0 == q;
                assert(after_dir(l[k].0, e) =~= q);
            }
        }
    }
}

/// Decoding what `pack_v1` writes gives back the files of the index with
/// their entries and copy sources, except that a modification time equal to
/// the packing time reads as cleared. This is for an index whose records
/// fit the layout (no NUL byte in a path; path and copy source short enough
/// for the length field) and whose copy sources all belong to files, since
/// the layout records copy sources only with entries.
pub proof fn lemma_v1_round_trip(
    before: DirstateMap,
    after: DirstateMap,
    parents: DirstateParents,
    now: i32,
    bytes: Seq<u8>,
)
    requires
        before.wf(),
        forall|q: Seq<u8>| #[trigger] before.copy_at(q) is Some ==> before.entry_at(q) is Some,
        after.wf(),
        forall|q: Seq<u8>| after.entry_at(q) == cleared_entry(before.entry_at(q), now),
        forall|q: Seq<u8>| after.copy_at(q) == before.copy_at(q),
        bytes == parents_bytes(parents) + records_bytes(packed_records(after.nodes(), after.image())),
        forall|k: int|
            0 <= k < packed_records(after.nodes(), after.image()).len() ==> record_fits(
                #[trigger] packed_records(after.nodes(), after.image())[k],
            ),
    ensures
        valid_v1(bytes),
        decodable_v1(bytes),
        parents_of(bytes) == (parents.p1@, parents.p2@),
        forall|q: Seq<u8>|
            #[trigger] record_entry(parse_records(bytes, PARENTS_SIZE as int)->0, q) == cleared_entry(
                before.entry_at(q),
                now,
            ),
        forall|q: Seq<u8>| #[trigger] record_copy(parse_records(bytes, PARENTS_SIZE as int)->0, q) == before.copy_at(q),
{
    lemma_packed_records_len(after.nodes(), after.image());
    after.lemma_listing_length();
    let rs = packed_records(after.nodes(), after.image());
    after.lemma_packed_records_match(Seq::empty());
    lemma_v1_image(parents, rs);
    assert forall|q: Seq<u8>|
        #![trigger record_entry(parse_records(bytes, PARENTS_SIZE as int)->0, q)]
        #![trigger record_copy(parse_records(bytes, PARENTS_SIZE as int)->0, q)]
        record_entry(parse_records(bytes, PARENTS_SIZE as int)->0, q) == cleared_entry(before.entry_at(q), now)
            && record_copy(parse_records(bytes, PARENTS_SIZE as int)->0, q) == before.copy_at(q) by {
        after.lemma_packed_records_match(q);
        if before.copy_at(q) is Some {
            assert(before.entry_at(q) is Some);
        }
    }
}

/// Listing files splits over concatenated listings.
pub proof fn lemma_entries_of_concat(a: Seq<(Seq<u8>, Node)>, b: Seq<(Seq<u8>, Node)>, img: Seq<u8>)
    ensures
        entries_of(a + b) == entries_of(a) + entries_of(b),
        copies_of(a + b, img) == copies_of(a, img) + copies_of(b, img),
    decreases b.len(),
{
    if b.len() == 0 {
        assert(a + b =~= a);
        assert(entries_of(a) + entries_of(b) =~= entries_of(a));
        assert(copies_of(a, img) + copies_of(b, img) =~= copies_of(a, img));
    } else {
        let bl = b.subrange(0, b.len() - 1);
        lemma_entries_of_concat(a, bl, img);
        assert((a + b).subrange(0, (a + b).len() - 1) =~= a + bl);
        assert((a + b)[(a + b).len() - 1] == b[b.len() - 1]);
        assert(entries_of(a + b) =~= entries_of(a) + entries_of(b));
        assert(copies_of(a + b, img) =~= copies_of(a, img) + copies_of(b, img));
    }
}

/// The listing of the subtrees rooted at `cs` has one file per entry and
/// one copy per copy source.
pub proof fn lemma_entries_of_nodes(cs: Seq<ChildNode>, img: Seq<u8>)
    ensures
        entries_of(nodes_in(cs, img)).len() == count_in(cs, CountKind::Entries),
        copies_of(nodes_in(cs, img), img).len() == count_in(cs, CountKind::CopySources),
    decreases cs,
{
    if cs.len() > 0 {
        let c = cs[cs.len() - 1];
        let pre = cs.subrange(0, cs.len() - 1);
        lemma_entries_of_nodes(pre, img);
        lemma_entries_of_nodes(c.node.children@, img);
        let x = seq![(c.key.full_bytes(img), c.node)];
        lemma_entries_of_concat(nodes_in(pre, img) + nodes_in(c.node.children@, img), x, img);
        lemma_entries_of_concat(nodes_in(pre, img), nodes_in(c.node.children@, img), img);
        assert(x.subrange(0, 0) =~= Seq::<(Seq<u8>, Node)>::empty());
        assert(entries_of(Seq::<(Seq<u8>, Node)>::empty()).len() == 0);
        assert(copies_of(Seq::<(Seq<u8>, Node)>::empty(), img).len() == 0);
    } else {
        assert(nodes_in(cs, img) =~= Seq::empty());
    }
}

/// An index that keeps every holder of `before` but perhaps `p`, where `p`
/// holds, keeps every node of `before` and has nodes at `p` and above it.
pub proof fn lemma_nodes_kept(before: DirstateMap, after: DirstateMap, p: Seq<u8>)
    requires
        before.wf(),
        after.wf(),
        after.holds(p),
        forall|q: Seq<u8>| q != p && #[trigger] before.holds(q) ==> after.holds(q),
    ensures
        after.node_at(p) is Some,
        forall|q: Seq<u8>| before.node_at(q) is Some ==> after.node_at(q) is Some,
        forall|q: Seq<u8>| strictly_below(p, q) ==> after.node_at(q) is Some,
{
    after.lemma_node_iff_holder(p);
    assert forall|q: Seq<u8>| before.node_at(q) is Some implies after.node_at(q) is Some by {
        before.lemma_node_iff_holder(q);
        let t = choose|t: Seq<u8>| (t == q || strictly_below(t, q)) && #[trigger] before.holds(t);
        assert(after.holds(t));
        after.lemma_node_iff_holder(q);
    }
    assert forall|q: Seq<u8>| strictly_below(p, q) implies after.node_at(q) is Some by {
        after.lemma_node_iff_holder(q);
    }
}

/// An index whose holders were all holders of `before`, and which keeps
/// every holder of `before` but perhaps `p`, has no node that `before` did
/// not have, and keeps every node whose holders lie away from `p`.
pub proof fn lemma_nodes_not_created(before: DirstateMap, after: DirstateMap, p: Seq<u8>)
    requires
        before.wf(),
        after.wf(),
        forall|q: Seq<u8>| #[trigger] after.holds(q) ==> before.holds(q),
        forall|q: Seq<u8>| q != p && #[trigger] before.holds(q) ==> after.holds(q),
    ensures
        forall|q: Seq<u8>| after.node_at(q) is Some ==> before.node_at(q) is Some,
        forall|q: Seq<u8>| q != p && before.holds(q) ==> after.node_at(q) is Some,
        forall|q: Seq<u8>|
            before.holds_at_or_below(q) && !(q == p || strictly_below(p, q)) ==> after.node_at(q) is Some,
{
    assert forall|q: Seq<u8>| after.node_at(q) is Some implies before.node_at(q) is Some by {
        after.lemma_node_iff_holder(q);
        let t = choose|t: Seq<u8>| (t == q || strictly_below(t, q)) && #[trigger] after.holds(t);
        assert(before.holds(t));
        before.lemma_node_iff_holder(q);
    }
    assert forall|q: Seq<u8>| q != p && before.holds(q) implies after.node_at(q) is Some by {
        assert(after.holds(q));
        after.lemma_node_iff_holder(q);
    }
    assert forall|q: Seq<u8>|
        before.holds_at_or_below(q) && !(q == p || strictly_below(p, q)) implies after.node_at(q) is Some by {
        let t = choose|t: Seq<u8>| (t == q || strictly_below(t, q)) && #[trigger] before.holds(t);
        assert(t != p);
        assert(after.holds(t));
        after.lemma_node_iff_holder(q);
    }
}

/// Packing writes one record per file of the listing.
pub proof fn lemma_packed_records_len(ns: Seq<(Seq<u8>, Node)>, img: Seq<u8>)
    ensures
        packed_records(ns, img).len() == entries_of(ns).len(),
    decreases ns.len(),
{
    if ns.len() > 0 {
        lemma_packed_records_len(ns.subrange(0, ns.len() - 1), img);
    }
}

} // verus!
