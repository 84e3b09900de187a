//! Walks over the path tree: lookup, insertion with ancestor counter
//! updates, removal with pruning, in-place mtime clearing, and depth-first
//! collection.
use vstd::prelude::*;

use crate::entry::DirstateEntry;
use crate::node::lemma_key_where_node;
use crate::node::lemma_key_remove;
use crate::node::lemma_key_push;
use crate::node::lemma_key_update;
use crate::node::key_borrowed_in;
use crate::node::borrows_image;
use crate::node::owns_bytes;
use crate::node::strictly_below;
use crate::node::lemma_above_cases;
use crate::node::ChildNode;
use crate::node::CountKind;
use crate::node::EntryFilter;
use crate::node::Node;
use crate::node::PathSlice;
use crate::node::WithBasename;
use crate::node::child_index;
use crate::node::child_ok;
use crate::node::cleared_entry;
use crate::node::copy_in;
use crate::node::count_in;
use crate::node::entry_in;
use crate::node::find_child;
use crate::node::has_child;
use crate::node::lemma_child_index;
use crate::node::lemma_count_child_le;
use crate::node::lemma_count_push;
use crate::node::lemma_count_remove;
use crate::node::lemma_count_update;
use crate::node::lemma_lookup_push;
use crate::node::lemma_lookup_remove;
use crate::node::lemma_lookup_update;
use crate::node::lemma_rejoin;
use crate::node::lemma_single_component;
use crate::node::lemma_split_at;
use crate::node::lookup;
use crate::node::nodes_in;
use crate::node::pairs_view;
use crate::node::replaced;
use crate::node::selects;
use crate::node::suffix;
use crate::node::tracked_of;
use crate::node::unique_names;
use crate::node::wf_children;
use crate::path::SLASH;
use crate::path::find_slash;
use crate::path::first_component;
use crate::path::lemma_first_slash;
use crate::path::rest_of_path;

verus! {

broadcast use vstd::seq::group_seq_axioms, vstd::std_specs::vec::group_vec_axioms;

/// Looks up the node at `path[start..]` among `cs`.
pub(crate) fn get_node_in<'a>(cs: &'a Vec<ChildNode>, img: &[u8], path: &[u8], start: usize, Ghost(dir): Ghost<Seq<u8>>) -> (r: Option<&'a Node>)
    requires
        start <= path@.len(),
        wf_children(cs@, dir, img@),
    ensures
        match r {
            Some(n) => lookup(cs@, path@.subrange(start as int, path@.len() as int), img@) == Some(*n),
            None => lookup(cs@, path@.subrange(start as int, path@.len() as int), img@) is None,
        },
    decreases path@.len() - start,
{
    let end = find_slash(path, start);
    proof {
        lemma_split_at(path@, start as int, end as int);
    }
    match find_child(cs, img, path, start, end) {
        None => None,
        Some(i) => {
            proof {
                lemma_child_index(cs@, i as int, img@);
            }
            let child = &cs[i];
            if end < path.len() {
                let ghost cdir = child.key.full_bytes(img@).push(SLASH);
                get_node_in(&child.node.children, img, path, end + 1, Ghost(cdir))
            } else {
                Some(&child.node)
            }
        }
    }
}

/// Where a newly created key takes its bytes from.
pub enum KeySource {
    /// A copy of the path handed in.
    Owned,
    /// The path handed in lies in the image at `offset`.
    Image { offset: usize },
}

pub open spec fn key_source_ok(ks: KeySource, path: Seq<u8>, img: Seq<u8>) -> bool {
    match ks {
        KeySource::Owned => true,
        KeySource::Image { offset } => offset + path.len() <= img.len() && img.subrange(
            offset as int,
            offset + path.len(),
        ) == path,
    }
}

/// Change applied to the tracked-descendant counter of each strict ancestor
/// of the node that an insertion reaches.
#[derive(Clone, Copy, Debug, PartialEq, Eq, Structural)]
pub enum AncestorUpdate {
    Increment,
    Decrement,
    Keep,
}

pub open spec fn update_delta(u: AncestorUpdate) -> int {
    match u {
        AncestorUpdate::Increment => 1,
        AncestorUpdate::Decrement => -1,
        AncestorUpdate::Keep => 0,
    }
}

/// The ancestor update that matches a change of the tracked state.
pub open spec fn update_fits(u: AncestorUpdate, was_tracked: bool, is_tracked: bool) -> bool {
    update_delta(u) == (if is_tracked { 1int } else { 0 }) - (if was_tracked { 1int } else { 0 })
}

/// The key for the prefix `path[..end]`, whose base name starts at `start`.
pub(crate) fn make_key(path: &[u8], start: usize, end: usize, key_source: &KeySource, img: &[u8]) -> (k: WithBasename)
    requires
        start <= end <= path@.len(),
        key_source_ok(*key_source, path@, img@),
    ensures
        k.in_image(img@),
        k.full_bytes(img@) == path@.subrange(0, end as int),
        k.base_name_start == start,
        *key_source is Image ==> k.full_path is Borrowed,
        *key_source is Owned ==> k.full_path is Owned,
{
    match key_source {
        KeySource::Owned => WithBasename {
            full_path: PathSlice::Owned(vstd::slice::slice_to_vec(&path[0..end])),
            base_name_start: start,
        },
        KeySource::Image { offset } => {
            let ilen = img.len();
            proof {
                assert(img@.subrange(*offset as int, offset + end) =~= path@.subrange(0, end as int));
                assert(offset + end <= ilen);
            }
            WithBasename { full_path: PathSlice::Borrowed { start: *offset, end: *offset + end }, base_name_start: start }
        },
    }
}

/// Walks `path[start..]` from `children`, creating missing nodes, adjusts the
/// tracked-descendant counter of every strict ancestor by `ancestor_update`,
/// and sets the entry and copy source given at the node reached. Returns the
/// entry and copy source that node held before.
#[verifier::rlimit(60)]
pub(crate) fn get_or_insert_node(
    children: &mut Vec<ChildNode>,
    img: &[u8],
    path: &[u8],
    start: usize,
    key_source: &KeySource,
    ancestor_update: AncestorUpdate,
    new_entry: Option<DirstateEntry>,
    new_copy_source: Option<PathSlice>,
    Ghost(dir): Ghost<Seq<u8>>,
) -> (prev: (Option<DirstateEntry>, Option<PathSlice>))
    requires
        start <= path@.len(),
        dir == path@.subrange(0, start as int),
        wf_children(old(children)@, dir, img@),
        key_source_ok(*key_source, path@, img@),
        new_entry is Some || new_copy_source is Some,
        new_copy_source matches Some(s) ==> s.in_image(img@),
        update_fits(
            ancestor_update,
            tracked_of(entry_in(old(children)@, suffix(path@, start as int), img@)),
            tracked_of(replaced(entry_in(old(children)@, suffix(path@, start as int), img@), new_entry)),
        ),
        ancestor_update == AncestorUpdate::Increment ==> count_in(old(children)@, CountKind::TrackedFiles) < u32::MAX,
    ensures
        wf_children(final(children)@, dir, img@),
        final(children)@.len() > 0,
        prev.0 == entry_in(old(children)@, suffix(path@, start as int), img@),
        prev.1 == (if new_copy_source is Some {
            copy_in(old(children)@, suffix(path@, start as int), img@)
        } else {
            None
        }),
        entry_in(final(children)@, suffix(path@, start as int), img@) == replaced(prev.0, new_entry),
        copy_in(final(children)@, suffix(path@, start as int), img@) == replaced(
            copy_in(old(children)@, suffix(path@, start as int), img@),
            new_copy_source,
        ),
        forall|r: Seq<u8>|
            r != suffix(path@, start as int) ==> entry_in(final(children)@, r, img@) == entry_in(
                old(children)@,
                r,
                img@,
            ) && copy_in(final(children)@, r, img@) == copy_in(old(children)@, r, img@),
        count_in(final(children)@, CountKind::Entries) == count_in(old(children)@, CountKind::Entries) + (
        if prev.0 is None && new_entry is Some {
            1int
        } else {
            0
        }),
        count_in(final(children)@, CountKind::CopySources) == count_in(
            old(children)@,
            CountKind::CopySources,
        ) + (if copy_in(old(children)@, suffix(path@, start as int), img@) is None
            && new_copy_source is Some {
            1int
        } else {
            0
        }),
        count_in(final(children)@, CountKind::TrackedFiles) == count_in(
            old(children)@,
            CountKind::TrackedFiles,
        ) + update_delta(ancestor_update),
        forall|q: Seq<u8>|
            strictly_below(suffix(path@, start as int), q) ==> (lookup(final(children)@, q, img@) matches Some(n)
                && n.tracked_descendants_count == (match lookup(old(children)@, q, img@) {
                Some(o) => o.tracked_descendants_count as int,
                None => 0int,
            }) + update_delta(ancestor_update)),
        *key_source is Image && borrows_image(old(children)@) && (new_copy_source matches Some(c) ==> c is Borrowed)
            ==> borrows_image(final(children)@),
        *key_source is Owned && owns_bytes(old(children)@) && (new_copy_source matches Some(c) ==> c is Owned)
            ==> owns_bytes(final(children)@),
        forall|r: Seq<u8>|
            lookup(old(children)@, r, img@) is Some ==> key_borrowed_in(final(children)@, r, img@) == key_borrowed_in(
                old(children)@,
                r,
                img@,
            ),
        forall|r: Seq<u8>|
            lookup(old(children)@, r, img@) is None && lookup(final(children)@, r, img@) is Some ==> key_borrowed_in(
                final(children)@,
                r,
                img@,
            ) == Some(*key_source is Image),
    decreases path@.len() - start,
{
    let ghost new_copy = new_copy_source;
    let ghost old_cs = children@;
    let ghost rest = suffix(path@, start as int);
    let end = find_slash(path, start);
    proof {
        lemma_split_at(path@, start as int, end as int);
        lemma_first_slash(rest);
        if end < path.len() {
            assert(path@[end as int] == rest[end - start]);
        }
    }
    let ghost name = path@.subrange(start as int, end as int);
    match find_child(children, img, path, start, end) {
        Some(i) => {
            proof {
                lemma_child_index(old_cs, i as int, img@);
                lemma_count_child_le(old_cs, i as int, CountKind::TrackedFiles);
            }
            let ghost c = old_cs[i as int];
            let ghost cdir = c.key.full_bytes(img@).push(SLASH);
            proof {
                let full = c.key.full_bytes(img@);
                assert(c.key.base_name(img@) == name);
                assert(full.subrange(0, start as int) == path@.subrange(0, start as int));
                assert forall|k: int| 0 <= k < end implies full[k] == path@[k] by {
                    if k < start {
                        assert(full[k] == full.subrange(0, start as int)[k]);
                    } else {
                        assert(full[k] == c.key.base_name(img@)[k - start]);
                    }
                }
                assert(full =~= path@.subrange(0, end as int));
            }
            let child = &mut children[i];
            let prev;
            if end < path.len() {
                proof {
                    assert(cdir =~= path@.subrange(0, end + 1));
                }
                prev = get_or_insert_node(
                    &mut child.node.children,
                    img,
                    path,
                    end + 1,
                    key_source,
                    ancestor_update,
                    new_entry,
                    new_copy_source,
                    Ghost(cdir),
                );
                match ancestor_update {
                    AncestorUpdate::Increment => {
                        child.node.tracked_descendants_count = child.node.tracked_descendants_count + 1;
                    },
                    AncestorUpdate::Decrement => {
                        child.node.tracked_descendants_count = child.node.tracked_descendants_count - 1;
                    },
                    AncestorUpdate::Keep => {},
                }
            } else {
                let prev_entry = child.node.entry;
                let prev_copy = match new_copy_source {
                    Some(src) => {
                        let mut tmp = Some(src);
                        std::mem::swap(&mut child.node.copy_source, &mut tmp);
                        tmp
                    },
                    None => None,
                };
                if new_entry.is_some() {
                    child.node.entry = new_entry;
                }
                prev = (prev_entry, prev_copy);
            }
            proof {
                let nc = children@[i as int];
                assert(children@ == old_cs.update(i as int, nc));
                assert(nc.key == c.key);
                lemma_count_update(old_cs, i as int, nc, CountKind::Entries);
                lemma_count_update(old_cs, i as int, nc, CountKind::CopySources);
                lemma_count_update(old_cs, i as int, nc, CountKind::TrackedFiles);
                assert(unique_names(children@, img@)) by {
                    assert forall|x: int, y: int|
                        0 <= x < children@.len() && 0 <= y < children@.len() && x != y implies (
                        #[trigger] children@[x]).key.base_name(img@) != (
                        #[trigger] children@[y]).key.base_name(img@) by {
                        assert(old_cs[x].key.base_name(img@) != old_cs[y].key.base_name(img@));
                    }
                }
                lemma_child_index(children@, i as int, img@);
                assert(child_ok(nc, dir, img@));
                assert(wf_children(nc.node.children@, cdir, img@));
                assert forall|x: int| 0 <= x < children@.len() implies {
                    &&& child_ok(#[trigger] children@[x], dir, img@)
                    &&& wf_children(children@[x].node.children@, children@[x].key.full_bytes(img@).push(SLASH), img@)
                } by {
                    if x != i {
                        assert(children@[x] == old_cs[x]);
                    }
                }
                assert forall|r: Seq<u8>| r != rest implies entry_in(children@, r, img@) == entry_in(old_cs, r, img@)
                    && copy_in(children@, r, img@) == copy_in(old_cs, r, img@) by {
                    if first_component(r) != name {
                        lemma_lookup_update(old_cs, i as int, nc, r, img@);
                    } else if rest_of_path(r) is Some {
                        let rr = rest_of_path(r)->0;
                        lemma_first_slash(r);
                        assert(lookup(children@, r, img@) == lookup(nc.node.children@, rr, img@));
                        assert(lookup(old_cs, r, img@) == lookup(c.node.children@, rr, img@));
                        if end < path.len() {
                            lemma_rejoin(r);
                            lemma_rejoin(rest);
                            assert(rr != suffix(path@, end + 1));
                            assert(entry_in(nc.node.children@, rr, img@) == entry_in(c.node.children@, rr, img@));
                            assert(copy_in(nc.node.children@, rr, img@) == copy_in(c.node.children@, rr, img@));
                        }
                    } else {
                        lemma_single_component(r);
                        if end == path.len() {
                            lemma_single_component(rest);
                        }
                    }
                }
            }
            proof {
                let nc = children@[i as int];
                assert forall|q: Seq<u8>| strictly_below(rest, q) implies (lookup(children@, q, img@) matches Some(n)
                    && n.tracked_descendants_count == (match lookup(old_cs, q, img@) {
                    Some(o) => o.tracked_descendants_count as int,
                    None => 0int,
                }) + update_delta(ancestor_update)) by {
                    lemma_above_cases(rest, q);
                    if q != name {
                        let q2 = rest_of_path(q)->0;
                        lemma_first_slash(q);
                        assert(lookup(children@, q, img@) == lookup(nc.node.children@, q2, img@));
                        assert(lookup(old_cs, q, img@) == lookup(c.node.children@, q2, img@));
                    } else {
                        lemma_first_slash(q);
                        lemma_single_component_of(name, rest);
                    }
                }
            }
            proof {
                if *key_source is Image && borrows_image(old_cs) && (new_copy matches Some(c) ==> c is Borrowed) {
                    assert forall|x: int| 0 <= x < children@.len() implies {
                        &&& (#[trigger] children@[x]).key.full_path is Borrowed
                        &&& (children@[x].node.copy_source matches Some(c) ==> c is Borrowed)
                        &&& borrows_image(children@[x].node.children@)
                    } by {
                        if x != i {
                            assert(children@[x] == old_cs[x]);
                        } else {
                            assert(old_cs[x].key.full_path is Borrowed);
                        }
                    }
                }
            }
            proof {
                if *key_source is Owned && owns_bytes(old_cs) && (new_copy matches Some(c) ==> c is Owned) {
                    assert forall|x: int| 0 <= x < children@.len() implies {
                        &&& (#[trigger] children@[x]).key.full_path is Owned
                        &&& (children@[x].node.copy_source matches Some(c) ==> c is Owned)
                        &&& owns_bytes(children@[x].node.children@)
                    } by {
                        if x != i {
                            assert(children@[x] == old_cs[x]);
                        } else {
                            assert(old_cs[x].key.full_path is Owned);
                        }
                    }
                }
            }
            proof {
                let nc = children@[i as int];
                assert forall|r: Seq<u8>|
                    #![trigger key_borrowed_in(children@, r, img@)]
                    (lookup(old_cs, r, img@) is Some ==> key_borrowed_in(children@, r, img@) == key_borrowed_in(old_cs, r, img@))
                    && (lookup(old_cs, r, img@) is None && lookup(children@, r, img@) is Some ==> key_borrowed_in(children@, r, img@)
                    == Some(*key_source is Image)) by {
                    if first_component(r) != name {
                        lemma_lookup_update(old_cs, i as int, nc, r, img@);
                        lemma_key_update(old_cs, i as int, nc, r, img@);
                    } else if rest_of_path(r) is Some {
                        let rr = rest_of_path(r)->0;
                        lemma_first_slash(r);
                        assert(lookup(children@, r, img@) == lookup(nc.node.children@, rr, img@));
                        assert(lookup(old_cs, r, img@) == lookup(c.node.children@, rr, img@));
                        assert(key_borrowed_in(children@, r, img@) == key_borrowed_in(nc.node.children@, rr, img@));
                        assert(key_borrowed_in(old_cs, r, img@) == key_borrowed_in(c.node.children@, rr, img@));
                    } else {
                        assert(key_borrowed_in(children@, r, img@) == Some(nc.key.full_path is Borrowed));
                    }
                }
            }
            prev
        },
        None => {
            let key = make_key(path, start, end, key_source, img);
            let mut node = Node {
                entry: None,
                copy_source: None,
                children: Vec::new(),
                tracked_descendants_count: 0,
            };
            let ghost cdir = key.full_bytes(img@).push(SLASH);
            let prev;
            if end < path.len() {
                proof {
                    assert(cdir =~= path@.subrange(0, end + 1));
                    assert(count_in(node.children@, CountKind::Entries) == 0);
                    assert(count_in(node.children@, CountKind::TrackedFiles) == 0);
                    assert(count_in(node.children@, CountKind::CopySources) == 0);
                    assert(lookup(node.children@, suffix(path@, end + 1), img@) is None);
                }
                prev = get_or_insert_node(
                    &mut node.children,
                    img,
                    path,
                    end + 1,
                    key_source,
                    ancestor_update,
                    new_entry,
                    new_copy_source,
                    Ghost(cdir),
                );
                if ancestor_update == AncestorUpdate::Increment {
                    node.tracked_descendants_count = 1;
                }
            } else {
                node.entry = new_entry;
                node.copy_source = new_copy_source;
                prev = (None, None);
            }
            let child = ChildNode { key, node };
            children.push(child);
            proof {
                let nc = children@[old_cs.len() as int];
                assert(children@ == old_cs.push(nc));
                lemma_count_push(old_cs, nc, CountKind::Entries);
                lemma_count_push(old_cs, nc, CountKind::CopySources);
                lemma_count_push(old_cs, nc, CountKind::TrackedFiles);
                assert(nc.key.base_name(img@) =~= name);
                assert(unique_names(children@, img@)) by {
                    assert forall|x: int, y: int|
                        0 <= x < children@.len() && 0 <= y < children@.len() && x != y implies (
                        #[trigger] children@[x]).key.base_name(img@) != (
                        #[trigger] children@[y]).key.base_name(img@) by {
                        if x < old_cs.len() && y < old_cs.len() {
                            assert(old_cs[x].key.base_name(img@) != old_cs[y].key.base_name(img@));
                        } else if x < old_cs.len() {
                            assert(old_cs[x].key.base_name(img@) != name);
                        } else {
                            assert(old_cs[y].key.base_name(img@) != name);
                        }
                    }
                }
                lemma_child_index(children@, old_cs.len() as int, img@);
                let full = nc.key.full_bytes(img@);
                assert(full.subrange(0, start as int) =~= dir);
                assert forall|k: int| 0 <= k < nc.key.base_name(img@).len() implies nc.key.base_name(img@)[k] != SLASH by {
                    assert(nc.key.base_name(img@)[k] == rest[k]);
                }
                assert(child_ok(nc, dir, img@));
                assert(wf_children(nc.node.children@, cdir, img@));
                assert forall|x: int| 0 <= x < children@.len() implies {
                    &&& child_ok(#[trigger] children@[x], dir, img@)
                    &&& wf_children(children@[x].node.children@, children@[x].key.full_bytes(img@).push(SLASH), img@)
                } by {
                    if x < old_cs.len() {
                        assert(children@[x] == old_cs[x]);
                    }
                }
                assert forall|r: Seq<u8>| r != rest implies entry_in(children@, r, img@) == entry_in(old_cs, r, img@)
                    && copy_in(children@, r, img@) == copy_in(old_cs, r, img@) by {
                    if first_component(r) != name {
                        lemma_lookup_push(old_cs, nc, r, img@);
                    } else if rest_of_path(r) is Some {
                        let rr = rest_of_path(r)->0;
                        lemma_first_slash(r);
                        assert(lookup(children@, r, img@) == lookup(nc.node.children@, rr, img@));
                        assert(lookup(old_cs, r, img@) is None);
                        if end < path.len() {
                            lemma_rejoin(r);
                            lemma_rejoin(rest);
                            assert(rr != suffix(path@, end + 1));
                            assert(entry_in(nc.node.children@, rr, img@) == entry_in(Seq::<ChildNode>::empty(), rr, img@));
                            assert(copy_in(nc.node.children@, rr, img@) == copy_in(Seq::<ChildNode>::empty(), rr, img@));
                        }
                    } else {
                        lemma_single_component(r);
                        if end == path.len() {
                            lemma_single_component(rest);
                        }
                    }
                }
            }
            proof {
                let nc = children@[old_cs.len() as int];
                assert forall|q: Seq<u8>| strictly_below(rest, q) implies (lookup(children@, q, img@) matches Some(n)
                    && n.tracked_descendants_count == (match lookup(old_cs, q, img@) {
                    Some(o) => o.tracked_descendants_count as int,
                    None => 0int,
                }) + update_delta(ancestor_update)) by {
                    lemma_above_cases(rest, q);
                    if q != name {
                        let q2 = rest_of_path(q)->0;
                        lemma_first_slash(q);
                        assert(lookup(old_cs, q, img@) is None);
                        assert(lookup(children@, q, img@) == lookup(nc.node.children@, q2, img@));
                        assert(lookup(Seq::<ChildNode>::empty(), q2, img@) is None);
                    } else {
                        lemma_first_slash(q);
                        lemma_single_component_of(name, rest);
                        assert(lookup(old_cs, q, img@) is None);
                    }
                }
            }
            proof {
                if *key_source is Image && borrows_image(old_cs) && (new_copy matches Some(c) ==> c is Borrowed) {
                    assert forall|x: int| 0 <= x < children@.len() implies {
                        &&& (#[trigger] children@[x]).key.full_path is Borrowed
                        &&& (children@[x].node.copy_source matches Some(c) ==> c is Borrowed)
                        &&& borrows_image(children@[x].node.children@)
                    } by {
                        if x < old_cs.len() {
                            assert(children@[x] == old_cs[x]);
                        } else {
                            assert(borrows_image(Seq::<ChildNode>::empty()));
                        }
                    }
                }
            }
            proof {
                if *key_source is Owned && owns_bytes(old_cs) && (new_copy matches Some(c) ==> c is Owned) {
                    assert forall|x: int| 0 <= x < children@.len() implies {
                        &&& (#[trigger] children@[x]).key.full_path is Owned
                        &&& (children@[x].node.copy_source matches Some(c) ==> c is Owned)
                        &&& owns_bytes(children@[x].node.children@)
                    } by {
                        if x < old_cs.len() {
                            assert(children@[x] == old_cs[x]);
                        } else {
                            assert(owns_bytes(Seq::<ChildNode>::empty()));
                        }
                    }
                }
            }
            proof {
                let nc = children@[old_cs.len() as int];
                assert forall|r: Seq<u8>|
                    #![trigger key_borrowed_in(children@, r, img@)]
                    (lookup(old_cs, r, img@) is Some ==> key_borrowed_in(children@, r, img@) == key_borrowed_in(old_cs, r, img@))
                    && (lookup(old_cs, r, img@) is None && lookup(children@, r, img@) is Some ==> key_borrowed_in(children@, r, img@)
                    == Some(*key_source is Image)) by {
                    if first_component(r) != name {
                        lemma_lookup_push(old_cs, nc, r, img@);
                        lemma_key_push(old_cs, nc, r, img@);
                    } else if rest_of_path(r) is Some {
                        let rr = rest_of_path(r)->0;
                        lemma_first_slash(r);
                        assert(lookup(children@, r, img@) == lookup(nc.node.children@, rr, img@));
                        assert(key_borrowed_in(children@, r, img@) == key_borrowed_in(nc.node.children@, rr, img@));
                        assert(lookup(Seq::<ChildNode>::empty(), rr, img@) is None);
                    } else {
                        assert(key_borrowed_in(children@, r, img@) == Some(nc.key.full_path is Borrowed));
                    }
                }
            }
            prev
        },
    }
}

/// What a removal takes from the node it reaches.
#[derive(Clone, Copy, Debug, PartialEq, Eq, Structural)]
pub enum Removal {
    Entry,
    CopySource,
}

/// What a removal took.
pub struct Dropped {
    pub was_tracked: bool,
    pub entry: Option<DirstateEntry>,
    pub copy_source: Option<PathSlice>,
}

/// Walks `path[start..]` from `children` and, if a node is there, takes its
/// entry or its copy source. On the way back up each strict ancestor loses
/// one tracked descendant if a tracked entry was taken, and every node left
/// empty is pruned.
pub(crate) fn remove_from_node(
    children: &mut Vec<ChildNode>,
    img: &[u8],
    path: &[u8],
    start: usize,
    what: Removal,
    Ghost(dir): Ghost<Seq<u8>>,
) -> (r: Option<Dropped>)
    requires
        start <= path@.len(),
        wf_children(old(children)@, dir, img@),
    ensures
        wf_children(final(children)@, dir, img@),
        r is None <==> lookup(old(children)@, suffix(path@, start as int), img@) is None,
        r is None ==> {
            &&& lookup(final(children)@, suffix(path@, start as int), img@) is None
            &&& count_in(final(children)@, CountKind::Entries) == count_in(old(children)@, CountKind::Entries)
            &&& count_in(final(children)@, CountKind::CopySources) == count_in(
                old(children)@,
                CountKind::CopySources,
            )
            &&& count_in(final(children)@, CountKind::TrackedFiles) == count_in(
                old(children)@,
                CountKind::TrackedFiles,
            )
        },
        r matches Some(d) ==> {
            let e = entry_in(old(children)@, suffix(path@, start as int), img@);
            let cp = copy_in(old(children)@, suffix(path@, start as int), img@);
            &&& d.was_tracked == (what == Removal::Entry && tracked_of(e))
            &&& d.entry == (if what == Removal::Entry { e } else { None })
            &&& d.copy_source == (if what == Removal::CopySource { cp } else { None })
            &&& entry_in(final(children)@, suffix(path@, start as int), img@) == (if what == Removal::Entry {
                None
            } else {
                e
            })
            &&& copy_in(final(children)@, suffix(path@, start as int), img@) == (
            if what == Removal::CopySource {
                None
            } else {
                cp
            })
            &&& count_in(final(children)@, CountKind::Entries) + (if d.entry is Some { 1int } else { 0 })
                == count_in(old(children)@, CountKind::Entries)
            &&& count_in(final(children)@, CountKind::CopySources) + (if d.copy_source is Some {
                1int
            } else {
                0
            }) == count_in(old(children)@, CountKind::CopySources)
            &&& count_in(final(children)@, CountKind::TrackedFiles) + (if d.was_tracked { 1int } else { 0 })
                == count_in(old(children)@, CountKind::TrackedFiles)
        },
        forall|r: Seq<u8>|
            r != suffix(path@, start as int) ==> entry_in(final(children)@, r, img@) == entry_in(
                old(children)@,
                r,
                img@,
            ) && copy_in(final(children)@, r, img@) == copy_in(old(children)@, r, img@),
        owns_bytes(old(children)@) ==> owns_bytes(final(children)@),
        forall|r: Seq<u8>|
            lookup(final(children)@, r, img@) is Some ==> key_borrowed_in(final(children)@, r, img@) == key_borrowed_in(
                old(children)@,
                r,
                img@,
            ),
    decreases path@.len() - start,
{
    let ghost old_cs = children@;
    let ghost rest = suffix(path@, start as int);
    let end = find_slash(path, start);
    proof {
        lemma_split_at(path@, start as int, end as int);
        lemma_first_slash(rest);
    }
    let ghost name = path@.subrange(start as int, end as int);
    let i = match find_child(children, img, path, start, end) {
        None => {
            return None;
        },
        Some(i) => i,
    };
    proof {
        lemma_child_index(old_cs, i as int, img@);
    }
    let ghost c = old_cs[i as int];
    let ghost cdir = c.key.full_bytes(img@).push(SLASH);
    let child = &mut children[i];
    let dropped;
    if end < path.len() {
        dropped = match remove_from_node(&mut child.node.children, img, path, end + 1, what, Ghost(cdir)) {
            None => None,
            Some(d) => {
                if d.was_tracked {
                    child.node.tracked_descendants_count = child.node.tracked_descendants_count - 1;
                }
                Some(d)
            },
        };
    } else {
        match what {
            Removal::Entry => {
                let was_tracked = match child.node.entry {
                    Some(e) => e.is_tracked(),
                    None => false,
                };
                dropped = Some(Dropped { was_tracked, entry: child.node.entry.take(), copy_source: None });
            },
            Removal::CopySource => {
                dropped = Some(
                    Dropped { was_tracked: false, entry: None, copy_source: child.node.copy_source.take() },
                );
            },
        }
    }
    let now_empty = child.node.entry.is_none() && child.node.copy_source.is_none()
        && child.node.children.len() == 0;
    let ghost nc = children@[i as int];
    proof {
        assert(children@ == old_cs.update(i as int, nc));
        assert(nc.key == c.key);
        lemma_count_update(old_cs, i as int, nc, CountKind::Entries);
        lemma_count_update(old_cs, i as int, nc, CountKind::CopySources);
        lemma_count_update(old_cs, i as int, nc, CountKind::TrackedFiles);
        assert(unique_names(children@, img@)) by {
            assert forall|x: int, y: int|
                0 <= x < children@.len() && 0 <= y < children@.len() && x != y implies (
                #[trigger] children@[x]).key.base_name(img@) != (#[trigger] children@[y]).key.base_name(img@) by {
                assert(old_cs[x].key.base_name(img@) != old_cs[y].key.base_name(img@));
            }
        }
        lemma_child_index(children@, i as int, img@);
    }
    if now_empty {
        children.remove(i);
        proof {
            let upd = old_cs.update(i as int, nc);
            assert(count_in(nc.node.children@, CountKind::Entries) == 0);
            assert(count_in(nc.node.children@, CountKind::CopySources) == 0);
            assert(count_in(nc.node.children@, CountKind::TrackedFiles) == 0);
            lemma_count_remove(upd, i as int, CountKind::Entries);
            lemma_count_remove(upd, i as int, CountKind::CopySources);
            lemma_count_remove(upd, i as int, CountKind::TrackedFiles);
            assert(children@ == upd.remove(i as int));
            assert forall|x: int| 0 <= x < children@.len() implies {
                &&& child_ok(#[trigger] children@[x], dir, img@)
                &&& wf_children(children@[x].node.children@, children@[x].key.full_bytes(img@).push(SLASH), img@)
            } by {
                let ox = if x < i { x } else { x + 1 };
                assert(children@[x] == old_cs[ox]);
            }
            assert forall|r: Seq<u8>| r != rest implies entry_in(children@, r, img@) == entry_in(old_cs, r, img@)
                && copy_in(children@, r, img@) == copy_in(old_cs, r, img@) by {
                lemma_lookup_remove(upd, i as int, r, img@);
                if first_component(r) != name {
                    lemma_lookup_update(old_cs, i as int, nc, r, img@);
                } else if rest_of_path(r) is Some {
                    let rr = rest_of_path(r)->0;
                    lemma_first_slash(r);
                    assert(lookup(old_cs, r, img@) == lookup(c.node.children@, rr, img@));
                    if end < path.len() {
                        lemma_rejoin(r);
                        lemma_rejoin(rest);
                        assert(rr != suffix(path@, end + 1));
                        assert(entry_in(nc.node.children@, rr, img@) == entry_in(c.node.children@, rr, img@));
                        assert(copy_in(nc.node.children@, rr, img@) == copy_in(c.node.children@, rr, img@));
                    }
                } else {
                    lemma_single_component(r);
                    if end == path.len() {
                        lemma_single_component(rest);
                    }
                }
            }
            assert(lookup(children@, rest, img@) is None);
        }
    } else {
        proof {
            assert(child_ok(nc, dir, img@));
            assert forall|x: int| 0 <= x < children@.len() implies {
                &&& child_ok(#[trigger] children@[x], dir, img@)
                &&& wf_children(children@[x].node.children@, children@[x].key.full_bytes(img@).push(SLASH), img@)
            } by {
                if x != i {
                    assert(children@[x] == old_cs[x]);
                }
            }
            assert forall|r: Seq<u8>| r != rest implies entry_in(children@, r, img@) == entry_in(old_cs, r, img@)
                && copy_in(children@, r, img@) == copy_in(old_cs, r, img@) by {
                if first_component(r) != name {
                    lemma_lookup_update(old_cs, i as int, nc, r, img@);
                } else if rest_of_path(r) is Some {
                    let rr = rest_of_path(r)->0;
                    lemma_first_slash(r);
                    assert(lookup(children@, r, img@) == lookup(nc.node.children@, rr, img@));
                    assert(lookup(old_cs, r, img@) == lookup(c.node.children@, rr, img@));
                    if end < path.len() {
                        lemma_rejoin(r);
                        lemma_rejoin(rest);
                        assert(rr != suffix(path@, end + 1));
                        assert(entry_in(nc.node.children@, rr, img@) == entry_in(c.node.children@, rr, img@));
                        assert(copy_in(nc.node.children@, rr, img@) == copy_in(c.node.children@, rr, img@));
                    }
                } else {
                    lemma_single_component(r);
                    if end == path.len() {
                        lemma_single_component(rest);
                    }
                }
            }
        }
    }
    proof {
        if owns_bytes(old_cs) {
            assert(old_cs[i as int].key.full_path is Owned);
            assert forall|x: int| 0 <= x < children@.len() implies {
                &&& (#[trigger] children@[x]).key.full_path is Owned
                &&& (children@[x].node.copy_source matches Some(c) ==> c is Owned)
                &&& owns_bytes(children@[x].node.children@)
            } by {
                if now_empty {
                    let ox = if x < i { x } else { x + 1 };
                    assert(children@[x] == old_cs[ox]);
                } else if x != i {
                    assert(children@[x] == old_cs[x]);
                }
            }
        }
    }
    proof {
        let upd = old_cs.update(i as int, nc);
        assert forall|r: Seq<u8>| #[trigger] lookup(children@, r, img@) is Some implies key_borrowed_in(children@, r, img@)
            == key_borrowed_in(old_cs, r, img@) by {
            if now_empty {
                lemma_lookup_remove(upd, i as int, r, img@);
                lemma_key_remove(upd, i as int, r, img@);
            }
            if first_component(r) != name {
                lemma_lookup_update(old_cs, i as int, nc, r, img@);
                lemma_key_update(old_cs, i as int, nc, r, img@);
            } else if !now_empty {
                if rest_of_path(r) is Some {
                    let rr = rest_of_path(r)->0;
                    lemma_first_slash(r);
                    assert(lookup(children@, r, img@) == lookup(nc.node.children@, rr, img@));
                    assert(key_borrowed_in(children@, r, img@) == key_borrowed_in(nc.node.children@, rr, img@));
                    assert(key_borrowed_in(old_cs, r, img@) == key_borrowed_in(c.node.children@, rr, img@));
                }
            }
        }
    }
    dropped
}

/// Walks `path[start..]` from `children` and clears the modification time
/// of the entry there if it equals `now`.
pub(crate) fn clear_ambiguous_at(
    children: &mut Vec<ChildNode>,
    img: &[u8],
    path: &[u8],
    start: usize,
    now: i32,
    Ghost(dir): Ghost<Seq<u8>>,
)
    requires
        start <= path@.len(),
        wf_children(old(children)@, dir, img@),
    ensures
        wf_children(final(children)@, dir, img@),
        entry_in(final(children)@, suffix(path@, start as int), img@) == cleared_entry(
            entry_in(old(children)@, suffix(path@, start as int), img@),
            now,
        ),
        forall|r: Seq<u8>|
            r != suffix(path@, start as int) ==> entry_in(final(children)@, r, img@) == entry_in(
                old(children)@,
                r,
                img@,
            ),
        forall|r: Seq<u8>| copy_in(final(children)@, r, img@) == copy_in(old(children)@, r, img@),
        forall|r: Seq<u8>| (lookup(final(children)@, r, img@) is Some) == (lookup(old(children)@, r, img@) is Some),
        final(children)@.len() == old(children)@.len(),
        count_in(final(children)@, CountKind::Entries) == count_in(old(children)@, CountKind::Entries),
        count_in(final(children)@, CountKind::CopySources) == count_in(old(children)@, CountKind::CopySources),
        count_in(final(children)@, CountKind::TrackedFiles) == count_in(old(children)@, CountKind::TrackedFiles),
        owns_bytes(old(children)@) ==> owns_bytes(final(children)@),
        forall|r: Seq<u8>| key_borrowed_in(final(children)@, r, img@) == key_borrowed_in(old(children)@, r, img@),
    decreases path@.len() - start,
{
    let ghost old_cs = children@;
    let ghost rest = suffix(path@, start as int);
    let end = find_slash(path, start);
    proof {
        lemma_split_at(path@, start as int, end as int);
        lemma_first_slash(rest);
    }
    let ghost name = path@.subrange(start as int, end as int);
    let i = match find_child(children, img, path, start, end) {
        None => {
            return ;
        },
        Some(i) => i,
    };
    proof {
        lemma_child_index(old_cs, i as int, img@);
    }
    let ghost c = old_cs[i as int];
    let ghost cdir = c.key.full_bytes(img@).push(SLASH);
    let child = &mut children[i];
    if end < path.len() {
        clear_ambiguous_at(&mut child.node.children, img, path, end + 1, now, Ghost(cdir));
    } else {
        match &mut child.node.entry {
            Some(e) => {
                e.clear_ambiguous_mtime(now);
            },
            None => {},
        }
    }
    proof {
        let nc = children@[i as int];
        assert(children@ == old_cs.update(i as int, nc));
        assert(nc.key == c.key);
        lemma_count_update(old_cs, i as int, nc, CountKind::Entries);
        lemma_count_update(old_cs, i as int, nc, CountKind::CopySources);
        lemma_count_update(old_cs, i as int, nc, CountKind::TrackedFiles);
        assert(unique_names(children@, img@)) by {
            assert forall|x: int, y: int|
                0 <= x < children@.len() && 0 <= y < children@.len() && x != y implies (
                #[trigger] children@[x]).key.base_name(img@) != (#[trigger] children@[y]).key.base_name(img@) by {
                assert(old_cs[x].key.base_name(img@) != old_cs[y].key.base_name(img@));
            }
        }
        lemma_child_index(children@, i as int, img@);
        assert(child_ok(nc, dir, img@));
        assert forall|x: int| 0 <= x < children@.len() implies {
            &&& child_ok(#[trigger] children@[x], dir, img@)
            &&& wf_children(children@[x].node.children@, children@[x].key.full_bytes(img@).push(SLASH), img@)
        } by {
            if x != i {
                assert(children@[x] == old_cs[x]);
            }
        }
        assert forall|r: Seq<u8>|
            #![trigger entry_in(children@, r, img@)]
            #![trigger copy_in(children@, r, img@)]
            #![trigger lookup(children@, r, img@)]
            (r != rest ==> entry_in(children@, r, img@) == entry_in(old_cs, r, img@)) && copy_in(children@, r, img@)
                == copy_in(old_cs, r, img@) && (lookup(children@, r, img@) is Some) == (lookup(old_cs, r, img@) is Some) by {
            if first_component(r) != name {
                lemma_lookup_update(old_cs, i as int, nc, r, img@);
            } else if rest_of_path(r) is Some {
                let rr = rest_of_path(r)->0;
                lemma_first_slash(r);
                assert(lookup(children@, r, img@) == lookup(nc.node.children@, rr, img@));
                assert(lookup(old_cs, r, img@) == lookup(c.node.children@, rr, img@));
                if end < path.len() {
                    lemma_rejoin(r);
                    lemma_rejoin(rest);
                    assert(entry_in(nc.node.children@, rr, img@) == entry_in(c.node.children@, rr, img@) || rr
                        == suffix(path@, end + 1));
                    assert(copy_in(nc.node.children@, rr, img@) == copy_in(c.node.children@, rr, img@));
                    assert((lookup(nc.node.children@, rr, img@) is Some) == (lookup(c.node.children@, rr, img@) is Some));
                }
            } else {
                lemma_single_component(r);
                if end == path.len() {
                    lemma_single_component(rest);
                }
            }
        }
    }
    proof {
        if owns_bytes(old_cs) {
            assert forall|x: int| 0 <= x < children@.len() implies {
                &&& (#[trigger] children@[x]).key.full_path is Owned
                &&& (children@[x].node.copy_source matches Some(c) ==> c is Owned)
                &&& owns_bytes(children@[x].node.children@)
            } by {
                if x != i {
                    assert(children@[x] == old_cs[x]);
                } else {
                    assert(old_cs[x].key.full_path is Owned);
                }
            }
        }
    }
    proof {
        let nc = children@[i as int];
        assert forall|r: Seq<u8>| key_borrowed_in(children@, r, img@) == key_borrowed_in(old_cs, r, img@) by {
            if first_component(r) != name {
                lemma_key_update(old_cs, i as int, nc, r, img@);
            } else if rest_of_path(r) is Some {
                let rr = rest_of_path(r)->0;
                lemma_first_slash(r);
                assert(key_borrowed_in(children@, r, img@) == key_borrowed_in(nc.node.children@, rr, img@));
                assert(key_borrowed_in(old_cs, r, img@) == key_borrowed_in(c.node.children@, rr, img@));
            }
        }
    }
}

/// Appends the nodes of the subtrees rooted at `cs` to `out`, depth first.
pub(crate) fn collect_nodes<'a>(cs: &'a Vec<ChildNode>, img: &'a [u8], out: &mut Vec<(&'a [u8], &'a Node)>, Ghost(dir): Ghost<Seq<u8>>)
    requires
        wf_children(cs@, dir, img@),
    ensures
        pairs_view(final(out)@) == pairs_view(old(out)@) + nodes_in(cs@, img@),
    decreases cs@,
{
    let ghost start = pairs_view(out@);
    let mut j: usize = 0;
    while j < cs.len()
        invariant
            j <= cs@.len(),
            wf_children(cs@, dir, img@),
            pairs_view(out@) == start + nodes_in(cs@.subrange(0, j as int), img@),
        decreases cs@.len() - j,
    {
        let child = &cs[j];
        assert(child_ok(cs@[j as int], dir, img@));
        proof {
            assert(decreases_to!(cs@ => cs@[j as int]));
        }
        collect_nodes(&child.node.children, img, out, Ghost(child.key.full_bytes(img@).push(SLASH)));
        let ghost mid = out@;
        out.push((child.key.full_path.as_bytes(img), &child.node));
        proof {
            assert(cs@.subrange(0, j + 1).subrange(0, j as int) =~= cs@.subrange(0, j as int));
            assert(pairs_view(out@) =~= pairs_view(mid) + seq![(child.key.full_bytes(img@), child.node)]);
            assert(pairs_view(out@) =~= start + nodes_in(cs@.subrange(0, j + 1), img@));
        }
        j = j + 1;
    }
    proof {
        assert(cs@.subrange(0, cs@.len() as int) =~= cs@);
    }
}

/// Whether `f` selects `e`.
pub(crate) fn entry_selected(f: EntryFilter, e: &DirstateEntry) -> (r: bool)
    ensures
        r == selects(f, *e),
{
    match f {
        EntryFilter::NonNormal => e.is_non_normal(),
        EntryFilter::OtherParent => e.is_from_other_parent(),
        EntryFilter::NonNormalOrOtherParent => e.is_non_normal() || e.is_from_other_parent(),
    }
}

/// Whether the first component of `r` names a child placed before `j`.
pub open spec fn reaches_before(cs: Seq<ChildNode>, r: Seq<u8>, j: int, img: Seq<u8>) -> bool {
    has_child(cs, first_component(r), img) && child_index(cs, first_component(r), img) < j
}

/// Clears, in every entry of the subtrees rooted at `children`, the
/// modification time if it equals `now`.
pub(crate) fn clear_ambiguous_everywhere(nodes: Vec<ChildNode>, img: &[u8], now: i32, Ghost(dir): Ghost<Seq<u8>>) -> (out: Vec<ChildNode>)
    requires
        wf_children(nodes@, dir, img@),
    ensures
        wf_children(out@, dir, img@),
        out@.len() == nodes@.len(),
        forall|r: Seq<u8>| entry_in(out@, r, img@) == cleared_entry(entry_in(nodes@, r, img@), now),
        forall|r: Seq<u8>| copy_in(out@, r, img@) == copy_in(nodes@, r, img@),
        forall|r: Seq<u8>| (lookup(out@, r, img@) is Some) == (lookup(nodes@, r, img@) is Some),
        count_in(out@, CountKind::Entries) == count_in(nodes@, CountKind::Entries),
        count_in(out@, CountKind::CopySources) == count_in(nodes@, CountKind::CopySources),
        count_in(out@, CountKind::TrackedFiles) == count_in(nodes@, CountKind::TrackedFiles),
        owns_bytes(nodes@) ==> owns_bytes(out@),
        forall|r: Seq<u8>| key_borrowed_in(out@, r, img@) == key_borrowed_in(nodes@, r, img@),
    decreases nodes@,
{
    let mut children = nodes;
    let ghost old_cs = children@;
    let mut j: usize = 0;
    while j < children.len()
        invariant
            j <= children@.len(),
            nodes@ == old_cs,
            children@.len() == old_cs.len(),
            wf_children(old_cs, dir, img@),
            wf_children(children@, dir, img@),
            forall|x: int| j <= x < old_cs.len() ==> children@[x] == old_cs[x],
            forall|x: int| 0 <= x < old_cs.len() ==> (#[trigger] children@[x]).key == old_cs[x].key,
            forall|r: Seq<u8>|
                entry_in(children@, r, img@) == if reaches_before(old_cs, r, j as int, img@) {
                    cleared_entry(entry_in(old_cs, r, img@), now)
                } else {
                    entry_in(old_cs, r, img@)
                },
            forall|r: Seq<u8>| copy_in(children@, r, img@) == copy_in(old_cs, r, img@),
            forall|r: Seq<u8>| (lookup(children@, r, img@) is Some) == (lookup(old_cs, r, img@) is Some),
            count_in(children@, CountKind::Entries) == count_in(old_cs, CountKind::Entries),
            count_in(children@, CountKind::CopySources) == count_in(old_cs, CountKind::CopySources),
            forall|r: Seq<u8>| key_borrowed_in(children@, r, img@) == key_borrowed_in(old_cs, r, img@),
            owns_bytes(old_cs) ==> owns_bytes(children@),
            count_in(children@, CountKind::TrackedFiles) == count_in(old_cs, CountKind::TrackedFiles),
        decreases old_cs.len() - j,
    {
        let ghost before = children@;
        let ghost c = old_cs[j as int];
        let ghost name = c.key.base_name(img@);
        let ghost cdir = c.key.full_bytes(img@).push(SLASH);
        proof {
            assert(before[j as int] == c);
            assert(child_ok(c, dir, img@));
            lemma_child_index(old_cs, j as int, img@);
            lemma_child_index(before, j as int, img@);
            assert(decreases_to!(old_cs => old_cs[j as int]));
            assert(decreases_to!(old_cs[j as int] => old_cs[j as int].node));
            assert(decreases_to!(old_cs[j as int].node => old_cs[j as int].node.children));
            assert(decreases_to!(old_cs[j as int].node.children => old_cs[j as int].node.children@));
        }
        let child = &mut children[j];
        let mut sub: Vec<ChildNode> = Vec::new();
        std::mem::swap(&mut child.node.children, &mut sub);
        proof {
            assert(sub@ == old_cs[j as int].node.children@);
            assert(decreases_to!(old_cs => sub@));
        }
        let mut cleared = clear_ambiguous_everywhere(sub, img, now, Ghost(cdir));
        std::mem::swap(&mut child.node.children, &mut cleared);
        match &mut child.node.entry {
            Some(e) => {
                e.clear_ambiguous_mtime(now);
            },
            None => {},
        }
        proof {
            let nc = children@[j as int];
            assert(children@ == before.update(j as int, nc));
            assert(nc.key == c.key);
            lemma_count_update(before, j as int, nc, CountKind::Entries);
            lemma_count_update(before, j as int, nc, CountKind::CopySources);
            lemma_count_update(before, j as int, nc, CountKind::TrackedFiles);
            assert(unique_names(children@, img@)) by {
                assert forall|x: int, y: int|
                    0 <= x < children@.len() && 0 <= y < children@.len() && x != y implies (
                    #[trigger] children@[x]).key.base_name(img@) != (
                    #[trigger] children@[y]).key.base_name(img@) by {
                    assert(before[x].key.base_name(img@) != before[y].key.base_name(img@));
                }
            }
            lemma_child_index(children@, j as int, img@);
            assert(child_ok(nc, dir, img@));
            assert forall|x: int| 0 <= x < children@.len() implies {
                &&& child_ok(#[trigger] children@[x], dir, img@)
                &&& wf_children(children@[x].node.children@, children@[x].key.full_bytes(img@).push(SLASH), img@)
            } by {
                if x != j {
                    assert(children@[x] == before[x]);
                }
            }
            assert forall|r: Seq<u8>|
                #![trigger entry_in(children@, r, img@)]
                #![trigger copy_in(children@, r, img@)]
                #![trigger lookup(children@, r, img@)]
                entry_in(children@, r, img@) == (if reaches_before(old_cs, r, j + 1, img@) {
                    cleared_entry(entry_in(old_cs, r, img@), now)
                } else {
                    entry_in(old_cs, r, img@)
                }) && copy_in(children@, r, img@) == copy_in(old_cs, r, img@) && (lookup(children@, r, img@) is Some)
                    == (lookup(old_cs, r, img@) is Some) by {
                if first_component(r) != name {
                    lemma_lookup_update(before, j as int, nc, r, img@);
                    assert(entry_in(children@, r, img@) == entry_in(before, r, img@));
                    assert(copy_in(children@, r, img@) == copy_in(before, r, img@));
                    assert(lookup(children@, r, img@) == lookup(before, r, img@));
                    if has_child(old_cs, first_component(r), img@) {
                        assert(child_index(old_cs, first_component(r), img@) != j);
                    }
                } else if rest_of_path(r) is Some {
                    let rr = rest_of_path(r)->0;
                    lemma_first_slash(r);
                    assert(lookup(children@, r, img@) == lookup(nc.node.children@, rr, img@));
                    assert(lookup(before, r, img@) == lookup(c.node.children@, rr, img@));
                    assert(lookup(old_cs, r, img@) == lookup(c.node.children@, rr, img@));
                    assert(entry_in(nc.node.children@, rr, img@) == cleared_entry(entry_in(c.node.children@, rr, img@), now));
                    assert(copy_in(nc.node.children@, rr, img@) == copy_in(c.node.children@, rr, img@));
                    assert((lookup(nc.node.children@, rr, img@) is Some) == (lookup(c.node.children@, rr, img@) is Some));
                } else {
                    assert(lookup(before, r, img@) == Some(c.node));
                }
            }
        }
        proof {
            if owns_bytes(old_cs) {
                let nc = children@[j as int];
                assert(before[j as int] == c);
                assert forall|x: int| 0 <= x < children@.len() implies {
                    &&& (#[trigger] children@[x]).key.full_path is Owned
                    &&& (children@[x].node.copy_source matches Some(cp) ==> cp is Owned)
                    &&& owns_bytes(children@[x].node.children@)
                } by {
                    if x != j {
                        assert(children@[x] == before[x]);
                    } else {
                        assert(old_cs[x].key.full_path is Owned);
                    }
                }
            }
        }
        proof {
            let nc = children@[j as int];
            assert forall|r: Seq<u8>| key_borrowed_in(children@, r, img@) == key_borrowed_in(old_cs, r, img@) by {
                assert(key_borrowed_in(before, r, img@) == key_borrowed_in(old_cs, r, img@));
                if first_component(r) != name {
                    lemma_key_update(before, j as int, nc, r, img@);
                } else {
                    lemma_child_index(before, j as int, img@);
                    lemma_child_index(children@, j as int, img@);
                    if rest_of_path(r) is Some {
                        let rr = rest_of_path(r)->0;
                        lemma_first_slash(r);
                        assert(key_borrowed_in(children@, r, img@) == key_borrowed_in(nc.node.children@, rr, img@));
                        assert(key_borrowed_in(before, r, img@) == key_borrowed_in(c.node.children@, rr, img@));
                    }
                }
            }
        }
        j = j + 1;
    }
    proof {
        assert forall|r: Seq<u8>| entry_in(children@, r, img@) == cleared_entry(entry_in(old_cs, r, img@), now) by {
            if !reaches_before(old_cs, r, children@.len() as int, img@) {
                if has_child(old_cs, first_component(r), img@) {
                    let k = child_index(old_cs, first_component(r), img@);
                    assert(0 <= k < old_cs.len());
                }
            }
        }
    }
    children
}

/// The name of the first component of a path names a node of its own.
proof fn lemma_single_component_of(name: Seq<u8>, r: Seq<u8>)
    requires
        name == first_component(r),
    ensures
        rest_of_path(name) is None,
        first_component(name) == name,
{
    lemma_first_slash(r);
    lemma_first_slash(name);
    assert forall|k: int| 0 <= k < name.len() implies name[k] != SLASH by {
        assert(name[k] == r[k]);
    }
    assert(first_component(name) =~= name);
}

} // verus!
