//! The nodes of the path tree and the mathematical model that the tree's
//! contracts are stated over: lookup by path, well-formedness, counts, and
//! the depth-first listing of nodes.
use vstd::prelude::*;

use crate::entry::DirstateEntry;
use crate::entry::EntryState;
use crate::path::SLASH;
use crate::path::first_component;
use crate::path::first_slash;
use crate::path::lemma_first_slash;
use crate::path::lemma_first_slash_concat;
use crate::path::rest_of_path;

verus! {

broadcast use vstd::seq::group_seq_axioms, vstd::std_specs::vec::group_vec_axioms;

/// Path bytes held by the tree: a range of the backing image, or bytes of
/// its own.
pub enum PathSlice {
    Borrowed { start: usize, end: usize },
    Owned(Vec<u8>),
}

impl PathSlice {
    pub open spec fn in_image(&self, img: Seq<u8>) -> bool {
        match self {
            PathSlice::Borrowed { start, end } => *start <= *end <= img.len(),
            PathSlice::Owned(_) => true,
        }
    }

    pub open spec fn bytes(&self, img: Seq<u8>) -> Seq<u8> {
        match self {
            PathSlice::Borrowed { start, end } => img.subrange(*start as int, *end as int),
            PathSlice::Owned(v) => v@,
        }
    }

    /// The bytes, read from `img` when they are borrowed from it.
    pub fn as_bytes<'a>(&'a self, img: &'a [u8]) -> (r: &'a [u8])
        requires
            self.in_image(img@),
        ensures
            r@ == self.bytes(img@),
    {
        match self {
            PathSlice::Borrowed { start, end } => &img[*start..*end],
            PathSlice::Owned(v) => v.as_slice(),
        }
    }

    /// A copy of the bytes that no longer depends on the image.
    pub fn to_owned_bytes(&self, img: &[u8]) -> (r: Vec<u8>)
        requires
            self.in_image(img@),
        ensures
            r@ == self.bytes(img@),
    {
        vstd::slice::slice_to_vec(self.as_bytes(img))
    }
}

/// A node key: the full path of the node together with the position where
/// its base name starts. Keys are compared by base name only.
pub struct WithBasename {
    pub full_path: PathSlice,
    pub base_name_start: usize,
}

impl WithBasename {
    pub open spec fn in_image(&self, img: Seq<u8>) -> bool {
        &&& self.full_path.in_image(img)
        &&& self.base_name_start <= self.full_path.bytes(img).len()
    }

    pub open spec fn full_bytes(&self, img: Seq<u8>) -> Seq<u8> {
        self.full_path.bytes(img)
    }

    pub open spec fn base_name(&self, img: Seq<u8>) -> Seq<u8> {
        let b = self.full_path.bytes(img);
        b.subrange(self.base_name_start as int, b.len() as int)
    }
}

/// A child of a node (or of the root) with the key it is stored under.
pub struct ChildNode {
    pub key: WithBasename,
    pub node: Node,
}

/// A file (when it has an entry), a directory inferred from its
/// descendants, or both.
pub struct Node {
    pub entry: Option<DirstateEntry>,
    pub copy_source: Option<PathSlice>,
    pub children: Vec<ChildNode>,
    /// How many strict descendants of this node are tracked files.
    pub tracked_descendants_count: u32,
}

/// Byte-wise lexicographic order: whether `a` comes before `b` or equals it.
pub open spec fn lex_le(a: Seq<u8>, b: Seq<u8>) -> bool
    decreases a.len(),
{
    if a.len() == 0 {
        true
    } else if b.len() == 0 {
        false
    } else if a[0] < b[0] {
        true
    } else if a[0] > b[0] {
        false
    } else {
        lex_le(a.drop_first(), b.drop_first())
    }
}

pub proof fn lemma_lex_total(a: Seq<u8>, b: Seq<u8>)
    ensures
        lex_le(a, b) || lex_le(b, a),
    decreases a.len(),
{
    if a.len() > 0 && b.len() > 0 && a[0] == b[0] {
        lemma_lex_total(a.drop_first(), b.drop_first());
    }
}

pub proof fn lemma_lex_trans(a: Seq<u8>, b: Seq<u8>, c: Seq<u8>)
    requires
        lex_le(a, b),
        lex_le(b, c),
    ensures
        lex_le(a, c),
    decreases a.len(),
{
    if a.len() > 0 && b.len() > 0 && c.len() > 0 && a[0] == b[0] && b[0] == c[0] {
        lemma_lex_trans(a.drop_first(), b.drop_first(), c.drop_first());
    }
}

/// Whether `a` comes before `b` or equals it, byte-wise.
pub fn bytes_le(a: &[u8], b: &[u8]) -> (r: bool)
    ensures
        r == lex_le(a@, b@),
{
    let mut i: usize = 0;
    proof {
        assert(a@.subrange(0, a@.len() as int) =~= a@);
        assert(b@.subrange(0, b@.len() as int) =~= b@);
    }
    while i < a.len() && i < b.len()
        invariant
            i <= a@.len(),
            i <= b@.len(),
            lex_le(a@, b@) == lex_le(a@.subrange(i as int, a@.len() as int), b@.subrange(i as int, b@.len() as int)),
        decreases a@.len() - i,
    {
        let ghost sa = a@.subrange(i as int, a@.len() as int);
        let ghost sb = b@.subrange(i as int, b@.len() as int);
        if a[i] < b[i] {
            assert(sa[0] == a@[i as int] && sb[0] == b@[i as int]);
            return true;
        }
        if a[i] > b[i] {
            assert(sa[0] == a@[i as int] && sb[0] == b@[i as int]);
            return false;
        }
        proof {
            assert(sa[0] == sb[0]);
            assert(sa.drop_first() =~= a@.subrange(i + 1, a@.len() as int));
            assert(sb.drop_first() =~= b@.subrange(i + 1, b@.len() as int));
        }
        i = i + 1;
    }
    i == a.len()
}

/// The full path of a child.
pub open spec fn full_path_of(c: &ChildNode, img: Seq<u8>) -> Seq<u8> {
    c.key.full_bytes(img)
}

/// What a list of borrowed children holds.
pub open spec fn children_view(v: Seq<&ChildNode>) -> Seq<ChildNode> {
    v.map_values(|c: &ChildNode| *c)
}

impl Node {
    /// The children `nodes`, in byte-wise order of their full paths.
    pub fn sorted<'t>(nodes: &'t Vec<ChildNode>, img: &[u8]) -> (r: Vec<&'t ChildNode>)
        requires
            forall|i: int| 0 <= i < nodes@.len() ==> (#[trigger] nodes@[i]).key.in_image(img@),
        ensures
            children_view(r@).to_multiset() == nodes@.to_multiset(),
            forall|i: int, j: int|
                0 <= i < j < r@.len() ==> lex_le(full_path_of(r@[i], img@), full_path_of(r@[j], img@)),
    {
        let mut r: Vec<&'t ChildNode> = Vec::new();
        let mut i: usize = 0;
        proof {
            assert(children_view(r@) =~= nodes@.subrange(0, 0));
        }
        while i < nodes.len()
            invariant
                i <= nodes@.len(),
                forall|k: int| 0 <= k < nodes@.len() ==> (#[trigger] nodes@[k]).key.in_image(img@),
                forall|k: int| 0 <= k < r@.len() ==> (#[trigger] r@[k]).key.in_image(img@),
                children_view(r@).to_multiset() == nodes@.subrange(0, i as int).to_multiset(),
                forall|x: int, y: int|
                    0 <= x < y < r@.len() ==> lex_le(full_path_of(r@[x], img@), full_path_of(r@[y], img@)),
            decreases nodes@.len() - i,
        {
            let c = &nodes[i];
            let key = c.key.full_path.as_bytes(img);
            let mut p: usize = 0;
            while p < r.len() && bytes_le(r[p].key.full_path.as_bytes(img), key)
                invariant
                    p <= r@.len(),
                    key@ == full_path_of(c, img@),
                    forall|k: int| 0 <= k < r@.len() ==> (#[trigger] r@[k]).key.in_image(img@),
                    forall|k: int| 0 <= k < p ==> lex_le(full_path_of(#[trigger] r@[k], img@), key@),
                decreases r@.len() - p,
            {
                p = p + 1;
            }
            let ghost old_r = r@;
            proof {
                if p < old_r.len() {
                    lemma_lex_total(full_path_of(old_r[p as int], img@), key@);
                }
            }
            r.insert(p, c);
            proof {
                assert forall|x: int, y: int|
                    0 <= x < y < r@.len() implies lex_le(full_path_of(r@[x], img@), full_path_of(r@[y], img@)) by {
                    if y < p {
                    } else if y == p {
                        assert(r@[x] == old_r[x]);
                    } else if x == p {
                        assert(r@[y] == old_r[y - 1]);
                        if y - 1 > p {
                            lemma_lex_trans(key@, full_path_of(old_r[p as int], img@), full_path_of(old_r[y - 1], img@));
                        }
                    } else if x < p {
                        assert(r@[x] == old_r[x] && r@[y] == old_r[y - 1]);
                    } else {
                        assert(r@[x] == old_r[x - 1] && r@[y] == old_r[y - 1]);
                    }
                }
                assert(children_view(r@) =~= children_view(old_r).insert(p as int, *c));
                assert(nodes@.subrange(0, i + 1) =~= nodes@.subrange(0, i as int).push(*c));
                vstd::seq_lib::to_multiset_insert(children_view(old_r), p as int, *c);
                vstd::seq_lib::to_multiset_build(nodes@.subrange(0, i as int), *c);
            }
            i = i + 1;
        }
        proof {
            assert(nodes@.subrange(0, nodes@.len() as int) =~= nodes@);
        }
        r
    }

    /// The state of the node's entry, if it has one.
    pub fn state(&self) -> (r: Option<EntryState>)
        ensures
            r == (match self.entry {
                Some(e) => Some(e.state),
                None => None,
            }),
    {
        match self.entry {
            Some(e) => Some(e.state),
            None => None,
        }
    }
}

/// Which nodes a count is about.
pub enum CountKind {
    Entries,
    CopySources,
    TrackedFiles,
}

/// Whether a node is counted by `k`.
pub open spec fn counted(n: Node, k: CountKind) -> nat {
    match k {
        CountKind::Entries => if n.entry is Some { 1 } else { 0 },
        CountKind::CopySources => if n.copy_source is Some { 1 } else { 0 },
        CountKind::TrackedFiles => if n.entry is Some && n.entry->0.spec_is_tracked() { 1 } else { 0 },
    }
}

/// Number of nodes counted by `k` in the subtrees rooted at `cs`.
pub open spec fn count_in(cs: Seq<ChildNode>, k: CountKind) -> nat
    decreases cs,
{
    if cs.len() == 0 {
        0
    } else {
        let c = cs[cs.len() - 1];
        count_in(cs.subrange(0, cs.len() - 1), k) + counted(c.node, k) + count_in(c.node.children@, k)
    }
}

/// A node with no entry, no copy source and no children.
pub open spec fn is_empty_node(n: Node) -> bool {
    n.entry is None && n.copy_source is None && n.children@.len() == 0
}

/// Whether some child in `cs` has base name `name`.
pub open spec fn has_child(cs: Seq<ChildNode>, name: Seq<u8>, img: Seq<u8>) -> bool {
    exists|i: int| 0 <= i < cs.len() && (#[trigger] cs[i]).key.base_name(img) == name
}

/// Position of the child with base name `name`.
pub open spec fn child_index(cs: Seq<ChildNode>, name: Seq<u8>, img: Seq<u8>) -> int {
    choose|i: int| 0 <= i < cs.len() && (#[trigger] cs[i]).key.base_name(img) == name
}

/// Base names of distinct children differ.
pub open spec fn unique_names(cs: Seq<ChildNode>, img: Seq<u8>) -> bool {
    forall|i: int, j: int|
        0 <= i < cs.len() && 0 <= j < cs.len() && i != j ==> (#[trigger] cs[i]).key.base_name(img)
            != (#[trigger] cs[j]).key.base_name(img)
}

/// The node reached from `cs` by following the components of `r`.
pub open spec fn lookup(cs: Seq<ChildNode>, r: Seq<u8>, img: Seq<u8>) -> Option<Node>
    decreases r.len(),
{
    let name = first_component(r);
    if has_child(cs, name, img) {
        let c = cs[child_index(cs, name, img)];
        match rest_of_path(r) {
            None => Some(c.node),
            Some(rest) => if rest.len() < r.len() {
                lookup(c.node.children@, rest, img)
            } else {
                None
            },
        }
    } else {
        None
    }
}

/// Conditions on one child whose parent's full path, followed by `/`, is
/// `dir` (empty at the root).
pub open spec fn child_ok(c: ChildNode, dir: Seq<u8>, img: Seq<u8>) -> bool {
    let full = c.key.full_bytes(img);
    &&& c.key.in_image(img)
    &&& c.key.base_name_start == dir.len()
    &&& full.subrange(0, dir.len() as int) == dir
    &&& forall|k: int| 0 <= k < c.key.base_name(img).len() ==> c.key.base_name(img)[k] != SLASH
    &&& c.node.copy_source matches Some(s) ==> s.in_image(img)
    &&& c.node.tracked_descendants_count == count_in(c.node.children@, CountKind::TrackedFiles)
    &&& !is_empty_node(c.node)
}

/// Well-formedness of the subtrees rooted at `cs` under `dir`.
pub open spec fn wf_children(cs: Seq<ChildNode>, dir: Seq<u8>, img: Seq<u8>) -> bool
    decreases cs,
{
    &&& unique_names(cs, img)
    &&& forall|i: int|
        0 <= i < cs.len() ==> {
            &&& child_ok(#[trigger] cs[i], dir, img)
            &&& wf_children(cs[i].node.children@, cs[i].key.full_bytes(img).push(SLASH), img)
        }
}

pub proof fn lemma_count_concat(a: Seq<ChildNode>, b: Seq<ChildNode>, k: CountKind)
    ensures
        count_in(a + b, k) == count_in(a, k) + count_in(b, k),
    decreases b.len(),
{
    if b.len() == 0 {
        assert(a + b =~= a);
    } else {
        let bl = b.subrange(0, b.len() - 1);
        lemma_count_concat(a, bl, k);
        assert((a + b).subrange(0, (a + b).len() - 1) =~= a + bl);
    }
}

pub proof fn lemma_count_single(c: ChildNode, k: CountKind)
    ensures
        count_in(seq![c], k) == counted(c.node, k) + count_in(c.node.children@, k),
{
    assert(seq![c].subrange(0, 0) =~= Seq::<ChildNode>::empty());
    assert(count_in(Seq::<ChildNode>::empty(), k) == 0);
}

/// Count after replacing the child at `i`.
pub proof fn lemma_count_update(cs: Seq<ChildNode>, i: int, c: ChildNode, k: CountKind)
    requires
        0 <= i < cs.len(),
    ensures
        count_in(cs.update(i, c), k) + counted(cs[i].node, k) + count_in(cs[i].node.children@, k)
            == count_in(cs, k) + counted(c.node, k) + count_in(c.node.children@, k),
{
    let pre = cs.subrange(0, i);
    let post = cs.subrange(i + 1, cs.len() as int);
    assert(cs =~= pre + seq![cs[i]] + post);
    assert(cs.update(i, c) =~= pre + seq![c] + post);
    lemma_count_concat(pre + seq![cs[i]], post, k);
    lemma_count_concat(pre, seq![cs[i]], k);
    lemma_count_concat(pre + seq![c], post, k);
    lemma_count_concat(pre, seq![c], k);
    lemma_count_single(cs[i], k);
    lemma_count_single(c, k);
}

/// Count after appending a child.
pub proof fn lemma_count_push(cs: Seq<ChildNode>, c: ChildNode, k: CountKind)
    ensures
        count_in(cs.push(c), k) == count_in(cs, k) + counted(c.node, k) + count_in(c.node.children@, k),
{
    assert(cs.push(c) =~= cs + seq![c]);
    lemma_count_concat(cs, seq![c], k);
    lemma_count_single(c, k);
}

/// Count after removing the child at `i`.
pub proof fn lemma_count_remove(cs: Seq<ChildNode>, i: int, k: CountKind)
    requires
        0 <= i < cs.len(),
    ensures
        count_in(cs.remove(i), k) + counted(cs[i].node, k) + count_in(cs[i].node.children@, k)
            == count_in(cs, k),
{
    let pre = cs.subrange(0, i);
    let post = cs.subrange(i + 1, cs.len() as int);
    assert(cs =~= pre + seq![cs[i]] + post);
    assert(cs.remove(i) =~= pre + post);
    lemma_count_concat(pre + seq![cs[i]], post, k);
    lemma_count_concat(pre, seq![cs[i]], k);
    lemma_count_concat(pre, post, k);
    lemma_count_single(cs[i], k);
}

/// Tracked files are files with an entry.
pub proof fn lemma_tracked_le_entries(cs: Seq<ChildNode>)
    ensures
        count_in(cs, CountKind::TrackedFiles) <= count_in(cs, CountKind::Entries),
    decreases cs,
{
    if cs.len() > 0 {
        let c = cs[cs.len() - 1];
        lemma_tracked_le_entries(cs.subrange(0, cs.len() - 1));
        lemma_tracked_le_entries(c.node.children@);
    }
}

/// A file with an untracked entry makes the entries outnumber the tracked
/// files.
pub proof fn lemma_untracked_entry_counted(cs: Seq<ChildNode>, r: Seq<u8>, img: Seq<u8>)
    requires
        entry_in(cs, r, img) is Some,
        !entry_in(cs, r, img)->0.spec_is_tracked(),
    ensures
        count_in(cs, CountKind::TrackedFiles) + 1 <= count_in(cs, CountKind::Entries),
    decreases r.len(),
{
    let i = child_index(cs, first_component(r), img);
    let c = cs[i];
    lemma_count_remove(cs, i, CountKind::TrackedFiles);
    lemma_count_remove(cs, i, CountKind::Entries);
    lemma_tracked_le_entries(cs.remove(i));
    lemma_tracked_le_entries(c.node.children@);
    if let Some(rest) = rest_of_path(r) {
        lemma_first_slash(r);
        lemma_untracked_entry_counted(c.node.children@, rest, img);
    }
}

/// A child's subtree counts no more than the whole.
pub proof fn lemma_count_child_le(cs: Seq<ChildNode>, i: int, k: CountKind)
    requires
        0 <= i < cs.len(),
    ensures
        counted(cs[i].node, k) + count_in(cs[i].node.children@, k) <= count_in(cs, k),
{
    lemma_count_remove(cs, i, k);
}

/// Whether `a` and `b` hold the same bytes.
pub fn bytes_eq(a: &[u8], b: &[u8]) -> (r: bool)
    ensures
        r == (a@ == b@),
{
    if a.len() != b.len() {
        return false;
    }
    let mut i: usize = 0;
    while i < a.len()
        invariant
            a@.len() == b@.len(),
            i <= a@.len(),
            forall|k: int| 0 <= k < i ==> a@[k] == b@[k],
        decreases a@.len() - i,
    {
        if a[i] != b[i] {
            return false;
        }
        i = i + 1;
    }
    assert(a@ =~= b@);
    true
}

/// Position of the child of `cs` whose base name is `path[start..end]`.
pub fn find_child(cs: &Vec<ChildNode>, img: &[u8], path: &[u8], start: usize, end: usize) -> (r: Option<usize>)
    requires
        start <= end <= path@.len(),
        forall|i: int| 0 <= i < cs@.len() ==> (#[trigger] cs@[i]).key.in_image(img@),
    ensures
        match r {
            Some(i) => i < cs@.len() && cs@[i as int].key.base_name(img@) == path@.subrange(start as int, end as int),
            None => !has_child(cs@, path@.subrange(start as int, end as int), img@),
        },
{
    let name = &path[start..end];
    let mut i: usize = 0;
    while i < cs.len()
        invariant
            i <= cs@.len(),
            name@ == path@.subrange(start as int, end as int),
            forall|i: int| 0 <= i < cs@.len() ==> (#[trigger] cs@[i]).key.in_image(img@),
            forall|j: int| 0 <= j < i ==> (#[trigger] cs@[j]).key.base_name(img@) != name@,
        decreases cs@.len() - i,
    {
        let key = &cs[i].key;
        let full = key.full_path.as_bytes(img);
        let base = &full[key.base_name_start..full.len()];
        if bytes_eq(base, name) {
            return Some(i);
        }
        i = i + 1;
    }
    None
}

/// The entry of the node reached by `r`, if any.
pub open spec fn entry_in(cs: Seq<ChildNode>, r: Seq<u8>, img: Seq<u8>) -> Option<DirstateEntry> {
    match lookup(cs, r, img) {
        Some(n) => n.entry,
        None => None,
    }
}

/// The copy source of the node reached by `r`, if any.
pub open spec fn copy_in(cs: Seq<ChildNode>, r: Seq<u8>, img: Seq<u8>) -> Option<PathSlice> {
    match lookup(cs, r, img) {
        Some(n) => n.copy_source,
        None => None,
    }
}

/// In a well-formed child list the child found by name is the one at `i`.
pub proof fn lemma_child_index(cs: Seq<ChildNode>, i: int, img: Seq<u8>)
    requires
        unique_names(cs, img),
        0 <= i < cs.len(),
    ensures
        has_child(cs, cs[i].key.base_name(img), img),
        child_index(cs, cs[i].key.base_name(img), img) == i,
{
    assert(cs[i].key.base_name(img) == cs[i].key.base_name(img));
}

/// How `path[start..]` splits at its first `/`, seen from `path`.
pub proof fn lemma_split_at(path: Seq<u8>, start: int, end: int)
    requires
        0 <= start <= end <= path.len(),
        end - start == first_slash(path.subrange(start, path.len() as int)),
    ensures
        first_component(path.subrange(start, path.len() as int)) == path.subrange(start, end),
        end == path.len() ==> rest_of_path(path.subrange(start, path.len() as int)) is None,
        end < path.len() ==> rest_of_path(path.subrange(start, path.len() as int)) == Some(
            path.subrange(end + 1, path.len() as int),
        ),
{
    let rest = path.subrange(start, path.len() as int);
    lemma_first_slash(rest);
    assert(first_component(rest) =~= path.subrange(start, end));
    if end < path.len() {
        assert(rest.subrange(end - start + 1, rest.len() as int) =~= path.subrange(end + 1, path.len() as int));
    }
}

/// A path without `/` is its own first component.
pub proof fn lemma_single_component(r: Seq<u8>)
    requires
        rest_of_path(r) is None,
    ensures
        r == first_component(r),
{
    lemma_first_slash(r);
    assert(r =~= first_component(r));
}

/// A path is its first component, a `/`, and the rest.
pub proof fn lemma_rejoin(r: Seq<u8>)
    requires
        rest_of_path(r) is Some,
    ensures
        r == first_component(r).push(SLASH) + rest_of_path(r)->0,
{
    lemma_first_slash(r);
    assert(r =~= first_component(r).push(SLASH) + rest_of_path(r)->0);
}

/// The part of `path` from `start` on.
pub open spec fn suffix(path: Seq<u8>, start: int) -> Seq<u8> {
    path.subrange(start, path.len() as int)
}

/// Whether an entry is present and tracked.
pub open spec fn tracked_of(e: Option<DirstateEntry>) -> bool {
    e is Some && e->0.spec_is_tracked()
}

/// `new` where it is given, else `old`.
pub open spec fn replaced<T>(old: Option<T>, new: Option<T>) -> Option<T> {
    if new is Some {
        new
    } else {
        old
    }
}

/// Lookups through other names are not affected by replacing child `i`.
pub proof fn lemma_lookup_update(cs: Seq<ChildNode>, i: int, c: ChildNode, r: Seq<u8>, img: Seq<u8>)
    requires
        0 <= i < cs.len(),
        unique_names(cs, img),
        c.key.base_name(img) == cs[i].key.base_name(img),
        first_component(r) != cs[i].key.base_name(img),
    ensures
        lookup(cs.update(i, c), r, img) == lookup(cs, r, img),
{
    let m = first_component(r);
    let ns = cs.update(i, c);
    if has_child(cs, m, img) {
        let j = child_index(cs, m, img);
        assert(ns[j] == cs[j]);
        assert(unique_names(ns, img));
        lemma_child_index(ns, j, img);
        lemma_child_index(cs, j, img);
    }
    if has_child(ns, m, img) {
        let j = child_index(ns, m, img);
        assert(ns[j] == cs[j]);
    }
}

/// Lookups through other names are not affected by appending a child.
pub proof fn lemma_lookup_push(cs: Seq<ChildNode>, c: ChildNode, r: Seq<u8>, img: Seq<u8>)
    requires
        unique_names(cs.push(c), img),
        first_component(r) != c.key.base_name(img),
    ensures
        lookup(cs.push(c), r, img) == lookup(cs, r, img),
{
    let m = first_component(r);
    let ns = cs.push(c);
    assert(unique_names(cs, img)) by {
        assert forall|i: int, j: int|
            0 <= i < cs.len() && 0 <= j < cs.len() && i != j implies (#[trigger] cs[i]).key.base_name(img)
            != (#[trigger] cs[j]).key.base_name(img) by {
            assert(ns[i] == cs[i] && ns[j] == cs[j]);
        }
    }
    if has_child(cs, m, img) {
        let j = child_index(cs, m, img);
        assert(ns[j] == cs[j]);
        lemma_child_index(ns, j, img);
        lemma_child_index(cs, j, img);
    }
    if has_child(ns, m, img) {
        let j = child_index(ns, m, img);
        assert(j < cs.len());
        assert(ns[j] == cs[j]);
    }
}

/// Lookups through other names are not affected by removing child `i`;
/// lookups through its name find nothing.
pub proof fn lemma_lookup_remove(cs: Seq<ChildNode>, i: int, r: Seq<u8>, img: Seq<u8>)
    requires
        0 <= i < cs.len(),
        unique_names(cs, img),
    ensures
        first_component(r) != cs[i].key.base_name(img) ==> lookup(cs.remove(i), r, img) == lookup(cs, r, img),
        first_component(r) == cs[i].key.base_name(img) ==> lookup(cs.remove(i), r, img) is None,
        unique_names(cs.remove(i), img),
{
    let m = first_component(r);
    let ns = cs.remove(i);
    assert forall|x: int, y: int|
        0 <= x < ns.len() && 0 <= y < ns.len() && x != y implies (#[trigger] ns[x]).key.base_name(img)
        != (#[trigger] ns[y]).key.base_name(img) by {
        let ox = if x < i { x } else { x + 1 };
        let oy = if y < i { y } else { y + 1 };
        assert(ns[x] == cs[ox] && ns[y] == cs[oy]);
    }
    if has_child(ns, m, img) {
        let j = child_index(ns, m, img);
        let oj = if j < i { j } else { j + 1 };
        assert(ns[j] == cs[oj]);
        lemma_child_index(cs, oj, img);
        lemma_child_index(ns, j, img);
    }
    if m != cs[i].key.base_name(img) && has_child(cs, m, img) {
        let j = child_index(cs, m, img);
        let nj = if j < i { j } else { j - 1 };
        assert(ns[nj] == cs[j]);
        lemma_child_index(cs, j, img);
        lemma_child_index(ns, nj, img);
    }
}

/// The entry with its modification time cleared if it equals `now`.
pub open spec fn cleared_entry(e: Option<DirstateEntry>, now: i32) -> Option<DirstateEntry> {
    match e {
        Some(x) => Some(x.spec_cleared_if_ambiguous(now)),
        None => None,
    }
}

/// The nodes of the subtrees rooted at `cs` with their full paths, depth
/// first: the children of a node, in their stored order, come before it.
pub open spec fn nodes_in(cs: Seq<ChildNode>, img: Seq<u8>) -> Seq<(Seq<u8>, Node)>
    decreases cs,
{
    if cs.len() == 0 {
        Seq::empty()
    } else {
        let c = cs[cs.len() - 1];
        nodes_in(cs.subrange(0, cs.len() - 1), img) + nodes_in(c.node.children@, img) + seq![
            (c.key.full_bytes(img), c.node),
        ]
    }
}

/// What a list of borrowed `(path, node)` pairs holds.
pub open spec fn pairs_view(v: Seq<(&[u8], &Node)>) -> Seq<(Seq<u8>, Node)> {
    v.map_values(|x: (&[u8], &Node)| (x.0@, *x.1))
}

/// The files among `ns`, with their entries, in the same order.
pub open spec fn entries_of(ns: Seq<(Seq<u8>, Node)>) -> Seq<(Seq<u8>, DirstateEntry)>
    decreases ns.len(),
{
    if ns.len() == 0 {
        Seq::empty()
    } else {
        let x = ns[ns.len() - 1];
        entries_of(ns.subrange(0, ns.len() - 1)) + match x.1.entry {
            Some(e) => seq![(x.0, e)],
            None => Seq::empty(),
        }
    }
}

/// The nodes among `ns` that have a copy source, with its bytes.
pub open spec fn copies_of(ns: Seq<(Seq<u8>, Node)>, img: Seq<u8>) -> Seq<(Seq<u8>, Seq<u8>)>
    decreases ns.len(),
{
    if ns.len() == 0 {
        Seq::empty()
    } else {
        let x = ns[ns.len() - 1];
        copies_of(ns.subrange(0, ns.len() - 1), img) + match x.1.copy_source {
            Some(src) => seq![(x.0, src.bytes(img))],
            None => Seq::empty(),
        }
    }
}

/// Which entries a path listing selects.
#[derive(Clone, Copy, Debug, PartialEq, Eq, Structural)]
pub enum EntryFilter {
    NonNormal,
    OtherParent,
    NonNormalOrOtherParent,
}

pub open spec fn selects(f: EntryFilter, e: DirstateEntry) -> bool {
    match f {
        EntryFilter::NonNormal => e.spec_is_non_normal(),
        EntryFilter::OtherParent => e.spec_is_from_other_parent(),
        EntryFilter::NonNormalOrOtherParent => e.spec_is_non_normal() || e.spec_is_from_other_parent(),
    }
}

/// The paths among `ns` whose entry `f` selects, in the same order.
pub open spec fn paths_where(ns: Seq<(Seq<u8>, Node)>, f: EntryFilter) -> Seq<Seq<u8>>
    decreases ns.len(),
{
    if ns.len() == 0 {
        Seq::empty()
    } else {
        let x = ns[ns.len() - 1];
        paths_where(ns.subrange(0, ns.len() - 1), f) + match x.1.entry {
            Some(e) => if selects(f, e) {
                seq![x.0]
            } else {
                Seq::empty()
            },
            None => Seq::empty(),
        }
    }
}

/// Copy sources of the nodes listed by `nodes_in` lie in the image.
pub proof fn lemma_nodes_in_wf(cs: Seq<ChildNode>, dir: Seq<u8>, img: Seq<u8>, i: int)
    requires
        wf_children(cs, dir, img),
        0 <= i < nodes_in(cs, img).len(),
    ensures
        nodes_in(cs, img)[i].1.copy_source matches Some(s) ==> s.in_image(img),
    decreases cs,
{
    let c = cs[cs.len() - 1];
    let pre = cs.subrange(0, cs.len() - 1);
    let a = nodes_in(pre, img);
    let b = nodes_in(c.node.children@, img);
    assert(child_ok(c, dir, img));
    assert(wf_children(pre, dir, img)) by {
        assert forall|x: int| 0 <= x < pre.len() implies {
            &&& child_ok(#[trigger] pre[x], dir, img)
            &&& wf_children(pre[x].node.children@, pre[x].key.full_bytes(img).push(SLASH), img)
        } by {
            assert(pre[x] == cs[x]);
        }
        assert forall|x: int, y: int|
            0 <= x < pre.len() && 0 <= y < pre.len() && x != y implies (#[trigger] pre[x]).key.base_name(img)
            != (#[trigger] pre[y]).key.base_name(img) by {
            assert(pre[x] == cs[x] && pre[y] == cs[y]);
        }
    }
    if i < a.len() {
        lemma_nodes_in_wf(pre, dir, img, i);
    } else if i < a.len() + b.len() {
        lemma_nodes_in_wf(c.node.children@, c.key.full_bytes(img).push(SLASH), img, i - a.len());
    }
}

/// What a well-formed tree promises of every node that a lookup reaches.
pub proof fn lemma_lookup_wf(cs: Seq<ChildNode>, r: Seq<u8>, dir: Seq<u8>, img: Seq<u8>)
    requires
        wf_children(cs, dir, img),
    ensures
        lookup(cs, r, img) matches Some(n) ==> {
            &&& n.copy_source matches Some(s) ==> s.in_image(img)
            &&& n.tracked_descendants_count == count_in(n.children@, CountKind::TrackedFiles)
            &&& !is_empty_node(n)
        },
    decreases r.len(),
{
    let name = first_component(r);
    if has_child(cs, name, img) {
        let i = child_index(cs, name, img);
        let c = cs[i];
        assert(child_ok(c, dir, img));
        if let Some(rest) = rest_of_path(r) {
            lemma_first_slash(r);
            lemma_lookup_wf(c.node.children@, rest, c.key.full_bytes(img).push(SLASH), img);
        }
    }
}

/// Following `p`, a `/`, then `t` is following `p`, then `t` among the
/// children of the node reached.
pub proof fn lemma_lookup_extend(cs: Seq<ChildNode>, p: Seq<u8>, t: Seq<u8>, img: Seq<u8>)
    ensures
        lookup(cs, p.push(SLASH) + t, img) == match lookup(cs, p, img) {
            Some(n) => lookup(n.children@, t, img),
            None => None,
        },
    decreases p.len(),
{
    let q = p.push(SLASH) + t;
    lemma_first_slash(p);
    lemma_first_slash(q);
    lemma_first_slash_concat(p, t);
    assert(first_component(q) =~= first_component(p));
    if first_slash(p) < p.len() {
        let pr = rest_of_path(p)->0;
        assert(rest_of_path(q)->0 =~= pr.push(SLASH) + t);
        if has_child(cs, first_component(p), img) {
            let c = cs[child_index(cs, first_component(p), img)];
            lemma_lookup_extend(c.node.children@, pr, t, img);
        }
    } else {
        assert(rest_of_path(q)->0 =~= t);
    }
}

/// Whether `q` names a path strictly below `p`.
pub open spec fn strictly_below(q: Seq<u8>, p: Seq<u8>) -> bool {
    q.len() > p.len() && q.subrange(0, p.len() as int) == p && q[p.len() as int] == SLASH
}

/// A path strictly below `p` is `p`, a `/`, and the rest.
pub proof fn lemma_split_below(q: Seq<u8>, p: Seq<u8>)
    requires
        strictly_below(q, p),
    ensures
        q == p.push(SLASH) + q.subrange(p.len() as int + 1, q.len() as int),
{
    assert(q =~= p.push(SLASH) + q.subrange(p.len() as int + 1, q.len() as int));
}

/// In a well-formed child list, a child's base name leads to that child.
pub proof fn lemma_lookup_child(cs: Seq<ChildNode>, i: int, dir: Seq<u8>, img: Seq<u8>)
    requires
        wf_children(cs, dir, img),
        0 <= i < cs.len(),
    ensures
        lookup(cs, cs[i].key.base_name(img), img) == Some(cs[i].node),
{
    let b = cs[i].key.base_name(img);
    assert(child_ok(cs[i], dir, img));
    lemma_first_slash(b);
    if first_slash(b) < b.len() {
        assert(b[first_slash(b)] != SLASH);
    }
    assert(first_component(b) =~= b);
    lemma_child_index(cs, i, img);
}

/// The tracked files below a list of children are counted exactly when one
/// of them is reached by some path.
pub proof fn lemma_tracked_count_positive(cs: Seq<ChildNode>, dir: Seq<u8>, img: Seq<u8>)
    requires
        wf_children(cs, dir, img),
    ensures
        (count_in(cs, CountKind::TrackedFiles) > 0) == (exists|t: Seq<u8>| tracked_of(#[trigger] entry_in(cs, t, img))),
    decreases cs,
{
    if count_in(cs, CountKind::TrackedFiles) > 0 {
        let i = cs.len() - 1;
        let c = cs[i];
        let pre = cs.subrange(0, i);
        assert(wf_children(pre, dir, img)) by {
            assert forall|x: int| 0 <= x < pre.len() implies {
                &&& child_ok(#[trigger] pre[x], dir, img)
                &&& wf_children(pre[x].node.children@, pre[x].key.full_bytes(img).push(SLASH), img)
            } by {
                assert(pre[x] == cs[x]);
            }
            assert forall|x: int, y: int|
                0 <= x < pre.len() && 0 <= y < pre.len() && x != y implies (#[trigger] pre[x]).key.base_name(img)
                != (#[trigger] pre[y]).key.base_name(img) by {
                assert(pre[x] == cs[x] && pre[y] == cs[y]);
            }
        }
        let b = c.key.base_name(img);
        lemma_lookup_child(cs, i, dir, img);
        if counted(c.node, CountKind::TrackedFiles) > 0 {
            assert(tracked_of(entry_in(cs, b, img)));
        } else if count_in(c.node.children@, CountKind::TrackedFiles) > 0 {
            let cdir = c.key.full_bytes(img).push(SLASH);
            lemma_tracked_count_positive(c.node.children@, cdir, img);
            let t = choose|t: Seq<u8>| tracked_of(#[trigger] entry_in(c.node.children@, t, img));
            lemma_lookup_extend(cs, b, t, img);
            assert(tracked_of(entry_in(cs, b.push(SLASH) + t, img)));
        } else {
            lemma_tracked_count_positive(pre, dir, img);
            let t = choose|t: Seq<u8>| tracked_of(#[trigger] entry_in(pre, t, img));
            let m = first_component(t);
            let j = child_index(pre, m, img);
            assert(has_child(pre, m, img));
            assert(pre[j] == cs[j]);
            lemma_child_index(cs, j, img);
            lemma_child_index(pre, j, img);
            assert(entry_in(cs, t, img) == entry_in(pre, t, img));
        }
    }
    if exists|t: Seq<u8>| tracked_of(#[trigger] entry_in(cs, t, img)) {
        let t = choose|t: Seq<u8>| tracked_of(#[trigger] entry_in(cs, t, img));
        lemma_tracked_reached(cs, t, dir, img);
    }
}

/// A tracked file that a path reaches is counted.
pub proof fn lemma_tracked_reached(cs: Seq<ChildNode>, t: Seq<u8>, dir: Seq<u8>, img: Seq<u8>)
    requires
        wf_children(cs, dir, img),
        tracked_of(entry_in(cs, t, img)),
    ensures
        count_in(cs, CountKind::TrackedFiles) > 0,
    decreases t.len(),
{
    let m = first_component(t);
    let i = child_index(cs, m, img);
    let c = cs[i];
    lemma_count_child_le(cs, i, CountKind::TrackedFiles);
    if let Some(rest) = rest_of_path(t) {
        lemma_first_slash(t);
        lemma_tracked_reached(c.node.children@, rest, c.key.full_bytes(img).push(SLASH), img);
    }
}

/// The children of a node that a lookup reaches are well formed under some
/// parent path.
pub proof fn lemma_lookup_wf_dir(cs: Seq<ChildNode>, r: Seq<u8>, dir: Seq<u8>, img: Seq<u8>)
    requires
        wf_children(cs, dir, img),
    ensures
        lookup(cs, r, img) matches Some(n) ==> exists|d: Seq<u8>| wf_children(n.children@, d, img),
    decreases r.len(),
{
    let name = first_component(r);
    if has_child(cs, name, img) {
        let i = child_index(cs, name, img);
        let c = cs[i];
        let cdir = c.key.full_bytes(img).push(SLASH);
        assert(wf_children(c.node.children@, cdir, img));
        if let Some(rest) = rest_of_path(r) {
            lemma_first_slash(r);
            lemma_lookup_wf_dir(c.node.children@, rest, cdir, img);
        }
    }
}

/// The well-formedness of a child list carries over to its prefixes.
pub proof fn lemma_wf_prefix(cs: Seq<ChildNode>, dir: Seq<u8>, img: Seq<u8>, n: int)
    requires
        wf_children(cs, dir, img),
        0 <= n <= cs.len(),
    ensures
        wf_children(cs.subrange(0, n), dir, img),
{
    let pre = cs.subrange(0, n);
    assert forall|x: int| 0 <= x < pre.len() implies {
        &&& child_ok(#[trigger] pre[x], dir, img)
        &&& wf_children(pre[x].node.children@, pre[x].key.full_bytes(img).push(SLASH), img)
    } by {
        assert(pre[x] == cs[x]);
    }
    assert forall|x: int, y: int|
        0 <= x < pre.len() && 0 <= y < pre.len() && x != y implies (#[trigger] pre[x]).key.base_name(img)
        != (#[trigger] pre[y]).key.base_name(img) by {
        assert(pre[x] == cs[x] && pre[y] == cs[y]);
    }
}

/// The full path of a child is the parent's path, a `/`, and its base name.
pub proof fn lemma_full_path(c: ChildNode, dir: Seq<u8>, img: Seq<u8>)
    requires
        child_ok(c, dir, img),
    ensures
        c.key.full_bytes(img) == dir + c.key.base_name(img),
{
    assert(c.key.full_bytes(img) =~= dir + c.key.base_name(img));
}

/// A base name is its own first component.
pub proof fn lemma_base_name_component(c: ChildNode, dir: Seq<u8>, img: Seq<u8>, t: Seq<u8>)
    requires
        child_ok(c, dir, img),
    ensures
        first_component(c.key.base_name(img)) == c.key.base_name(img),
        rest_of_path(c.key.base_name(img)) is None,
        first_component(c.key.base_name(img).push(SLASH) + t) == c.key.base_name(img),
{
    let b = c.key.base_name(img);
    lemma_first_slash(b);
    if first_slash(b) < b.len() {
        assert(b[first_slash(b)] != SLASH);
    }
    assert(first_component(b) =~= b);
    lemma_first_slash_concat(b, t);
    assert(first_component(b.push(SLASH) + t) =~= b);
}

/// What follows `dir` in `f`.
pub open spec fn after_dir(f: Seq<u8>, dir: Seq<u8>) -> Seq<u8> {
    f.subrange(dir.len() as int, f.len() as int)
}

/// The depth-first listing holds, once each and under its full path, every
/// node that a lookup reaches, and nothing else.
#[verifier::rlimit(100)]
#[verifier::spinoff_prover]
pub proof fn lemma_nodes_in_lookup(cs: Seq<ChildNode>, dir: Seq<u8>, img: Seq<u8>)
    requires
        wf_children(cs, dir, img),
    ensures
        forall|k: int|
            0 <= k < nodes_in(cs, img).len() ==> {
                let f = (#[trigger] nodes_in(cs, img)[k]).0;
                &&& dir.len() <= f.len()
                &&& f.subrange(0, dir.len() as int) == dir
                &&& lookup(cs, after_dir(f, dir), img) == Some(nodes_in(cs, img)[k].1)
            },
        forall|k1: int, k2: int|
            0 <= k1 < nodes_in(cs, img).len() && 0 <= k2 < nodes_in(cs, img).len() && k1 != k2 ==> (
            #[trigger] nodes_in(cs, img)[k1]).0 != (#[trigger] nodes_in(cs, img)[k2]).0,
        forall|t: Seq<u8>|
            #[trigger] lookup(cs, t, img) is Some ==> exists|k: int|
                0 <= k < nodes_in(cs, img).len() && (#[trigger] nodes_in(cs, img)[k]) == (
                dir + t,
                lookup(cs, t, img)->0,
            ),
    decreases cs,
{
    let l = nodes_in(cs, img);
    if cs.len() == 0 {
        return ;
    }
    let i = cs.len() - 1;
    let c = cs[i];
    let pre = cs.subrange(0, i);
    let name = c.key.base_name(img);
    let full = c.key.full_bytes(img);
    let cdir = full.push(SLASH);
    lemma_wf_prefix(cs, dir, img, i);
    assert(child_ok(c, dir, img));
    assert(wf_children(c.node.children@, cdir, img));
    lemma_nodes_in_lookup(pre, dir, img);
    lemma_nodes_in_lookup(c.node.children@, cdir, img);
    lemma_full_path(c, dir, img);
    lemma_lookup_child(cs, i, dir, img);
    assert(cs =~= pre.push(c));
    let a = nodes_in(pre, img);
    let b = nodes_in(c.node.children@, img);
    assert(l == a + b + seq![(full, c.node)]);
    // Which first component the entries of each part start with.
    assert forall|k: int| 0 <= k < a.len() implies {
        let t = after_dir((#[trigger] a[k]).0, dir);
        &&& has_child(pre, first_component(t), img)
        &&& first_component(t) != name
        &&& lookup(cs, t, img) == lookup(pre, t, img)
    } by {
        let t = after_dir(a[k].0, dir);
        let m = first_component(t);
        assert(lookup(pre, t, img) is Some);
        let j = child_index(pre, m, img);
        assert(pre[j] == cs[j]);
        assert(cs[j].key.base_name(img) != cs[i].key.base_name(img));
        lemma_lookup_push(pre, c, t, img);
    }
    assert forall|k: int| 0 <= k < b.len() implies {
        let t = after_dir((#[trigger] b[k]).0, cdir);
        &&& after_dir(b[k].0, dir) == name.push(SLASH) + t
        &&& first_component(after_dir(b[k].0, dir)) == name
        &&& lookup(cs, after_dir(b[k].0, dir), img) == Some(b[k].1)
    } by {
        let f = b[k].0;
        let t = after_dir(f, cdir);
        assert(f =~= cdir + t);
        assert(after_dir(f, dir) =~= name.push(SLASH) + t);
        lemma_base_name_component(c, dir, img, t);
        lemma_lookup_extend(cs, name, t, img);
    }
    assert forall|k: int| 0 <= k < l.len() implies {
        let f = (#[trigger] l[k]).0;
        &&& dir.len() <= f.len()
        &&& f.subrange(0, dir.len() as int) == dir
        &&& lookup(cs, after_dir(f, dir), img) == Some(l[k].1)
    } by {
        if k < a.len() {
            assert(l[k] == a[k]);
        } else if k < a.len() + b.len() {
            let kb = k - a.len();
            assert(l[k] == b[kb]);
            let f = b[kb].0;
            assert(f =~= cdir + after_dir(f, cdir));
            assert(f.subrange(0, dir.len() as int) =~= dir);
        } else {
            assert(l[k] == (full, c.node));
            assert(full.subrange(0, dir.len() as int) =~= dir);
            assert(after_dir(full, dir) =~= name);
        }
    }
    assert forall|k1: int, k2: int|
        0 <= k1 < l.len() && 0 <= k2 < l.len() && k1 != k2 implies (#[trigger] l[k1]).0 != (#[trigger] l[k2]).0 by {
        let f1 = l[k1].0;
        let f2 = l[k2].0;
        if f1 == f2 {
            assert(after_dir(f1, dir) == after_dir(f2, dir));
            lemma_base_name_component(c, dir, img, Seq::empty());
            assert(after_dir(full, dir) =~= name);
            if k1 < a.len() && k2 < a.len() {
                assert(l[k1] == a[k1] && l[k2] == a[k2]);
            } else if a.len() <= k1 < a.len() + b.len() && a.len() <= k2 < a.len() + b.len() {
                assert(l[k1] == b[k1 - a.len()] && l[k2] == b[k2 - a.len()]);
                let t1 = after_dir(f1, cdir);
                let t2 = after_dir(f2, cdir);
                assert(f1 =~= cdir + t1);
                assert(f2 =~= cdir + t2);
            } else if k1 < a.len() && a.len() <= k2 < a.len() + b.len() {
                assert(l[k1] == a[k1] && l[k2] == b[k2 - a.len()]);
            } else if k2 < a.len() && a.len() <= k1 < a.len() + b.len() {
                assert(l[k2] == a[k2] && l[k1] == b[k1 - a.len()]);
            } else if k1 < a.len() {
                assert(l[k1] == a[k1]);
            } else if k2 < a.len() {
                assert(l[k2] == a[k2]);
            } else if k1 < a.len() + b.len() {
                let kb = k1 - a.len();
                assert(l[k1] == b[kb]);
                assert(after_dir(f1, dir).len() > name.len());
            } else {
                let kb = k2 - a.len();
                assert(l[k2] == b[kb]);
                assert(after_dir(f2, dir).len() > name.len());
            }
        }
    }
    assert forall|t: Seq<u8>| #[trigger] lookup(cs, t, img) is Some implies exists|k: int|
        0 <= k < l.len() && (#[trigger] l[k]) == (dir + t, lookup(cs, t, img)->0) by {
        let m = first_component(t);
        let j = child_index(cs, m, img);
        if j < i {
            assert(pre[j] == cs[j]);
            lemma_child_index(pre, j, img);
            lemma_lookup_push(pre, c, t, img);
            let k = choose|k: int| 0 <= k < a.len() && (#[trigger] a[k]) == (dir + t, lookup(pre, t, img)->0);
            assert(l[k] == a[k]);
        } else {
            lemma_child_index(cs, i, img);
            if let Some(rest) = rest_of_path(t) {
                lemma_first_slash(t);
                lemma_rejoin(t);
                assert(lookup(c.node.children@, rest, img) is Some);
                let kb = choose|kb: int|
                    0 <= kb < b.len() && (#[trigger] b[kb]) == (cdir + rest, lookup(c.node.children@, rest, img)->0);
                assert(l[a.len() + kb] == b[kb]);
                assert(cdir + rest =~= dir + t);
            } else {
                lemma_single_component(t);
                assert(l[l.len() - 1] == (full, c.node));
            }
        }
    }
}

/// The copy source bytes of a node.
pub open spec fn copy_bytes(n: Node, img: Seq<u8>) -> Option<Seq<u8>> {
    match n.copy_source {
        Some(c) => Some(c.bytes(img)),
        None => None,
    }
}

/// A node that is not empty holds an entry or a copy source itself, or some
/// path below it does.
pub proof fn lemma_node_holds(n: Node, d: Seq<u8>, img: Seq<u8>)
    requires
        !is_empty_node(n),
        wf_children(n.children@, d, img),
    ensures
        n.entry is Some || n.copy_source is Some || exists|t: Seq<u8>|
            #[trigger] entry_in(n.children@, t, img) is Some || copy_in(n.children@, t, img) is Some,
    decreases n,
{
    if n.entry is None && n.copy_source is None {
        let cs = n.children@;
        let c = cs[0];
        assert(child_ok(c, d, img));
        let name = c.key.base_name(img);
        let cd = c.key.full_bytes(img).push(SLASH);
        assert(wf_children(c.node.children@, cd, img));
        lemma_lookup_child(cs, 0, d, img);
        assert(decreases_to!(n => n.children));
        assert(decreases_to!(n.children => n.children@));
        assert(decreases_to!(n.children@ => n.children@[0]));
        assert(decreases_to!(n.children@[0] => n.children@[0].node));
        lemma_node_holds(c.node, cd, img);
        if c.node.entry is Some || c.node.copy_source is Some {
            assert(entry_in(cs, name, img) is Some || copy_in(cs, name, img) is Some);
        } else {
            let t = choose|t: Seq<u8>|
                #[trigger] entry_in(c.node.children@, t, img) is Some || copy_in(c.node.children@, t, img) is Some;
            lemma_lookup_extend(cs, name, t, img);
            assert(entry_in(cs, name.push(SLASH) + t, img) is Some || copy_in(cs, name.push(SLASH) + t, img) is Some);
        }
    }
}

/// A path strictly above `r` is either the first component of `r`, or
/// shares that component and lies strictly above the rest of `r`.
pub proof fn lemma_above_cases(r: Seq<u8>, q: Seq<u8>)
    requires
        strictly_below(r, q),
    ensures
        rest_of_path(r) is Some,
        q == first_component(r) || (rest_of_path(q) is Some && first_component(q) == first_component(r)
            && strictly_below(rest_of_path(r)->0, rest_of_path(q)->0)),
{
    lemma_first_slash(r);
    lemma_first_slash(q);
    let e = first_slash(r);
    assert(r[q.len() as int] == SLASH);
    assert(e <= q.len());
    if e == q.len() {
        assert(q =~= first_component(r));
    } else {
        assert(q[e] == r.subrange(0, q.len() as int)[e]);
        assert forall|k: int| 0 <= k < e implies q[k] != SLASH by {
            assert(q[k] == r.subrange(0, q.len() as int)[k]);
        }
        assert(first_slash(q) == e);
        assert(first_component(q) =~= first_component(r));
        let r2 = rest_of_path(r)->0;
        let q2 = rest_of_path(q)->0;
        assert(r2.subrange(0, q2.len() as int) =~= q2);
        assert(r2[q2.len() as int] == r[q.len() as int]);
    }
}

/// Every key and copy source in the subtrees rooted at `cs` is a range of
/// the backing image rather than bytes of its own.
pub open spec fn borrows_image(cs: Seq<ChildNode>) -> bool
    decreases cs,
{
    forall|i: int|
        0 <= i < cs.len() ==> {
            &&& (#[trigger] cs[i]).key.full_path is Borrowed
            &&& (cs[i].node.copy_source matches Some(c) ==> c is Borrowed)
            &&& borrows_image(cs[i].node.children@)
        }
}

/// A path whose first component is not `name` lies neither strictly above
/// nor strictly below `name` or any path under `name`.
pub proof fn lemma_apart(t: Seq<u8>, name: Seq<u8>, u: Seq<u8>)
    requires
        forall|k: int| 0 <= k < name.len() ==> name[k] != SLASH,
        first_component(t) != name,
        u == name || (u.len() > name.len() && u.subrange(0, name.len() as int) == name && u[name.len() as int]
            == SLASH),
    ensures
        !strictly_below(u, t),
        !strictly_below(t, u),
{
    lemma_first_slash(t);
    // If `t` starts with `name` followed by `/` or its end, its first component is `name`.
    if t.len() >= name.len() && t.subrange(0, name.len() as int) == name && (t.len() == name.len()
        || t[name.len() as int] == SLASH) {
        assert forall|k: int| 0 <= k < name.len() implies t[k] != SLASH by {
            assert(t[k] == t.subrange(0, name.len() as int)[k]);
        }
        assert(first_slash(t) == name.len());
        assert(first_component(t) =~= name);
    }
    if strictly_below(u, t) {
        if t.len() < name.len() {
            assert(u[t.len() as int] == name[t.len() as int]);
        } else {
            assert(t.subrange(0, name.len() as int) =~= name);
            if t.len() > name.len() {
                assert(t[name.len() as int] == u[name.len() as int]);
            }
        }
    }
    if strictly_below(t, u) {
        assert(t.subrange(0, name.len() as int) =~= name);
        assert(t[name.len() as int] == SLASH);
    }
}

/// A common prefix does not change which path lies strictly below which.
pub proof fn lemma_below_shift(dir: Seq<u8>, a: Seq<u8>, b: Seq<u8>)
    ensures
        strictly_below(dir + a, dir + b) == strictly_below(a, b),
{
    if strictly_below(a, b) {
        assert((dir + a).subrange(0, (dir + b).len() as int) =~= dir + b);
    }
    if strictly_below(dir + a, dir + b) {
        assert(a.subrange(0, b.len() as int) =~= (dir + a).subrange(0, (dir + b).len() as int).subrange(
            dir.len() as int,
            (dir + b).len() as int,
        ));
        assert((dir + b).subrange(dir.len() as int, (dir + b).len() as int) =~= b);
        assert(a[b.len() as int] == (dir + a)[(dir + b).len() as int]);
    }
}

/// In the depth-first listing, a node comes after every node strictly
/// below it.
#[verifier::rlimit(100)]
#[verifier::spinoff_prover]
pub proof fn lemma_nodes_in_post_order(cs: Seq<ChildNode>, dir: Seq<u8>, img: Seq<u8>)
    requires
        wf_children(cs, dir, img),
    ensures
        forall|k1: int, k2: int|
            0 <= k1 < nodes_in(cs, img).len() && 0 <= k2 < nodes_in(cs, img).len() && strictly_below(
                (#[trigger] nodes_in(cs, img)[k1]).0,
                (#[trigger] nodes_in(cs, img)[k2]).0,
            ) ==> k1 < k2,
    decreases cs,
{
    let l = nodes_in(cs, img);
    if cs.len() == 0 {
        return ;
    }
    let i = cs.len() - 1;
    let c = cs[i];
    let pre = cs.subrange(0, i);
    let name = c.key.base_name(img);
    let full = c.key.full_bytes(img);
    let cdir = full.push(SLASH);
    lemma_wf_prefix(cs, dir, img, i);
    assert(child_ok(c, dir, img));
    assert(wf_children(c.node.children@, cdir, img));
    lemma_nodes_in_post_order(pre, dir, img);
    lemma_nodes_in_post_order(c.node.children@, cdir, img);
    lemma_nodes_in_lookup(pre, dir, img);
    lemma_nodes_in_lookup(c.node.children@, cdir, img);
    lemma_full_path(c, dir, img);
    let a = nodes_in(pre, img);
    let b = nodes_in(c.node.children@, img);
    assert(l == a + b + seq![(full, c.node)]);
    assert forall|k: int| 0 <= k < a.len() implies first_component(after_dir(#[trigger] a[k].0, dir)) != name
        && a[k].0 == dir + after_dir(a[k].0, dir) by {
        let t = after_dir(a[k].0, dir);
        let m = first_component(t);
        assert(lookup(pre, t, img) is Some);
        let j = child_index(pre, m, img);
        assert(pre[j] == cs[j]);
        assert(cs[j].key.base_name(img) != cs[i].key.base_name(img));
        assert(a[k].0 =~= dir + t);
    }
    assert forall|k: int| 0 <= k < b.len() implies {
        let u = after_dir((#[trigger] b[k]).0, dir);
        &&& b[k].0 == dir + u
        &&& u.len() > name.len()
        &&& u.subrange(0, name.len() as int) == name
        &&& u[name.len() as int] == SLASH
    } by {
        let f = b[k].0;
        let t = after_dir(f, cdir);
        assert(f =~= cdir + t);
        assert(f =~= dir + after_dir(f, dir));
        assert(after_dir(f, dir) =~= name.push(SLASH) + t);
        assert(after_dir(f, dir).subrange(0, name.len() as int) =~= name);
    }
    assert(full == dir + name);
    assert forall|k1: int, k2: int|
        0 <= k1 < l.len() && 0 <= k2 < l.len() && strictly_below((#[trigger] l[k1]).0, (#[trigger] l[k2]).0)
            implies k1 < k2 by {
        let last = l.len() - 1;
        let na = a.len() as int;
        let nb = b.len() as int;
        if k1 < na && k2 < na {
            assert(l[k1] == a[k1] && l[k2] == a[k2]);
        } else if na <= k1 < na + nb && na <= k2 < na + nb {
            assert(l[k1] == b[k1 - na] && l[k2] == b[k2 - na]);
        } else if k1 < na && na <= k2 < na + nb {
        } else if na <= k1 < na + nb && k2 < na {
            let t = after_dir(a[k2].0, dir);
            let u = after_dir(b[k1 - na].0, dir);
            assert(l[k1] == b[k1 - na] && l[k2] == a[k2]);
            lemma_apart(t, name, u);
            lemma_below_shift(dir, u, t);
        } else if k1 == last && k2 < na {
            let t = after_dir(a[k2].0, dir);
            assert(l[k2] == a[k2]);
            lemma_apart(t, name, name);
            lemma_below_shift(dir, name, t);
        } else if k1 == last && na <= k2 < na + nb {
            assert(l[k2] == b[k2 - na]);
            assert(l[k1].0 == full);
        } else if k2 == last {
        } else {
        }
    }
}

/// Listing the files of a listing with distinct paths gives each file once,
/// with its entry, and nothing else.
pub proof fn lemma_entries_of_listing(ns: Seq<(Seq<u8>, Node)>)
    requires
        forall|j1: int, j2: int| 0 <= j1 < ns.len() && 0 <= j2 < ns.len() && j1 != j2 ==> (#[trigger] ns[j1]).0 != (#[trigger] ns[j2]).0,
    ensures
        forall|k: int|
            0 <= k < entries_of(ns).len() ==> exists|j: int|
                0 <= j < ns.len() && (#[trigger] ns[j]).0 == (#[trigger] entries_of(ns)[k]).0 && ns[j].1.entry == Some(
                    entries_of(ns)[k].1,
                ),
        forall|j: int|
            0 <= j < ns.len() && (#[trigger] ns[j]).1.entry is Some ==> exists|k: int|
                0 <= k < entries_of(ns).len() && (#[trigger] entries_of(ns)[k]) == (ns[j].0, ns[j].1.entry->0),
        forall|k1: int, k2: int|
            0 <= k1 < entries_of(ns).len() && 0 <= k2 < entries_of(ns).len() && k1 != k2 ==> (
            #[trigger] entries_of(ns)[k1]).0 != (#[trigger] entries_of(ns)[k2]).0,
    decreases ns.len(),
{
    if ns.len() == 0 {
        return ;
    }
    let n = ns.len() - 1;
    let pre = ns.subrange(0, n);
    let x = ns[n];
    let ep = entries_of(pre);
    let e = entries_of(ns);
    assert forall|j1: int, j2: int| 0 <= j1 < pre.len() && 0 <= j2 < pre.len() && j1 != j2 implies (
    #[trigger] pre[j1]).0 != (#[trigger] pre[j2]).0 by {
        assert(pre[j1] == ns[j1] && pre[j2] == ns[j2]);
    }
    lemma_entries_of_listing(pre);
    assert forall|k: int| 0 <= k < ep.len() implies exists|j: int|
        0 <= j < n && (#[trigger] ns[j]).0 == (#[trigger] ep[k]).0 && ns[j].1.entry == Some(ep[k].1) by {
        let j = choose|j: int| 0 <= j < pre.len() && (#[trigger] pre[j]).0 == ep[k].0 && pre[j].1.entry == Some(ep[k].1);
        assert(ns[j] == pre[j]);
    }
    if x.1.entry is Some {
        assert(e == ep + seq![(x.0, x.1.entry->0)]);
    } else {
        assert(e =~= ep);
    }
    assert forall|k: int| 0 <= k < e.len() implies exists|j: int|
        0 <= j < ns.len() && (#[trigger] ns[j]).0 == (#[trigger] e[k]).0 && ns[j].1.entry == Some(e[k].1) by {
        if k < ep.len() {
            assert(e[k] == ep[k]);
            let j = choose|j: int| 0 <= j < n && (#[trigger] ns[j]).0 == ep[k].0 && ns[j].1.entry == Some(ep[k].1);
        } else {
            assert(ns[n].0 == e[k].0);
        }
    }
    assert forall|j: int| 0 <= j < ns.len() && (#[trigger] ns[j]).1.entry is Some implies exists|k: int|
        0 <= k < e.len() && (#[trigger] e[k]) == (ns[j].0, ns[j].1.entry->0) by {
        if j < n {
            assert(pre[j] == ns[j]);
            let k = choose|k: int| 0 <= k < ep.len() && (#[trigger] ep[k]) == (pre[j].0, pre[j].1.entry->0);
            assert(e[k] == ep[k]);
        } else {
            assert(e[e.len() - 1] == (ns[j].0, ns[j].1.entry->0));
        }
    }
    assert forall|k1: int, k2: int| 0 <= k1 < e.len() && 0 <= k2 < e.len() && k1 != k2 implies (#[trigger] e[k1]).0 != (
    #[trigger] e[k2]).0 by {
        if k1 < ep.len() && k2 < ep.len() {
            assert(e[k1] == ep[k1] && e[k2] == ep[k2]);
        } else if k1 < ep.len() {
            assert(e[k1] == ep[k1]);
            let j = choose|j: int| 0 <= j < n && (#[trigger] ns[j]).0 == ep[k1].0 && ns[j].1.entry == Some(ep[k1].1);
            assert(ns[j].0 != ns[n].0);
        } else {
            assert(e[k2] == ep[k2]);
            let j = choose|j: int| 0 <= j < n && (#[trigger] ns[j]).0 == ep[k2].0 && ns[j].1.entry == Some(ep[k2].1);
            assert(ns[j].0 != ns[n].0);
        }
    }
}

/// Every key and copy source in the subtrees rooted at `cs` holds bytes of
/// its own rather than a range of the image.
pub open spec fn owns_bytes(cs: Seq<ChildNode>) -> bool
    decreases cs,
{
    forall|i: int|
        0 <= i < cs.len() ==> {
            &&& (#[trigger] cs[i]).key.full_path is Owned
            &&& (cs[i].node.copy_source matches Some(c) ==> c is Owned)
            &&& owns_bytes(cs[i].node.children@)
        }
}

/// Whether the key of the node reached from `cs` by `r` borrows its bytes
/// from the image (`Some(false)`: it holds bytes of its own).
pub open spec fn key_borrowed_in(cs: Seq<ChildNode>, r: Seq<u8>, img: Seq<u8>) -> Option<bool>
    decreases r.len(),
{
    let name = first_component(r);
    if has_child(cs, name, img) {
        let c = cs[child_index(cs, name, img)];
        match rest_of_path(r) {
            None => Some(c.key.full_path is Borrowed),
            Some(rest) => if rest.len() < r.len() {
                key_borrowed_in(c.node.children@, rest, img)
            } else {
                None
            },
        }
    } else {
        None
    }
}

/// Key storage found through other names are not affected by replacing child `i`.
pub proof fn lemma_key_update(cs: Seq<ChildNode>, i: int, c: ChildNode, r: Seq<u8>, img: Seq<u8>)
    requires
        0 <= i < cs.len(),
        unique_names(cs, img),
        c.key.base_name(img) == cs[i].key.base_name(img),
        first_component(r) != cs[i].key.base_name(img),
    ensures
        key_borrowed_in(cs.update(i, c), r, img) == key_borrowed_in(cs, r, img),
{
    let m = first_component(r);
    let ns = cs.update(i, c);
    if has_child(cs, m, img) {
        let j = child_index(cs, m, img);
        assert(ns[j] == cs[j]);
        assert(unique_names(ns, img));
        lemma_child_index(ns, j, img);
        lemma_child_index(cs, j, img);
    }
    if has_child(ns, m, img) {
        let j = child_index(ns, m, img);
        assert(ns[j] == cs[j]);
    }
}

/// Key storage found through other names are not affected by appending a child.
pub proof fn lemma_key_push(cs: Seq<ChildNode>, c: ChildNode, r: Seq<u8>, img: Seq<u8>)
    requires
        unique_names(cs.push(c), img),
        first_component(r) != c.key.base_name(img),
    ensures
        key_borrowed_in(cs.push(c), r, img) == key_borrowed_in(cs, r, img),
{
    let m = first_component(r);
    let ns = cs.push(c);
    assert(unique_names(cs, img)) by {
        assert forall|i: int, j: int|
            0 <= i < cs.len() && 0 <= j < cs.len() && i != j implies (#[trigger] cs[i]).key.base_name(img)
            != (#[trigger] cs[j]).key.base_name(img) by {
            assert(ns[i] == cs[i] && ns[j] == cs[j]);
        }
    }
    if has_child(cs, m, img) {
        let j = child_index(cs, m, img);
        assert(ns[j] == cs[j]);
        lemma_child_index(ns, j, img);
        lemma_child_index(cs, j, img);
    }
    if has_child(ns, m, img) {
        let j = child_index(ns, m, img);
        assert(j < cs.len());
        assert(ns[j] == cs[j]);
    }
}

/// Key storage found through other names are not affected by removing child `i`;
/// through its name nothing is found.
pub proof fn lemma_key_remove(cs: Seq<ChildNode>, i: int, r: Seq<u8>, img: Seq<u8>)
    requires
        0 <= i < cs.len(),
        unique_names(cs, img),
    ensures
        first_component(r) != cs[i].key.base_name(img) ==> key_borrowed_in(cs.remove(i), r, img) == key_borrowed_in(cs, r, img),
        first_component(r) == cs[i].key.base_name(img) ==> key_borrowed_in(cs.remove(i), r, img) is None,
        unique_names(cs.remove(i), img),
{
    let m = first_component(r);
    let ns = cs.remove(i);
    assert forall|x: int, y: int|
        0 <= x < ns.len() && 0 <= y < ns.len() && x != y implies (#[trigger] ns[x]).key.base_name(img)
        != (#[trigger] ns[y]).key.base_name(img) by {
        let ox = if x < i { x } else { x + 1 };
        let oy = if y < i { y } else { y + 1 };
        assert(ns[x] == cs[ox] && ns[y] == cs[oy]);
    }
    if has_child(ns, m, img) {
        let j = child_index(ns, m, img);
        let oj = if j < i { j } else { j + 1 };
        assert(ns[j] == cs[oj]);
        lemma_child_index(cs, oj, img);
        lemma_child_index(ns, j, img);
    }
    if m != cs[i].key.base_name(img) && has_child(cs, m, img) {
        let j = child_index(cs, m, img);
        let nj = if j < i { j } else { j - 1 };
        assert(ns[nj] == cs[j]);
        lemma_child_index(cs, j, img);
        lemma_child_index(ns, nj, img);
    }
}

/// Key storage is found exactly where a node is.
pub proof fn lemma_key_where_node(cs: Seq<ChildNode>, r: Seq<u8>, img: Seq<u8>)
    ensures
        (key_borrowed_in(cs, r, img) is Some) == (lookup(cs, r, img) is Some),
    decreases r.len(),
{
    let name = first_component(r);
    if has_child(cs, name, img) {
        let c = cs[child_index(cs, name, img)];
        if let Some(rest) = rest_of_path(r) {
            if rest.len() < r.len() {
                lemma_key_where_node(c.node.children@, rest, img);
            }
        }
    }
}

} // verus!
