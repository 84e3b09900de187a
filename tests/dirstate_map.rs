use hg_dirstate::codec::DirstateError;
use hg_dirstate::dirstate_map::DirstateMap;
use hg_dirstate::entry::DirstateEntry;
use hg_dirstate::entry::DirstateParents;
use hg_dirstate::entry::EntryState;
use hg_dirstate::entry::Timestamp;
use hg_dirstate::node::Node;
use hg_dirstate::node::PathSlice;

fn normal(size: i32, mtime: i32) -> DirstateEntry {
    DirstateEntry { state: EntryState::Normal, mode: 0, size, mtime }
}

fn parents() -> DirstateParents {
    DirstateParents { p1: [1u8; 20], p2: [2u8; 20] }
}

#[test]
fn add_then_drop_single_file() {
    let mut map = DirstateMap::empty(&[]);
    map.add_file(b"a/b/c", EntryState::Removed, normal(10, 100)).unwrap();
    assert_eq!(map.len(), 1);
    assert_eq!(map.has_dir(b"a"), Ok(true));
    assert_eq!(map.has_tracked_dir(b"a"), Ok(true));
    assert_eq!(map.has_dir(b"a/b"), Ok(true));
    assert_eq!(map.has_dir(b"a/b/c"), Ok(false));
    assert_eq!(map.get(b"a/b/c"), Some(normal(10, 100)));
    assert_eq!(map.drop_file(b"a/b/c", EntryState::Normal), Ok(true));
    assert_eq!(map.len(), 0);
    assert_eq!(map.has_dir(b"a"), Ok(false));
    assert!(map.get_node(b"a").is_none());
    assert!(map.iter_nodes().is_empty());
}

#[test]
fn copy_map_is_independent_of_entries() {
    let mut map = DirstateMap::empty(&[]);
    assert_eq!(map.copy_map_insert(b"x".to_vec(), b"y".to_vec()), None);
    assert_eq!(map.copy_map_len(), 1);
    assert_eq!(map.len(), 0);
    assert_eq!(map.has_dir(b""), Ok(false));
    assert!(map.copy_map_contains_key(b"x"));
    assert!(!map.contains_key(b"x"));
    assert_eq!(map.drop_file(b"x", EntryState::Removed), Ok(false));
    assert!(map.get_node(b"x").is_some());
    assert_eq!(map.copy_map_get(b"x"), Some(&b"y"[..]));
    assert_eq!(map.copy_map_remove(b"x"), Some(b"y".to_vec()));
    assert_eq!(map.copy_map_len(), 0);
    assert!(map.iter_nodes().is_empty());
    assert!(map.get_node(b"x").is_none());
}

#[test]
fn copy_map_insert_replaces_and_returns_previous() {
    let mut map = DirstateMap::empty(&[]);
    assert_eq!(map.copy_map_insert(b"d/x".to_vec(), b"y".to_vec()), None);
    assert_eq!(map.copy_map_insert(b"d/x".to_vec(), b"z".to_vec()), Some(b"y".to_vec()));
    assert_eq!(map.copy_map_len(), 1);
    let copies = map.copy_map_iter();
    assert_eq!(copies, vec![(&b"d/x"[..], &b"z"[..])]);
    assert_eq!(map.copy_map_remove(b"d/nothing"), None);
}

#[test]
fn ancestors_count_tracked_descendants() {
    let mut map = DirstateMap::empty(&[]);
    map.add_file(b"a/b/c", EntryState::Removed, normal(0, 0)).unwrap();
    map.add_file(b"a/b/d", EntryState::Removed, normal(0, 0)).unwrap();
    assert_eq!(map.get_node(b"a").unwrap().tracked_descendants_count, 2);
    assert_eq!(map.get_node(b"a/b").unwrap().tracked_descendants_count, 2);
    map.add_file(b"a/b/c", EntryState::Normal, DirstateEntry { state: EntryState::Removed, mode: 0, size: 0, mtime: 0 })
        .unwrap();
    assert_eq!(map.get_node(b"a").unwrap().tracked_descendants_count, 1);
    map.remove_file(b"a/b/d", EntryState::Normal, 5).unwrap();
    assert_eq!(map.get_node(b"a").unwrap().tracked_descendants_count, 0);
    assert_eq!(map.has_tracked_dir(b"a"), Ok(false));
    assert_eq!(map.has_dir(b"a"), Ok(true));
    assert_eq!(map.get(b"a/b/d"), Some(DirstateEntry { state: EntryState::Removed, mode: 0, size: 5, mtime: 0 }));
    assert_eq!(map.len(), 2);
}

#[test]
fn pack_v1_clears_ambiguous_mtime() {
    let mut map = DirstateMap::empty(&[]);
    map.add_file(b"f", EntryState::Removed, DirstateEntry { state: EntryState::Normal, mode: 0, size: 1, mtime: 1234 })
        .unwrap();
    map.add_file(b"g", EntryState::Removed, normal(1, 99)).unwrap();
    let packed = map.pack_v1(&parents(), Timestamp(1234)).unwrap();
    assert_eq!(map.get_node(b"f").unwrap().entry.unwrap().mtime, 0);
    assert_eq!(map.get(b"g").unwrap().mtime, 99);
    assert_eq!(&packed[0..20], &[1u8; 20]);
    assert_eq!(&packed[20..40], &[2u8; 20]);
    assert_eq!(packed.len(), 40 + 2 * (17 + 1));
}

#[test]
fn pack_v1_record_layout() {
    let mut map = DirstateMap::empty(&[]);
    map.add_file(b"ab", EntryState::Removed, DirstateEntry { state: EntryState::Added, mode: 0x1a4, size: -1, mtime: 7 })
        .unwrap();
    map.copy_map_insert(b"ab".to_vec(), b"z".to_vec());
    let packed = map.pack_v1(&parents(), Timestamp(0)).unwrap();
    let record = &packed[40..];
    assert_eq!(
        record,
        &[b'a', 0, 0, 1, 0xa4, 0xff, 0xff, 0xff, 0xff, 0, 0, 0, 7, 0, 0, 0, 4, b'a', b'b', 0, b'z'][..]
    );
}

#[test]
fn pack_v1_time_overflow() {
    let mut map = DirstateMap::empty(&[]);
    map.add_file(b"f", EntryState::Removed, normal(1, 5)).unwrap();
    assert_eq!(map.pack_v1(&parents(), Timestamp(1i64 << 40)), Err(DirstateError::TimeOverflow));
    assert_eq!(map.get(b"f").unwrap().mtime, 5);
}

fn record(state: u8, path: &[u8]) -> Vec<u8> {
    let mut r = vec![state];
    r.extend_from_slice(&0i32.to_be_bytes());
    r.extend_from_slice(&3i32.to_be_bytes());
    r.extend_from_slice(&4i32.to_be_bytes());
    r.extend_from_slice(&(path.len() as i32).to_be_bytes());
    r.extend_from_slice(path);
    r
}

#[test]
fn decode_duplicate_path_is_corrupt() {
    let mut image = vec![0u8; 40];
    image.extend(record(b'n', b"dir/file"));
    image.extend(record(b'a', b"dir/file"));
    assert_eq!(DirstateMap::new_v1(&image).err(), Some(DirstateError::CorruptImage));
}

#[test]
fn decode_rejects_truncated_and_unknown_state() {
    let short = vec![0u8; 10];
    assert_eq!(DirstateMap::new_v1(&short).err(), Some(DirstateError::CorruptImage));
    let mut image = vec![0u8; 40];
    image.extend(record(b'?', b"f"));
    assert_eq!(DirstateMap::new_v1(&image).err(), Some(DirstateError::CorruptImage));
    let mut cut = vec![0u8; 40];
    let mut r = record(b'n', b"file");
    r.truncate(r.len() - 1);
    cut.extend(r);
    assert_eq!(DirstateMap::new_v1(&cut).err(), Some(DirstateError::CorruptImage));
}

#[test]
fn decode_empty_image_gives_empty_map() {
    let (map, parents) = DirstateMap::new_v1(&[]).unwrap();
    assert!(parents.is_none());
    assert_eq!(map.len(), 0);
}

#[test]
fn decode_records_and_copy_sources() {
    let mut image = vec![9u8; 40];
    image.extend(record(b'n', b"a/b"));
    image.extend(record(b'r', b"a/c\0a/b"));
    let (map, parents) = DirstateMap::new_v1(&image).unwrap();
    let parents = parents.unwrap();
    assert_eq!(parents.p1, [9u8; 20]);
    assert_eq!(map.len(), 2);
    assert_eq!(map.get(b"a/b"), Some(DirstateEntry { state: EntryState::Normal, mode: 0, size: 3, mtime: 4 }));
    assert_eq!(map.get(b"a/c").unwrap().state, EntryState::Removed);
    assert_eq!(map.copy_map_get(b"a/c"), Some(&b"a/b"[..]));
    assert_eq!(map.copy_map_len(), 1);
    assert_eq!(map.get_node(b"a").unwrap().tracked_descendants_count, 1);
}

#[test]
fn v1_round_trip_keeps_entries_with_ambiguous_mtimes_cleared() {
    let mut map = DirstateMap::empty(&[]);
    map.add_file(b"x/y", EntryState::Removed, normal(3, 50)).unwrap();
    map.add_file(b"x/z", EntryState::Removed, normal(4, 60)).unwrap();
    map.add_file(b"w", EntryState::Removed, DirstateEntry { state: EntryState::Merged, mode: 1, size: 2, mtime: 50 })
        .unwrap();
    map.copy_map_insert(b"x/z".to_vec(), b"w".to_vec());
    let packed = map.pack_v1(&parents(), Timestamp(50)).unwrap();
    let (decoded, _) = DirstateMap::new_v1(&packed).unwrap();
    assert_eq!(decoded.len(), 3);
    assert_eq!(decoded.get(b"x/y"), Some(normal(3, 0)));
    assert_eq!(decoded.get(b"x/z"), Some(normal(4, 60)));
    assert_eq!(decoded.get(b"w").unwrap().mtime, 0);
    assert_eq!(decoded.copy_map_get(b"x/z"), Some(&b"w"[..]));
    let mut again = decoded;
    assert_eq!(again.pack_v1(&parents(), Timestamp(50)).unwrap(), packed);
}

#[test]
fn iteration_is_post_order_and_stable() {
    let mut map = DirstateMap::empty(&[]);
    map.add_file(b"a/b", EntryState::Removed, normal(1, 1)).unwrap();
    map.add_file(b"a", EntryState::Removed, normal(2, 2)).unwrap();
    map.add_file(b"c", EntryState::Removed, normal(3, 3)).unwrap();
    let nodes: Vec<Vec<u8>> = map.iter_nodes().into_iter().map(|(p, _)| p.to_vec()).collect();
    assert_eq!(nodes, vec![b"a/b".to_vec(), b"a".to_vec(), b"c".to_vec()]);
    let first = map.iter();
    let second = map.iter();
    assert_eq!(first, second);
    assert_eq!(first.len(), 3);
}

#[test]
fn filtered_paths() {
    let mut map = DirstateMap::empty(&[]);
    map.add_file(b"n", EntryState::Removed, normal(1, 1)).unwrap();
    map.add_file(b"unset", EntryState::Removed, normal(1, -1)).unwrap();
    map.add_file(b"other", EntryState::Removed, normal(-2, 1)).unwrap();
    map.add_file(b"added", EntryState::Removed, DirstateEntry { state: EntryState::Added, mode: 0, size: 0, mtime: 0 })
        .unwrap();
    let mut non_normal: Vec<&[u8]> = map.iter_non_normal_paths();
    non_normal.sort();
    assert_eq!(non_normal, vec![&b"added"[..], &b"unset"[..]]);
    assert_eq!(map.iter_other_parent_paths(), vec![&b"other"[..]]);
    let mut either = map.non_normal_or_other_parent_paths();
    either.sort();
    assert_eq!(either, vec![&b"added"[..], &b"other"[..], &b"unset"[..]]);
    assert!(map.non_normal_entries_contains(b"unset"));
    assert!(!map.non_normal_entries_contains(b"n"));
    assert!(!map.non_normal_entries_contains(b"missing"));
}

#[test]
fn clear_ambiguous_times_only_on_given_paths() {
    let mut map = DirstateMap::empty(&[]);
    map.add_file(b"p", EntryState::Removed, normal(1, 7)).unwrap();
    map.add_file(b"q", EntryState::Removed, normal(1, 7)).unwrap();
    map.add_file(b"r", EntryState::Removed, normal(1, 8)).unwrap();
    map.clear_ambiguous_times(vec![b"p".to_vec(), b"r".to_vec(), b"none".to_vec()], 7);
    assert_eq!(map.get(b"p").unwrap().mtime, 0);
    assert_eq!(map.get(b"q").unwrap().mtime, 7);
    assert_eq!(map.get(b"r").unwrap().mtime, 8);
}

#[test]
fn clear_empties_everything() {
    let mut map = DirstateMap::empty(&[]);
    map.add_file(b"p/q", EntryState::Removed, normal(1, 7)).unwrap();
    map.copy_map_insert(b"p/r".to_vec(), b"s".to_vec());
    map.clear();
    assert_eq!(map.len(), 0);
    assert_eq!(map.copy_map_len(), 0);
    assert!(map.iter_nodes().is_empty());
    assert_eq!(map.has_dir(b"p"), Ok(false));
}

#[test]
fn drop_keeps_copy_source_and_ancestors_with_other_children() {
    let mut map = DirstateMap::empty(&[]);
    map.add_file(b"d/a", EntryState::Removed, normal(1, 1)).unwrap();
    map.add_file(b"d/b", EntryState::Removed, normal(1, 1)).unwrap();
    map.copy_map_insert(b"d/a".to_vec(), b"src".to_vec());
    assert_eq!(map.drop_file(b"d/a", EntryState::Normal), Ok(true));
    assert_eq!(map.get(b"d/a"), None);
    assert_eq!(map.copy_map_get(b"d/a"), Some(&b"src"[..]));
    assert_eq!(map.get_node(b"d").unwrap().tracked_descendants_count, 1);
    assert_eq!(map.drop_file(b"missing/path", EntryState::Removed), Ok(false));
    assert_eq!(map.len(), 1);
}

#[test]
fn tracked_dir_needs_tracked_descendant() {
    let mut map = DirstateMap::empty(&[]);
    map.add_file(b"d/r", EntryState::Removed, DirstateEntry { state: EntryState::Removed, mode: 0, size: 0, mtime: 0 })
        .unwrap();
    assert_eq!(map.has_dir(b"d"), Ok(true));
    assert_eq!(map.has_tracked_dir(b"d"), Ok(false));
    map.add_file(b"d/e/f", EntryState::Removed, normal(0, 0)).unwrap();
    assert_eq!(map.has_tracked_dir(b"d"), Ok(true));
    assert_eq!(map.has_tracked_dir(b"d/e"), Ok(true));
    assert_eq!(map.has_tracked_dir(b"nothing"), Ok(false));
}

#[test]
fn sorted_children_follow_byte_order_of_full_paths() {
    let mut map = DirstateMap::empty(&[]);
    let names: [&[u8]; 4] = [b"d/zz", b"d/a", b"d/m", b"d/B"];
    for name in names.iter() {
        map.add_file(name, EntryState::Removed, normal(1, 1)).unwrap();
    }
    let node = map.get_node(b"d").unwrap();
    let sorted = Node::sorted(&node.children, &[]);
    let order: Vec<Vec<u8>> = sorted.iter().map(|c| c.key.full_path.as_bytes(&[]).to_vec()).collect();
    assert_eq!(order, vec![b"d/B".to_vec(), b"d/a".to_vec(), b"d/m".to_vec(), b"d/zz".to_vec()]);
    assert_eq!(node.state(), None);
    assert_eq!(map.get_node(b"d/a").unwrap().state(), Some(EntryState::Normal));
}

#[test]
fn decoded_keys_borrow_and_inserted_keys_own() {
    let mut image = vec![0u8; 40];
    image.extend(record(b'n', b"a/b"));
    let (mut map, _) = DirstateMap::new_v1(&image).unwrap();
    let child = &map.get_node(b"a").unwrap().children[0];
    assert!(matches!(child.key.full_path, PathSlice::Borrowed { .. }));
    map.add_file(b"a/c", EntryState::Removed, normal(1, 1)).unwrap();
    let node = map.get_node(b"a").unwrap();
    let added = node.children.iter().find(|c| c.key.full_path.as_bytes(&image) == b"a/c").unwrap();
    assert!(matches!(added.key.full_path, PathSlice::Owned(_)));
    assert_eq!(node.tracked_descendants_count, 2);
}

#[test]
fn copy_map_counts_follow_insert_and_remove() {
    let mut map = DirstateMap::empty(&[]);
    assert_eq!(map.copy_map_insert(b"p".to_vec(), b"q".to_vec()), None);
    assert_eq!(map.copy_map_insert(b"p".to_vec(), b"r".to_vec()), Some(b"q".to_vec()));
    assert_eq!(map.copy_map_len(), 1);
    assert_eq!(map.copy_map_remove(b"p"), Some(b"r".to_vec()));
    assert_eq!(map.copy_map_len(), 0);
    assert_eq!(map.copy_map_remove(b"p"), None);
}
