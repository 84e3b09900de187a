use hg_dirstate::dirstate_map::DirstateMap;
use hg_dirstate::entry::DirstateEntry;
use hg_dirstate::entry::EntryState;
use hg_dirstate::ref_sharing::GateError;
use hg_dirstate::ref_sharing::PySharedRefCell;

fn prepare_env() -> PySharedRefCell<String> {
    PySharedRefCell::new("new".to_owned())
}

#[test]
fn test_leaked_borrow() {
    let mut cell = prepare_env();
    let leaked = cell.leak_immutable(|s: &String| s.clone());
    let leaked_ref = leaked.try_borrow(&mut cell).unwrap();
    assert_eq!(*leaked_ref.deref(), "new");
}

#[test]
fn test_leaked_borrow_mut() {
    let mut cell = prepare_env();
    let leaked = cell.leak_immutable(|s: &String| s.clone());
    let mut leaked_iter = leaked.map(&cell, |s: String| s.chars().collect::<Vec<char>>().into_iter());
    let mut leaked_ref = leaked_iter.try_borrow_mut(&mut cell).unwrap();
    assert_eq!(leaked_ref.deref_mut().next(), Some('n'));
    assert_eq!(leaked_ref.deref_mut().next(), Some('e'));
    assert_eq!(leaked_ref.deref_mut().next(), Some('w'));
    assert_eq!(leaked_ref.deref_mut().next(), None);
}

#[test]
fn test_leaked_borrow_after_mut() {
    let mut cell = prepare_env();
    let leaked = cell.leak_immutable(|s: &String| s.clone());
    let guard = cell.borrow_mut();
    cell.get_mut(&guard).clear();
    cell.release_borrow_mut(guard);
    assert!(leaked.try_borrow(&mut cell).is_err());
}

#[test]
fn test_leaked_borrow_mut_after_mut() {
    let mut cell = prepare_env();
    let leaked = cell.leak_immutable(|s: &String| s.clone());
    let mut leaked_iter = leaked.map(&cell, |s: String| s.chars().collect::<Vec<char>>().into_iter());
    let guard = cell.borrow_mut();
    cell.get_mut(&guard).clear();
    cell.release_borrow_mut(guard);
    assert!(leaked_iter.try_borrow_mut(&mut cell).is_err());
}

#[test]
fn test_try_borrow_mut_while_leaked_ref() {
    let mut cell = prepare_env();
    let first = cell.try_borrow_mut();
    assert!(first.is_ok());
    cell.release_borrow_mut(first.unwrap());
    let leaked = cell.leak_immutable(|s: &String| s.clone());
    {
        let leaked_ref = leaked.try_borrow(&mut cell).unwrap();
        assert!(cell.try_borrow_mut().is_err());
        {
            let leaked_ref2 = leaked.try_borrow(&mut cell).unwrap();
            assert!(cell.try_borrow_mut().is_err());
            cell.release_leaked(leaked_ref2);
        }
        assert!(cell.try_borrow_mut().is_err());
        cell.release_leaked(leaked_ref);
    }
    assert!(cell.try_borrow_mut().is_ok());
}

#[test]
fn test_try_borrow_mut_while_leaked_ref_mut() {
    let mut cell = prepare_env();
    let first = cell.try_borrow_mut();
    assert!(first.is_ok());
    cell.release_borrow_mut(first.unwrap());
    let leaked = cell.leak_immutable(|s: &String| s.clone());
    let mut leaked_iter = leaked.map(&cell, |s: String| s.chars().collect::<Vec<char>>().into_iter());
    {
        let leaked_ref = leaked_iter.try_borrow_mut(&mut cell).unwrap();
        assert!(cell.try_borrow_mut().is_err());
        cell.release_leaked_mut(leaked_ref);
    }
    assert!(cell.try_borrow_mut().is_ok());
}

#[test]
fn test_try_borrow_mut_while_borrow() {
    let mut cell = prepare_env();
    let _ref = cell.borrow();
    assert!(cell.try_borrow_mut().is_err());
}

#[test]
fn borrow_released_allows_mutation() {
    let mut cell = prepare_env();
    let r = cell.borrow();
    assert_eq!(cell.try_borrow_mut().err(), Some(GateError::BorrowConflict));
    cell.release_borrow(r);
    assert!(cell.try_borrow_mut().is_ok());
}

#[test]
fn leak_at_current_generation_is_valid_and_goes_stale_after_mutation() {
    let mut cell = prepare_env();
    let leaked = cell.leak_immutable(|s: &String| s.len());
    assert!(leaked.validate_generation(&cell).is_ok());
    let r = leaked.try_borrow(&mut cell).unwrap();
    assert_eq!(*r.deref(), 3);
    cell.release_leaked(r);
    let guard = cell.try_borrow_mut().unwrap();
    cell.release_borrow_mut(guard);
    assert_eq!(leaked.validate_generation(&cell), Err(GateError::StaleLeak));
    assert_eq!(leaked.try_borrow(&mut cell).err(), Some(GateError::StaleLeak));
    let fresh = cell.leak_immutable(|s: &String| s.len());
    assert!(fresh.try_borrow(&mut cell).is_ok());
}

#[test]
fn leaked_tree_iterator_goes_stale_after_add_file() {
    let entry = DirstateEntry { state: EntryState::Normal, mode: 0, size: 1, mtime: 2 };
    let mut map = DirstateMap::empty(&[]);
    map.add_file(b"a", EntryState::Removed, entry).unwrap();
    map.add_file(b"b", EntryState::Removed, entry).unwrap();
    let mut cell = PySharedRefCell::new(map);
    let leaked = cell.leak_immutable(|m: &DirstateMap| {
        m.iter().into_iter().map(|(p, e)| (p.to_vec(), e)).collect::<Vec<_>>().into_iter()
    });
    let mut leaked_iter = leaked;
    {
        let mut r = leaked_iter.try_borrow_mut(&mut cell).unwrap();
        assert!(r.deref_mut().next().is_some());
        cell.release_leaked_mut(r);
    }
    let guard = cell.borrow_mut();
    cell.get_mut(&guard).add_file(b"c", EntryState::Removed, entry).unwrap();
    cell.release_borrow_mut(guard);
    assert_eq!(leaked_iter.try_borrow_mut(&mut cell).err(), Some(GateError::StaleLeak));
}

#[test]
fn leak_is_refused_by_a_cell_of_another_owner() {
    let mut first = PySharedRefCell::with_owner("one".to_owned(), 1);
    let mut second = PySharedRefCell::with_owner("two".to_owned(), 2);
    let leaked = first.leak_immutable(|s: &String| s.clone());
    assert_eq!(leaked.try_borrow(&mut second).err(), Some(GateError::StaleLeak));
    let r = leaked.try_borrow(&mut first).unwrap();
    assert_eq!(*r.deref(), "one");
    first.release_leaked(r);
}
