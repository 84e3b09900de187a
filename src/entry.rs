//! Per-file records of the dirstate.
use vstd::prelude::*;

verus! {

/// Size recorded for a file that comes from the second parent of a merge.
pub const SIZE_FROM_OTHER_PARENT: i32 = -2;

/// Modification time recorded when it is not known.
pub const MTIME_UNSET: i32 = -1;

/// Modification time that an entry holds after its mtime has been cleared.
pub const MTIME_CLEARED: i32 = 0;

/// Tracking state of a file in the working copy.
#[derive(Clone, Copy, Debug, PartialEq, Eq, Structural)]
pub enum EntryState {
    Normal,
    Added,
    Removed,
    Merged,
}

impl EntryState {
    pub open spec fn spec_is_tracked(self) -> bool {
        self != EntryState::Removed
    }

    /// Every state but `Removed` is tracked.
    pub fn is_tracked(self) -> (r: bool)
        ensures
            r == self.spec_is_tracked(),
    {
        match self {
            EntryState::Removed => false,
            _ => true,
        }
    }
}

/// State, mode, size and modification time of one file.
#[derive(Clone, Copy, Debug, PartialEq, Eq, Structural)]
pub struct DirstateEntry {
    pub state: EntryState,
    pub mode: i32,
    pub size: i32,
    pub mtime: i32,
}

impl DirstateEntry {
    pub open spec fn spec_is_tracked(self) -> bool {
        self.state.spec_is_tracked()
    }

    pub open spec fn spec_is_non_normal(self) -> bool {
        self.state != EntryState::Normal || self.mtime == MTIME_UNSET
    }

    pub open spec fn spec_is_from_other_parent(self) -> bool {
        self.state == EntryState::Normal && self.size == SIZE_FROM_OTHER_PARENT
    }

    pub open spec fn spec_mtime_is_ambiguous(self, now: i32) -> bool {
        self.mtime == now
    }

    /// The entry with its modification time cleared when it equals `now`.
    pub open spec fn spec_cleared_if_ambiguous(self, now: i32) -> DirstateEntry {
        if self.spec_mtime_is_ambiguous(now) {
            DirstateEntry { mtime: MTIME_CLEARED, ..self }
        } else {
            self
        }
    }

    pub fn is_tracked(&self) -> (r: bool)
        ensures
            r == self.spec_is_tracked(),
    {
        self.state.is_tracked()
    }

    pub fn is_non_normal(&self) -> (r: bool)
        ensures
            r == self.spec_is_non_normal(),
    {
        self.state != EntryState::Normal || self.mtime == MTIME_UNSET
    }

    pub fn is_from_other_parent(&self) -> (r: bool)
        ensures
            r == self.spec_is_from_other_parent(),
    {
        self.state == EntryState::Normal && self.size == SIZE_FROM_OTHER_PARENT
    }

    pub fn mtime_is_ambiguous(&self, now: i32) -> (r: bool)
        ensures
            r == self.spec_mtime_is_ambiguous(now),
    {
        self.mtime == now
    }

    pub fn clear_mtime(&mut self)
        ensures
            *final(self) == (DirstateEntry { mtime: MTIME_CLEARED, ..*old(self) }),
    {
        self.mtime = MTIME_CLEARED;
    }

    /// Clears the modification time if it equals `now`; says whether it did.
    pub fn clear_ambiguous_mtime(&mut self, now: i32) -> (r: bool)
        ensures
            r == old(self).spec_mtime_is_ambiguous(now),
            *final(self) == old(self).spec_cleared_if_ambiguous(now),
    {
        let ambiguous = self.mtime_is_ambiguous(now);
        if ambiguous {
            self.clear_mtime();
        }
        ambiguous
    }
}

/// Seconds since the Unix epoch.
#[derive(Clone, Copy, Debug, PartialEq, Eq, Structural)]
pub struct Timestamp(pub i64);

/// The two revision identifiers that the working copy is based on.
#[derive(Clone, Copy, Debug, PartialEq, Eq)]
pub struct DirstateParents {
    pub p1: [u8; 20],
    pub p2: [u8; 20],
}

} // verus!
