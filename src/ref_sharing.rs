//! A generation-counted gate for handing read-only views of a value to a
//! host that cannot check borrows statically. Every successful mutable
//! borrow moves the generation on; a view leaked before that fails on its
//! next use instead of showing a stale value.
use vstd::prelude::*;

verus! {

/// Why an access to a shared cell is denied.
#[derive(Clone, Copy, Debug, PartialEq, Eq, Structural)]
pub enum GateError {
    /// The value is borrowed, directly or through a leaked view.
    BorrowConflict,
    /// The value was mutably borrowed since the view was leaked.
    StaleLeak,
}

/// Counters shared by a cell and the views leaked from it.
pub struct PySharedState {
    borrow_count: usize,
    generation: usize,
}

impl PySharedState {
    pub closed spec fn spec_borrow_count(&self) -> nat {
        self.borrow_count as nat
    }

    pub closed spec fn spec_generation(&self) -> usize {
        self.generation
    }

    fn current_borrow_count(&self) -> (r: usize)
        ensures
            r == self.spec_borrow_count(),
    {
        self.borrow_count
    }

    fn increase_borrow_count(&mut self)
        requires
            old(self).spec_borrow_count() < usize::MAX,
        ensures
            final(self).spec_borrow_count() == old(self).spec_borrow_count() + 1,
            final(self).spec_generation() == old(self).spec_generation(),
    {
        self.borrow_count = self.borrow_count + 1;
    }

    fn decrease_borrow_count(&mut self)
        requires
            old(self).spec_borrow_count() > 0,
        ensures
            final(self).spec_borrow_count() + 1 == old(self).spec_borrow_count(),
            final(self).spec_generation() == old(self).spec_generation(),
    {
        self.borrow_count = self.borrow_count - 1;
    }

    fn current_generation(&self) -> (r: usize)
        ensures
            r == self.spec_generation(),
    {
        self.generation
    }

    /// Moves the generation on; it wraps around after `usize::MAX`.
    fn increment_generation(&mut self)
        requires
            old(self).spec_borrow_count() == 0,
        ensures
            final(self).spec_borrow_count() == 0,
            final(self).spec_generation() == next_generation(old(self).spec_generation()),
    {
        self.generation = self.generation.wrapping_add(1);
    }
}

/// The generation that follows `g`.
pub open spec fn next_generation(g: usize) -> usize {
    if g == usize::MAX {
        0
    } else {
        (g + 1) as usize
    }
}

/// Token of an immutable borrow taken through the cell.
pub struct PyRef {
    _private: (),
}

/// Token of the mutable borrow of the cell.
pub struct PyRefMut {
    _private: (),
}

/// A value with single-writer / multi-reader borrow tracking, a count of the
/// borrows taken through leaked views, and a generation.
pub struct PySharedRefCell<T> {
    inner: T,
    readers: usize,
    writing: bool,
    py_shared_state: PySharedState,
    owner: usize,
}

impl<T> PySharedRefCell<T> {
    /// The value.
    pub closed spec fn value(&self) -> T {
        self.inner
    }

    /// Number of immutable borrows taken through the cell.
    pub closed spec fn readers(&self) -> nat {
        self.readers as nat
    }

    /// Whether the value is mutably borrowed.
    pub closed spec fn writing(&self) -> bool {
        self.writing
    }

    /// Number of borrows taken through leaked views.
    pub closed spec fn leaked_borrows(&self) -> nat {
        self.py_shared_state.spec_borrow_count()
    }

    /// The current generation.
    pub closed spec fn generation(&self) -> usize {
        self.py_shared_state.spec_generation()
    }

    /// The identifier of the owner that the cell was made for; views leaked
    /// from it carry the same identifier.
    pub closed spec fn owner(&self) -> usize {
        self.owner
    }

    /// Whether a mutable borrow would be granted now.
    pub open spec fn can_borrow_mut(&self) -> bool {
        self.readers() == 0 && !self.writing() && self.leaked_borrows() == 0
    }

    /// A cell holding `value`, not borrowed, at generation 0, for owner 0.
    pub fn new(value: T) -> (r: PySharedRefCell<T>)
        ensures
            r.value() == value,
            r.readers() == 0,
            !r.writing(),
            r.leaked_borrows() == 0,
            r.generation() == 0,
            r.owner() == 0,
    {
        Self::with_owner(value, 0)
    }

    /// A cell holding `value`, not borrowed, at generation 0, for the owner
    /// identified by `owner`. Cells of distinct owners do not accept each
    /// other's leaked views.
    pub fn with_owner(value: T, owner: usize) -> (r: PySharedRefCell<T>)
        ensures
            r.value() == value,
            r.readers() == 0,
            !r.writing(),
            r.leaked_borrows() == 0,
            r.generation() == 0,
            r.owner() == owner,
    {
        Self {
            inner: value,
            readers: 0,
            writing: false,
            py_shared_state: PySharedState { borrow_count: 0, generation: 0 },
            owner,
        }
    }

    /// Borrows the value immutably. It must not be mutably borrowed.
    pub fn borrow(&mut self) -> (r: PyRef)
        requires
            !old(self).writing(),
            old(self).readers() < usize::MAX,
        ensures
            final(self).readers() == old(self).readers() + 1,
            final(self).writing() == old(self).writing(),
            final(self).leaked_borrows() == old(self).leaked_borrows(),
            final(self).generation() == old(self).generation(),
            final(self).value() == old(self).value(),
            final(self).owner() == old(self).owner(),
    {
        self.readers = self.readers + 1;
        PyRef { _private: () }
    }

    /// Ends an immutable borrow.
    pub fn release_borrow(&mut self, _r: PyRef)
        requires
            old(self).readers() > 0,
        ensures
            final(self).readers() + 1 == old(self).readers(),
            final(self).writing() == old(self).writing(),
            final(self).leaked_borrows() == old(self).leaked_borrows(),
            final(self).generation() == old(self).generation(),
            final(self).value() == old(self).value(),
            final(self).owner() == old(self).owner(),
    {
        self.readers = self.readers - 1;
    }

    /// The value, for reading while it is not mutably borrowed.
    pub fn get(&self) -> (r: &T)
        requires
            !self.writing(),
        ensures
            *r == self.value(),
    {
        &self.inner
    }

    /// Borrows the value mutably, unless it is borrowed in any way; on
    /// success the generation moves on, so every leaked view goes stale.
    pub fn try_borrow_mut(&mut self) -> (r: Result<PyRefMut, GateError>)
        ensures
            (r is Ok) == old(self).can_borrow_mut(),
            r matches Err(e) ==> e == GateError::BorrowConflict && *final(self) == *old(self),
            r is Ok ==> final(self).writing() && final(self).generation() == next_generation(old(self).generation()),
            final(self).readers() == old(self).readers(),
            final(self).leaked_borrows() == old(self).leaked_borrows(),
            final(self).value() == old(self).value(),
            final(self).owner() == old(self).owner(),
    {
        if self.py_shared_state.current_borrow_count() > 0 || self.readers > 0 || self.writing {
            return Err(GateError::BorrowConflict);
        }
        self.writing = true;
        self.py_shared_state.increment_generation();
        Ok(PyRefMut { _private: () })
    }

    /// Borrows the value mutably. It must not be borrowed in any way.
    pub fn borrow_mut(&mut self) -> (r: PyRefMut)
        requires
            old(self).can_borrow_mut(),
        ensures
            final(self).writing(),
            final(self).generation() == next_generation(old(self).generation()),
            final(self).readers() == old(self).readers(),
            final(self).leaked_borrows() == old(self).leaked_borrows(),
            final(self).value() == old(self).value(),
            final(self).owner() == old(self).owner(),
    {
        match self.try_borrow_mut() {
            Ok(g) => g,
            Err(_) => PyRefMut { _private: () },
        }
    }

    /// The value, for writing under the mutable borrow `_g`.
    pub fn get_mut(&mut self, _g: &PyRefMut) -> (r: &mut T)
        requires
            old(self).writing(),
        ensures
            *r == old(self).value(),
            final(self).value() == *final(r),
            final(self).owner() == old(self).owner(),
            final(self).writing() == old(self).writing(),
            final(self).readers() == old(self).readers(),
            final(self).leaked_borrows() == old(self).leaked_borrows(),
            final(self).generation() == old(self).generation(),
    {
        &mut self.inner
    }

    /// Ends the mutable borrow.
    pub fn release_borrow_mut(&mut self, _g: PyRefMut)
        ensures
            !final(self).writing(),
            final(self).readers() == old(self).readers(),
            final(self).leaked_borrows() == old(self).leaked_borrows(),
            final(self).generation() == old(self).generation(),
            final(self).value() == old(self).value(),
            final(self).owner() == old(self).owner(),
    {
        self.writing = false;
    }

    /// Leaks a view of the value made by `f`, stamped with the current
    /// generation. The value must not be mutably borrowed; the view holds
    /// no borrow of the cell while it is not in use.
    pub fn leak_immutable<U, F: Fn(&T) -> U>(&self, f: F) -> (r: PyLeaked<U>)
        requires
            !self.writing(),
            f.requires((&self.value(),)),
        ensures
            r.generation() == self.generation(),
            r.owner() == self.owner(),
            f.ensures((&self.value(),), r.data()),
    {
        let data = f(&self.inner);
        PyLeaked { data, generation: self.py_shared_state.current_generation(), owner: self.owner }
    }

    /// Ends a borrow taken through a leaked view.
    pub fn release_leaked<U>(&mut self, _r: PyLeakedRef<'_, U>)
        requires
            old(self).leaked_borrows() > 0,
        ensures
            final(self).leaked_borrows() + 1 == old(self).leaked_borrows(),
            final(self).readers() == old(self).readers(),
            final(self).writing() == old(self).writing(),
            final(self).generation() == old(self).generation(),
            final(self).value() == old(self).value(),
            final(self).owner() == old(self).owner(),
    {
        self.py_shared_state.decrease_borrow_count();
    }

    /// Ends a mutable borrow of a leaked view's own state.
    pub fn release_leaked_mut<U>(&mut self, _r: PyLeakedRefMut<'_, U>)
        requires
            old(self).leaked_borrows() > 0,
        ensures
            final(self).leaked_borrows() + 1 == old(self).leaked_borrows(),
            final(self).readers() == old(self).readers(),
            final(self).writing() == old(self).writing(),
            final(self).generation() == old(self).generation(),
            final(self).value() == old(self).value(),
            final(self).owner() == old(self).owner(),
    {
        self.py_shared_state.decrease_borrow_count();
    }
}

/// A view leaked from a cell, valid while the cell stays at the
/// generation it was leaked at.
pub struct PyLeaked<T> {
    data: T,
    generation: usize,
    owner: usize,
}

impl<T> PyLeaked<T> {
    pub closed spec fn data(&self) -> T {
        self.data
    }

    pub closed spec fn generation(&self) -> usize {
        self.generation
    }

    /// The owner of the cell the view was leaked from.
    pub closed spec fn owner(&self) -> usize {
        self.owner
    }

    /// Whether the view is still valid for `cell`.
    pub open spec fn is_current<X>(&self, cell: &PySharedRefCell<X>) -> bool {
        self.generation() == cell.generation() && self.owner() == cell.owner()
    }

    /// Succeeds exactly when `cell` is at the generation of the leak.
    pub fn validate_generation<X>(&self, cell: &PySharedRefCell<X>) -> (r: Result<(), GateError>)
        ensures
            (r is Ok) == self.is_current(cell),
            r matches Err(e) ==> e == GateError::StaleLeak,
    {
        if cell.py_shared_state.current_generation() == self.generation && cell.owner == self.owner {
            Ok(())
        } else {
            Err(GateError::StaleLeak)
        }
    }

    /// Borrows the view immutably, counting the borrow in `cell` until it
    /// is released there. Fails once `cell` has been mutably borrowed since
    /// the leak.
    pub fn try_borrow<'a, X>(&'a self, cell: &mut PySharedRefCell<X>) -> (r: Result<PyLeakedRef<'a, T>, GateError>)
        requires
            self.is_current(old(cell)) ==> old(cell).leaked_borrows() < usize::MAX,
        ensures
            (r is Ok) == self.is_current(old(cell)),
            r matches Err(e) ==> e == GateError::StaleLeak && *final(cell) == *old(cell),
            r matches Ok(g) ==> g.value() == self.data() && final(cell).leaked_borrows() == old(cell).leaked_borrows()
                + 1,
            final(cell).readers() == old(cell).readers(),
            final(cell).writing() == old(cell).writing(),
            final(cell).generation() == old(cell).generation(),
            final(cell).value() == old(cell).value(),
            final(cell).owner() == old(cell).owner(),
    {
        match self.validate_generation(cell) {
            Err(e) => Err(e),
            Ok(()) => {
                cell.py_shared_state.increase_borrow_count();
                Ok(PyLeakedRef { data: &self.data })
            },
        }
    }

    /// Borrows the view's own state mutably (to advance an iterator, say),
    /// counting the borrow in `cell` until it is released there. Fails once
    /// `cell` has been mutably borrowed since the leak.
    pub fn try_borrow_mut<'a, X>(&'a mut self, cell: &mut PySharedRefCell<X>) -> (r: Result<PyLeakedRefMut<'a, T>, GateError>)
        requires
            old(self).is_current(old(cell)) ==> old(cell).leaked_borrows() < usize::MAX,
        ensures
            (r is Ok) == old(self).is_current(old(cell)),
            r matches Err(e) ==> e == GateError::StaleLeak && *final(cell) == *old(cell),
            r matches Ok(g) ==> g.value() == old(self).data() && final(cell).leaked_borrows() == old(
                cell,
            ).leaked_borrows() + 1,
            final(cell).readers() == old(cell).readers(),
            final(cell).writing() == old(cell).writing(),
            final(cell).generation() == old(cell).generation(),
            final(cell).value() == old(cell).value(),
            final(cell).owner() == old(cell).owner(),
            final(self).generation() == old(self).generation(),
    {
        match self.validate_generation(cell) {
            Err(e) => Err(e),
            Ok(()) => {
                cell.py_shared_state.increase_borrow_count();
                Ok(PyLeakedRefMut { data: &mut self.data })
            },
        }
    }

    /// Turns the view into `f` of it, keeping its generation. The view must
    /// still be current.
    pub fn map<U, X, F: FnOnce(T) -> U>(self, cell: &PySharedRefCell<X>, f: F) -> (r: PyLeaked<U>)
        requires
            self.is_current(cell),
            f.requires((self.data(),)),
        ensures
            r.generation() == self.generation(),
            r.owner() == self.owner(),
            f.ensures((self.data(),), r.data()),
    {
        let new_data = f(self.data);
        PyLeaked { data: new_data, generation: self.generation, owner: self.owner }
    }
}

/// An immutable borrow of a leaked view.
pub struct PyLeakedRef<'a, T> {
    data: &'a T,
}

impl<'a, T> PyLeakedRef<'a, T> {
    /// The borrowed view.
    pub closed spec fn value(&self) -> T {
        *self.data
    }

    pub fn deref(&self) -> (r: &T)
        ensures
            *r == self.value(),
    {
        self.data
    }
}

/// A mutable borrow of a leaked view's own state.
pub struct PyLeakedRefMut<'a, T> {
    data: &'a mut T,
}

impl<'a, T> PyLeakedRefMut<'a, T> {
    /// The borrowed view, as it is now.
    pub closed spec fn value(&self) -> T {
        *self.data
    }

    pub fn deref(&self) -> (r: &T)
        ensures
            *r == self.value(),
    {
        self.data
    }

    pub fn deref_mut(&mut self) -> (r: &mut T)
        ensures
            *r == old(self).value(),
            final(self).value() == *final(r),
    {
        self.data
    }
}

/// A view leaked at the current generation can be borrowed; once a mutable
/// borrow of the cell has been granted, a view leaked before it cannot.
pub proof fn lemma_leak_invalidation<T, U>(leak: PyLeaked<U>, at_leak: PySharedRefCell<T>, later: PySharedRefCell<T>)
    requires
        leak.generation() == at_leak.generation(),
        leak.owner() == at_leak.owner(),
        later.owner() == at_leak.owner(),
        later.generation() == next_generation(at_leak.generation()),
    ensures
        leak.is_current(&at_leak),
        !leak.is_current(&later),
{
}

/// A view leaked from one owner's cell is never current for another's.
pub proof fn lemma_leak_foreign_cell<T, U>(leak: PyLeaked<U>, at_leak: PySharedRefCell<T>, other: PySharedRefCell<T>)
    requires
        leak.owner() == at_leak.owner(),
        other.owner() != at_leak.owner(),
    ensures
        !leak.is_current(&other),
{
}

} // verus!
