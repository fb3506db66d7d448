//! A heap-free mutual-exclusion primitive.
//!
//! The allocator needs a lock with no heap dependency: a general blocking
//! mutex may allocate to build its OS primitive, and the allocator's own
//! lock must never allocate, or initialization would recurse. This module
//! captures the lock as a verified state machine: a flag that is set
//! exactly while some guard holds exclusive access, with the protected
//! value moved into the guard for the duration. Releasing consumes the
//! guard, so access is given up exactly once and cannot be duplicated.

use vstd::prelude::*;

verus! {

/// A lock owning one value of type `T` plus a held flag.
///
/// Invariant (`wf`): the flag is set if and only if some caller currently
/// holds exclusive access to the value — in which case the value itself
/// has moved out, into that caller's guard.
pub struct Spinlock<T> {
    locked: bool,
    data: Option<T>,
}

/// Exclusive access to the value of one `Spinlock`, from a successful
/// acquisition until release. The guard owns the value for its lifetime;
/// no other guard for the same lock can exist concurrently, because the
/// lock hands its value out only while the flag is clear.
pub struct SpinlockGuard<T> {
    data: T,
}

impl<T> View for SpinlockGuard<T> {
    type V = T;

    closed spec fn view(&self) -> T {
        self.data
    }
}

impl<T> SpinlockGuard<T> {
    /// Read access to the protected value.
    pub fn get(&self) -> (r: &T)
        ensures
            *r == self@,
    {
        &self.data
    }

    /// Write access to the protected value.
    pub fn get_mut(&mut self) -> (r: &mut T)
        ensures
            *r == old(self)@,
            final(self)@ == *final(r),
    {
        &mut self.data
    }
}

impl<T> Spinlock<T> {
    /// Whether some guard currently holds exclusive access.
    pub closed spec fn spec_locked(self) -> bool {
        self.locked
    }

    /// The protected value, present exactly while the lock is free.
    pub closed spec fn spec_data(self) -> Option<T> {
        self.data
    }

    /// Flag and value agree: the value is out exactly while the flag is
    /// set.
    pub open spec fn wf(self) -> bool {
        self.spec_locked() <==> self.spec_data() is None
    }

    /// A fresh, unlocked lock around `data`. Construction touches no heap
    /// and cannot fail, so a lock can exist before any allocator works.
    pub fn new(data: T) -> (s: Self)
        ensures
            s.wf(),
            !s.spec_locked(),
            s.spec_data() == Some(data),
    {
        Spinlock { locked: false, data: Some(data) }
    }

    /// Acquires exclusive access and hands the protected value to the
    /// returned guard.
    ///
    /// A thread that already holds this lock and asks again would spin
    /// against itself forever (there is no re-entrancy), so acquisition
    /// is specified only for a free lock, where it succeeds at once.
    pub fn lock(&mut self) -> (g: SpinlockGuard<T>)
        requires
            old(self).wf(),
            !old(self).spec_locked(),
        ensures
            final(self).wf(),
            final(self).spec_locked(),
            old(self).spec_data() == Some(g@),
    {
        self.locked = true;
        match self.data.take() {
            Some(d) => SpinlockGuard { data: d },
            None => vstd::pervasive::unreached(),
        }
    }

    /// Releases the lock, restoring the value carried by the guard. The
    /// guard is consumed, so release happens exactly once per
    /// acquisition.
    pub fn unlock(&mut self, g: SpinlockGuard<T>)
        requires
            old(self).wf(),
            old(self).spec_locked(),
        ensures
            final(self).wf(),
            !final(self).spec_locked(),
            final(self).spec_data() == Some(g@),
    {
        let SpinlockGuard { data } = g;
        self.locked = false;
        self.data = Some(data);
    }
}

} // verus!
