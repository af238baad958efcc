//! A reader/writer lock guarding a value under a fixed invariant, built on
//! vstd's verified lock. `find` paths take the read side (concurrent
//! readers allowed); mutation takes the write side (exclusive). Unlike a
//! lock that can be poisoned, this one has no poisoned state at all: a
//! writer must hand a value satisfying the invariant back before the lock
//! opens again.

use vstd::prelude::*;

verus! {

/// The invariant a lock-guarded value keeps: it holds when the value goes
/// in, and every writer must restore it before releasing.
pub trait LockInv: Sized {
    /// The property the lock maintains.
    spec fn lock_inv(self) -> bool;
}

/// A reader/writer lock over a value of `T`, maintaining `T::lock_inv`.
#[verifier::reject_recursive_types(T)]
pub struct RwLock<T: LockInv> {
    inner: vstd::rwlock::RwLock<T, spec_fn(T) -> bool>,
}

/// A granted shared read-lock. Borrow the value as often as needed, then
/// release.
#[verifier::reject_recursive_types(T)]
pub struct RwLockReadGuard<'a, T: LockInv> {
    handle: vstd::rwlock::ReadHandle<'a, T, spec_fn(T) -> bool>,
}

/// A granted exclusive write-lock. The value itself comes out of
/// [`RwLock::write`] beside this guard; hand a value back with `release`
/// to open the lock again.
#[verifier::reject_recursive_types(T)]
pub struct RwLockWriteGuard<'a, T: LockInv> {
    handle: vstd::rwlock::WriteHandle<'a, T, spec_fn(T) -> bool>,
}

impl<T: LockInv> RwLock<T> {
    /// The lock maintains exactly `T::lock_inv`.
    pub closed spec fn wf(self) -> bool {
        self.inner.pred() == (|t: T| t.lock_inv())
    }

    /// Wraps `value` in a new lock.
    pub fn new(value: T) -> (s: Self)
        requires
            value.lock_inv(),
        ensures
            s.wf(),
    {
        RwLock { inner: vstd::rwlock::RwLock::new(value, Ghost(|t: T| t.lock_inv())) }
    }

    /// Destroys the lock and returns the guarded value.
    pub fn into_inner(self) -> (t: T)
        requires
            self.wf(),
        ensures
            t.lock_inv(),
    {
        self.inner.into_inner()
    }

    /// Acquires a shared read-lock; other readers may hold one too.
    pub fn read(&self) -> (guard: RwLockReadGuard<'_, T>)
        requires
            self.wf(),
        ensures
            guard.value().lock_inv(),
    {
        RwLockReadGuard { handle: self.inner.acquire_read() }
    }

    /// Acquires the exclusive write-lock, taking the guarded value out;
    /// the guard's `release` puts a value back in.
    pub fn write(&self) -> (r: (T, RwLockWriteGuard<'_, T>))
        requires
            self.wf(),
        ensures
            r.0.lock_inv(),
            r.1.lock_wf(),
    {
        let (t, handle) = self.inner.acquire_write();
        (t, RwLockWriteGuard { handle })
    }
}

impl<'a, T: LockInv> RwLockReadGuard<'a, T> {
    /// The value this read-lock observes.
    pub closed spec fn value(self) -> T {
        self.handle.view()
    }

    /// Borrows the guarded value.
    pub fn borrow(&self) -> (t: &T)
        ensures
            *t == self.value(),
    {
        self.handle.borrow()
    }

    /// Releases the read-lock.
    pub fn release(self) {
        self.handle.release_read()
    }
}

impl<'a, T: LockInv> RwLockWriteGuard<'a, T> {
    /// The guard belongs to a lock that maintains `T::lock_inv`.
    pub closed spec fn lock_wf(self) -> bool {
        self.handle.rwlock().pred() == (|t: T| t.lock_inv())
    }

    /// Puts `value` into the lock and releases the write-lock.
    pub fn release(self, value: T)
        requires
            self.lock_wf(),
            value.lock_inv(),
    {
        self.handle.release_write(value)
    }
}

} // verus!
