//! The shared interner: one buffer pool behind a reader/writer lock.
//! `find` takes the read side, so readers run concurrently; `add`,
//! `find_or_add` and `clear` take the write side, so a find-or-add's two
//! steps run inside one exclusive critical section and two concurrent
//! calls on the same bytes cannot race. What a returned reference
//! designates can change under a shared handle only by later appends,
//! which never move committed bytes; the contracts here promise what
//! holds of the returned copies, and the strong per-state contracts live
//! on the exclusive-owner interner and on the pool itself.

use vstd::prelude::*;

use crate::builder::{concat_bytes, lemma_concat_empty, lemma_concat_len, PlainData};
use crate::inner::{DataInternerInner, InternedRef};
use crate::rwlock::{LockInv, RwLock};
use crate::unsync::DataInterner as UnsyncDataInterner;
use crate::unsync::{slice_bytes, value_bytes};

verus! {

impl LockInv for DataInternerInner {
    /// The lock maintains the pool invariant.
    open spec fn lock_inv(self) -> bool {
        self.wf()
    }
}

/// A thread-safe data interner: the buffer pool behind a reader/writer
/// lock.
pub struct DataInterner {
    inner: RwLock<DataInternerInner>,
}

impl DataInterner {
    /// The interner's invariant: its lock maintains the pool invariant.
    pub closed spec fn wf(self) -> bool {
        self.inner.wf()
    }

    /// Constructs a new, empty shared interner. It does not allocate
    /// until something is added.
    pub fn new() -> (s: Self)
        ensures
            s.wf(),
    {
        DataInterner { inner: RwLock::new(DataInternerInner::new()) }
    }

    /// Converts to the exclusive-owner interner without copying or
    /// removing data. Taking `self` by value invalidates every handle, so
    /// no reference can cross the boundary.
    pub fn into_unsync(self) -> (u: UnsyncDataInterner)
        requires
            self.wf(),
        ensures
            u.wf(),
    {
        let pool = self.inner.into_inner();
        UnsyncDataInterner { inner: pool }
    }

    /// Returns a copy of interned data equal to `value`, if any exists.
    /// The search holds the read lock, so concurrent readers proceed.
    pub fn find_bytes(&self, value: &[u8]) -> (r: Option<Vec<u8>>)
        requires
            self.wf(),
        ensures
            match r {
                Some(b) => b@ == value@,
                None => true,
            },
            value@.len() == 0 ==> r.is_some(),
    {
        if value.len() == 0 {
            return Some(Vec::new());
        }
        let guard = self.inner.read();
        let pool = guard.borrow();
        let found = pool.find_bytes(value);
        let out = match found {
            Some(rf) => Some(pool.read_bytes(&rf)),
            None => None,
        };
        guard.release();
        out
    }

    /// Returns a reference to data equal to `value`, adding it if it does
    /// not yet exist; both steps run inside one exclusive critical
    /// section. Also returns a copy of the interned bytes.
    pub fn find_or_add_bytes(&self, value: &[u8]) -> (r: (InternedRef, Vec<u8>))
        requires
            self.wf(),
            value@.len() < usize::MAX,
        ensures
            r.1@ == value@,
            r.0.len == value@.len(),
    {
        if value.len() == 0 {
            return (InternedRef::empty(), Vec::new());
        }
        let (mut pool, guard) = self.inner.write();
        let rf = pool.find_or_add_bytes(value);
        let bytes = pool.read_bytes(&rf);
        guard.release(pool);
        (rf, bytes)
    }

    /// Inserts data equal to `value` unconditionally under the write
    /// lock, returning a reference and a copy of the interned bytes.
    pub fn add_bytes(&self, value: &[u8]) -> (r: (InternedRef, Vec<u8>))
        requires
            self.wf(),
            value@.len() < usize::MAX,
        ensures
            r.1@ == value@,
            r.0.len == value@.len(),
    {
        if value.len() == 0 {
            return (InternedRef::empty(), Vec::new());
        }
        let (mut pool, guard) = self.inner.write();
        let rf = pool.add_bytes(value);
        let bytes = pool.read_bytes(&rf);
        guard.release(pool);
        (rf, bytes)
    }

    /// Absorbs a caller-owned byte buffer under the write lock, returning
    /// a reference and a copy of the interned bytes.
    pub fn add_owned_bytes(&self, value: Vec<u8>) -> (r: (InternedRef, Vec<u8>))
        requires
            self.wf(),
        ensures
            r.1@ == value@,
            r.0.len == value@.len(),
    {
        let (mut pool, guard) = self.inner.write();
        let rf = pool.add_owned_bytes(value);
        let bytes = pool.read_bytes(&rf);
        guard.release(pool);
        (rf, bytes)
    }

    /// Returns a copy of interned data bytewise-equal to `value`, if any
    /// exists at the elements' alignment, under the read lock. Empty
    /// slices and zero-sized elements always succeed.
    pub fn find_slice<T: PlainData>(&self, value: &[T]) -> (r: Option<Vec<u8>>)
        requires
            self.wf(),
        ensures
            match r {
                Some(b) => b@ == concat_bytes(value@),
                None => true,
            },
            value@.len() == 0 || T::size_spec() == 0 ==> r.is_some(),
    {
        let sz = T::size();
        if value.len() == 0 || sz == 0 {
            proof {
                lemma_concat_empty::<T>(value@);
            }
            return Some(Vec::new());
        }
        let bytes = slice_bytes(value);
        proof {
            T::layout_facts();
            lemma_concat_len::<T>(value@);
            assert((value@.len() as int) * (T::size_spec() as int) >= 1 * 1) by (nonlinear_arith)
                requires
                    value@.len() as int >= 1,
                    T::size_spec() as int >= 1,
            ;
        }
        let guard = self.inner.read();
        let pool = guard.borrow();
        let found = pool.find_bytes_with_align(bytes.as_slice(), T::align());
        let out = match found {
            Some(rf) => Some(pool.read_bytes(&rf)),
            None => None,
        };
        guard.release();
        out
    }

    /// Returns a reference to data bytewise-equal to `value`, adding it at
    /// the elements' alignment if it does not yet exist; both steps run
    /// inside one exclusive critical section. Also returns a copy of the
    /// interned bytes.
    pub fn find_or_add_slice<T: PlainData>(&self, value: &[T]) -> (r: (InternedRef, Vec<u8>))
        requires
            self.wf(),
            (value@.len() as int) * (T::size_spec() as int) + T::align_spec() <= usize::MAX,
        ensures
            r.1@ == concat_bytes(value@),
            r.0.len == concat_bytes(value@).len(),
            value@.len() > 0 && T::size_spec() > 0 ==> (r.0.addr as int) % (
            T::align_spec() as int) == 0,
    {
        let sz = T::size();
        if value.len() == 0 || sz == 0 {
            proof {
                lemma_concat_empty::<T>(value@);
            }
            return (InternedRef::empty(), Vec::new());
        }
        let bytes = slice_bytes(value);
        proof {
            T::layout_facts();
            lemma_concat_len::<T>(value@);
            assert((value@.len() as int) * (T::size_spec() as int) >= 1 * 1) by (nonlinear_arith)
                requires
                    value@.len() as int >= 1,
                    T::size_spec() as int >= 1,
            ;
        }
        let (mut pool, guard) = self.inner.write();
        let rf = pool.find_or_add_bytes_with_align(bytes.as_slice(), T::align());
        let copy = pool.read_bytes(&rf);
        guard.release(pool);
        (rf, copy)
    }

    /// Inserts data bytewise-equal to `value` unconditionally at the
    /// elements' alignment, under the write lock. Also returns a copy of
    /// the interned bytes.
    pub fn add_slice<T: PlainData>(&self, value: &[T]) -> (r: (InternedRef, Vec<u8>))
        requires
            self.wf(),
            (value@.len() as int) * (T::size_spec() as int) + T::align_spec() <= usize::MAX,
        ensures
            r.1@ == concat_bytes(value@),
            r.0.len == concat_bytes(value@).len(),
            value@.len() > 0 && T::size_spec() > 0 ==> (r.0.addr as int) % (
            T::align_spec() as int) == 0,
    {
        let sz = T::size();
        if value.len() == 0 || sz == 0 {
            proof {
                lemma_concat_empty::<T>(value@);
            }
            return (InternedRef::empty(), Vec::new());
        }
        let bytes = slice_bytes(value);
        proof {
            T::layout_facts();
            lemma_concat_len::<T>(value@);
            assert((value@.len() as int) * (T::size_spec() as int) >= 1 * 1) by (nonlinear_arith)
                requires
                    value@.len() as int >= 1,
                    T::size_spec() as int >= 1,
            ;
        }
        let (mut pool, guard) = self.inner.write();
        let rf = pool.add_bytes_with_align(bytes.as_slice(), T::align());
        let copy = pool.read_bytes(&rf);
        guard.release(pool);
        (rf, copy)
    }

    /// Inserts a caller-owned vector of elements under the write lock. A
    /// vector that owns no storage, and zero-sized elements, trivially
    /// succeed; elements demanding an alignment above 1 are otherwise
    /// rejected, the vector coming back unmodified. On success, also
    /// returns a copy of the interned bytes.
    pub fn try_add_owned<T: PlainData>(&self, value: Vec<T>) -> (r: Result<
        (InternedRef, Vec<u8>),
        Vec<T>,
    >)
        requires
            self.wf(),
        ensures
            r matches Err(v) ==> v == value && T::size_spec() > 0 && T::align_spec() != 1,
            value@.len() > 0 && T::size_spec() > 0 && T::align_spec() != 1 ==> r is Err,
            r matches Ok(ok) ==> ok.1@ == concat_bytes(value@) && ok.0.len == concat_bytes(
                value@,
            ).len(),
            T::size_spec() == 0 || T::align_spec() == 1 ==> r is Ok,
    {
        let cap = crate::unsync::vec_capacity(&value);
        if cap == 0 {
            proof {
                lemma_concat_empty::<T>(value@);
            }
            return Ok((InternedRef::empty(), Vec::new()));
        }
        let sz = T::size();
        if sz == 0 {
            proof {
                lemma_concat_empty::<T>(value@);
            }
            return Ok((InternedRef::empty(), Vec::new()));
        }
        if T::align() != 1 {
            return Err(value);
        }
        let bytes = slice_bytes(value.as_slice());
        let (mut pool, guard) = self.inner.write();
        let rf = pool.add_owned_bytes(bytes);
        let copy = pool.read_bytes(&rf);
        guard.release(pool);
        Ok((rf, copy))
    }

    /// Returns a copy of interned data bytewise-equal to `value`, if any
    /// exists at the value's alignment, under the read lock.
    pub fn find_value<T: PlainData>(&self, value: &T) -> (r: Option<Vec<u8>>)
        requires
            self.wf(),
        ensures
            match r {
                Some(b) => b@ == value.as_bytes(),
                None => true,
            },
            T::size_spec() == 0 ==> r.is_some(),
    {
        let sz = T::size();
        proof {
            value.bytes_len();
        }
        if sz == 0 {
            return Some(Vec::new());
        }
        let bytes = value_bytes(value);
        proof {
            T::layout_facts();
        }
        let guard = self.inner.read();
        let pool = guard.borrow();
        let found = pool.find_bytes_with_align(bytes.as_slice(), T::align());
        let out = match found {
            Some(rf) => Some(pool.read_bytes(&rf)),
            None => None,
        };
        guard.release();
        out
    }

    /// Returns a reference to data bytewise-equal to `value`, adding it at
    /// the value's alignment if it does not yet exist, inside one
    /// exclusive critical section. Also returns a copy of the interned
    /// bytes.
    pub fn find_or_add_value<T: PlainData>(&self, value: &T) -> (r: (InternedRef, Vec<u8>))
        requires
            self.wf(),
            T::size_spec() + T::align_spec() <= usize::MAX,
        ensures
            r.1@ == value.as_bytes(),
            r.0.len == value.as_bytes().len(),
            T::size_spec() > 0 ==> (r.0.addr as int) % (T::align_spec() as int) == 0,
    {
        let sz = T::size();
        proof {
            value.bytes_len();
        }
        if sz == 0 {
            return (InternedRef::empty(), Vec::new());
        }
        let bytes = value_bytes(value);
        proof {
            T::layout_facts();
        }
        let (mut pool, guard) = self.inner.write();
        let rf = pool.find_or_add_bytes_with_align(bytes.as_slice(), T::align());
        let copy = pool.read_bytes(&rf);
        guard.release(pool);
        (rf, copy)
    }

    /// Inserts data bytewise-equal to `value` unconditionally at the
    /// value's alignment, under the write lock. Also returns a copy of the
    /// interned bytes.
    pub fn add_value<T: PlainData>(&self, value: &T) -> (r: (InternedRef, Vec<u8>))
        requires
            self.wf(),
            T::size_spec() + T::align_spec() <= usize::MAX,
        ensures
            r.1@ == value.as_bytes(),
            r.0.len == value.as_bytes().len(),
            T::size_spec() > 0 ==> (r.0.addr as int) % (T::align_spec() as int) == 0,
    {
        let sz = T::size();
        proof {
            value.bytes_len();
        }
        if sz == 0 {
            return (InternedRef::empty(), Vec::new());
        }
        let bytes = value_bytes(value);
        proof {
            T::layout_facts();
        }
        let (mut pool, guard) = self.inner.write();
        let rf = pool.add_bytes_with_align(bytes.as_slice(), T::align());
        let copy = pool.read_bytes(&rf);
        guard.release(pool);
        (rf, copy)
    }

    /// Copies out the bytes a reference designates, after checking at run
    /// time that it designates a committed range of the pool as it now
    /// stands.
    pub fn get_bytes(&self, r: &InternedRef) -> (out: Option<Vec<u8>>)
        requires
            self.wf(),
        ensures
            match out {
                Some(b) => b@.len() == r.len,
                None => true,
            },
    {
        let guard = self.inner.read();
        let pool = guard.borrow();
        let out = pool.read_bytes_checked(r);
        guard.release();
        out
    }

    /// Clears all data without deallocating. This function takes `&mut
    /// self`, which guarantees no other handle to this interner exists,
    /// so no reference into it can be outstanding.
    pub fn clear(&mut self)
        requires
            old(self).wf(),
        ensures
            final(self).wf(),
    {
        let (mut pool, guard) = self.inner.write();
        pool.clear();
        guard.release(pool);
    }

    /// Clears all data, reporting success: with `&mut self` in hand,
    /// exclusivity is already proven.
    pub fn try_clear(&mut self) -> (r: Result<(), ()>)
        requires
            old(self).wf(),
        ensures
            r.is_ok(),
            final(self).wf(),
    {
        self.clear();
        Ok(())
    }
}

impl UnsyncDataInterner {
    /// Converts to the shared interner without copying or removing data.
    /// Taking `self` by value invalidates every observer, so no reference
    /// can cross the boundary.
    pub fn into_sync(self) -> (s: DataInterner)
        requires
            self.wf(),
        ensures
            s.wf(),
    {
        DataInterner { inner: RwLock::new(self.inner) }
    }
}

} // verus!
