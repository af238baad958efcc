//! The exclusive-owner interner: one logical owner drives the buffer pool
//! directly, and Rust's `&mut` discipline is the compile-time-enforced
//! exclusivity — mutation is possible only while no reference observer
//! exists, which is exactly what pool-wide operations such as `clear`
//! demand.

use vstd::prelude::*;

use crate::builder::{concat_bytes, lemma_concat_len, PlainData};
use crate::inner::{extends, DataInternerInner, InternedRef};

verus! {

/// Serializes a slice of plain-data elements into its byte image.
pub(crate) fn slice_bytes<T: PlainData>(slice: &[T]) -> (out: Vec<u8>)
    ensures
        out@ == concat_bytes(slice@),
{
    let mut out: Vec<u8> = Vec::new();
    let mut j: usize = 0;
    while j < slice.len()
        invariant
            j <= slice@.len(),
            out@ =~= concat_bytes(slice@.subrange(0, j as int)),
        decreases slice@.len() - j,
    {
        let ghost pre = slice@.subrange(0, j as int);
        slice[j].append_to(&mut out);
        proof {
            let cur = slice@.subrange(0, j + 1);
            assert(cur.drop_last() =~= pre);
            assert(cur.last() == slice@[j as int]);
            assert(concat_bytes(cur) == concat_bytes(pre) + slice@[j as int].as_bytes());
        }
        j += 1;
    }
    proof {
        assert(slice@.subrange(0, slice@.len() as int) =~= slice@);
    }
    out
}

/// Relies on `Vec::capacity`: how much storage a caller-supplied vector
/// owns — at least its length, per the documentation.
#[verifier::external_body]
pub(crate) fn vec_capacity<T>(v: &Vec<T>) -> (r: usize)
    ensures
        v@.len() <= r,
{
    v.capacity()
}

/// Serializes one plain-data value into its byte image.
pub(crate) fn value_bytes<T: PlainData>(value: &T) -> (out: Vec<u8>)
    ensures
        out@ == value.as_bytes(),
{
    let mut out: Vec<u8> = Vec::new();
    (*value).append_to(&mut out);
    proof {
        assert(out@ =~= value.as_bytes());
    }
    out
}

/// A single-owner data interner. References into it stay interpretable for
/// the interner's whole lifetime: every mutation short of `clear` only
/// appends, and `clear` demands `&mut` access, which guarantees no
/// observer of the old contents survives it.
pub struct DataInterner {
    pub(crate) inner: DataInternerInner,
}

impl DataInterner {
    /// The buffer pool this interner drives.
    pub open(crate) spec fn pool(self) -> DataInternerInner {
        self.inner
    }

    /// The interner's invariant: its pool is well formed.
    pub open spec fn wf(self) -> bool {
        self.pool().wf()
    }

    /// Constructs a new, empty interner. It does not allocate until
    /// something is added.
    pub fn new() -> (s: Self)
        ensures
            s.wf(),
            s.pool().snaps() =~= Seq::<crate::inner::BufSnap>::empty(),
    {
        DataInterner { inner: DataInternerInner::new() }
    }

    /// Returns a reference to data equal to `value`, if it exists. Empty
    /// runs always succeed without searching, with an empty reference.
    pub fn find_bytes(&self, value: &[u8]) -> (r: Option<InternedRef>)
        requires
            self.wf(),
        ensures
            value@.len() == 0 ==> (r matches Some(rf) && rf.len == 0),
            value@.len() > 0 ==> {
                &&& r.is_some() == self.pool().has_match(value@, 1)
                &&& match r {
                    Some(rf) => {
                        &&& self.pool().found_first(value@, 1, rf)
                        &&& self.pool().ref_valid(rf)
                        &&& self.pool().ref_bytes(rf) == value@
                        &&& rf.len == value@.len()
                    },
                    None => !self.pool().has_match(value@, 1),
                }
            },
    {
        if value.len() == 0 {
            return Some(InternedRef::empty());
        }
        self.inner.find_bytes(value)
    }

    /// Returns a reference to data equal to `value`, adding it if it does
    /// not yet exist. Empty runs are not stored.
    pub fn find_or_add_bytes(&mut self, value: &[u8]) -> (rf: InternedRef)
        requires
            old(self).wf(),
            value@.len() < usize::MAX,
        ensures
            final(self).wf(),
            extends(old(self).pool().snaps(), final(self).pool().snaps()),
            final(self).pool().ref_valid(rf),
            final(self).pool().ref_bytes(rf) == value@,
            rf.len == value@.len(),
            value@.len() == 0 ==> *final(self) == *old(self),
            value@.len() > 0 ==> old(self).pool().find_or_add_rel(
                final(self).pool(),
                rf,
                value@,
                1,
            ),
    {
        if value.len() == 0 {
            proof {
                crate::inner::lemma_extends_refl(self.inner.snaps());
            }
            return InternedRef::empty();
        }
        self.inner.find_or_add_bytes(value)
    }

    /// Inserts data equal to `value` unconditionally, returning a
    /// reference to it. Empty runs are not stored.
    pub fn add_bytes(&mut self, value: &[u8]) -> (rf: InternedRef)
        requires
            old(self).wf(),
            value@.len() < usize::MAX,
        ensures
            final(self).wf(),
            extends(old(self).pool().snaps(), final(self).pool().snaps()),
            final(self).pool().ref_valid(rf),
            final(self).pool().ref_bytes(rf) == value@,
            rf.len == value@.len(),
            value@.len() == 0 ==> *final(self) == *old(self),
            value@.len() > 0 ==> old(self).pool().add_rel(final(self).pool(), rf, value@, 1),
    {
        if value.len() == 0 {
            proof {
                crate::inner::lemma_extends_refl(self.inner.snaps());
            }
            return InternedRef::empty();
        }
        self.inner.add_bytes(value)
    }

    /// Absorbs a caller-owned byte buffer, excess capacity included; a
    /// buffer exactly at capacity moves in with no copy, keeping its
    /// backing address.
    pub fn add_owned_bytes(&mut self, value: Vec<u8>) -> (rf: InternedRef)
        requires
            old(self).wf(),
        ensures
            final(self).wf(),
            extends(old(self).pool().snaps(), final(self).pool().snaps()),
            final(self).pool().ref_valid(rf),
            final(self).pool().ref_bytes(rf) == value@,
            rf.len == value@.len(),
            value@.len() > 0 ==> exists|cap: int, base: int|
                #[trigger] old(self).pool().absorbed(final(self).pool(), rf, value@, cap, base)
                    && value@.len() <= cap && base + cap <= usize::MAX,
    {
        self.inner.add_owned_bytes(value)
    }

    /// Copies out the bytes a reference designates, after checking at run
    /// time that it designates a committed range of this interner.
    pub fn get_bytes(&self, r: &InternedRef) -> (out: Option<Vec<u8>>)
        requires
            self.wf(),
        ensures
            out.is_some() == self.pool().ref_valid(*r),
            match out {
                Some(b) => b@ == self.pool().ref_bytes(*r),
                None => !self.pool().ref_valid(*r),
            },
    {
        self.inner.read_bytes_checked(r)
    }

    /// Clears all data without deallocating: every buffer's length drops
    /// to zero and every full buffer is demoted to spare. Taking `&mut
    /// self` guarantees no observer of the old contents survives, so after
    /// this a find for any previously added content returns none.
    pub fn clear(&mut self)
        requires
            old(self).wf(),
        ensures
            final(self).wf(),
            final(self).pool().snaps().len() == old(self).pool().snaps().len(),
            forall|i: int|
                0 <= i < final(self).pool().snaps().len() ==> {
                    &&& (#[trigger] final(self).pool().snaps()[i]).bytes =~= Seq::<u8>::empty()
                    &&& final(self).pool().snaps()[i].base == old(self).pool().snaps()[i].base
                    &&& final(self).pool().snaps()[i].cap == old(self).pool().snaps()[i].cap
                },
            forall|v: Seq<u8>, align: int|
                v.len() >= 1 ==> !#[trigger] final(self).pool().has_match(v, align),
    {
        self.inner.clear();
        proof {
            assert forall|v: Seq<u8>, align: int|
                v.len() >= 1 implies !#[trigger] self.inner.has_match(v, align) by {
                crate::inner::lemma_cleared_finds_nothing(self.inner, v, align);
            };
        }
    }

    /// Clears all data, reporting success: the exclusive owner can always
    /// clear, because `&mut self` itself proves no references are
    /// outstanding.
    pub fn try_clear(&mut self) -> (r: Result<(), ()>)
        requires
            old(self).wf(),
        ensures
            r.is_ok(),
            final(self).wf(),
            final(self).pool().snaps().len() == old(self).pool().snaps().len(),
            forall|i: int|
                0 <= i < final(self).pool().snaps().len() ==> {
                    &&& (#[trigger] final(self).pool().snaps()[i]).bytes =~= Seq::<u8>::empty()
                    &&& final(self).pool().snaps()[i].base == old(self).pool().snaps()[i].base
                    &&& final(self).pool().snaps()[i].cap == old(self).pool().snaps()[i].cap
                },
            forall|v: Seq<u8>, align: int|
                v.len() >= 1 ==> !#[trigger] final(self).pool().has_match(v, align),
    {
        self.clear();
        Ok(())
    }

    /// Returns a reference to data bytewise-equal to `value`, if it exists
    /// at the elements' alignment. Empty slices and zero-sized elements
    /// always succeed with an empty reference.
    pub fn find_slice<T: PlainData>(&self, value: &[T]) -> (r: Option<InternedRef>)
        requires
            self.wf(),
        ensures
            value@.len() == 0 || T::size_spec() == 0 ==> (r matches Some(rf) && rf.len == 0),
            value@.len() > 0 && T::size_spec() > 0 ==> {
                &&& r.is_some() == self.pool().has_match(
                    concat_bytes(value@),
                    T::align_spec() as int,
                )
                &&& match r {
                    Some(rf) => {
                        &&& self.pool().found_first(
                            concat_bytes(value@),
                            T::align_spec() as int,
                            rf,
                        )
                        &&& self.pool().ref_valid(rf)
                        &&& self.pool().ref_bytes(rf) == concat_bytes(value@)
                        &&& (rf.addr as int) % (T::align_spec() as int) == 0
                    },
                    None => !self.pool().has_match(concat_bytes(value@), T::align_spec() as int),
                }
            },
    {
        let sz = T::size();
        if value.len() == 0 || sz == 0 {
            return Some(InternedRef::empty());
        }
        let bytes = slice_bytes(value);
        proof {
            T::layout_facts();
            lemma_concat_len::<T>(value@);
            assert((value@.len() as int) * (T::size_spec() as int) >= 1 * 1) by (nonlinear_arith)
                requires
                    value@.len() as int >= 1,
                    T::size_spec() as int >= 1,
            ;
        }
        self.inner.find_bytes_with_align(bytes.as_slice(), T::align())
    }

    /// Returns a reference to data bytewise-equal to `value`, adding it at
    /// the elements' alignment if it does not yet exist.
    pub fn find_or_add_slice<T: PlainData>(&mut self, value: &[T]) -> (rf: InternedRef)
        requires
            old(self).wf(),
            (value@.len() as int) * (T::size_spec() as int) + T::align_spec() <= usize::MAX,
        ensures
            final(self).wf(),
            extends(old(self).pool().snaps(), final(self).pool().snaps()),
            value@.len() == 0 || T::size_spec() == 0 ==> rf.len == 0 && *final(self) == *old(
                self,
            ),
            value@.len() > 0 && T::size_spec() > 0 ==> {
                &&& final(self).pool().ref_valid(rf)
                &&& final(self).pool().ref_bytes(rf) == concat_bytes(value@)
                &&& (rf.addr as int) % (T::align_spec() as int) == 0
                &&& old(self).pool().find_or_add_rel(
                    final(self).pool(),
                    rf,
                    concat_bytes(value@),
                    T::align_spec() as int,
                )
            },
    {
        let sz = T::size();
        if value.len() == 0 || sz == 0 {
            proof {
                crate::inner::lemma_extends_refl(self.inner.snaps());
            }
            return InternedRef::empty();
        }
        let bytes = slice_bytes(value);
        proof {
            T::layout_facts();
            lemma_concat_len::<T>(value@);
            assert((value@.len() as int) * (T::size_spec() as int) >= 1 * 1) by (nonlinear_arith)
                requires
                    value@.len() as int >= 1,
                    T::size_spec() as int >= 1,
            ;
        }
        self.inner.find_or_add_bytes_with_align(bytes.as_slice(), T::align())
    }

    /// Inserts data bytewise-equal to `value` unconditionally at the
    /// elements' alignment, returning a reference to it.
    pub fn add_slice<T: PlainData>(&mut self, value: &[T]) -> (rf: InternedRef)
        requires
            old(self).wf(),
            (value@.len() as int) * (T::size_spec() as int) + T::align_spec() <= usize::MAX,
        ensures
            final(self).wf(),
            extends(old(self).pool().snaps(), final(self).pool().snaps()),
            value@.len() == 0 || T::size_spec() == 0 ==> rf.len == 0 && *final(self) == *old(
                self,
            ),
            value@.len() > 0 && T::size_spec() > 0 ==> {
                &&& final(self).pool().ref_valid(rf)
                &&& final(self).pool().ref_bytes(rf) == concat_bytes(value@)
                &&& (rf.addr as int) % (T::align_spec() as int) == 0
                &&& old(self).pool().add_rel(
                    final(self).pool(),
                    rf,
                    concat_bytes(value@),
                    T::align_spec() as int,
                )
            },
    {
        let sz = T::size();
        if value.len() == 0 || sz == 0 {
            proof {
                crate::inner::lemma_extends_refl(self.inner.snaps());
            }
            return InternedRef::empty();
        }
        let bytes = slice_bytes(value);
        proof {
            T::layout_facts();
            lemma_concat_len::<T>(value@);
            assert((value@.len() as int) * (T::size_spec() as int) >= 1 * 1) by (nonlinear_arith)
                requires
                    value@.len() as int >= 1,
                    T::size_spec() as int >= 1,
            ;
        }
        self.inner.add_bytes_with_align(bytes.as_slice(), T::align())
    }

    /// Inserts a caller-owned vector of elements. A vector that owns no
    /// storage, and zero-sized elements, trivially succeed with an empty
    /// reference. Otherwise, elements demanding an alignment above 1 are
    /// rejected — the vector comes back unmodified and the caller must go
    /// through a copying path — because an absorbed buffer is never
    /// re-aligned. An error happens only for nonzero-size elements of
    /// alignment above 1; it is certain whenever the vector is nonempty,
    /// and for an empty vector it depends on whether the vector owns
    /// storage, which the contract cannot see.
    pub fn try_add_owned<T: PlainData>(&mut self, value: Vec<T>) -> (r: Result<
        InternedRef,
        Vec<T>,
    >)
        requires
            old(self).wf(),
        ensures
            final(self).wf(),
            extends(old(self).pool().snaps(), final(self).pool().snaps()),
            r matches Err(v) ==> v == value && *final(self) == *old(self) && T::size_spec() > 0
                && T::align_spec() != 1,
            T::size_spec() == 0 ==> (r matches Ok(rf) && rf.len == 0 && *final(self) == *old(self)),
            value@.len() > 0 && T::size_spec() > 0 && T::align_spec() != 1 ==> r is Err,
            value@.len() == 0 && T::size_spec() > 0 && T::align_spec() != 1 ==> (r is Err || (
            r matches Ok(rf) && rf.len == 0 && *final(self) == *old(self))),
            T::size_spec() > 0 && T::align_spec() == 1 ==> (r matches Ok(rf) && {
                &&& final(self).pool().ref_valid(rf)
                &&& final(self).pool().ref_bytes(rf) == concat_bytes(value@)
                &&& rf.len == concat_bytes(value@).len()
                &&& value@.len() > 0 ==> exists|cap: int, base: int|
                    #[trigger] old(self).pool().absorbed(
                        final(self).pool(),
                        rf,
                        concat_bytes(value@),
                        cap,
                        base,
                    ) && concat_bytes(value@).len() <= cap && base + cap <= usize::MAX
            }),
    {
        let cap = vec_capacity(&value);
        if cap == 0 {
            proof {
                crate::inner::lemma_extends_refl(self.inner.snaps());
                assert(concat_bytes(value@) =~= Seq::<u8>::empty());
            }
            return Ok(InternedRef::empty());
        }
        let sz = T::size();
        if sz == 0 {
            proof {
                crate::inner::lemma_extends_refl(self.inner.snaps());
            }
            return Ok(InternedRef::empty());
        }
        if T::align() != 1 {
            proof {
                crate::inner::lemma_extends_refl(self.inner.snaps());
            }
            return Err(value);
        }
        let bytes = slice_bytes(value.as_slice());
        proof {
            lemma_concat_len::<T>(value@);
            if value@.len() > 0 {
                assert((value@.len() as int) * (T::size_spec() as int) >= 1 * 1)
                    by (nonlinear_arith)
                    requires
                        value@.len() as int >= 1,
                        T::size_spec() as int >= 1,
                ;
            }
        }
        let rf = self.inner.add_owned_bytes(bytes);
        Ok(rf)
    }

    /// Returns a reference to data bytewise-equal to `value`, if it exists
    /// at the value's alignment. Zero-sized values always succeed with an
    /// empty reference.
    pub fn find_value<T: PlainData>(&self, value: &T) -> (r: Option<InternedRef>)
        requires
            self.wf(),
        ensures
            T::size_spec() == 0 ==> (r matches Some(rf) && rf.len == 0),
            T::size_spec() > 0 ==> {
                &&& r.is_some() == self.pool().has_match(value.as_bytes(), T::align_spec() as int)
                &&& match r {
                    Some(rf) => {
                        &&& self.pool().found_first(value.as_bytes(), T::align_spec() as int, rf)
                        &&& self.pool().ref_valid(rf)
                        &&& self.pool().ref_bytes(rf) == value.as_bytes()
                        &&& (rf.addr as int) % (T::align_spec() as int) == 0
                    },
                    None => !self.pool().has_match(value.as_bytes(), T::align_spec() as int),
                }
            },
    {
        let sz = T::size();
        if sz == 0 {
            return Some(InternedRef::empty());
        }
        let bytes = value_bytes(value);
        proof {
            T::layout_facts();
            value.bytes_len();
        }
        self.inner.find_bytes_with_align(bytes.as_slice(), T::align())
    }

    /// Returns a reference to data bytewise-equal to `value`, adding it at
    /// the value's alignment if it does not yet exist.
    pub fn find_or_add_value<T: PlainData>(&mut self, value: &T) -> (rf: InternedRef)
        requires
            old(self).wf(),
            T::size_spec() + T::align_spec() <= usize::MAX,
        ensures
            final(self).wf(),
            extends(old(self).pool().snaps(), final(self).pool().snaps()),
            T::size_spec() == 0 ==> rf.len == 0 && *final(self) == *old(self),
            T::size_spec() > 0 ==> {
                &&& final(self).pool().ref_valid(rf)
                &&& final(self).pool().ref_bytes(rf) == value.as_bytes()
                &&& (rf.addr as int) % (T::align_spec() as int) == 0
                &&& old(self).pool().find_or_add_rel(
                    final(self).pool(),
                    rf,
                    value.as_bytes(),
                    T::align_spec() as int,
                )
            },
    {
        let sz = T::size();
        if sz == 0 {
            proof {
                crate::inner::lemma_extends_refl(self.inner.snaps());
            }
            return InternedRef::empty();
        }
        let bytes = value_bytes(value);
        proof {
            T::layout_facts();
            value.bytes_len();
        }
        self.inner.find_or_add_bytes_with_align(bytes.as_slice(), T::align())
    }

    /// Inserts data bytewise-equal to `value` unconditionally at the
    /// value's alignment, returning a reference to it.
    pub fn add_value<T: PlainData>(&mut self, value: &T) -> (rf: InternedRef)
        requires
            old(self).wf(),
            T::size_spec() + T::align_spec() <= usize::MAX,
        ensures
            final(self).wf(),
            extends(old(self).pool().snaps(), final(self).pool().snaps()),
            T::size_spec() == 0 ==> rf.len == 0 && *final(self) == *old(self),
            T::size_spec() > 0 ==> {
                &&& final(self).pool().ref_valid(rf)
                &&& final(self).pool().ref_bytes(rf) == value.as_bytes()
                &&& (rf.addr as int) % (T::align_spec() as int) == 0
                &&& old(self).pool().add_rel(
                    final(self).pool(),
                    rf,
                    value.as_bytes(),
                    T::align_spec() as int,
                )
            },
    {
        let sz = T::size();
        if sz == 0 {
            proof {
                crate::inner::lemma_extends_refl(self.inner.snaps());
            }
            return InternedRef::empty();
        }
        let bytes = value_bytes(value);
        proof {
            T::layout_facts();
            value.bytes_len();
        }
        self.inner.add_bytes_with_align(bytes.as_slice(), T::align())
    }
}

} // verus!
