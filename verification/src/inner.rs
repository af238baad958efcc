//! The buffer pool: an alignment-aware, deduplicating bump allocator.
//!
//! The pool owns an arena of byte buffers. Each buffer is either *full*
//! (its length equals its capacity, and it is never written again) or
//! *spare* (it still has room for appends). Committed bytes never move:
//! growth only ever appends to a spare buffer's tail or allocates a fresh
//! buffer, so a reference into committed bytes stays valid for the pool's
//! whole lifetime.
//!
//! References are descriptors: the arena index of a buffer, an offset, a
//! length, and the machine address of the first byte. The arena never
//! removes or reorders buffers, so an index, unlike a raw pointer, is
//! stable by construction.

use vstd::prelude::*;

use crate::align::{
    align_offset, is_aligned_to, is_pow2, lemma_pad_for_unique, lemma_pad_for_works,
    lemma_pow2_pos, pad_for,
};

verus! {

/// The byte written into alignment gaps. Any fixed value would do; nothing
/// may rely on which one it is, only on the gap being initialized.
pub const FILL_BYTE: u8 = 10;

/// The ghost image of one buffer: where its storage lies, how much storage
/// it owns, and the bytes committed so far.
#[verifier::ext_equal]
pub struct BufSnap {
    pub base: int,
    pub cap: int,
    pub bytes: Seq<u8>,
}

/// A read-only view into a committed byte range of the pool. Valid for the
/// pool's entire remaining lifetime (until an explicit clear). Many
/// references may alias identical bytes; that aliasing is the point of
/// deduplication.
#[derive(Clone, Copy, PartialEq, Eq, Structural, Debug)]
pub struct InternedRef {
    /// Arena index of the buffer holding the bytes.
    pub buf_id: usize,
    /// Byte offset of the range within that buffer.
    pub off: usize,
    /// Length of the range in bytes.
    pub len: usize,
    /// Machine address of the first byte of the range.
    pub addr: usize,
}

impl InternedRef {
    /// The canonical reference to an empty byte run; it designates no
    /// storage at all.
    pub fn empty() -> (r: InternedRef)
        ensures
            r.len == 0,
            r.buf_id == 0 && r.off == 0 && r.addr == 0,
    {
        InternedRef { buf_id: 0, off: 0, len: 0, addr: 0 }
    }
}

/// One storage region owned by the pool. `data` holds the committed bytes;
/// `cap` is the fixed number of bytes the region can hold; `base` is the
/// machine address of its first byte, captured when the region was
/// allocated and valid as long as the region is never reallocated (the
/// pool never appends past `cap`, so it never is).
struct Buffer {
    data: Vec<u8>,
    cap: usize,
    base: usize,
}

impl Buffer {
    spec fn snap(self) -> BufSnap {
        BufSnap { base: self.base as int, cap: self.cap as int, bytes: self.data@ }
    }

    spec fn wf(self) -> bool {
        &&& self.data@.len() <= self.cap
        &&& 1 <= self.cap
        &&& self.base + self.cap <= usize::MAX
    }
}

/// `v` occurs in `bytes` at offset `i`.
pub open spec fn is_match(bytes: Seq<u8>, v: Seq<u8>, i: int) -> bool {
    &&& 0 <= i
    &&& i + v.len() <= bytes.len()
    &&& bytes.subrange(i, i + v.len() as int) == v
}

/// `v` occurs in buffer `b` at offset `i` and its first byte lies on a
/// multiple of `align`.
pub open spec fn aligned_match_in(b: BufSnap, v: Seq<u8>, align: int, i: int) -> bool {
    &&& is_match(b.bytes, v, i)
    &&& (b.base + i) % align == 0
}

/// Some aligned occurrence of `v` exists in buffer `b`.
pub open spec fn has_aligned_match(b: BufSnap, v: Seq<u8>, align: int) -> bool {
    exists|i: int| aligned_match_in(b, v, align, i)
}

/// `n` filler bytes, as written into alignment gaps.
pub open spec fn filler(n: int) -> Seq<u8> {
    Seq::new(n as nat, |i: int| FILL_BYTE)
}

/// A reference designates a real committed range of `snaps` (an empty
/// reference is always valid).
pub open spec fn ref_valid_in(snaps: Seq<BufSnap>, r: InternedRef) -> bool {
    r.len == 0 || {
        &&& (r.buf_id as int) < snaps.len()
        &&& r.off + r.len <= snaps[r.buf_id as int].bytes.len()
        &&& r.addr == snaps[r.buf_id as int].base + r.off
    }
}

/// The bytes a reference designates in `snaps`.
pub open spec fn ref_bytes_in(snaps: Seq<BufSnap>, r: InternedRef) -> Seq<u8> {
    if r.len == 0 {
        Seq::empty()
    } else {
        snaps[r.buf_id as int].bytes.subrange(r.off as int, r.off + r.len)
    }
}

/// `s1` grows out of `s0`: every buffer of `s0` is still there, at the same
/// index, with the same storage, and its committed bytes are a prefix of
/// what it holds now. This is the pool's address-stability invariant:
/// every mutation short of a clear satisfies it.
pub open spec fn extends(s0: Seq<BufSnap>, s1: Seq<BufSnap>) -> bool {
    &&& s0.len() <= s1.len()
    &&& forall|i: int|
        0 <= i < s0.len() ==> {
            &&& (#[trigger] s1[i]).base == s0[i].base
            &&& s1[i].cap == s0[i].cap
            &&& s0[i].bytes.len() <= s1[i].bytes.len()
            &&& s1[i].bytes.subrange(0, s0[i].bytes.len() as int) == s0[i].bytes
        }
}

/// Every sequence of buffers extends itself.
pub proof fn lemma_extends_refl(s: Seq<BufSnap>)
    ensures
        extends(s, s),
{
    assert forall|i: int|
        0 <= i < s.len() implies {
        &&& (#[trigger] s[i]).base == s[i].base
        &&& s[i].bytes.subrange(0, s[i].bytes.len() as int) == s[i].bytes
    } by {
        assert(s[i].bytes.subrange(0, s[i].bytes.len() as int) =~= s[i].bytes);
    };
}

/// A reference that was valid before an extension stays valid and keeps
/// designating the same bytes: committed bytes never change address while
/// their buffer lives in the pool.
pub proof fn lemma_ref_stable(s0: Seq<BufSnap>, s1: Seq<BufSnap>, r: InternedRef)
    requires
        extends(s0, s1),
        ref_valid_in(s0, r),
    ensures
        ref_valid_in(s1, r),
        ref_bytes_in(s1, r) == ref_bytes_in(s0, r),
{
    if r.len > 0 {
        let i = r.buf_id as int;
        assert(s1[i].bytes.subrange(0, s0[i].bytes.len() as int) == s0[i].bytes);
        assert(ref_bytes_in(s1, r) =~= ref_bytes_in(s0, r)) by {
            assert forall|j: int| 0 <= j < r.len implies #[trigger] s1[i].bytes[r.off + j]
                == s0[i].bytes[r.off + j] by {
                assert(s0[i].bytes[r.off + j] == s1[i].bytes.subrange(
                    0,
                    s0[i].bytes.len() as int,
                )[r.off + j]);
            }
        };
    }
}

/// Relies on `Vec::with_capacity` and `Vec::as_ptr`: allocates a fresh,
/// empty buffer with room for at least `cap` bytes and reports the address
/// of its storage. A live allocation fits in the address space without
/// wrapping, so `base + cap` cannot exceed `usize::MAX`.
#[verifier::external_body]
pub(crate) fn alloc_buffer(cap: usize) -> (r: (Vec<u8>, usize))
    ensures
        r.0@.len() == 0,
        r.1 + cap <= usize::MAX,
{
    let v: Vec<u8> = Vec::with_capacity(cap);
    let base = v.as_ptr() as usize;
    (v, base)
}

/// Relies on `Vec::capacity` and `Vec::as_ptr`: reports how much storage a
/// caller-supplied buffer owns (at least its length, per the documentation)
/// and the address of that storage. A live allocation fits in the address
/// space without wrapping, so `base + cap` cannot exceed `usize::MAX`.
#[verifier::external_body]
fn measure_buffer(v: &Vec<u8>) -> (r: (usize, usize))
    ensures
        v@.len() <= r.0,
        r.1 + r.0 <= usize::MAX,
{
    (v.capacity(), v.as_ptr() as usize)
}

/// Relies on `memchr::memmem::find`: returns the index of the first
/// occurrence of `needle` inside `haystack`, or nothing when `needle` does
/// not occur.
#[verifier::external_body]
fn memmem_find(haystack: &[u8], needle: &[u8]) -> (r: Option<usize>)
    requires
        needle@.len() >= 1,
    ensures
        match r {
            Some(i) => is_match(haystack@, needle@, i as int) && forall|j: int|
                0 <= j < i ==> !is_match(haystack@, needle@, j),
            None => forall|j: int| !is_match(haystack@, needle@, j),
        },
{
    memchr::memmem::find(haystack, needle)
}

/// Alignment 1 is a power of two.
pub proof fn lemma_one_is_pow2()
    ensures
        is_pow2(1),
{
    assert(1usize == (1usize << 0usize)) by (bit_vector);
}

/// A window into a tail slice of `data` is the same window into `data`,
/// shifted by the tail's start.
proof fn lemma_sub_match(data: Seq<u8>, v: Seq<u8>, from: int, i: int)
    requires
        0 <= from <= data.len(),
        0 <= i,
    ensures
        is_match(data.subrange(from, data.len() as int), v, i) <==> is_match(data, v, from + i),
{
    let sub = data.subrange(from, data.len() as int);
    if i + v.len() <= sub.len() {
        assert(sub.subrange(i, i + v.len() as int) =~= data.subrange(
            from + i,
            from + i + v.len() as int,
        ));
    }
}

/// Searches one buffer for the first occurrence of `value` that starts on
/// a multiple of `align`. A misaligned hit is skipped and the search goes
/// on just past it.
fn find_in_buffer(buf: &Buffer, value: &[u8], align: usize) -> (r: Option<usize>)
    requires
        buf.wf(),
        value@.len() >= 1,
        is_pow2(align),
    ensures
        match r {
            Some(i) => aligned_match_in(buf.snap(), value@, align as int, i as int) && forall|
                j: int,
            |
                0 <= j < i ==> !aligned_match_in(buf.snap(), value@, align as int, j),
            None => !has_aligned_match(buf.snap(), value@, align as int),
        },
{
    let n = buf.data.len();
    let mut from: usize = 0;
    loop
        invariant
            buf.wf(),
            value@.len() >= 1,
            is_pow2(align),
            from <= n,
            n == buf.data@.len(),
            forall|j: int|
                0 <= j < from ==> !aligned_match_in(buf.snap(), value@, align as int, j),
        decreases n - from,
    {
        let sub = vstd::slice::slice_subrange(committed_slice(buf), from, n);
        match memmem_find(sub, value) {
            None => {
                proof {
                    if has_aligned_match(buf.snap(), value@, align as int) {
                        let j = choose|j: int|
                            aligned_match_in(buf.snap(), value@, align as int, j);
                        if j >= from {
                            lemma_sub_match(buf.data@, value@, from as int, j - from);
                            assert(is_match(sub@, value@, j - from));
                        }
                    }
                }
                return None;
            },
            Some(i) => {
                proof {
                    lemma_sub_match(buf.data@, value@, from as int, i as int);
                }
                let abs = from + i;
                if is_aligned_to(align, buf.base + abs) {
                    proof {
                        assert forall|j: int|
                            0 <= j < abs implies !aligned_match_in(
                            buf.snap(),
                            value@,
                            align as int,
                            j,
                        ) by {
                            if j >= from {
                                lemma_sub_match(buf.data@, value@, from as int, j - from);
                                assert(!is_match(sub@, value@, j - from));
                            }
                        }
                    }
                    return Some(abs);
                } else {
                    proof {
                        assert forall|j: int|
                            0 <= j < abs + 1 implies !aligned_match_in(
                            buf.snap(),
                            value@,
                            align as int,
                            j,
                        ) by {
                            if j >= from && j < abs {
                                lemma_sub_match(buf.data@, value@, from as int, j - from);
                                assert(!is_match(sub@, value@, j - from));
                            }
                        }
                    }
                    from = abs + 1;
                }
            },
        }
    }
}

/// The committed bytes of a buffer, as a slice.
fn committed_slice(buf: &Buffer) -> (r: &[u8])
    ensures
        r@ == buf.data@,
{
    buf.data.as_slice()
}

/// A spare buffer can take `vlen` more bytes at the alignment `align`
/// asks for: the run fits its remaining capacity even after the padding
/// that aligns the tail address.
pub open spec fn accepts(b: BufSnap, vlen: int, align: int) -> bool {
    let rem = b.cap - b.bytes.len();
    let pad = pad_for(b.base + b.bytes.len(), align);
    &&& vlen <= rem
    &&& pad <= rem
    &&& vlen <= rem - pad
}

/// The image of a buffer after appending the padding that aligns its tail
/// and then `v`.
pub open spec fn appended(b: BufSnap, v: Seq<u8>, align: int) -> BufSnap {
    let pad = pad_for(b.base + b.bytes.len(), align);
    BufSnap { base: b.base, cap: b.cap, bytes: b.bytes + filler(pad) + v }
}

/// The capacity a fresh buffer is allocated with for a run of `vlen`
/// bytes at alignment `align`.
pub open spec fn fresh_cap(vlen: int, align: int) -> int {
    if vlen + align - 1 >= 1024 {
        vlen + align - 1
    } else {
        1024
    }
}

/// Appends `pad` filler bytes and then `value` to a buffer's tail.
fn buffer_append(buf: &mut Buffer, pad: usize, value: &[u8])
    ensures
        final(buf).data@ =~= old(buf).data@ + filler(pad as int) + value@,
        final(buf).cap == old(buf).cap,
        final(buf).base == old(buf).base,
{
    let mut k: usize = 0;
    while k < pad
        invariant
            k <= pad,
            buf.data@ =~= old(buf).data@ + filler(k as int),
            buf.cap == old(buf).cap,
            buf.base == old(buf).base,
        decreases pad - k,
    {
        buf.data.push(FILL_BYTE);
        assert(buf.data@ =~= old(buf).data@ + filler(k + 1));
        k += 1;
    }
    let mut k2: usize = 0;
    while k2 < value.len()
        invariant
            k2 <= value@.len(),
            buf.data@ =~= old(buf).data@ + filler(pad as int) + value@.subrange(0, k2 as int),
            buf.cap == old(buf).cap,
            buf.base == old(buf).base,
        decreases value@.len() - k2,
    {
        buf.data.push(value[k2]);
        assert(buf.data@ =~= old(buf).data@ + filler(pad as int) + value@.subrange(0, k2 + 1));
        k2 += 1;
    }
    assert(value@.subrange(0, value@.len() as int) =~= value@);
}

/// The buffer pool itself: an arena of buffers (never removed, never
/// reordered) plus the scan orders of the full and the spare buffers.
pub struct DataInternerInner {
    bufs: Vec<Buffer>,
    full_order: Vec<usize>,
    spare_order: Vec<usize>,
}

impl DataInternerInner {
    /// Ghost images of all buffers, indexed by arena index.
    pub closed spec fn snaps(self) -> Seq<BufSnap> {
        self.bufs@.map_values(|b: Buffer| b.snap())
    }

    /// Arena indices of the full buffers, in scan order.
    pub closed spec fn full_ids(self) -> Seq<usize> {
        self.full_order@
    }

    /// Arena indices of the spare buffers, in scan order.
    pub closed spec fn spare_ids(self) -> Seq<usize> {
        self.spare_order@
    }

    /// The order in which `find` walks the buffers: all full buffers, then
    /// all spare buffers.
    pub open spec fn scan(self) -> Seq<usize> {
        self.full_ids() + self.spare_ids()
    }

    /// Pool invariant: the scan order is a permutation of the arena, full
    /// buffers are exactly at capacity, spare buffers strictly below it,
    /// and every buffer's committed bytes fit in its storage.
    pub closed spec fn wf(self) -> bool {
        &&& self.scan().len() == self.bufs@.len()
        &&& forall|j: int|
            0 <= j < self.scan().len() ==> (#[trigger] self.scan()[j] as int) < self.bufs@.len()
        &&& forall|j1: int, j2: int|
            0 <= j1 < j2 < self.scan().len() ==> #[trigger] self.scan()[j1]
                != #[trigger] self.scan()[j2]
        &&& forall|id: int| 0 <= id < self.bufs@.len() ==> #[trigger] self.scan().contains(id as usize)
        &&& forall|j: int|
            0 <= j < self.full_ids().len() ==> (#[trigger] self.bufs@[self.full_ids()[j] as int]).data@.len()
                == self.bufs@[self.full_ids()[j] as int].cap
        &&& forall|j: int|
            0 <= j < self.spare_ids().len() ==> (#[trigger] self.bufs@[self.spare_ids()[j] as int]).data@.len()
                < self.bufs@[self.spare_ids()[j] as int].cap
        &&& forall|i: int| 0 <= i < self.bufs@.len() ==> (#[trigger] self.bufs@[i]).wf()
    }

    /// A reference designates a real committed range of this pool.
    pub open spec fn ref_valid(self, r: InternedRef) -> bool {
        ref_valid_in(self.snaps(), r)
    }

    /// The bytes a reference designates in this pool.
    pub open spec fn ref_bytes(self, r: InternedRef) -> Seq<u8> {
        ref_bytes_in(self.snaps(), r)
    }

    /// Some buffer of the pool holds an aligned occurrence of `v`.
    pub open spec fn has_match(self, v: Seq<u8>, align: int) -> bool {
        exists|j: int|
            0 <= j < self.scan().len() && has_aligned_match(
                #[trigger] self.snaps()[self.scan()[j] as int],
                v,
                align,
            )
    }

    /// `rf` designates the first aligned occurrence of `v` in the pool:
    /// buffers are walked in scan order, and within the first buffer that
    /// holds an aligned occurrence, `rf.off` is the lowest aligned
    /// occurrence.
    pub open spec fn found_first(self, v: Seq<u8>, align: int, rf: InternedRef) -> bool {
        exists|j: int|
            {
                &&& 0 <= j < self.scan().len()
                &&& rf.buf_id == #[trigger] self.scan()[j]
                &&& aligned_match_in(self.snaps()[rf.buf_id as int], v, align, rf.off as int)
                &&& forall|m: int|
                    0 <= m < rf.off ==> !aligned_match_in(
                        self.snaps()[rf.buf_id as int],
                        v,
                        align,
                        m,
                    )
                &&& forall|j2: int|
                    0 <= j2 < j ==> !has_aligned_match(
                        self.snaps()[#[trigger] self.scan()[j2] as int],
                        v,
                        align,
                    )
                &&& rf.len == v.len()
                &&& rf.addr == self.snaps()[rf.buf_id as int].base + rf.off
            }
    }

    /// `self` became `p1` by appending `v` (with aligning padding) to the
    /// tail of the spare buffer at scan position `j`, the first spare
    /// buffer that accepts the run; the buffer moved to the full list
    /// exactly if the append saturated it, leaving the spot to the last
    /// spare buffer.
    pub open spec fn added_to_spare(
        self,
        p1: Self,
        rf: InternedRef,
        v: Seq<u8>,
        align: int,
        j: int,
    ) -> bool {
        let id = self.spare_ids()[j];
        let b = self.snaps()[id as int];
        let pad = pad_for(b.base + b.bytes.len(), align);
        let nb = appended(b, v, align);
        &&& 0 <= j < self.spare_ids().len()
        &&& accepts(b, v.len() as int, align)
        &&& forall|j2: int|
            0 <= j2 < j ==> !accepts(
                self.snaps()[#[trigger] self.spare_ids()[j2] as int],
                v.len() as int,
                align,
            )
        &&& rf.buf_id == id
        &&& rf.off == b.bytes.len() + pad
        &&& rf.len == v.len()
        &&& rf.addr == b.base + rf.off
        &&& p1.snaps() == self.snaps().update(id as int, nb)
        &&& if nb.bytes.len() == nb.cap {
            &&& p1.full_ids() == self.full_ids().push(id)
            &&& p1.spare_ids() == self.spare_ids().update(j, self.spare_ids().last()).drop_last()
        } else {
            &&& p1.full_ids() == self.full_ids()
            &&& p1.spare_ids() == self.spare_ids()
        }
    }

    /// `self` became `p1` by allocating a fresh buffer whose storage lies
    /// at `base`, writing aligning padding and then `v` into it, and
    /// placing it as full or spare depending on whether it ended exactly
    /// full.
    pub open spec fn added_fresh_at(
        self,
        p1: Self,
        rf: InternedRef,
        v: Seq<u8>,
        align: int,
        base: int,
    ) -> bool {
        let cap = fresh_cap(v.len() as int, align);
        let pad = pad_for(base, align);
        &&& 0 <= base
        &&& base + cap <= usize::MAX
        &&& p1.snaps() == self.snaps().push(BufSnap { base, cap, bytes: filler(pad) + v })
        &&& rf.off == pad
        &&& rf.addr == base + pad
        &&& if pad + v.len() == cap {
            &&& p1.full_ids() == self.full_ids().push(rf.buf_id)
            &&& p1.spare_ids() == self.spare_ids()
        } else {
            &&& p1.full_ids() == self.full_ids()
            &&& p1.spare_ids() == self.spare_ids().push(rf.buf_id)
        }
    }

    /// `self` became `p1` by allocating a fresh buffer (no spare buffer
    /// accepted the run) of capacity `fresh_cap`, writing aligning padding
    /// and then `v` into it, and placing it as full or spare depending on
    /// whether it ended exactly full. Where the fresh storage lies is up
    /// to the allocator; everything else is pinned.
    pub open spec fn added_fresh(self, p1: Self, rf: InternedRef, v: Seq<u8>, align: int) -> bool {
        &&& forall|j2: int|
            0 <= j2 < self.spare_ids().len() ==> !accepts(
                self.snaps()[#[trigger] self.spare_ids()[j2] as int],
                v.len() as int,
                align,
            )
        &&& rf.buf_id == self.snaps().len()
        &&& rf.len == v.len()
        &&& exists|base: int| self.added_fresh_at(p1, rf, v, align, base)
    }

    /// Exactly how an unconditional `add` reshapes the pool: an append to
    /// the first accepting spare buffer, or a fresh buffer when none
    /// accepts.
    pub open spec fn add_rel(self, p1: Self, rf: InternedRef, v: Seq<u8>, align: int) -> bool {
        ||| exists|j: int| self.added_to_spare(p1, rf, v, align, j)
        ||| self.added_fresh(p1, rf, v, align)
    }

    /// Constructs a new, empty pool. It does not allocate until something
    /// is added.
    pub fn new() -> (s: Self)
        ensures
            s.wf(),
            s.snaps() =~= Seq::<BufSnap>::empty(),
            s.full_ids() =~= Seq::<usize>::empty(),
            s.spare_ids() =~= Seq::<usize>::empty(),
    {
        DataInternerInner { bufs: Vec::new(), full_order: Vec::new(), spare_order: Vec::new() }
    }

    /// Copies out the bytes a reference designates. The reference must be
    /// valid for this pool, which every reference the pool hands out is,
    /// for the pool's whole lifetime.
    pub fn read_bytes(&self, r: &InternedRef) -> (out: Vec<u8>)
        requires
            self.wf(),
            self.ref_valid(*r),
        ensures
            out@ == self.ref_bytes(*r),
    {
        let mut out: Vec<u8> = Vec::new();
        if r.len == 0 {
            return out;
        }
        let buf = &self.bufs[r.buf_id];
        let mut j: usize = 0;
        while j < r.len
            invariant
                self.wf(),
                self.ref_valid(*r),
                r.len > 0,
                (r.buf_id as int) < self.bufs@.len(),
                buf == self.bufs@[r.buf_id as int],
                j <= r.len,
                r.off + r.len <= buf.data@.len(),
                out@ =~= self.ref_bytes(*r).subrange(0, j as int),
            decreases r.len - j,
        {
            out.push(buf.data[r.off + j]);
            assert(out@ =~= self.ref_bytes(*r).subrange(0, j + 1));
            j += 1;
        }
        assert(out@ =~= self.ref_bytes(*r));
        out
    }

    /// Copies out the bytes a reference designates, after checking at run
    /// time that the reference really designates a committed range of this
    /// pool. A reference from another pool, or one from before a clear,
    /// comes back as nothing.
    pub fn read_bytes_checked(&self, r: &InternedRef) -> (out: Option<Vec<u8>>)
        requires
            self.wf(),
        ensures
            out.is_some() == self.ref_valid(*r),
            match out {
                Some(b) => b@ == self.ref_bytes(*r),
                None => !self.ref_valid(*r),
            },
    {
        if r.len == 0 {
            return Some(Vec::new());
        }
        if r.buf_id >= self.bufs.len() {
            return None;
        }
        let blen = self.bufs[r.buf_id].data.len();
        if r.off > blen || r.len > blen - r.off {
            return None;
        }
        let base = self.bufs[r.buf_id].base;
        proof {
            assert(self.bufs@[r.buf_id as int].wf());
        }
        if r.addr != base + r.off {
            return None;
        }
        Some(self.read_bytes(r))
    }

    /// Scans the full buffers, then the spare buffers, in pool order, for
    /// the first byte run equal to `value` whose start address lies on a
    /// multiple of `align`. A misaligned occurrence is skipped and the
    /// search continues within the same buffer, then in the ones after it.
    pub fn find_bytes_with_align(&self, value: &[u8], align: usize) -> (r: Option<InternedRef>)
        requires
            self.wf(),
            value@.len() >= 1,
            is_pow2(align),
        ensures
            r.is_some() == self.has_match(value@, align as int),
            match r {
                Some(rf) => {
                    &&& self.found_first(value@, align as int, rf)
                    &&& self.ref_valid(rf)
                    &&& self.ref_bytes(rf) == value@
                    &&& rf.len == value@.len()
                    &&& (rf.addr as int) % (align as int) == 0
                },
                None => !self.has_match(value@, align as int),
            },
    {
        let nf = self.full_order.len();
        let ns = self.spare_order.len();
        proof {
            assert(nf + ns == self.bufs@.len());
            assert(self.bufs@.len() == self.bufs.len());
        }
        let mut j: usize = 0;
        while j < nf + ns
            invariant
                self.wf(),
                value@.len() >= 1,
                is_pow2(align),
                nf == self.full_ids().len(),
                ns == self.spare_ids().len(),
                nf + ns == self.scan().len(),
                nf + ns <= usize::MAX,
                j <= nf + ns,
                forall|j2: int|
                    0 <= j2 < j ==> !has_aligned_match(
                        self.snaps()[#[trigger] self.scan()[j2] as int],
                        value@,
                        align as int,
                    ),
            decreases nf + ns - j,
        {
            let id = if j < nf {
                self.full_order[j]
            } else {
                self.spare_order[j - nf]
            };
            assert(id == self.scan()[j as int]);
            assert((id as int) < self.bufs@.len());
            let buf = &self.bufs[id];
            assert(self.snaps()[id as int] == buf.snap());
            match find_in_buffer(buf, value, align) {
                Some(off) => {
                    let addr = buf.base + off;
                    let rf = InternedRef { buf_id: id, off, len: value.len(), addr };
                    proof {
                        assert(aligned_match_in(buf.snap(), value@, align as int, off as int));
                        assert(self.found_first(value@, align as int, rf));
                        assert(self.ref_bytes(rf) == value@);
                        assert(self.has_match(value@, align as int));
                    }
                    return Some(rf);
                },
                None => {
                    j += 1;
                },
            }
        }
        proof {
            if self.has_match(value@, align as int) {
                let jw = choose|jw: int|
                    0 <= jw < self.scan().len() && has_aligned_match(
                        self.snaps()[self.scan()[jw] as int],
                        value@,
                        align as int,
                    );
                assert(!has_aligned_match(
                    self.snaps()[self.scan()[jw] as int],
                    value@,
                    align as int,
                ));
            }
        }
        None
    }

    /// Scans for the first occurrence of `value` with no alignment demand
    /// (alignment 1).
    pub fn find_bytes(&self, value: &[u8]) -> (r: Option<InternedRef>)
        requires
            self.wf(),
            value@.len() >= 1,
        ensures
            r.is_some() == self.has_match(value@, 1),
            match r {
                Some(rf) => {
                    &&& self.found_first(value@, 1, rf)
                    &&& self.ref_valid(rf)
                    &&& self.ref_bytes(rf) == value@
                    &&& rf.len == value@.len()
                },
                None => !self.has_match(value@, 1),
            },
    {
        proof {
            lemma_one_is_pow2();
        }
        self.find_bytes_with_align(value, 1)
    }

    /// Appends `value` unconditionally (no deduplication check). The first
    /// spare buffer whose remaining capacity holds the run after aligning
    /// padding receives it; the padding bytes are written as initialized
    /// filler, and a buffer that ends exactly full moves to the full list
    /// without its bytes moving. When no spare buffer accepts the run, a
    /// fresh buffer of capacity `max(1024, len + align - 1)` is allocated.
    pub fn add_bytes_with_align(&mut self, value: &[u8], align: usize) -> (rf: InternedRef)
        requires
            old(self).wf(),
            value@.len() >= 1,
            is_pow2(align),
            value@.len() + align <= usize::MAX,
        ensures
            final(self).wf(),
            extends(old(self).snaps(), final(self).snaps()),
            final(self).ref_valid(rf),
            final(self).ref_bytes(rf) == value@,
            rf.len == value@.len(),
            (rf.addr as int) % (align as int) == 0,
            old(self).add_rel(*final(self), rf, value@, align as int),
    {
        proof {
            lemma_pow2_pos(align);
        }
        let vlen = value.len();
        let ns = self.spare_order.len();
        let nf = self.full_order.len();
        let mut j: usize = 0;
        while j < ns
            invariant
                *self == *old(self),
                self.wf(),
                value@.len() >= 1,
                align >= 1,
                is_pow2(align),
                vlen == value@.len(),
                vlen + align <= usize::MAX,
                ns == self.spare_ids().len(),
                nf == self.full_ids().len(),
                j <= ns,
                forall|j2: int|
                    0 <= j2 < j ==> !accepts(
                        self.snaps()[#[trigger] self.spare_ids()[j2] as int],
                        vlen as int,
                        align as int,
                    ),
            decreases ns - j,
        {
            let id = self.spare_order[j];
            proof {
                assert(self.scan()[nf + j] == id);
                assert((id as int) < self.bufs@.len());
            }
            let bcap = self.bufs[id].cap;
            let blen = self.bufs[id].data.len();
            let bbase = self.bufs[id].base;
            proof {
                assert(self.bufs@[id as int].wf());
            }
            let ghost b = self.snaps()[id as int];
            let rem = bcap - blen;
            if rem < vlen {
                proof {
                    assert(!accepts(b, vlen as int, align as int));
                }
                j += 1;
                continue ;
            }
            let tail = bbase + blen;
            let pad = align_offset(align, tail);
            if pad > rem {
                proof {
                    assert(!accepts(b, vlen as int, align as int));
                }
                j += 1;
                continue ;
            }
            if rem - pad < vlen {
                proof {
                    assert(!accepts(b, vlen as int, align as int));
                }
                j += 1;
                continue ;
            }
            proof {
                assert(accepts(b, vlen as int, align as int));
            }
            let ghost p0 = *self;
            buffer_append(&mut self.bufs[id], pad, value);
            let rf = InternedRef { buf_id: id, off: blen + pad, len: vlen, addr: tail + pad };
            let now_len = self.bufs[id].data.len();
            if now_len == bcap {
                let moved = self.spare_order.swap_remove(j);
                self.full_order.push(moved);
            }
            proof {
                let nb = appended(b, value@, align as int);
                assert(self.snaps() =~~= p0.snaps().update(id as int, nb));
                assert(p0.added_to_spare(*self, rf, value@, align as int, j as int));
                lemma_add_spare_wf(p0, *self, rf, value@, align as int, j as int);
                assert(old(self).add_rel(*self, rf, value@, align as int));
            }
            return rf;
        }
        // No spare buffer accepts the run: allocate a fresh buffer.
        let cap_needed = vlen + (align - 1);
        let cap = if cap_needed < 1024 {
            1024
        } else {
            cap_needed
        };
        let (data0, base) = alloc_buffer(cap);
        let mut nb = Buffer { data: data0, cap, base };
        let pad = align_offset(align, base);
        let ghost p0 = *self;
        buffer_append(&mut nb, pad, value);
        let id = self.bufs.len();
        let rf = InternedRef { buf_id: id, off: pad, len: vlen, addr: base + pad };
        let became_full = nb.data.len() == cap;
        proof {
            assert(nb.snap() =~~= BufSnap {
                base: base as int,
                cap: cap as int,
                bytes: filler(pad as int) + value@,
            });
        }
        self.bufs.push(nb);
        if became_full {
            self.full_order.push(id);
        } else {
            self.spare_order.push(id);
        }
        proof {
            assert(self.snaps() =~~= p0.snaps().push(
                BufSnap { base: base as int, cap: cap as int, bytes: filler(pad as int) + value@ },
            ));
            assert(cap == fresh_cap(value@.len() as int, align as int));
            assert(p0.added_fresh_at(*self, rf, value@, align as int, base as int));
            assert(p0.added_fresh(*self, rf, value@, align as int));
            lemma_add_fresh_wf(p0, *self, rf, value@, align as int);
            assert(old(self).add_rel(*self, rf, value@, align as int));
        }
        rf
    }

    /// Appends `value` with no alignment demand (alignment 1).
    pub fn add_bytes(&mut self, value: &[u8]) -> (rf: InternedRef)
        requires
            old(self).wf(),
            value@.len() >= 1,
            value@.len() + 1 <= usize::MAX,
        ensures
            final(self).wf(),
            extends(old(self).snaps(), final(self).snaps()),
            final(self).ref_valid(rf),
            final(self).ref_bytes(rf) == value@,
            rf.len == value@.len(),
            old(self).add_rel(*final(self), rf, value@, 1),
    {
        proof {
            lemma_one_is_pow2();
        }
        self.add_bytes_with_align(value, 1)
    }

    /// Takes a caller-owned region into the arena without copying its
    /// bytes: the region becomes a full buffer when its length equals its
    /// capacity (freezing it with no relocation), a spare buffer
    /// otherwise. `cap` and `base` describe the region's real storage.
    pub(crate) fn absorb(&mut self, data: Vec<u8>, cap: usize, base: usize) -> (rf: InternedRef)
        requires
            old(self).wf(),
            data@.len() <= cap,
            1 <= cap,
            base + cap <= usize::MAX,
        ensures
            final(self).wf(),
            extends(old(self).snaps(), final(self).snaps()),
            final(self).ref_valid(rf),
            final(self).ref_bytes(rf) == data@,
            rf.len == data@.len(),
            rf.off == 0,
            rf.addr == base,
            old(self).absorbed(*final(self), rf, data@, cap as int, base as int),
    {
        let id = self.bufs.len();
        let is_full = data.len() == cap;
        let dlen = data.len();
        let ghost p0 = *self;
        let ghost nb = BufSnap { base: base as int, cap: cap as int, bytes: data@ };
        self.bufs.push(Buffer { data, cap, base });
        if is_full {
            self.full_order.push(id);
        } else {
            self.spare_order.push(id);
        }
        let rf = InternedRef { buf_id: id, off: 0, len: dlen, addr: base };
        proof {
            assert(self.snaps() =~~= p0.snaps().push(nb));
            lemma_push_buffer_wf(p0, *self, nb);
            assert(self.ref_bytes(rf) =~= nb.bytes);
        }
        rf
    }

    /// `self` became `p1` by taking a caller-owned region of capacity
    /// `cap` lying at `base` into the arena as it stands, full when
    /// saturated and spare otherwise; `rf` spans the region's bytes.
    pub open spec fn absorbed(
        self,
        p1: Self,
        rf: InternedRef,
        bytes: Seq<u8>,
        cap: int,
        base: int,
    ) -> bool {
        &&& p1.snaps() == self.snaps().push(BufSnap { base, cap, bytes })
        &&& rf.buf_id == self.snaps().len()
        &&& rf.off == 0
        &&& rf.len == bytes.len()
        &&& rf.addr == base
        &&& if bytes.len() == cap {
            &&& p1.full_ids() == self.full_ids().push(rf.buf_id)
            &&& p1.spare_ids() == self.spare_ids()
        } else {
            &&& p1.full_ids() == self.full_ids()
            &&& p1.spare_ids() == self.spare_ids().push(rf.buf_id)
        }
    }

    /// Absorbs a caller-owned growable region. A region that owns no
    /// storage is ignored (empty reference); one whose length equals its
    /// capacity moves into the full list with no copy, keeping its
    /// original backing address; any other moves into the spare list
    /// as-is, its slack left for future appends.
    pub fn add_owned_bytes(&mut self, value: Vec<u8>) -> (rf: InternedRef)
        requires
            old(self).wf(),
        ensures
            final(self).wf(),
            extends(old(self).snaps(), final(self).snaps()),
            final(self).ref_valid(rf),
            final(self).ref_bytes(rf) == value@,
            rf.len == value@.len(),
            value@.len() > 0 ==> exists|cap: int, base: int|
                #[trigger] old(self).absorbed(*final(self), rf, value@, cap, base)
                    && value@.len() <= cap && base + cap <= usize::MAX,
    {
        let (cap, base) = measure_buffer(&value);
        if cap == 0 {
            assert(value@.len() == 0);
            proof {
                lemma_extends_refl(self.snaps());
            }
            return InternedRef::empty();
        }
        let rf = self.absorb(value, cap, base);
        rf
    }

    /// Returns a reference to the first aligned occurrence of `value`,
    /// appending it first when no such occurrence exists.
    pub fn find_or_add_bytes_with_align(&mut self, value: &[u8], align: usize) -> (rf: InternedRef)
        requires
            old(self).wf(),
            value@.len() >= 1,
            is_pow2(align),
            value@.len() + align <= usize::MAX,
        ensures
            final(self).wf(),
            extends(old(self).snaps(), final(self).snaps()),
            final(self).ref_valid(rf),
            final(self).ref_bytes(rf) == value@,
            rf.len == value@.len(),
            (rf.addr as int) % (align as int) == 0,
            old(self).has_match(value@, align as int) ==> *final(self) == *old(self) && old(
                self,
            ).found_first(value@, align as int, rf),
            !old(self).has_match(value@, align as int) ==> old(self).add_rel(
                *final(self),
                rf,
                value@,
                align as int,
            ),
            old(self).find_or_add_rel(*final(self), rf, value@, align as int),
    {
        let found = self.find_bytes_with_align(value, align);
        match found {
            Some(rf) => {
                proof {
                    lemma_extends_refl(self.snaps());
                }
                rf
            },
            None => self.add_bytes_with_align(value, align),
        }
    }

    /// Returns a reference to the first occurrence of `value`, appending
    /// it first when it does not yet occur (alignment 1).
    pub fn find_or_add_bytes(&mut self, value: &[u8]) -> (rf: InternedRef)
        requires
            old(self).wf(),
            value@.len() >= 1,
            value@.len() + 1 <= usize::MAX,
        ensures
            final(self).wf(),
            extends(old(self).snaps(), final(self).snaps()),
            final(self).ref_valid(rf),
            final(self).ref_bytes(rf) == value@,
            rf.len == value@.len(),
            old(self).has_match(value@, 1) ==> *final(self) == *old(self) && old(
                self,
            ).found_first(value@, 1, rf),
            !old(self).has_match(value@, 1) ==> old(self).add_rel(*final(self), rf, value@, 1),
            old(self).find_or_add_rel(*final(self), rf, value@, 1),
    {
        proof {
            lemma_one_is_pow2();
        }
        self.find_or_add_bytes_with_align(value, 1)
    }

    /// Everything `find_or_add_bytes_with_align` promises about the pool's
    /// evolution: a hit leaves the pool untouched and returns the first
    /// aligned occurrence; a miss appends exactly as `add_rel` says.
    pub open spec fn find_or_add_rel(self, p1: Self, rf: InternedRef, v: Seq<u8>, align: int) -> bool {
        &&& self.has_match(v, align) ==> p1 == self && self.found_first(v, align, rf)
        &&& !self.has_match(v, align) ==> self.add_rel(p1, rf, v, align)
    }

    /// Resets every buffer's committed length to zero, keeping all storage,
    /// and demotes every full buffer back to spare. The caller holds `&mut`
    /// access, so no reference into the pool can be outstanding.
    pub fn clear(&mut self)
        requires
            old(self).wf(),
        ensures
            final(self).wf(),
            final(self).snaps().len() == old(self).snaps().len(),
            forall|i: int|
                0 <= i < final(self).snaps().len() ==> {
                    &&& (#[trigger] final(self).snaps()[i]).bytes =~= Seq::<u8>::empty()
                    &&& final(self).snaps()[i].base == old(self).snaps()[i].base
                    &&& final(self).snaps()[i].cap == old(self).snaps()[i].cap
                },
            final(self).full_ids() =~= Seq::<usize>::empty(),
            final(self).spare_ids() =~= old(self).spare_ids() + old(self).full_ids(),
    {
        let ghost snaps0 = self.snaps();
        let mut i: usize = 0;
        while i < self.bufs.len()
            invariant
                self.bufs@.len() == snaps0.len(),
                forall|k: int|
                    0 <= k < self.bufs@.len() ==> {
                        &&& (#[trigger] self.bufs@[k]).cap == snaps0[k].cap
                        &&& self.bufs@[k].base == snaps0[k].base
                        &&& self.bufs@[k].wf()
                    },
                forall|k: int| 0 <= k < i ==> (#[trigger] self.bufs@[k]).data@.len() == 0,
                i <= self.bufs@.len(),
                self.full_order@ == old(self).full_ids(),
                self.spare_order@ == old(self).spare_ids(),
                old(self).wf(),
                self.bufs@.len() == old(self).bufs@.len(),
            decreases self.bufs@.len() - i,
        {
            self.bufs[i].data.clear();
            i += 1;
        }
        let mut k: usize = 0;
        let ghost full0 = self.full_order@;
        while k < self.full_order.len()
            invariant
                k <= self.full_order@.len(),
                self.full_order@ == full0,
                self.spare_order@ == old(self).spare_ids() + full0.subrange(0, k as int),
                self.bufs@.len() == snaps0.len(),
                forall|kk: int|
                    0 <= kk < self.bufs@.len() ==> {
                        &&& (#[trigger] self.bufs@[kk]).data@.len() == 0
                        &&& self.bufs@[kk].cap == snaps0[kk].cap
                        &&& self.bufs@[kk].base == snaps0[kk].base
                        &&& self.bufs@[kk].wf()
                    },
            decreases self.full_order@.len() - k,
        {
            let id = self.full_order[k];
            self.spare_order.push(id);
            assert(self.spare_order@ =~= old(self).spare_ids() + full0.subrange(0, k + 1));
            k += 1;
        }
        self.full_order = Vec::new();
        assert(self.spare_order@ =~= old(self).spare_ids() + full0);
        proof {
            lemma_clear_wf(*old(self), *self);
        }
    }
}

/// After a clear, the pool is well formed again: the same buffers stand in
/// the arena, all of them empty and all of them spare.
proof fn lemma_clear_wf(p0: DataInternerInner, p1: DataInternerInner)
    requires
        p0.wf(),
        p1.snaps().len() == p0.snaps().len(),
        forall|i: int|
            0 <= i < p1.snaps().len() ==> {
                &&& (#[trigger] p1.snaps()[i]).bytes.len() == 0
                &&& p1.snaps()[i].base == p0.snaps()[i].base
                &&& p1.snaps()[i].cap == p0.snaps()[i].cap
            },
        p1.full_ids() =~= Seq::<usize>::empty(),
        p1.spare_ids() =~= p0.spare_ids() + p0.full_ids(),
        forall|i: int| 0 <= i < p1.snaps().len() ==> 1 <= (#[trigger] p1.snaps()[i]).cap,
    ensures
        p1.wf(),
{
    let f0 = p0.full_ids();
    let s0 = p0.spare_ids();
    assert(p1.scan() =~= s0 + f0);
    assert(p0.scan() =~= f0 + s0);
    let n0 = p0.scan().len();
    assert(p1.scan().len() == n0);
    // Map each position of the new scan order onto the old one.
    assert forall|j: int| 0 <= j < n0 implies p1.scan()[j] == p0.scan()[old_pos(f0, s0, j)]
        && 0 <= old_pos(f0, s0, j) < n0 by {
        if j < s0.len() {
            assert(p1.scan()[j] == s0[j]);
            assert(p0.scan()[f0.len() + j] == s0[j]);
        } else {
            assert(p1.scan()[j] == f0[j - s0.len()]);
            assert(p0.scan()[j - s0.len()] == f0[j - s0.len()]);
        }
    };
    assert forall|j1: int, j2: int| 0 <= j1 < j2 < n0 implies old_pos(f0, s0, j1) != old_pos(
        f0,
        s0,
        j2,
    ) by {};
    assert(p1.bufs@.len() == p0.bufs@.len());
    assert forall|j: int| 0 <= j < p1.scan().len() implies (#[trigger] p1.scan()[j] as int)
        < p1.bufs@.len() by {
        let i = old_pos(f0, s0, j);
        assert((p0.scan()[i] as int) < p0.bufs@.len());
    };
    assert forall|j1: int, j2: int| 0 <= j1 < j2 < p1.scan().len() implies #[trigger] p1.scan()[j1]
        != #[trigger] p1.scan()[j2] by {
        let i1 = old_pos(f0, s0, j1);
        let i2 = old_pos(f0, s0, j2);
        if i1 < i2 {
            assert(p0.scan()[i1] != p0.scan()[i2]);
        } else {
            assert(p0.scan()[i2] != p0.scan()[i1]);
        }
    };
    assert forall|id: int| 0 <= id < p1.bufs@.len() implies #[trigger] p1.scan().contains(
        id as usize,
    ) by {
        assert(p0.scan().contains(id as usize));
        let i = choose|i: int| 0 <= i < n0 && p0.scan()[i] == id as usize;
        let j = if i < f0.len() {
            s0.len() + i
        } else {
            i - f0.len()
        };
        assert(p1.scan()[j] == p0.scan()[i]);
    };
    assert forall|i: int| 0 <= i < p1.bufs@.len() implies (#[trigger] p1.bufs@[i]).wf() by {
        assert(p0.bufs@[i].wf());
        assert(p1.snaps()[i].cap == p0.snaps()[i].cap);
        assert(p1.snaps()[i].base == p0.snaps()[i].base);
        assert(p1.snaps()[i].bytes.len() == 0);
    };
    assert forall|j: int| 0 <= j < p1.spare_ids().len() implies (#[trigger] p1.bufs@[p1.spare_ids()[j] as int]).data@.len()
        < p1.bufs@[p1.spare_ids()[j] as int].cap by {
        let id = p1.spare_ids()[j] as int;
        assert(p1.scan()[j] == p1.spare_ids()[j]);
        assert(id < p1.bufs@.len());
        assert(p1.snaps()[id].bytes.len() == 0);
        assert(p1.bufs@[id].wf());
    };
}

/// Where position `j` of the cleared pool's scan order stood in the
/// original scan order (`f0` then `s0` originally; `s0` then `f0` after).
spec fn old_pos(f0: Seq<usize>, s0: Seq<usize>, j: int) -> int {
    if j < s0.len() {
        f0.len() + j
    } else {
        j - s0.len()
    }
}

/// Transfers boundedness, distinctness and coverage from a scan order to a
/// rearrangement of it, given a position map in each direction (`m` from
/// new positions to old, `w` from old positions to new).
proof fn lemma_scan_perm(
    s0: Seq<usize>,
    s1: Seq<usize>,
    m: spec_fn(int) -> int,
    w: spec_fn(int) -> int,
    nbufs: int,
)
    requires
        forall|p: int| 0 <= p < s1.len() ==> 0 <= #[trigger] m(p) < s0.len() && s1[p] == s0[m(p)],
        forall|p1: int, p2: int| 0 <= p1 < p2 < s1.len() ==> #[trigger] m(p1) != #[trigger] m(p2),
        forall|i: int| 0 <= i < s0.len() ==> 0 <= #[trigger] w(i) < s1.len() && s1[w(i)] == s0[i],
        forall|i: int| 0 <= i < s0.len() ==> (#[trigger] s0[i] as int) < nbufs,
        forall|i1: int, i2: int| 0 <= i1 < i2 < s0.len() ==> #[trigger] s0[i1] != #[trigger] s0[i2],
        forall|id: int| 0 <= id < nbufs ==> #[trigger] s0.contains(id as usize),
    ensures
        forall|p: int| 0 <= p < s1.len() ==> (#[trigger] s1[p] as int) < nbufs,
        forall|p1: int, p2: int| 0 <= p1 < p2 < s1.len() ==> #[trigger] s1[p1] != #[trigger] s1[p2],
        forall|id: int| 0 <= id < nbufs ==> #[trigger] s1.contains(id as usize),
{
    assert forall|p: int| 0 <= p < s1.len() implies (#[trigger] s1[p] as int) < nbufs by {
        assert(s1[p] == s0[m(p)]);
        assert((s0[m(p)] as int) < nbufs);
    };
    assert forall|p1: int, p2: int| 0 <= p1 < p2 < s1.len() implies #[trigger] s1[p1]
        != #[trigger] s1[p2] by {
        let i1 = m(p1);
        let i2 = m(p2);
        if i1 < i2 {
            assert(s0[i1] != s0[i2]);
        } else {
            assert(s0[i2] != s0[i1]);
        }
    };
    assert forall|id: int| 0 <= id < nbufs implies #[trigger] s1.contains(id as usize) by {
        assert(s0.contains(id as usize));
        let i = choose|i: int| 0 <= i < s0.len() && s0[i] == id as usize;
        assert(s1[w(i)] == id as usize);
    };
}

/// Appending to the first accepting spare buffer preserves the pool
/// invariant, only extends committed bytes, and yields a valid, aligned
/// reference to the appended run.
proof fn lemma_add_spare_wf(
    p0: DataInternerInner,
    p1: DataInternerInner,
    rf: InternedRef,
    v: Seq<u8>,
    align: int,
    j: int,
)
    requires
        p0.wf(),
        v.len() >= 1,
        align >= 1,
        p0.added_to_spare(p1, rf, v, align, j),
    ensures
        p1.wf(),
        extends(p0.snaps(), p1.snaps()),
        ref_valid_in(p1.snaps(), rf),
        ref_bytes_in(p1.snaps(), rf) == v,
        (rf.addr as int) % align == 0,
{
    let id = p0.spare_ids()[j];
    let b = p0.snaps()[id as int];
    let pad = pad_for(b.base + b.bytes.len(), align);
    let nb = appended(b, v, align);
    let nf = p0.full_ids().len() as int;
    let ns = p0.spare_ids().len() as int;
    assert(p0.scan()[nf + j] == id);
    assert((id as int) < p0.snaps().len());
    assert(p1.snaps().len() == p0.snaps().len());
    assert(b.base >= 0) by {
        assert(p0.bufs@[id as int].snap() == b);
    };
    lemma_pad_for_works(b.base + b.bytes.len(), align);
    // The reference designates exactly the appended run.
    assert(nb.bytes.len() == b.bytes.len() + pad + v.len());
    assert(ref_valid_in(p1.snaps(), rf));
    assert(ref_bytes_in(p1.snaps(), rf) =~= v);
    // The start address of the run is aligned.
    assert((b.base + b.bytes.len() + pad) % align == 0);
    // Only buffer `id` changed, and only by appending.
    assert(extends(p0.snaps(), p1.snaps())) by {
        assert forall|i: int|
            0 <= i < p0.snaps().len() implies {
            &&& (#[trigger] p1.snaps()[i]).base == p0.snaps()[i].base
            &&& p1.snaps()[i].cap == p0.snaps()[i].cap
            &&& p0.snaps()[i].bytes.len() <= p1.snaps()[i].bytes.len()
            &&& p1.snaps()[i].bytes.subrange(0, p0.snaps()[i].bytes.len() as int)
                == p0.snaps()[i].bytes
        } by {
            if i == id as int {
                assert(p1.snaps()[i] == nb);
                assert(nb.bytes.subrange(0, b.bytes.len() as int) =~= b.bytes);
            } else {
                assert(p1.snaps()[i] == p0.snaps()[i]);
                assert(p0.snaps()[i].bytes.subrange(0, p0.snaps()[i].bytes.len() as int)
                    =~= p0.snaps()[i].bytes);
            }
        }
    };
    // The pool invariant is preserved.
    assert forall|i: int| 0 <= i < p1.bufs@.len() implies (#[trigger] p1.bufs@[i]).wf() by {
        assert(p0.bufs@[i].wf());
        assert(p1.snaps()[i] == p1.bufs@[i].snap());
        if i == id as int {
            assert(p1.snaps()[i] == nb);
            assert(nb.bytes.len() <= nb.cap) by {
                assert(accepts(b, v.len() as int, align));
            };
        } else {
            assert(p1.snaps()[i] == p0.snaps()[i]);
        }
    };
    if nb.bytes.len() == nb.cap {
        // The buffer moved from the spare list to the full list.
        let s0 = p0.scan();
        let s1 = p1.scan();
        assert(s1.len() == s0.len());
        let m = |p: int|
            if p < nf {
                p
            } else if p == nf {
                nf + j
            } else if p - nf - 1 == j {
                nf + ns - 1
            } else {
                p - 1
            };
        let w = |i: int|
            if i < nf {
                i
            } else if i == nf + j {
                nf
            } else if i == nf + ns - 1 {
                nf + 1 + j
            } else {
                i + 1
            };
        assert forall|p: int| 0 <= p < s1.len() implies 0 <= #[trigger] m(p) < s0.len() && s1[p]
            == s0[m(p)] by {
            if p < nf {
                assert(s1[p] == p1.full_ids()[p]);
                assert(s0[p] == p0.full_ids()[p]);
            } else if p == nf {
                assert(s1[p] == p1.full_ids()[nf]);
                assert(p1.full_ids()[nf] == id);
            } else {
                let j2 = p - nf - 1;
                assert(s1[p] == p1.spare_ids()[j2]);
                if j2 == j {
                    assert(p1.spare_ids()[j2] == p0.spare_ids()[ns - 1]);
                    assert(s0[nf + ns - 1] == p0.spare_ids()[ns - 1]);
                } else {
                    assert(p1.spare_ids()[j2] == p0.spare_ids()[j2]);
                    assert(s0[nf + j2] == p0.spare_ids()[j2]);
                    assert(m(p) == nf + j2) by {
                        assert(p - 1 == nf + j2);
                    };
                }
            }
        };
        assert forall|i: int| 0 <= i < s0.len() implies 0 <= #[trigger] w(i) < s1.len() && s1[w(i)]
            == s0[i] by {
            if i < nf {
                assert(s1[i] == p1.full_ids()[i]);
                assert(s0[i] == p0.full_ids()[i]);
            } else if i == nf + j {
                assert(s1[nf] == p1.full_ids()[nf]);
                assert(p1.full_ids()[nf] == id);
                assert(s0[i] == p0.spare_ids()[j]);
            } else if i == nf + ns - 1 {
                assert(j < ns - 1);
                assert(s1[nf + 1 + j] == p1.spare_ids()[j]);
                assert(p1.spare_ids()[j] == p0.spare_ids()[ns - 1]);
                assert(s0[i] == p0.spare_ids()[ns - 1]);
            } else {
                let j2 = i - nf;
                assert(s0[i] == p0.spare_ids()[j2]);
                assert(s1[i + 1] == p1.spare_ids()[j2]);
                assert(p1.spare_ids()[j2] == p0.spare_ids()[j2]);
            }
        };
        lemma_scan_perm(s0, s1, m, w, p1.bufs@.len() as int);
        assert forall|k: int| 0 <= k < p1.full_ids().len() implies (#[trigger] p1.bufs@[p1.full_ids()[k] as int]).data@.len()
            == p1.bufs@[p1.full_ids()[k] as int].cap by {
            let fid = p1.full_ids()[k];
            if k < nf {
                assert(fid == p0.full_ids()[k]);
                assert(s0[k] == fid);
                assert(s0[nf + j] == id);
                if (fid as int) == (id as int) {
                    assert(s0[k] != s0[nf + j]);
                }
                assert(p1.snaps()[fid as int] == p0.snaps()[fid as int]);
            } else {
                assert(fid == id);
                assert(p1.snaps()[id as int] == nb);
            }
        };
        assert forall|k: int| 0 <= k < p1.spare_ids().len() implies (#[trigger] p1.bufs@[p1.spare_ids()[k] as int]).data@.len()
            < p1.bufs@[p1.spare_ids()[k] as int].cap by {
            let sid = p1.spare_ids()[k];
            let oldk = if k == j {
                ns - 1
            } else {
                k
            };
            assert(sid == p0.spare_ids()[oldk]);
            assert(s0[nf + oldk] == sid);
            assert(s0[nf + j] == id);
            if (sid as int) == (id as int) {
                if oldk < j {
                    assert(s0[nf + oldk] != s0[nf + j]);
                } else {
                    assert(s0[nf + j] != s0[nf + oldk]);
                }
            }
            assert(p1.snaps()[sid as int] == p0.snaps()[sid as int]);
        };
        assert(p1.wf());
    } else {
        // The buffer stays spare; the scan order is untouched.
        assert(p1.scan() == p0.scan());
        assert(nb.bytes.len() < nb.cap) by {
            assert(accepts(b, v.len() as int, align));
        };
        assert forall|k: int| 0 <= k < p1.full_ids().len() implies (#[trigger] p1.bufs@[p1.full_ids()[k] as int]).data@.len()
            == p1.bufs@[p1.full_ids()[k] as int].cap by {
            let fid = p1.full_ids()[k];
            assert(p0.scan()[k] == fid);
            assert(p0.scan()[nf + j] == id);
            if (fid as int) == (id as int) {
                assert(p0.scan()[k] != p0.scan()[nf + j]);
            }
            assert(p1.snaps()[fid as int] == p0.snaps()[fid as int]);
        };
        assert forall|k: int| 0 <= k < p1.spare_ids().len() implies (#[trigger] p1.bufs@[p1.spare_ids()[k] as int]).data@.len()
            < p1.bufs@[p1.spare_ids()[k] as int].cap by {
            let sid = p1.spare_ids()[k];
            assert(p0.scan()[nf + k] == sid);
            assert((sid as int) < p0.snaps().len());
            if (sid as int) == (id as int) {
                assert(p1.snaps()[id as int] == nb);
            } else {
                assert(p1.snaps()[sid as int] == p0.snaps()[sid as int]);
            }
        };
        assert(p1.wf());
    }
}

/// Allocating a fresh buffer preserves the pool invariant, only extends
/// the arena, and yields a valid, aligned reference to the written run.
proof fn lemma_add_fresh_wf(
    p0: DataInternerInner,
    p1: DataInternerInner,
    rf: InternedRef,
    v: Seq<u8>,
    align: int,
)
    requires
        p0.wf(),
        v.len() >= 1,
        align >= 1,
        p0.added_fresh(p1, rf, v, align),
    ensures
        p1.wf(),
        extends(p0.snaps(), p1.snaps()),
        ref_valid_in(p1.snaps(), rf),
        ref_bytes_in(p1.snaps(), rf) == v,
        (rf.addr as int) % align == 0,
{
    let base = choose|base: int| p0.added_fresh_at(p1, rf, v, align, base);
    let cap = fresh_cap(v.len() as int, align);
    let pad = pad_for(base, align);
    let nb = BufSnap { base, cap, bytes: filler(pad) + v };
    let id = p0.snaps().len() as int;
    lemma_pad_for_works(base, align);
    assert(pad + v.len() <= cap);
    assert(p1.snaps().len() == id + 1);
    assert(p1.snaps()[id] == nb);
    assert(ref_valid_in(p1.snaps(), rf));
    assert(ref_bytes_in(p1.snaps(), rf) =~= v);
    assert((rf.addr as int) % align == 0);
    lemma_push_buffer_wf(p0, p1, nb);
}

/// The first aligned occurrence of a byte run in a pool is one place: any
/// two references that both satisfy `found_first` coincide in buffer,
/// offset, length and address.
pub proof fn lemma_found_first_unique(
    p: DataInternerInner,
    v: Seq<u8>,
    align: int,
    a: InternedRef,
    b: InternedRef,
)
    requires
        p.found_first(v, align, a),
        p.found_first(v, align, b),
    ensures
        a == b,
{
    let ja = choose|j: int|
        {
            &&& 0 <= j < p.scan().len()
            &&& a.buf_id == #[trigger] p.scan()[j]
            &&& aligned_match_in(p.snaps()[a.buf_id as int], v, align, a.off as int)
            &&& forall|m: int|
                0 <= m < a.off ==> !aligned_match_in(p.snaps()[a.buf_id as int], v, align, m)
            &&& forall|j2: int|
                0 <= j2 < j ==> !has_aligned_match(
                    p.snaps()[#[trigger] p.scan()[j2] as int],
                    v,
                    align,
                )
        };
    let jb = choose|j: int|
        {
            &&& 0 <= j < p.scan().len()
            &&& b.buf_id == #[trigger] p.scan()[j]
            &&& aligned_match_in(p.snaps()[b.buf_id as int], v, align, b.off as int)
            &&& forall|m: int|
                0 <= m < b.off ==> !aligned_match_in(p.snaps()[b.buf_id as int], v, align, m)
            &&& forall|j2: int|
                0 <= j2 < j ==> !has_aligned_match(
                    p.snaps()[#[trigger] p.scan()[j2] as int],
                    v,
                    align,
                )
        };
    if ja < jb {
        assert(has_aligned_match(p.snaps()[p.scan()[ja] as int], v, align));
        assert(false);
    }
    if jb < ja {
        assert(has_aligned_match(p.snaps()[p.scan()[jb] as int], v, align));
        assert(false);
    }
    assert(a.buf_id == b.buf_id);
    if (a.off as int) < (b.off as int) {
        assert(!aligned_match_in(p.snaps()[b.buf_id as int], v, align, a.off as int));
        assert(false);
    }
    if (b.off as int) < (a.off as int) {
        assert(!aligned_match_in(p.snaps()[a.buf_id as int], v, align, b.off as int));
        assert(false);
    }
}

/// Two consecutive `find_or_add` calls for the same byte run return
/// byte-equal references (each designates exactly `v`, by the calls' own
/// contracts), and address-identical ones whenever the first call's
/// reference stands as the pool's first aligned occurrence afterwards; the
/// second call also leaves the pool untouched. The hypothesis holds
/// whenever the first call hit, and whenever it appended to a pool in
/// which `v` was not yet embedded in a way that overlaps the new bytes
/// (for a pool that starts empty, `lemma_add_to_empty_is_first` supplies
/// it outright).
pub proof fn lemma_find_or_add_identity(
    p0: DataInternerInner,
    p1: DataInternerInner,
    p2: DataInternerInner,
    rf1: InternedRef,
    rf2: InternedRef,
    v: Seq<u8>,
    align: int,
)
    requires
        v.len() >= 1,
        p0.find_or_add_rel(p1, rf1, v, align),
        p1.find_or_add_rel(p2, rf2, v, align),
        p1.found_first(v, align, rf1),
    ensures
        rf2 == rf1,
        p2 == p1,
{
    let j = choose|j: int|
        {
            &&& 0 <= j < p1.scan().len()
            &&& rf1.buf_id == #[trigger] p1.scan()[j]
            &&& aligned_match_in(p1.snaps()[rf1.buf_id as int], v, align, rf1.off as int)
            &&& forall|m: int|
                0 <= m < rf1.off ==> !aligned_match_in(p1.snaps()[rf1.buf_id as int], v, align, m)
            &&& forall|j2: int|
                0 <= j2 < j ==> !has_aligned_match(
                    p1.snaps()[#[trigger] p1.scan()[j2] as int],
                    v,
                    align,
                )
        };
    assert(p1.has_match(v, align));
    lemma_found_first_unique(p1, v, align, rf1, rf2);
}

/// A run appended to an empty pool stands as that pool's first aligned
/// occurrence: the only bytes before it are the shorter-than-`align`
/// filler prefix, and no offset within that prefix is aligned.
pub proof fn lemma_add_to_empty_is_first(
    p0: DataInternerInner,
    p1: DataInternerInner,
    rf: InternedRef,
    v: Seq<u8>,
    align: int,
)
    requires
        p0.wf(),
        p0.snaps().len() == 0,
        v.len() >= 1,
        align >= 1,
        p0.add_rel(p1, rf, v, align),
    ensures
        p1.found_first(v, align, rf),
{
    assert(p0.scan().len() == 0);
    assert(p0.spare_ids().len() == 0);
    if exists|j: int| p0.added_to_spare(p1, rf, v, align, j) {
        let j = choose|j: int| p0.added_to_spare(p1, rf, v, align, j);
        assert(false);
    }
    let base = choose|base: int| p0.added_fresh_at(p1, rf, v, align, base);
    let cap = fresh_cap(v.len() as int, align);
    let pad = pad_for(base, align);
    let nb = BufSnap { base, cap, bytes: filler(pad) + v };
    lemma_pad_for_works(base, align);
    assert(p1.snaps().len() == 1);
    assert(p1.snaps()[0] == nb);
    assert(rf.buf_id == 0);
    assert(p1.scan().len() == 1) by {
        if pad + v.len() == cap {
            assert(p1.full_ids() == p0.full_ids().push(0usize));
        } else {
            assert(p1.spare_ids() == p0.spare_ids().push(0usize));
        }
    };
    assert(p1.scan()[0] == 0usize);
    assert(aligned_match_in(nb, v, align, pad)) by {
        assert(nb.bytes.subrange(pad, pad + v.len() as int) =~= v);
        assert((base + pad) % align == 0);
    };
    assert forall|m: int| 0 <= m < rf.off implies !aligned_match_in(
        p1.snaps()[rf.buf_id as int],
        v,
        align,
        m,
    ) by {
        if aligned_match_in(nb, v, align, m) {
            assert((base + m) % align == 0);
            assert(m < pad < align);
            lemma_pad_for_unique(base, align, m);
            assert(false);
        }
    };
    assert(p1.found_first(v, align, rf));
}

/// After a pool-wide clear, nothing nonempty can be found: every buffer's
/// committed bytes are gone, so a prior `find` hit comes back empty.
pub proof fn lemma_cleared_finds_nothing(p: DataInternerInner, v: Seq<u8>, align: int)
    requires
        p.wf(),
        v.len() >= 1,
        forall|i: int| 0 <= i < p.snaps().len() ==> (#[trigger] p.snaps()[i]).bytes.len() == 0,
    ensures
        !p.has_match(v, align),
{
    if p.has_match(v, align) {
        let j = choose|j: int|
            0 <= j < p.scan().len() && has_aligned_match(
                #[trigger] p.snaps()[p.scan()[j] as int],
                v,
                align,
            );
        let i = choose|i: int| aligned_match_in(p.snaps()[p.scan()[j] as int], v, align, i);
        assert((p.scan()[j] as int) < p.snaps().len());
        assert(false);
    }
}

/// Appending one well-formed buffer to the arena, and its index to the
/// matching scan list, preserves the pool invariant and only extends the
/// arena.
proof fn lemma_push_buffer_wf(p0: DataInternerInner, p1: DataInternerInner, nb: BufSnap)
    requires
        p0.wf(),
        nb.bytes.len() <= nb.cap,
        1 <= nb.cap,
        0 <= nb.base,
        nb.base + nb.cap <= usize::MAX,
        p1.snaps() == p0.snaps().push(nb),
        if nb.bytes.len() == nb.cap {
            &&& p1.full_ids() == p0.full_ids().push(p0.snaps().len() as usize)
            &&& p1.spare_ids() == p0.spare_ids()
        } else {
            &&& p1.full_ids() == p0.full_ids()
            &&& p1.spare_ids() == p0.spare_ids().push(p0.snaps().len() as usize)
        },
    ensures
        p1.wf(),
        extends(p0.snaps(), p1.snaps()),
{
    let id = p0.snaps().len() as int;
    let nf = p0.full_ids().len() as int;
    let ns = p0.spare_ids().len() as int;
    assert(p0.snaps().len() == p0.bufs@.len());
    assert(p1.snaps().len() == p1.bufs@.len());
    assert(p0.bufs@.len() == p0.bufs.len());
    assert(id <= usize::MAX);
    assert(p1.snaps().len() == id + 1);
    assert(p1.snaps()[id] == nb);
    assert(extends(p0.snaps(), p1.snaps())) by {
        assert forall|i: int|
            0 <= i < p0.snaps().len() implies {
            &&& (#[trigger] p1.snaps()[i]).base == p0.snaps()[i].base
            &&& p1.snaps()[i].cap == p0.snaps()[i].cap
            &&& p0.snaps()[i].bytes.len() <= p1.snaps()[i].bytes.len()
            &&& p1.snaps()[i].bytes.subrange(0, p0.snaps()[i].bytes.len() as int)
                == p0.snaps()[i].bytes
        } by {
            assert(p1.snaps()[i] == p0.snaps()[i]);
            assert(p0.snaps()[i].bytes.subrange(0, p0.snaps()[i].bytes.len() as int)
                =~= p0.snaps()[i].bytes);
        }
    };
    assert forall|i: int| 0 <= i < p1.bufs@.len() implies (#[trigger] p1.bufs@[i]).wf() by {
        assert(p1.snaps()[i] == p1.bufs@[i].snap());
        if i < id {
            assert(p0.bufs@[i].wf());
            assert(p1.snaps()[i] == p0.snaps()[i]);
        } else {
            assert(p1.snaps()[i] == nb);
        }
    };
    let s0x = p0.scan().push(id as usize);
    assert forall|i1: int, i2: int| 0 <= i1 < i2 < s0x.len() implies #[trigger] s0x[i1]
        != #[trigger] s0x[i2] by {
        if i2 < s0x.len() - 1 {
            assert(p0.scan()[i1] != p0.scan()[i2]);
        } else {
            assert(s0x[i1] == p0.scan()[i1]);
            assert((p0.scan()[i1] as int) < p0.bufs@.len());
            assert(s0x[i2] == id as usize);
        }
    };
    assert forall|id2: int| 0 <= id2 < id + 1 implies #[trigger] s0x.contains(id2 as usize) by {
        if id2 < id {
            assert(p0.scan().contains(id2 as usize));
            let i = choose|i: int| 0 <= i < p0.scan().len() && p0.scan()[i] == id2 as usize;
            assert(s0x[i] == id2 as usize);
        } else {
            assert(s0x[s0x.len() - 1] == id2 as usize);
        }
    };
    if nb.bytes.len() == nb.cap {
        // The new buffer is exactly full; it joins the full list, which
        // splices it into the middle of the scan order.
        let s1 = p1.scan();
        assert(s1.len() == s0x.len());
        let n = nf + ns;
        let m = |p: int|
            if p < nf {
                p
            } else if p == nf {
                n
            } else {
                p - 1
            };
        let w = |i: int|
            if i < nf {
                i
            } else if i == n {
                nf
            } else {
                i + 1
            };
        assert forall|p: int| 0 <= p < s1.len() implies 0 <= #[trigger] m(p) < s0x.len() && s1[p]
            == s0x[m(p)] by {
            if p < nf {
                assert(s1[p] == p1.full_ids()[p]);
                assert(s0x[p] == p0.scan()[p]);
                assert(p0.scan()[p] == p0.full_ids()[p]);
            } else if p == nf {
                assert(s1[p] == p1.full_ids()[nf]);
            } else {
                assert(s1[p] == p1.spare_ids()[p - nf - 1]);
                assert(s0x[p - 1] == p0.scan()[p - 1]);
                assert(p0.scan()[p - 1] == p0.spare_ids()[p - 1 - nf]);
            }
        };
        assert forall|i: int| 0 <= i < s0x.len() implies 0 <= #[trigger] w(i) < s1.len() && s1[w(i)]
            == s0x[i] by {
            if i < nf {
                assert(s1[i] == p1.full_ids()[i]);
                assert(s0x[i] == p0.full_ids()[i]);
            } else if i == n {
                assert(s1[nf] == p1.full_ids()[nf]);
            } else {
                assert(s0x[i] == p0.spare_ids()[i - nf]);
                assert(s1[i + 1] == p1.spare_ids()[i - nf]);
            }
        };
        lemma_scan_perm(s0x, s1, m, w, id + 1);
        assert forall|k: int| 0 <= k < p1.full_ids().len() implies (#[trigger] p1.bufs@[p1.full_ids()[k] as int]).data@.len()
            == p1.bufs@[p1.full_ids()[k] as int].cap by {
            let fid = p1.full_ids()[k];
            if k < nf {
                assert(fid == p0.full_ids()[k]);
                assert((fid as int) < id) by {
                    assert(p0.scan()[k] == fid);
                };
                assert(p1.snaps()[fid as int] == p0.snaps()[fid as int]);
            } else {
                assert(fid == id as usize);
                assert(p1.snaps()[id] == nb);
            }
        };
        assert forall|k: int| 0 <= k < p1.spare_ids().len() implies (#[trigger] p1.bufs@[p1.spare_ids()[k] as int]).data@.len()
            < p1.bufs@[p1.spare_ids()[k] as int].cap by {
            let sid = p1.spare_ids()[k];
            assert(sid == p0.spare_ids()[k]);
            assert((sid as int) < id) by {
                assert(p0.scan()[nf + k] == sid);
            };
            assert(p1.snaps()[sid as int] == p0.snaps()[sid as int]);
        };
        assert(p1.wf());
    } else {
        // The new buffer keeps room; it joins the spare list, which
        // appends it to the end of the scan order.
        assert(p1.scan() =~= s0x);
        assert forall|k: int| 0 <= k < p1.full_ids().len() implies (#[trigger] p1.bufs@[p1.full_ids()[k] as int]).data@.len()
            == p1.bufs@[p1.full_ids()[k] as int].cap by {
            let fid = p1.full_ids()[k];
            assert(fid == p0.full_ids()[k]);
            assert((fid as int) < id) by {
                assert(p0.scan()[k] == fid);
            };
            assert(p1.snaps()[fid as int] == p0.snaps()[fid as int]);
        };
        assert forall|k: int| 0 <= k < p1.spare_ids().len() implies (#[trigger] p1.bufs@[p1.spare_ids()[k] as int]).data@.len()
            < p1.bufs@[p1.spare_ids()[k] as int].cap by {
            let sid = p1.spare_ids()[k];
            if k < ns {
                assert(sid == p0.spare_ids()[k]);
                assert((sid as int) < id) by {
                    assert(p0.scan()[nf + k] == sid);
                };
                assert(p1.snaps()[sid as int] == p0.snaps()[sid as int]);
                assert(p1.snaps()[sid as int] == p1.bufs@[sid as int].snap());
                assert(p0.snaps()[sid as int] == p0.bufs@[sid as int].snap());
                assert(p0.bufs@[p0.spare_ids()[k] as int].data@.len()
                    < p0.bufs@[p0.spare_ids()[k] as int].cap);
            } else {
                assert(sid == id as usize);
                assert(p1.snaps()[id] == nb);
                assert(p1.snaps()[id] == p1.bufs@[id].snap());
                assert(nb.bytes.len() < nb.cap);
            }
        };
        assert(p1.wf());
    }
}

} // verus!
