//! The slice builder: a client-local staging area that accumulates a typed
//! element sequence with correct internal alignment, then commits it once
//! into the buffer pool.

use vstd::prelude::*;

use crate::align::{align_offset, is_pow2, lemma_pow2_pos};
use crate::inner::{
    extends, lemma_extends_refl, ref_bytes_in, ref_valid_in, DataInternerInner, InternedRef,
};

verus! {

/// A plain-data element type: a fixed-size value that is byte-identical to
/// its byte image, with no indeterminate bits and no padding-sensitive
/// invariants. This is the one audited reinterpretation boundary between
/// typed elements and raw bytes.
pub trait PlainData: Sized + Copy {
    /// How many bytes the element's byte image takes.
    spec fn size_spec() -> usize;

    /// The power-of-two alignment the element asks for in storage.
    spec fn align_spec() -> usize;

    /// The element's byte image.
    spec fn as_bytes(self) -> Seq<u8>;

    /// The alignment really is a power of two.
    proof fn layout_facts()
        ensures
            is_pow2(Self::align_spec()),
    ;

    /// The byte image really has `size_spec` bytes.
    proof fn bytes_len(self)
        ensures
            self.as_bytes().len() == Self::size_spec(),
    ;

    /// The byte image determines the value: equal images, equal values.
    proof fn bytes_injective(self, other: Self)
        requires
            self.as_bytes() == other.as_bytes(),
        ensures
            self == other,
    ;

    /// The element's size, as executable code sees it.
    fn size() -> (r: usize)
        ensures
            r == Self::size_spec(),
    ;

    /// The element's alignment, as executable code sees it.
    fn align() -> (r: usize)
        ensures
            r == Self::align_spec(),
    ;

    /// Appends the element's byte image to `out`.
    fn append_to(self, out: &mut Vec<u8>)
        ensures
            final(out)@ == old(out)@ + self.as_bytes(),
    ;

    /// Reads one element back from its byte image at `off` in `data`.
    fn read_from(data: &[u8], off: usize) -> (r: Self)
        requires
            off + Self::size_spec() <= data@.len(),
        ensures
            r.as_bytes() == data@.subrange(off as int, off + Self::size_spec()),
    ;
}

impl PlainData for u8 {
    open spec fn size_spec() -> usize {
        1
    }

    open spec fn align_spec() -> usize {
        1
    }

    open spec fn as_bytes(self) -> Seq<u8> {
        seq![self]
    }

    proof fn layout_facts() {
        crate::inner::lemma_one_is_pow2();
    }

    proof fn bytes_len(self) {
    }

    proof fn bytes_injective(self, other: Self) {
        assert(self.as_bytes()[0] == self);
        assert(other.as_bytes()[0] == other);
    }

    fn size() -> (r: usize) {
        1
    }

    fn align() -> (r: usize) {
        1
    }

    fn append_to(self, out: &mut Vec<u8>) {
        out.push(self);
        assert(out@ =~= old(out)@ + self.as_bytes());
    }

    fn read_from(data: &[u8], off: usize) -> (r: Self) {
        let r = data[off];
        assert(r.as_bytes() =~= data@.subrange(off as int, off + 1));
        r
    }
}

impl PlainData for u16 {
    open spec fn size_spec() -> usize {
        2
    }

    open spec fn align_spec() -> usize {
        2
    }

    open spec fn as_bytes(self) -> Seq<u8> {
        seq![(self & 0xff) as u8, ((self >> 8) & 0xff) as u8]
    }

    proof fn layout_facts() {
        assert(2usize == (1usize << 1usize)) by (bit_vector);
    }

    proof fn bytes_len(self) {
    }

    proof fn bytes_injective(self, other: Self) {
        let a = self;
        let b = other;
        assert(a.as_bytes()[0] == b.as_bytes()[0]);
        assert(a.as_bytes()[1] == b.as_bytes()[1]);
        assert(((a & 0xff) as u8 == (b & 0xff) as u8 && ((a >> 8) & 0xff) as u8 == ((b >> 8)
            & 0xff) as u8) ==> a == b) by (bit_vector);
    }

    fn size() -> (r: usize) {
        2
    }

    fn align() -> (r: usize) {
        2
    }

    fn append_to(self, out: &mut Vec<u8>) {
        out.push((self & 0xff) as u8);
        out.push(((self >> 8) & 0xff) as u8);
        assert(out@ =~= old(out)@ + self.as_bytes());
    }

    fn read_from(data: &[u8], off: usize) -> (r: Self) {
        let b0 = data[off];
        let b1 = data[off + 1];
        let r = (b0 as u16) | ((b1 as u16) << 8);
        proof {
            let rr = (b0 as u16) | ((b1 as u16) << 8);
            assert((rr & 0xff) as u8 == b0 && ((rr >> 8) & 0xff) as u8 == b1) by (bit_vector)
                requires
                    rr == (b0 as u16) | ((b1 as u16) << 8),
            ;
            assert(r.as_bytes() =~= data@.subrange(off as int, off + 2));
        }
        r
    }
}

impl PlainData for u32 {
    open spec fn size_spec() -> usize {
        4
    }

    open spec fn align_spec() -> usize {
        4
    }

    open spec fn as_bytes(self) -> Seq<u8> {
        seq![
            (self & 0xff) as u8,
            ((self >> 8) & 0xff) as u8,
            ((self >> 16) & 0xff) as u8,
            ((self >> 24) & 0xff) as u8,
        ]
    }

    proof fn layout_facts() {
        assert(4usize == (1usize << 2usize)) by (bit_vector);
    }

    proof fn bytes_len(self) {
    }

    proof fn bytes_injective(self, other: Self) {
        let a = self;
        let b = other;
        assert(a.as_bytes()[0] == b.as_bytes()[0]);
        assert(a.as_bytes()[1] == b.as_bytes()[1]);
        assert(a.as_bytes()[2] == b.as_bytes()[2]);
        assert(a.as_bytes()[3] == b.as_bytes()[3]);
        assert(((a & 0xff) as u8 == (b & 0xff) as u8 && ((a >> 8) & 0xff) as u8 == ((b >> 8)
            & 0xff) as u8 && ((a >> 16) & 0xff) as u8 == ((b >> 16) & 0xff) as u8 && ((a >> 24)
            & 0xff) as u8 == ((b >> 24) & 0xff) as u8) ==> a == b) by (bit_vector);
    }

    fn size() -> (r: usize) {
        4
    }

    fn align() -> (r: usize) {
        4
    }

    fn append_to(self, out: &mut Vec<u8>) {
        out.push((self & 0xff) as u8);
        out.push(((self >> 8) & 0xff) as u8);
        out.push(((self >> 16) & 0xff) as u8);
        out.push(((self >> 24) & 0xff) as u8);
        assert(out@ =~= old(out)@ + self.as_bytes());
    }

    fn read_from(data: &[u8], off: usize) -> (r: Self) {
        let b0 = data[off];
        let b1 = data[off + 1];
        let b2 = data[off + 2];
        let b3 = data[off + 3];
        let r = (b0 as u32) | ((b1 as u32) << 8) | ((b2 as u32) << 16) | ((b3 as u32) << 24);
        proof {
            let rr = (b0 as u32) | ((b1 as u32) << 8) | ((b2 as u32) << 16) | ((b3 as u32) << 24);
            assert((rr & 0xff) as u8 == b0 && ((rr >> 8) & 0xff) as u8 == b1 && ((rr >> 16)
                & 0xff) as u8 == b2 && ((rr >> 24) & 0xff) as u8 == b3) by (bit_vector)
                requires
                    rr == (b0 as u32) | ((b1 as u32) << 8) | ((b2 as u32) << 16) | ((b3
                        as u32) << 24),
            ;
            assert(r.as_bytes() =~= data@.subrange(off as int, off + 4));
        }
        r
    }
}

impl PlainData for u64 {
    open spec fn size_spec() -> usize {
        8
    }

    open spec fn align_spec() -> usize {
        8
    }

    open spec fn as_bytes(self) -> Seq<u8> {
        seq![
            (self & 0xff) as u8,
            ((self >> 8) & 0xff) as u8,
            ((self >> 16) & 0xff) as u8,
            ((self >> 24) & 0xff) as u8,
            ((self >> 32) & 0xff) as u8,
            ((self >> 40) & 0xff) as u8,
            ((self >> 48) & 0xff) as u8,
            ((self >> 56) & 0xff) as u8,
        ]
    }

    proof fn layout_facts() {
        assert(8usize == (1usize << 3usize)) by (bit_vector);
    }

    proof fn bytes_len(self) {
    }

    proof fn bytes_injective(self, other: Self) {
        let a = self;
        let b = other;
        assert(a.as_bytes()[0] == b.as_bytes()[0]);
        assert(a.as_bytes()[1] == b.as_bytes()[1]);
        assert(a.as_bytes()[2] == b.as_bytes()[2]);
        assert(a.as_bytes()[3] == b.as_bytes()[3]);
        assert(a.as_bytes()[4] == b.as_bytes()[4]);
        assert(a.as_bytes()[5] == b.as_bytes()[5]);
        assert(a.as_bytes()[6] == b.as_bytes()[6]);
        assert(a.as_bytes()[7] == b.as_bytes()[7]);
        assert(((a & 0xff) as u8 == (b & 0xff) as u8 && ((a >> 8) & 0xff) as u8 == ((b >> 8)
            & 0xff) as u8 && ((a >> 16) & 0xff) as u8 == ((b >> 16) & 0xff) as u8 && ((a >> 24)
            & 0xff) as u8 == ((b >> 24) & 0xff) as u8 && ((a >> 32) & 0xff) as u8 == ((b >> 32)
            & 0xff) as u8 && ((a >> 40) & 0xff) as u8 == ((b >> 40) & 0xff) as u8 && ((a >> 48)
            & 0xff) as u8 == ((b >> 48) & 0xff) as u8 && ((a >> 56) & 0xff) as u8 == ((b >> 56)
            & 0xff) as u8) ==> a == b) by (bit_vector);
    }

    fn size() -> (r: usize) {
        8
    }

    fn align() -> (r: usize) {
        8
    }

    fn append_to(self, out: &mut Vec<u8>) {
        out.push((self & 0xff) as u8);
        out.push(((self >> 8) & 0xff) as u8);
        out.push(((self >> 16) & 0xff) as u8);
        out.push(((self >> 24) & 0xff) as u8);
        out.push(((self >> 32) & 0xff) as u8);
        out.push(((self >> 40) & 0xff) as u8);
        out.push(((self >> 48) & 0xff) as u8);
        out.push(((self >> 56) & 0xff) as u8);
        assert(out@ =~= old(out)@ + self.as_bytes());
    }

    fn read_from(data: &[u8], off: usize) -> (r: Self) {
        let b0 = data[off];
        let b1 = data[off + 1];
        let b2 = data[off + 2];
        let b3 = data[off + 3];
        let b4 = data[off + 4];
        let b5 = data[off + 5];
        let b6 = data[off + 6];
        let b7 = data[off + 7];
        let r = (b0 as u64) | ((b1 as u64) << 8) | ((b2 as u64) << 16) | ((b3 as u64) << 24) | ((
        b4 as u64) << 32) | ((b5 as u64) << 40) | ((b6 as u64) << 48) | ((b7 as u64) << 56);
        proof {
            let rr = (b0 as u64) | ((b1 as u64) << 8) | ((b2 as u64) << 16) | ((b3 as u64) << 24)
                | ((b4 as u64) << 32) | ((b5 as u64) << 40) | ((b6 as u64) << 48) | ((b7
                as u64) << 56);
            assert((rr & 0xff) as u8 == b0 && ((rr >> 8) & 0xff) as u8 == b1 && ((rr >> 16)
                & 0xff) as u8 == b2 && ((rr >> 24) & 0xff) as u8 == b3 && ((rr >> 32) & 0xff) as u8
                == b4 && ((rr >> 40) & 0xff) as u8 == b5 && ((rr >> 48) & 0xff) as u8 == b6 && ((rr
                >> 56) & 0xff) as u8 == b7) by (bit_vector)
                requires
                    rr == (b0 as u64) | ((b1 as u64) << 8) | ((b2 as u64) << 16) | ((b3
                        as u64) << 24) | ((b4 as u64) << 32) | ((b5 as u64) << 40) | ((b6
                        as u64) << 48) | ((b7 as u64) << 56),
            ;
            assert(r.as_bytes() =~= data@.subrange(off as int, off + 8));
        }
        r
    }
}

/// A zero-sized element: it stores nothing and aligns to anything. Useful
/// to stage a pure count of elements.
#[derive(Clone, Copy, PartialEq, Eq, Structural, Debug)]
pub struct Zst;

impl PlainData for Zst {
    open spec fn size_spec() -> usize {
        0
    }

    open spec fn align_spec() -> usize {
        1
    }

    open spec fn as_bytes(self) -> Seq<u8> {
        Seq::empty()
    }

    proof fn layout_facts() {
        crate::inner::lemma_one_is_pow2();
    }

    proof fn bytes_len(self) {
    }

    proof fn bytes_injective(self, other: Self) {
    }

    fn size() -> (r: usize) {
        0
    }

    fn align() -> (r: usize) {
        1
    }

    fn append_to(self, out: &mut Vec<u8>) {
        assert(out@ =~= old(out)@ + self.as_bytes());
    }

    fn read_from(data: &[u8], off: usize) -> (r: Self) {
        let r = Zst;
        assert(r.as_bytes() =~= data@.subrange(off as int, off as int));
        r
    }
}

/// `n` zero bytes, as written into a scratch region's alignment prefix.
pub open spec fn zero_bytes(n: int) -> Seq<u8> {
    Seq::new(n as nat, |i: int| 0u8)
}

/// The byte images of the elements of `s`, in order.
pub open spec fn concat_bytes<T: PlainData>(s: Seq<T>) -> Seq<u8>
    decreases s.len(),
{
    if s.len() == 0 {
        Seq::empty()
    } else {
        concat_bytes(s.drop_last()) + s.last().as_bytes()
    }
}

/// The byte images of `n` elements take `n * size` bytes.
pub proof fn lemma_concat_len<T: PlainData>(s: Seq<T>)
    ensures
        concat_bytes(s).len() == s.len() * T::size_spec(),
    decreases s.len(),
{
    if s.len() == 0 {
    } else {
        lemma_concat_len::<T>(s.drop_last());
        s.last().bytes_len();
        assert((s.len() - 1) * T::size_spec() + T::size_spec() == s.len() * T::size_spec())
            by (nonlinear_arith);
    }
}

/// An empty sequence, and any sequence of zero-sized elements, has an
/// empty concatenation.
pub proof fn lemma_concat_empty<T: PlainData>(s: Seq<T>)
    requires
        s.len() == 0 || T::size_spec() == 0,
    ensures
        concat_bytes(s) == Seq::<u8>::empty(),
{
    if s.len() == 0 {
        assert(concat_bytes(s) =~= Seq::<u8>::empty());
    } else {
        lemma_concat_len::<T>(s);
        assert((s.len() as int) * 0 == 0) by (nonlinear_arith);
        assert(concat_bytes(s) =~= Seq::<u8>::empty());
    }
}

/// Element `i`'s byte image stands at offset `i * size` of the
/// concatenation.
pub proof fn lemma_concat_index<T: PlainData>(s: Seq<T>, i: int)
    requires
        0 <= i < s.len(),
    ensures
        concat_bytes(s).subrange(
            i * T::size_spec(),
            i * T::size_spec() + T::size_spec(),
        ) == s[i].as_bytes(),
    decreases s.len(),
{
    let sz = T::size_spec() as int;
    lemma_concat_len::<T>(s);
    lemma_concat_len::<T>(s.drop_last());
    s.last().bytes_len();
    if i == s.len() - 1 {
        assert(concat_bytes(s).subrange(i * sz, i * sz + sz) =~= s[i].as_bytes()) by {
            assert(i * sz == concat_bytes(s.drop_last()).len());
        };
    } else {
        lemma_concat_index::<T>(s.drop_last(), i);
        assert(i * sz + sz <= (s.len() - 1) * sz) by (nonlinear_arith)
            requires
                0 <= i < s.len() - 1,
                sz >= 0,
        ;
        assert(concat_bytes(s).subrange(i * sz, i * sz + sz) =~= concat_bytes(
            s.drop_last(),
        ).subrange(i * sz, i * sz + sz)) by {
            assert(s.drop_last()[i] == s[i]);
        };
        assert(s.drop_last()[i] == s[i]);
    }
}

/// The staging area: a scratch byte region holding `len` elements of `T`,
/// starting at the alignment offset `start` computed against the region's
/// own base address; the prefix `[0, start)` is zeroed so that the region
/// never holds uninitialized bytes and can always be frozen.
pub struct SliceBuilder<T: PlainData> {
    data: Vec<u8>,
    base: usize,
    raw_cap: usize,
    start: usize,
    len: usize,
    cap: usize,
    elems: Ghost<Seq<T>>,
}

impl<T: PlainData> SliceBuilder<T> {
    /// The staged elements, in push order.
    pub closed spec fn elements(self) -> Seq<T> {
        self.elems@
    }

    /// How many elements the scratch region can hold before it must grow
    /// (unbounded for zero-sized elements).
    pub closed spec fn capacity_spec(self) -> usize {
        self.cap
    }

    /// Builder invariant: the element count and byte layout agree, the
    /// zeroed prefix carries the region to the element alignment, and
    /// everything fits the scratch region's real storage.
    pub closed spec fn wf(self) -> bool {
        &&& self.elems@.len() == self.len
        &&& if T::size_spec() == 0 {
            &&& self.cap == usize::MAX
            &&& self.data@.len() == 0
            &&& self.raw_cap == 0
            &&& self.start == 0
        } else {
            &&& self.len <= self.cap
            &&& self.data@.len() == self.start + self.len * T::size_spec()
            &&& self.start + self.cap * T::size_spec() <= self.raw_cap
            &&& (self.raw_cap == 0 ==> self.start == 0 && self.cap == 0)
            &&& (self.raw_cap > 0 ==> {
                &&& (self.base + self.start) % (T::align_spec() as int) == 0
                &&& self.base + self.raw_cap <= usize::MAX
                &&& self.start < T::align_spec()
            })
            &&& self.data@ == zero_bytes(self.start as int) + concat_bytes(self.elems@)
        }
    }

    /// The builder can take one more element: there is room, or the growth
    /// arithmetic cannot overflow.
    pub open spec fn can_push(self) -> bool {
        if self.elements().len() < self.capacity_spec() {
            true
        } else {
            &&& self.elements().len() + 1 <= usize::MAX
            &&& (T::size_spec() > 0 ==> (self.elements().len() + 1) * T::size_spec()
                + T::align_spec() <= usize::MAX)
        }
    }

    /// Constructs an empty builder. It does not allocate until an element
    /// arrives; zero-sized elements never allocate at all.
    pub fn new() -> (s: Self)
        ensures
            s.wf(),
            s.elements() =~= Seq::<T>::empty(),
            s.capacity_spec() == if T::size_spec() == 0 {
                usize::MAX
            } else {
                0usize
            },
    {
        let sz = T::size();
        let cap: usize = if sz == 0 {
            usize::MAX
        } else {
            0
        };
        let s = SliceBuilder {
            data: Vec::new(),
            base: 0,
            raw_cap: 0,
            start: 0,
            len: 0,
            cap,
            elems: Ghost(Seq::empty()),
        };
        proof {
            if T::size_spec() != 0 {
                assert(s.data@ =~= zero_bytes(0) + concat_bytes(s.elems@));
            }
        }
        s
    }

    /// How many elements are staged.
    pub fn len(&self) -> (r: usize)
        requires
            self.wf(),
        ensures
            r == self.elements().len(),
    {
        self.len
    }

    /// How many elements the scratch region can hold before growing.
    pub fn capacity(&self) -> (r: usize)
        ensures
            r == self.capacity_spec(),
    {
        self.cap
    }

    /// Reads the staged element at position `i`.
    pub fn get(&self, i: usize) -> (r: T)
        requires
            self.wf(),
            i < self.elements().len(),
        ensures
            r == self.elements()[i as int],
    {
        let sz = T::size();
        proof {
            assert(self.data@.len() == self.data.len());
            lemma_concat_len::<T>(self.elems@);
            lemma_concat_index::<T>(self.elems@, i as int);
            assert((i as int) * (sz as int) + sz <= (self.len as int) * (sz as int))
                by (nonlinear_arith)
                requires
                    0 <= (i as int) < self.len as int,
                    sz >= 0,
            ;
            assert((i as int) * (sz as int) >= 0) by (nonlinear_arith)
                requires
                    i as int >= 0,
                    sz >= 0,
            ;
        }
        let off = self.start + i * sz;
        let r = T::read_from(data_slice(&self.data), off);
        proof {
            let s = self.elems@;
            let ioff = (i as int) * (sz as int);
            assert(r.as_bytes() =~= concat_bytes(s).subrange(ioff, ioff + sz)) by {
                assert forall|j: int| 0 <= j < sz implies #[trigger] self.data@[self.start + ioff
                    + j] == concat_bytes(s)[ioff + j] by {
                    assert(self.data@[self.start + ioff + j] == (zero_bytes(self.start as int)
                        + concat_bytes(s))[self.start + ioff + j]);
                }
            };
            r.bytes_injective(s[i as int]);
        }
        r
    }

    /// Overwrites the staged element at position `i` in place: the
    /// replacement for mutable element access into the staging area.
    pub fn set(&mut self, i: usize, value: T)
        requires
            old(self).wf(),
            i < old(self).elements().len(),
        ensures
            final(self).wf(),
            final(self).elements() == old(self).elements().update(i as int, value),
    {
        let sz = T::size();
        let ghost s = self.elems@;
        proof {
            assert(self.data@.len() == self.data.len());
            lemma_concat_len::<T>(s);
            lemma_concat_update::<T>(s, i as int, value);
            value.bytes_len();
            assert((i as int) * (sz as int) + sz <= (self.len as int) * (sz as int))
                by (nonlinear_arith)
                requires
                    0 <= (i as int) < self.len as int,
                    sz >= 0,
            ;
            assert((i as int) * (sz as int) >= 0) by (nonlinear_arith)
                requires
                    i as int >= 0,
                    sz >= 0,
            ;
        }
        let mut img: Vec<u8> = Vec::new();
        value.append_to(&mut img);
        proof {
            assert(img@ =~= value.as_bytes());
        }
        let off = self.start + i * sz;
        let mut k: usize = 0;
        while k < sz
            invariant
                k <= sz,
                sz == T::size_spec(),
                img@ == value.as_bytes(),
                img@.len() == sz,
                off == self.start + (i as int) * (sz as int),
                off + sz <= self.data@.len(),
                self.data@.len() <= usize::MAX,
                self.data@.len() == old(self).data@.len(),
                self.start == old(self).start,
                self.len == old(self).len,
                self.cap == old(self).cap,
                self.base == old(self).base,
                self.raw_cap == old(self).raw_cap,
                self.elems == old(self).elems,
                forall|j: int|
                    0 <= j < self.data@.len() ==> #[trigger] self.data@[j] == if off <= j < off + k {
                        img@[j - off]
                    } else {
                        old(self).data@[j]
                    },
            decreases sz - k,
        {
            let b = img[k];
            self.data[off + k] = b;
            k += 1;
        }
        self.elems = Ghost(s.update(i as int, value));
        proof {
            let sz_i = sz as int;
            let ioff = (i as int) * sz_i;
            assert(self.data@ =~= zero_bytes(self.start as int) + concat_bytes(self.elems@)) by {
                assert forall|j: int| 0 <= j < self.data@.len() implies #[trigger] self.data@[j]
                    == (zero_bytes(self.start as int) + concat_bytes(self.elems@))[j] by {
                    if j < self.start {
                        assert(old(self).data@[j] == (zero_bytes(self.start as int) + concat_bytes(
                            s,
                        ))[j]);
                    } else {
                        let jj = j - self.start;
                        assert(old(self).data@[j] == (zero_bytes(self.start as int) + concat_bytes(
                            s,
                        ))[j]);
                        if ioff <= jj < ioff + sz_i {
                            assert(concat_bytes(self.elems@).subrange(ioff, ioff + sz_i)
                                == value.as_bytes());
                            assert(concat_bytes(self.elems@)[jj] == concat_bytes(
                                self.elems@,
                            ).subrange(ioff, ioff + sz_i)[jj - ioff]);
                        }
                    }
                }
            };
        }
    }

    /// Grows the element capacity to at least `len + additional` by moving
    /// the staged bytes into a fresh scratch region: the region's new base
    /// address gets its own alignment offset, the skipped prefix is
    /// re-zeroed, and the element bytes shift to the new offset.
    pub fn reserve(&mut self, additional: usize)
        requires
            old(self).wf(),
            old(self).elements().len() + additional <= usize::MAX,
            T::size_spec() > 0 ==> (old(self).elements().len() + additional) * T::size_spec()
                + T::align_spec() <= usize::MAX,
        ensures
            final(self).wf(),
            final(self).elements() == old(self).elements(),
            final(self).capacity_spec() >= old(self).elements().len() + additional,
    {
        let requested = self.len + additional;
        if requested <= self.cap {
            return ;
        }
        let sz = T::size();
        let al = T::align();
        proof {
            T::layout_facts();
            lemma_pow2_pos(al);
            assert((requested as int) * (sz as int) + al <= usize::MAX);
            assert((self.len as int) * (sz as int) <= (requested as int) * (sz as int))
                by (nonlinear_arith)
                requires
                    0 <= self.len as int <= requested as int,
                    sz >= 0,
            ;
        }
        let needed = requested * sz + (al - 1);
        let (mut newdata, newbase) = crate::inner::alloc_buffer(needed);
        let newstart = align_offset(al, newbase);
        let mut k: usize = 0;
        while k < newstart
            invariant
                k <= newstart,
                newdata@ =~= zero_bytes(k as int),
            decreases newstart - k,
        {
            newdata.push(0u8);
            assert(newdata@ =~= zero_bytes(k + 1));
            k += 1;
        }
        let total = self.len * sz;
        proof {
            lemma_concat_len::<T>(self.elems@);
        }
        let mut k2: usize = 0;
        while k2 < total
            invariant
                k2 <= total,
                *self == *old(self),
                self.wf(),
                total == (self.len as int) * (sz as int),
                sz == T::size_spec(),
                self.data@.len() == self.start + total,
                self.data@.len() <= usize::MAX,
                newdata@ =~= zero_bytes(newstart as int) + self.data@.subrange(
                    self.start as int,
                    self.start + k2,
                ),
            decreases total - k2,
        {
            let b = self.data[self.start + k2];
            newdata.push(b);
            assert(newdata@ =~= zero_bytes(newstart as int) + self.data@.subrange(
                self.start as int,
                self.start + k2 + 1,
            ));
            k2 += 1;
        }
        proof {
            assert(self.data@.subrange(self.start as int, self.start + total) =~= concat_bytes(
                self.elems@,
            )) by {
                assert forall|j: int| 0 <= j < total implies #[trigger] self.data@[self.start + j]
                    == concat_bytes(self.elems@)[j] by {
                    assert(self.data@[self.start + j] == (zero_bytes(self.start as int)
                        + concat_bytes(self.elems@))[self.start + j]);
                }
            };
        }
        self.data = newdata;
        self.base = newbase;
        self.raw_cap = needed;
        self.start = newstart;
        self.cap = requested;
        proof {
            assert((requested as int) * (sz as int) >= 1 * 1) by (nonlinear_arith)
                requires
                    requested as int >= 1,
                    sz as int >= 1,
            ;
            assert(self.data@ =~= zero_bytes(self.start as int) + concat_bytes(self.elems@));
        }
    }

    /// Stages one more element at the tail of the scratch region, growing
    /// it first when it is full.
    pub fn push(&mut self, value: T)
        requires
            old(self).wf(),
            old(self).can_push(),
        ensures
            final(self).wf(),
            final(self).elements() == old(self).elements().push(value),
    {
        if self.len == self.cap {
            self.reserve(1);
        }
        proof {
            value.bytes_len();
        }
        value.append_to(&mut self.data);
        proof {
            let s = self.elems@;
            assert(concat_bytes(s.push(value)) == concat_bytes(s) + value.as_bytes()) by {
                assert(s.push(value).drop_last() =~= s);
                assert(s.push(value).last() == value);
            };
            assert((self.len + 1) * T::size_spec() == (self.len as int) * T::size_spec()
                + T::size_spec()) by (nonlinear_arith);
        }
        self.elems = Ghost(self.elems@.push(value));
        self.len = self.len + 1;
        proof {
            if T::size_spec() == 0 {
                assert(self.data@ =~= Seq::<u8>::empty());
            } else {
                assert(self.data@ =~= zero_bytes(self.start as int) + concat_bytes(self.elems@));
            }
        }
    }

    /// Removes and returns the most recently staged element, if any. The
    /// element capacity is untouched either way.
    pub fn pop(&mut self) -> (r: Option<T>)
        requires
            old(self).wf(),
        ensures
            final(self).wf(),
            final(self).capacity_spec() == old(self).capacity_spec(),
            old(self).elements().len() == 0 ==> r is None && *final(self) == *old(self),
            old(self).elements().len() > 0 ==> {
                &&& r == Some(old(self).elements().last())
                &&& final(self).elements() == old(self).elements().drop_last()
            },
    {
        if self.len == 0 {
            return None;
        }
        let sz = T::size();
        let ghost s = self.elems@;
        proof {
            assert(self.data@.len() == self.data.len());
            lemma_concat_len::<T>(s);
            lemma_concat_len::<T>(s.drop_last());
            s.last().bytes_len();
            assert((self.len as int) * (sz as int) == (self.len - 1) * (sz as int) + sz)
                by (nonlinear_arith);
            assert((self.len - 1) * (sz as int) >= 0) by (nonlinear_arith)
                requires
                    self.len as int >= 1,
                    sz >= 0,
            ;
        }
        self.len = self.len - 1;
        proof {
            if T::size_spec() == 0 {
                assert((self.len as int) * (sz as int) == 0) by (nonlinear_arith)
                    requires
                        sz as int == 0,
                ;
            } else {
                assert(self.start + (self.len as int) * (sz as int) + sz == self.data@.len());
            }
        }
        let tail = self.start + self.len * sz;
        let r = T::read_from(data_slice(&self.data), tail);
        proof {
            assert(r.as_bytes() =~= s.last().as_bytes()) by {
                assert forall|j: int| 0 <= j < sz implies #[trigger] self.data@[tail + j]
                    == s.last().as_bytes()[j] by {
                    assert(self.data@[tail + j] == (zero_bytes(self.start as int) + concat_bytes(
                        s,
                    ))[tail + j]);
                    assert(concat_bytes(s)[(self.len as int) * (sz as int) + j] == (concat_bytes(
                        s.drop_last(),
                    ) + s.last().as_bytes())[(self.len as int) * (sz as int) + j]);
                }
            };
            r.bytes_injective(s.last());
        }
        self.data.truncate(tail);
        self.elems = Ghost(s.drop_last());
        proof {
            if T::size_spec() == 0 {
                assert(self.data@ =~= Seq::<u8>::empty());
            } else {
                assert(self.data@ =~= zero_bytes(self.start as int) + concat_bytes(self.elems@))
                    by {
                    assert forall|j: int| 0 <= j < tail implies #[trigger] self.data@[j]
                        == (zero_bytes(self.start as int) + concat_bytes(s.drop_last()))[j] by {
                        assert(self.data@[j] == (zero_bytes(self.start as int) + concat_bytes(
                            s,
                        ))[j]);
                        if j >= self.start {
                            assert(concat_bytes(s)[j - self.start] == (concat_bytes(s.drop_last())
                                + s.last().as_bytes())[j - self.start]);
                        }
                    }
                };
            }
        }
        Some(r)
    }

    /// Reserves capacity for `slice.len()` additional elements. This is
    /// the capacity-only fast path: the elements themselves are staged by
    /// `push`, one at a time.
    pub fn extend_from_slice(&mut self, slice: &[T])
        requires
            old(self).wf(),
            old(self).elements().len() + slice@.len() <= usize::MAX,
            T::size_spec() > 0 ==> (old(self).elements().len() + slice@.len()) * T::size_spec()
                + T::align_spec() <= usize::MAX,
        ensures
            final(self).wf(),
            final(self).elements() == old(self).elements(),
            final(self).capacity_spec() >= old(self).elements().len() + slice@.len(),
    {
        let additional = slice.len();
        if self.len + additional > self.cap {
            self.reserve(additional);
        }
    }

    /// Consumes the builder and commits the staged elements into the pool:
    /// the whole scratch region (zeroed prefix included) is absorbed with
    /// no copy, and the returned reference spans exactly the element
    /// bytes, correctly aligned. Zero-sized elements, and a builder that
    /// never grew, leave the pool untouched and return an empty reference.
    /// Also returns the element count.
    pub fn finalize(self, pool: &mut DataInternerInner) -> (r: (InternedRef, usize))
        requires
            self.wf(),
            old(pool).wf(),
        ensures
            final(pool).wf(),
            extends(old(pool).snaps(), final(pool).snaps()),
            ref_valid_in(final(pool).snaps(), r.0),
            ref_bytes_in(final(pool).snaps(), r.0) == concat_bytes(self.elements()),
            r.1 == self.elements().len(),
            r.0.len == self.elements().len() * T::size_spec(),
            (r.0.addr as int) % (T::align_spec() as int) == 0,
            T::size_spec() == 0 || self.capacity_spec() == 0 ==> *final(pool) == *old(pool),
    {
        let n = self.len;
        let sz = T::size();
        proof {
            T::layout_facts();
            lemma_pow2_pos(T::align_spec());
            vstd::arithmetic::div_mod::lemma_small_mod(0nat, T::align_spec() as nat);
            lemma_concat_len::<T>(self.elems@);
        }
        if sz == 0 {
            proof {
                lemma_extends_refl(pool.snaps());
            }
            return (InternedRef::empty(), n);
        }
        if self.cap == 0 {
            proof {
                lemma_extends_refl(pool.snaps());
                assert((0 as int) * (sz as int) == 0) by (nonlinear_arith);
            }
            return (InternedRef::empty(), n);
        }
        proof {
            assert((self.cap as int) * (sz as int) >= 1 * 1) by (nonlinear_arith)
                requires
                    self.cap as int >= 1,
                    sz as int >= 1,
            ;
            assert((self.len as int) * (sz as int) <= (self.cap as int) * (sz as int))
                by (nonlinear_arith)
                requires
                    0 <= self.len as int <= self.cap as int,
                    sz >= 0,
            ;
        }
        let total = n * sz;
        let start = self.start;
        let ghost s = self.elems@;
        let ghost dbytes = self.data@;
        let rf0 = pool.absorb(self.data, self.raw_cap, self.base);
        let rf = InternedRef { buf_id: rf0.buf_id, off: start, len: total, addr: rf0.addr + start };
        proof {
            assert(ref_valid_in(pool.snaps(), rf));
            assert(ref_bytes_in(pool.snaps(), rf) =~= concat_bytes(s)) by {
                assert forall|j: int| 0 <= j < total implies #[trigger] dbytes[start + j]
                    == concat_bytes(s)[j] by {
                    assert(dbytes[start + j] == (zero_bytes(start as int) + concat_bytes(s))[start
                        + j]);
                }
            };
        }
        (rf, n)
    }
}

/// Replacing element `i` replaces exactly its window of the
/// concatenation and leaves every other byte alone.
pub proof fn lemma_concat_update<T: PlainData>(s: Seq<T>, i: int, v: T)
    requires
        0 <= i < s.len(),
    ensures
        ({
            let sz = T::size_spec() as int;
            let c0 = concat_bytes(s);
            let c1 = concat_bytes(s.update(i, v));
            &&& c1.len() == c0.len()
            &&& forall|j: int|
                0 <= j < c0.len() && !(i * sz <= j < i * sz + sz) ==> #[trigger] c1[j] == c0[j]
            &&& c1.subrange(i * sz, i * sz + sz) == v.as_bytes()
        }),
    decreases s.len(),
{
    let sz = T::size_spec() as int;
    let s1 = s.update(i, v);
    lemma_concat_len::<T>(s);
    lemma_concat_len::<T>(s1);
    lemma_concat_len::<T>(s.drop_last());
    s.last().bytes_len();
    v.bytes_len();
    if i == s.len() - 1 {
        assert(s1.drop_last() =~= s.drop_last());
        assert(s1.last() == v);
        assert(concat_bytes(s1) == concat_bytes(s.drop_last()) + v.as_bytes());
        assert(concat_bytes(s1).subrange(i * sz, i * sz + sz) =~= v.as_bytes()) by {
            assert(i * sz == concat_bytes(s.drop_last()).len());
        };
    } else {
        assert(s1.drop_last() =~= s.drop_last().update(i, v));
        assert(s1.last() == s.last());
        lemma_concat_update::<T>(s.drop_last(), i, v);
        lemma_concat_len::<T>(s.drop_last().update(i, v));
        assert(i * sz + sz <= (s.len() - 1) * sz) by (nonlinear_arith)
            requires
                0 <= i < s.len() - 1,
                sz >= 0,
        ;
        assert(concat_bytes(s1).subrange(i * sz, i * sz + sz) =~= concat_bytes(
            s.drop_last().update(i, v),
        ).subrange(i * sz, i * sz + sz));
    }
}

/// The push/pop stack law: a push followed by a pop returns exactly the
/// pushed element and restores the staged contents. The hypotheses are
/// what `push` and `pop` promise of the builder's contents, so after any
/// interleaving of pushes and pops the observable contents are the pushes
/// not yet popped, in push order.
pub proof fn lemma_push_then_pop<T: PlainData>(
    s0: Seq<T>,
    v: T,
    s1: Seq<T>,
    r: Option<T>,
    s2: Seq<T>,
)
    requires
        s1 == s0.push(v),
        s1.len() > 0 ==> r == Some(s1.last()) && s2 == s1.drop_last(),
        s1.len() == 0 ==> r is None && s2 == s1,
    ensures
        r == Some(v),
        s2 == s0,
{
    assert(s1.len() == s0.len() + 1);
    assert(s1.last() == v);
    assert(s1.drop_last() =~= s0);
}

/// The committed bytes of a scratch region, as a slice.
fn data_slice(data: &Vec<u8>) -> (r: &[u8])
    ensures
        r@ == data@,
{
    data.as_slice()
}

} // verus!
