//! Alignment arithmetic: pure address/offset math shared by the buffer pool
//! and the slice builder, so the two allocators agree on placement relative
//! to a base address.

use vstd::prelude::*;

verus! {

/// `a` is a power of two. Alignments of real Rust types are powers of two
/// well below `1 << 32`, so the exponent is kept small enough that the bit
/// arithmetic below is valid on any word size.
pub open spec fn is_pow2(a: usize) -> bool {
    exists|k: usize| k < 32 && a == (1usize << k)
}

/// A power of two is at least 1.
pub proof fn lemma_pow2_pos(align: usize)
    requires
        is_pow2(align),
    ensures
        align >= 1,
{
    let k = choose|k: usize| k < 32 && align == (1usize << k);
    assert(align >= 1) by (bit_vector)
        requires
            align == (1usize << k),
            k < 32,
    ;
}

/// Masking with `align - 1` computes the remainder modulo a power of two.
proof fn lemma_mask_is_mod(align: usize, addr: usize)
    requires
        is_pow2(align),
    ensures
        (addr & ((align - 1) as usize)) == addr % align,
{
    let k = choose|k: usize| k < 32 && align == (1usize << k);
    let m0 = addr & ((align - 1) as usize);
    let q = addr >> k;
    assert(m0 < align && q * align + m0 == addr) by (bit_vector)
        requires
            align == (1usize << k),
            k < 32,
            m0 == addr & ((align - 1) as usize),
            q == addr >> k,
    ;
    vstd::arithmetic::div_mod::lemma_fundamental_div_mod_converse(
        addr as int,
        align as int,
        q as int,
        m0 as int,
    );
}

/// The number of padding bytes needed to carry `addr` to the next multiple
/// of `align` (zero when `addr` is already a multiple).
pub open spec fn pad_for(addr: int, align: int) -> int {
    (align - (addr % align)) % align
}

/// `pad_for` is the unique value below `align` whose addition makes `addr`
/// a multiple of `align`.
pub proof fn lemma_pad_for_unique(addr: int, align: int, p: int)
    requires
        align >= 1,
        addr >= 0,
        0 <= p < align,
        (addr + p) % align == 0,
    ensures
        p == pad_for(addr, align),
{
    let m = addr % align;
    vstd::arithmetic::div_mod::lemma_mod_bound(addr, align);
    lemma_pad_for_works(addr, align);
    let q = pad_for(addr, align);
    vstd::arithmetic::div_mod::lemma_add_mod_noop(addr, p, align);
    vstd::arithmetic::div_mod::lemma_add_mod_noop(addr, q, align);
    vstd::arithmetic::div_mod::lemma_mod_twice(addr, align);
    vstd::arithmetic::div_mod::lemma_small_mod(p as nat, align as nat);
    vstd::arithmetic::div_mod::lemma_small_mod(q as nat, align as nat);
    assert((m + p) % align == 0);
    assert((m + q) % align == 0);
    lemma_low_residue(m, p, align);
    lemma_low_residue(m, q, align);
}

/// For `m`, `p` both below `align`, a vanishing residue pins `p` to either
/// `0` or `align - m`.
proof fn lemma_low_residue(m: int, p: int, align: int)
    requires
        align >= 1,
        0 <= m < align,
        0 <= p < align,
        (m + p) % align == 0,
    ensures
        m == 0 ==> p == 0,
        m != 0 ==> p == align - m,
{
    if m + p < align {
        vstd::arithmetic::div_mod::lemma_small_mod((m + p) as nat, align as nat);
    } else {
        vstd::arithmetic::div_mod::lemma_mod_sub_multiples_vanish(m + p, align);
        vstd::arithmetic::div_mod::lemma_small_mod((m + p - align) as nat, align as nat);
    }
}

/// `pad_for` itself lies below `align` and completes `addr` to a multiple.
pub proof fn lemma_pad_for_works(addr: int, align: int)
    requires
        align >= 1,
        addr >= 0,
    ensures
        0 <= pad_for(addr, align) < align,
        (addr + pad_for(addr, align)) % align == 0,
{
    let m = addr % align;
    vstd::arithmetic::div_mod::lemma_mod_bound(addr, align);
    if m == 0 {
        vstd::arithmetic::div_mod::lemma_mod_self_0(align);
        assert(pad_for(addr, align) == 0);
        vstd::arithmetic::div_mod::lemma_add_mod_noop(addr, 0, align);
        vstd::arithmetic::div_mod::lemma_mod_twice(addr, align);
    } else {
        vstd::arithmetic::div_mod::lemma_small_mod((align - m) as nat, align as nat);
        assert(pad_for(addr, align) == align - m);
        vstd::arithmetic::div_mod::lemma_add_mod_noop(addr, align - m, align);
        vstd::arithmetic::div_mod::lemma_mod_twice(addr, align);
        assert((addr + (align - m)) % align == (m + (align - m)) % align);
        vstd::arithmetic::div_mod::lemma_mod_self_0(align);
    }
}

/// Whether `addr` is a multiple of `align` bytes. Branch-free bit test using
/// `mask = align - 1`, valid because `align` is a power of two.
pub fn is_aligned_to(align: usize, addr: usize) -> (r: bool)
    requires
        is_pow2(align),
    ensures
        r <==> addr % align == 0,
{
    proof {
        lemma_pow2_pos(align);
        lemma_mask_is_mod(align, addr);
    }
    let mask = align - 1;
    (addr & mask) == 0
}

/// The byte offset required to make `addr` aligned to `align`. Branch-free
/// bit arithmetic using `mask = align - 1`, valid because `align` is a power
/// of two.
pub fn align_offset(align: usize, addr: usize) -> (r: usize)
    requires
        is_pow2(align),
    ensures
        r == pad_for(addr as int, align as int),
        r < align,
        (addr + r) % (align as int) == 0,
{
    proof {
        lemma_pow2_pos(align);
        lemma_mask_is_mod(align, addr);
        let k = choose|k: usize| k < 32 && align == (1usize << k);
        assert({
            let m0 = addr & ((align - 1) as usize);
            m0 <= ((align - 1) as usize)
        }) by (bit_vector)
            requires
                align == (1usize << k),
                k < 32,
        ;
        assert({
            let m0 = addr & ((align - 1) as usize);
            ((align - m0) as usize) & ((align - 1) as usize) == (if m0 == 0 {
                0usize
            } else {
                (align - m0) as usize
            })
        }) by (bit_vector)
            requires
                align == (1usize << k),
                k < 32,
        ;
    }
    let mask = align - 1;
    let r = (align - (addr & mask)) & mask;
    proof {
        let m = (addr as int) % (align as int);
        vstd::arithmetic::div_mod::lemma_mod_bound(addr as int, align as int);
        if m == 0 {
            vstd::arithmetic::div_mod::lemma_mod_self_0(align as int);
            assert(r == pad_for(addr as int, align as int));
        } else {
            vstd::arithmetic::div_mod::lemma_small_mod((align - m) as nat, align as nat);
            assert(r == pad_for(addr as int, align as int));
        }
        lemma_pad_for_works(addr as int, align as int);
    }
    r
}

} // verus!
