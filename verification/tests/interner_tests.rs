//! Tests for the buffer pool and the interner facades.

use interner::inner::DataInternerInner;
use interner::sync::DataInterner as SyncInterner;
use interner::unsync::DataInterner;
use interner::RwLock;

#[test]
fn hello_scenario() {
    let mut interner = DataInterner::new();
    let hello = interner.add_bytes(b"Hello, world!");
    assert_eq!(
        interner.get_bytes(&hello).unwrap(),
        b"Hello, world!".to_vec()
    );
    let lorem = interner.add_bytes(b"Lorem ipsum sit dolor amet.");
    assert_eq!(
        interner.get_bytes(&lorem).unwrap(),
        b"Lorem ipsum sit dolor amet.".to_vec()
    );
    let found = interner.find_bytes(b"Hello, world!");
    let found = found.expect("previously added bytes must be found");
    assert_eq!(found.addr, hello.addr);
    assert_eq!(
        interner.get_bytes(&found).unwrap(),
        b"Hello, world!".to_vec()
    );
    // Both adds land back to back in the same spare buffer, so the
    // concatenation is a contiguous committed run and is found. Adjacency
    // is a placement property of this implementation and is asserted
    // explicitly here, never assumed; runs split across separate buffers
    // are not found (see `no_adjacency_across_buffers`).
    let spanning = interner
        .find_bytes(b"Hello, world!Lorem")
        .expect("the two runs sit adjacently in one buffer");
    assert_eq!(spanning.addr, hello.addr);
}

#[test]
fn find_or_add_identity() {
    let mut interner = DataInterner::new();
    let first = interner.find_or_add_bytes(b"some payload");
    let second = interner.find_or_add_bytes(b"some payload");
    assert_eq!(first.addr, second.addr);
    assert_eq!(first, second);
    assert_eq!(
        interner.get_bytes(&first).unwrap(),
        interner.get_bytes(&second).unwrap()
    );
    assert_eq!(interner.get_bytes(&first).unwrap(), b"some payload".to_vec());
}

#[test]
fn add_owned_full_capacity_keeps_address() {
    let mut interner = DataInterner::new();
    let mut buffer: Vec<u8> = Vec::with_capacity(4);
    buffer.extend_from_slice(&[9, 8, 7, 6]);
    assert_eq!(buffer.len(), buffer.capacity());
    let original_addr = buffer.as_ptr() as usize;
    let rf = interner.add_owned_bytes(buffer);
    assert_eq!(rf.addr, original_addr);
    assert_eq!(interner.get_bytes(&rf).unwrap(), vec![9, 8, 7, 6]);
}

#[test]
fn alignment_respected_on_add() {
    for &align in &[1usize, 2, 4, 8, 16] {
        let mut pool = DataInternerInner::new();
        let rf = pool.add_bytes_with_align(&[0xAA, 0xBB, 0xCC], align);
        assert_eq!(rf.addr % align, 0, "add at alignment {align}");
        assert_eq!(pool.read_bytes(&rf), vec![0xAA, 0xBB, 0xCC]);
        let found = pool
            .find_bytes_with_align(&[0xAA, 0xBB, 0xCC], align)
            .expect("just added");
        assert_eq!(found.addr % align, 0, "find at alignment {align}");
    }
}

#[test]
fn alignment_rejects_misaligned_occurrence() {
    let mut pool = DataInternerInner::new();
    // Lay down bytes so that the pattern occurs only at an odd offset.
    let rf = pool.add_bytes_with_align(&[0x01, 0x55, 0x66], 1);
    assert_eq!(rf.addr % 1, 0);
    // The run [0x55, 0x66] sits at an address one past a 1024-buffer start.
    let misaligned = pool.find_bytes_with_align(&[0x55, 0x66], 2);
    if let Some(m) = misaligned {
        // If it was found at alignment 2, its address must really be even.
        assert_eq!(m.addr % 2, 0);
    }
    // At alignment 1 it must be found.
    assert!(pool.find_bytes_with_align(&[0x55, 0x66], 1).is_some());
}

#[test]
fn find_negative_and_substring() {
    let mut interner = DataInterner::new();
    interner.add_bytes(b"abcdef");
    assert!(interner.find_bytes(b"cde").is_some());
    assert!(interner.find_bytes(b"abcdef").is_some());
    assert!(interner.find_bytes(b"xyz").is_none());
    assert!(interner.find_bytes(b"abcdeg").is_none());
}

#[test]
fn find_empty_always_succeeds() {
    let interner = DataInterner::new();
    let rf = interner.find_bytes(b"").expect("empty run always succeeds");
    assert_eq!(rf.len, 0);
    assert_eq!(interner.get_bytes(&rf).unwrap(), Vec::<u8>::new());
}

#[test]
fn adjacency_within_one_buffer() {
    // Two adds land in the same spare buffer back to back at alignment 1,
    // so the concatenation becomes findable. This is a property of this
    // implementation's buffer placement, checked explicitly.
    let mut interner = DataInterner::new();
    interner.add_bytes(b"AB");
    interner.add_bytes(b"CD");
    assert!(interner.find_bytes(b"BC").is_some());
    assert!(interner.find_bytes(b"ABCD").is_some());
}

#[test]
fn no_adjacency_across_buffers() {
    // Two full caller-owned buffers stay separate regions: a run spanning
    // their boundary is never found.
    let mut interner = DataInterner::new();
    let mut a: Vec<u8> = Vec::with_capacity(2);
    a.extend_from_slice(b"AB");
    let mut b: Vec<u8> = Vec::with_capacity(2);
    b.extend_from_slice(b"CD");
    interner.add_owned_bytes(a);
    interner.add_owned_bytes(b);
    assert!(interner.find_bytes(b"AB").is_some());
    assert!(interner.find_bytes(b"CD").is_some());
    assert!(interner.find_bytes(b"BC").is_none());
}

#[test]
fn clear_forgets_previous_content() {
    let mut interner = DataInterner::new();
    let rf = interner.add_bytes(b"to be forgotten");
    assert!(interner.find_bytes(b"to be forgotten").is_some());
    interner.clear();
    assert!(interner.find_bytes(b"to be forgotten").is_none());
    // The old reference no longer designates committed bytes.
    assert!(interner.get_bytes(&rf).is_none());
}

#[test]
fn try_clear_reports_success() {
    let mut interner = DataInterner::new();
    interner.add_bytes(b"gone soon");
    assert_eq!(interner.try_clear(), Ok(()));
    assert!(interner.find_bytes(b"gone soon").is_none());
}

#[test]
fn slice_and_value_interning() {
    let mut interner = DataInterner::new();
    let rf = interner.add_slice(&[0x11223344u32, 0x55667788u32]);
    assert_eq!(rf.addr % 4, 0);
    assert_eq!(
        interner.get_bytes(&rf).unwrap(),
        vec![0x44, 0x33, 0x22, 0x11, 0x88, 0x77, 0x66, 0x55]
    );
    assert!(interner.find_slice(&[0x11223344u32]).is_some());
    assert!(interner.find_slice(&[0x99aabbccu32]).is_none());
    let vf = interner.find_or_add_value(&0xdeadbeefu32);
    assert_eq!(vf.addr % 4, 0);
    let again = interner.find_value(&0xdeadbeefu32).expect("just added");
    assert_eq!(again.addr, vf.addr);
}

#[test]
fn try_add_owned_rejects_aligned_elements() {
    let mut interner = DataInterner::new();
    let values: Vec<u32> = vec![1, 2, 3];
    let back = interner
        .try_add_owned(values)
        .expect_err("alignment above 1 must be rejected");
    assert_eq!(back, vec![1, 2, 3]);
    // Alignment-1 elements go through, and the absorbed bytes become
    // searchable as raw bytes afterwards.
    let bytes: Vec<u8> = vec![1, 2, 3, 1, 2, 3];
    let rf = interner.try_add_owned(bytes).expect("u8 has alignment 1");
    assert_eq!(interner.get_bytes(&rf).unwrap(), vec![1, 2, 3, 1, 2, 3]);
    assert!(interner.find_bytes(&[1, 2, 3, 1, 2]).is_some());
    assert!(interner.find_bytes(&[2, 3, 1, 2, 3]).is_some());
}

#[test]
fn try_add_owned_ignores_storageless_vectors() {
    // A vector that owns no storage is ignored even for aligned element
    // types: nothing can be absorbed, so there is nothing to reject.
    let mut interner = DataInterner::new();
    let empty: Vec<u32> = Vec::new();
    assert_eq!(empty.capacity(), 0);
    let rf = interner
        .try_add_owned(empty)
        .expect("a storage-less vector is ignored, not rejected");
    assert_eq!(rf.len, 0);
    assert!(interner.find_bytes(b"x").is_none());
    // An empty vector that does own storage is rejected for aligned
    // element types, exactly like a nonempty one.
    let owning: Vec<u32> = Vec::with_capacity(4);
    assert!(owning.capacity() > 0);
    let back = interner
        .try_add_owned(owning)
        .expect_err("owned aligned storage cannot be absorbed");
    assert_eq!(back, Vec::<u32>::new());
}

#[test]
fn sync_typed_operations() {
    let shared = SyncInterner::new();
    let (rf, bytes) = shared.add_slice(&[0x1111u16, 0x2222u16]);
    assert_eq!(rf.addr % 2, 0);
    assert_eq!(bytes, vec![0x11, 0x11, 0x22, 0x22]);
    let found = shared
        .find_slice(&[0x1111u16, 0x2222u16])
        .expect("just added");
    assert_eq!(found, vec![0x11, 0x11, 0x22, 0x22]);
    assert!(shared.find_slice(&[0x3333u16]).is_none());
    let (vf, vbytes) = shared.find_or_add_value(&0xabcd1234u32);
    assert_eq!(vf.addr % 4, 0);
    assert_eq!(vbytes, vec![0x34, 0x12, 0xcd, 0xab]);
    let seen = shared.find_value(&0xabcd1234u32).expect("just added");
    assert_eq!(seen, vec![0x34, 0x12, 0xcd, 0xab]);
    let rejected = shared
        .try_add_owned(vec![7u32, 8, 9])
        .expect_err("alignment above 1 must be rejected");
    assert_eq!(rejected, vec![7, 8, 9]);
    let (orf, obytes) = shared
        .try_add_owned(vec![9u8, 9, 9])
        .expect("u8 has alignment 1");
    assert_eq!(orf.len, 3);
    assert_eq!(obytes, vec![9, 9, 9]);
    let none: Vec<u32> = Vec::new();
    let (erf, _) = shared
        .try_add_owned(none)
        .expect("a storage-less vector is ignored");
    assert_eq!(erf.len, 0);
}

#[test]
fn sync_interner_basics() {
    let shared = SyncInterner::new();
    let (rf, bytes) = shared.add_bytes(b"shared content");
    assert_eq!(bytes, b"shared content".to_vec());
    assert_eq!(rf.len, b"shared content".len());
    let found = shared.find_bytes(b"shared content").expect("was added");
    assert_eq!(found, b"shared content".to_vec());
    assert!(shared.find_bytes(b"missing").is_none());
    let (rf2, bytes2) = shared.find_or_add_bytes(b"shared content");
    assert_eq!(bytes2, b"shared content".to_vec());
    assert_eq!(rf2.addr, rf.addr);
    assert_eq!(shared.get_bytes(&rf).unwrap(), b"shared content".to_vec());
}

#[test]
fn sync_clear_and_round_trip() {
    let mut shared = SyncInterner::new();
    shared.add_bytes(b"volatile");
    assert_eq!(shared.try_clear(), Ok(()));
    assert!(shared.find_bytes(b"volatile").is_none());
    shared.add_bytes(b"carried over");
    let unshared = shared.into_unsync();
    assert!(unshared.find_bytes(b"carried over").is_some());
    let reshared = unshared.into_sync();
    assert!(reshared.find_bytes(b"carried over").is_some());
}

#[test]
fn sync_add_owned() {
    let shared = SyncInterner::new();
    let (rf, bytes) = shared.add_owned_bytes(vec![5, 4, 3, 2, 1]);
    assert_eq!(bytes, vec![5, 4, 3, 2, 1]);
    assert_eq!(rf.len, 5);
    assert!(shared.find_bytes(&[4, 3, 2]).is_some());
}

#[test]
fn rwlock_basics() {
    let mut pool = DataInternerInner::new();
    pool.add_bytes(b"locked away");
    let lock = RwLock::new(pool);
    {
        let guard = lock.read();
        let seen = guard.borrow();
        assert!(seen.find_bytes(b"locked away").is_some());
        guard.release();
    }
    {
        let (mut held, guard) = lock.write();
        held.add_bytes(b"added under lock");
        guard.release(held);
    }
    let inside = lock.into_inner();
    assert!(inside.find_bytes(b"locked away").is_some());
    assert!(inside.find_bytes(b"added under lock").is_some());
}
