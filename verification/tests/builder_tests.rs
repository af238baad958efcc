//! Tests for the slice builder and its round trips into the pool.

use interner::inner::DataInternerInner;
use interner::{SliceBuilder, Zst};

fn decode_u64s(bytes: &[u8]) -> Vec<u64> {
    bytes
        .chunks(8)
        .map(|c| u64::from_le_bytes(c.try_into().unwrap()))
        .collect()
}

fn decode_u32s(bytes: &[u8]) -> Vec<u32> {
    bytes
        .chunks(4)
        .map(|c| u32::from_le_bytes(c.try_into().unwrap()))
        .collect()
}

#[test]
fn usize() {
    let mut interner = DataInternerInner::new();
    let mut slice_builder: SliceBuilder<u64> = SliceBuilder::new();
    slice_builder.push(0);
    slice_builder.push(0x5555555555555555);
    slice_builder.push(0xAAAAAAAAAAAAAAAA);
    slice_builder.push(0);
    slice_builder.push(0);
    slice_builder.push(0x5555555555555555);
    slice_builder.push(0xAAAAAAAAAAAAAAAA);
    slice_builder.push(0);

    let (rf, count) = slice_builder.finalize(&mut interner);
    assert_eq!(count, 8);
    let slice = decode_u64s(&interner.read_bytes(&rf));
    assert_eq!(
        slice,
        [
            0,
            0x5555555555555555,
            0xAAAAAAAAAAAAAAAA,
            0,
            0,
            0x5555555555555555,
            0xAAAAAAAAAAAAAAAA,
            0
        ]
    );
}

#[test]
fn round_trip_zero_sized() {
    let mut interner = DataInternerInner::new();
    let mut builder: SliceBuilder<Zst> = SliceBuilder::new();
    builder.push(Zst);
    builder.push(Zst);
    builder.push(Zst);
    assert_eq!(builder.len(), 3);
    let (rf, count) = builder.finalize(&mut interner);
    assert_eq!(count, 3);
    assert_eq!(rf.len, 0);
    assert_eq!(interner.read_bytes(&rf), Vec::<u8>::new());
}

#[test]
fn round_trip_bytes() {
    let mut interner = DataInternerInner::new();
    let mut builder: SliceBuilder<u8> = SliceBuilder::new();
    for b in [10u8, 20, 30, 40, 50] {
        builder.push(b);
    }
    let (rf, count) = builder.finalize(&mut interner);
    assert_eq!(count, 5);
    assert_eq!(rf.len, 5);
    assert_eq!(interner.read_bytes(&rf), vec![10, 20, 30, 40, 50]);
}

#[test]
fn round_trip_aligned_elements() {
    let mut interner = DataInternerInner::new();
    let mut builder: SliceBuilder<u32> = SliceBuilder::new();
    builder.push(0x01020304);
    builder.push(0x05060708);
    builder.push(0x090a0b0c);
    let (rf, count) = builder.finalize(&mut interner);
    assert_eq!(count, 3);
    assert_eq!(rf.len, 12);
    assert_eq!(rf.addr % 4, 0);
    let values = decode_u32s(&interner.read_bytes(&rf));
    assert_eq!(values, [0x01020304, 0x05060708, 0x090a0b0c]);
}

#[test]
fn push_pop_interleaving() {
    let mut builder: SliceBuilder<u32> = SliceBuilder::new();
    builder.push(1);
    builder.push(2);
    assert_eq!(builder.pop(), Some(2));
    builder.push(3);
    builder.push(4);
    assert_eq!(builder.pop(), Some(4));
    assert_eq!(builder.pop(), Some(3));
    builder.push(5);
    // Contents are now the pushes not yet popped, in order: [1, 5].
    assert_eq!(builder.len(), 2);
    assert_eq!(builder.get(0), 1);
    assert_eq!(builder.get(1), 5);
    assert_eq!(builder.pop(), Some(5));
    assert_eq!(builder.pop(), Some(1));
    assert_eq!(builder.pop(), None);
}

#[test]
fn pop_on_empty_builder() {
    let mut builder: SliceBuilder<u64> = SliceBuilder::new();
    assert_eq!(builder.pop(), None);
    assert_eq!(builder.len(), 0);
}

#[test]
fn zero_sized_capacity_unbounded() {
    let builder: SliceBuilder<Zst> = SliceBuilder::new();
    assert_eq!(builder.capacity(), usize::MAX);
}

#[test]
fn reserve_and_extend_grow_capacity() {
    let mut builder: SliceBuilder<u16> = SliceBuilder::new();
    assert_eq!(builder.capacity(), 0);
    builder.reserve(10);
    assert!(builder.capacity() >= 10);
    builder.push(0x1234);
    let more = [1u16, 2, 3, 4];
    builder.extend_from_slice(&more);
    assert!(builder.capacity() >= 5);
    assert_eq!(builder.len(), 1);
    assert_eq!(builder.get(0), 0x1234);
}

#[test]
fn builder_preserves_pool_content() {
    let mut interner = DataInternerInner::new();
    let existing = interner.add_bytes(b"already here");
    let mut builder: SliceBuilder<u16> = SliceBuilder::new();
    builder.push(0xBEEF);
    builder.push(0xF00D);
    let (rf, _) = builder.finalize(&mut interner);
    assert_eq!(rf.addr % 2, 0);
    assert_eq!(interner.read_bytes(&rf), vec![0xEF, 0xBE, 0x0D, 0xF0]);
    // The bytes committed before the builder's commit kept their place.
    assert_eq!(interner.read_bytes(&existing), b"already here".to_vec());
}

#[test]
fn finalize_empty_builder() {
    let mut interner = DataInternerInner::new();
    let builder: SliceBuilder<u64> = SliceBuilder::new();
    let (rf, count) = builder.finalize(&mut interner);
    assert_eq!(count, 0);
    assert_eq!(rf.len, 0);
    assert_eq!(interner.read_bytes(&rf), Vec::<u8>::new());
}

#[test]
fn set_overwrites_in_place() {
    let mut builder: SliceBuilder<u32> = SliceBuilder::new();
    builder.push(111);
    builder.push(222);
    builder.push(333);
    builder.set(1, 999);
    assert_eq!(builder.get(0), 111);
    assert_eq!(builder.get(1), 999);
    assert_eq!(builder.get(2), 333);
    assert_eq!(builder.pop(), Some(333));
    assert_eq!(builder.pop(), Some(999));
}
