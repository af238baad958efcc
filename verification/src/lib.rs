//! A deduplicating byte-content arena ("interner").
//!
//! The pool stores arbitrary byte runs once and hands out stable references
//! (descriptors into an arena of buffers) that stay valid for the pool's
//! entire lifetime, even as more data is appended later.

pub mod align;
pub mod builder;
pub mod inner;
pub mod rwlock;
pub mod sync;
pub mod unsync;

pub use align::{align_offset, is_aligned_to};
pub use builder::{PlainData, SliceBuilder, Zst};
pub use inner::{DataInternerInner, InternedRef};
pub use rwlock::{LockInv, RwLock, RwLockReadGuard, RwLockWriteGuard};
