//! A registry of vault names kept in a small binary index file.
//!
//! The file starts with a 12-byte header (an 8-byte magic tag and a
//! little-endian format version) and continues with fixed 16-byte slots, each
//! holding a zero-padded UTF-8 name or nothing at all (an all-zero slot).
//!
//! The library does no I/O. [`VaultIndex`] keeps the bytes that the file is
//! expected to hold, together with the list of names, and every operation
//! records the [`FileEdit`]s that bring the file on disk to that state.

pub mod layout;
pub mod index;
pub mod laws;
pub mod menu;

pub use index::{IndexError, VaultIndex};
pub use layout::FileEdit;
