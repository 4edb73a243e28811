//! Overlay engine for a read-only game data archive.
//!
//! The library decides, for each 64-bit content fingerprint derived from an
//! internal path, which externally supplied file (if any) replaces the
//! archive's own data, how large it is, and whether the archive's size
//! bookkeeping must be raised to accommodate it.

pub mod fs;
pub mod hashing;
pub mod replacement_files;
