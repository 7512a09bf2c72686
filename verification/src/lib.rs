//! A verified USB mass-storage stack.
//!
//! The layers mirror the protocol: [`bot`] frames SCSI commands over the
//! Bulk-Only Transport's 31-byte CBW and 13-byte CSW wrappers, [`scsi`]
//! encodes the six commands a block device needs and decodes their
//! responses, [`cache`] keeps a bounded write-back cache of 512-byte
//! blocks with least-recently-used eviction, and [`storage`] maps
//! byte-addressed reads and writes onto block commands, including the
//! read-modify-write of partial boundary blocks.
//!
//! The core never performs I/O itself: each operation is split into a plan
//! naming the READ(10) commands to issue and an apply step that consumes
//! the fetched bytes and returns the WRITE(10) commands owed to the
//! device. [`sim`] closes the loop against an in-memory disk, which makes
//! the whole stack's behaviour — one byte store with write-back caching —
//! provable end to end; a USB host can drive the same plans over real bulk
//! transfers.

pub mod bot;
pub mod cache;
pub mod endian;
pub mod scsi;
pub mod sim;
pub mod storage;
pub mod util;
