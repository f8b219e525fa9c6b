//! Read-oriented access to FAT-family volumes on top of a byte-addressable
//! block storage interface, together with a few small memory-management
//! helpers of the surrounding kernel.
//!
//! The core is the FAT engine: it decodes the boot sector into validated
//! volume geometry, walks cluster allocation chains through the File
//! Allocation Table, reconstructs short (8.3) and long (UTF-16) file names
//! from raw 32-byte directory entries, and translates logical file offsets
//! into physical storage accesses for multi-cluster reads and writes.

pub mod bytes;
pub mod cdfs;
pub mod chain;
pub mod dirent;
pub mod error;
pub mod exfat;
pub mod fat;
pub mod fs;
pub mod laws;
pub mod mapping;
pub mod memory;
pub mod mmu;
pub mod mmu_x86;
pub mod names;
pub mod ntfs;
pub mod storage;
pub mod x86;
