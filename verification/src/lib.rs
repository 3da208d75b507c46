//! SADAK: a copy-on-write block filesystem core.
//!
//! The crate layers a RAID-1 mirror, a block cache, a bitmap allocator and a
//! checksummed copy-on-write B-tree under a small filesystem whose commits are
//! published atomically through the superblock in block 0.

pub mod sahne_syscalls;
pub mod checksum;
pub mod block_device;
pub mod layout;
pub mod raid;
pub mod cache;
pub mod bitmap;
pub mod allocator;
pub mod entries;
pub mod cow;
pub mod tree_model;
pub mod btree;
pub mod fs;
