//! Core of an rv64 (Sv39) teaching kernel and its companion on-disk file
//! system: address arithmetic, frame and pid allocation, a three-level page
//! table, address spaces, ELF segment loading, the process table and
//! round-robin scheduler, and a block-cached inode file system.
use vstd::prelude::*;

pub mod addr;
pub mod bitmap;
pub mod block_cache;
pub mod block_dev;
pub mod bytes;
pub mod dirent;
pub mod efs;
pub mod elf;
pub mod frame_alloc;
pub mod inode;
pub mod layout;
pub mod memory_set;
pub mod page_table;
pub mod pid;
pub mod proc;
pub mod sched;
pub mod vfs;

verus! {

} // verus!
