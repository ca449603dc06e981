//! The inode layer of a small flat filesystem: file and directory operations
//! (create, find, hard-link, unlink, read, write, truncate-to-zero, stat,
//! list) over on-disk inode records, a packed fixed-width directory entry
//! format, and a bitmap allocator for inode slots and data blocks. Every
//! operation's effect is stated in its contract, and a filesystem-wide
//! invariant ties link counts to directory entries and block accounting to
//! the allocator. A deadlock-detection resource tracker for the surrounding
//! kernel's sync layer lives in its own module.

pub mod dirent;
pub mod disk_inode;
pub mod efs;
pub mod resource;
pub mod syscall;
pub mod vfs;
