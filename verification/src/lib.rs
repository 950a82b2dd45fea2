//! An in-memory, user-space filesystem core: paged byte storage per inode, a
//! shared file/directory graph addressed through a filesystem arena, and
//! per-opener handles with independent seek cursors.
pub mod directory;
pub mod error;
pub mod file;
pub mod inode;
