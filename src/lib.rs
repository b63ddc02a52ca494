//! An in-memory, POSIX-flavoured virtual file system: an inode table, a path
//! index and per-inode byte storage, driven by a single process state that
//! offers syscall-shaped operations on paths and file descriptors.

pub mod collections;
pub mod filesystem;
pub mod laws;
pub mod path;
pub mod system;

pub use collections::HashMap;
pub use filesystem::{Dirent, Dirent64, FileSystem, Inode, InodeKind, Permission, Permissions, Stat};
pub use path::PathBuf;
pub use system::{FileDef, FileDescriptor, OpenFileHandle, Proc};
