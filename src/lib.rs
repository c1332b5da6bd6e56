//! An in-memory mirror of a directory subtree: a tree of payloads that is
//! also indexed by full path, with create-only `mkdir`/`write`, recursive
//! removal, and copies handed out by `read`.

pub mod cache;
pub mod error;
pub mod htm;
pub mod item;
pub mod location;

pub use cache::{Cache, Entry, EntryKind, Listing};
pub use error::CacheError;
pub use htm::{HashedTreeMap, TreeNode};
pub use item::{copy_bytes, Directory, File, FileSystemItem, ItemView, Timestamp};
pub use location::parent_and_name;
