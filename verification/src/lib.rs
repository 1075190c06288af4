//! A file-tree model for a directory browser.
//!
//! The tree of filesystem entries is kept as a single flattened, depth-tagged
//! sequence in pre-order. Directories are expanded lazily: the first time one
//! is opened its children are read through a [`adapter::FilesystemAdapter`]
//! and spliced into the sequence right after it. Collapsing a directory only
//! hides its subtree; nothing is ever removed or re-read. A read-only
//! [`display::FileTreeDisplayIterator`] walks the sequence and skips the
//! subtree of every closed directory, yielding exactly the visible items.

pub mod adapter;
pub mod display;
pub mod order;
pub mod tree;
