//! Bounded fan-out scanning of a directory tree.
//!
//! The crate holds the rules of a recursive directory scan and leaves the
//! file system, the threads and the waiting to its caller:
//!
//! * [`File`] and [`Directory`] are what a scan finds: a directory with its
//!   files and sub-directories. A directory holds no file and no
//!   sub-directory twice.
//! * [`DirectoryTree`] keeps the nodes that several scans fill together,
//!   each behind a [`DirectoryHandle`], and gives snapshots of them.
//! * [`DirectoryScanner`] decides, entry by entry, what a scan does with what
//!   a listing shows, and whether a sub-directory is scanned inline or by a
//!   task of its own, under a limit on the tasks that run at one time.
//! * [`DirectoryEventBroker`] queues the handles to the directories that
//!   finished scans publish.
//! * [`ListedEntry`] is an entry of a tree that was listed in advance;
//!   [`DirectoryScanner::scan`] scans such a tree as a whole.
//! * [`ScannerBuilder`] assembles a scanner from a root path and a limit.
//!
//! Paths are text whose components are separated by `/`.

pub mod directory;
pub mod event_broker;
pub mod file;
pub mod listing;
pub mod scanner;
pub mod scanner_builder;
pub mod tree;

pub use directory::{Directory, FileIterator, SubDirectoryIterator};
pub use event_broker::{DirectoryEventBroker, RecvError};
pub use file::File;
pub use listing::ListedEntry;
pub use scanner::{DirectoryScan, DirectoryScanner, EntryAction, EntryKind};
pub use scanner_builder::ScannerBuilder;
pub use tree::{DirectoryHandle, DirectoryTree};
