//! External merge sort over fixed-size pages of key/value records.
//!
//! A file is a sequence of 4096-byte pages. Each page carries a record count
//! and a packed array of `(i32, [u8; 4])` records. The sorter first orders the
//! records inside every page, then repeatedly merges neighbouring runs of
//! pages, doubling the run length on every pass, until one run is left.
//!
//! - `util` and `codec` lay out integers and records in bytes.
//! - `page` holds the records of a page and sorts them.
//! - `buffers` and `plan` decide what a sort does next: which record a merge
//!   emits, which page it needs, which runs a pass merges. They touch no file.
//! - `pager` models a file as a sequence of pages, and `sorter` runs a sort
//!   on such files.
//! - `runs`, `passes` and `laws` say what a merge and a sort leave behind, and
//!   what holds of it.

pub mod buffers;
pub mod codec;
pub mod laws;
pub mod page;
pub mod pager;
pub mod passes;
pub mod plan;
pub mod runs;
pub mod sorter;
pub mod util;

pub use page::Page;
pub use pager::PageFile;
pub use sorter::ExternalMergeSort;
