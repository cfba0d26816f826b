//! A point-in-time index of physical memory frames by owning process.
//!
//! The pipeline: parse a process's memory-mapping lines into [`maps::Mapping`]
//! values, turn each mapping into the byte offsets of its page-status
//! records, decode the records into [`pagemap::Page`] values, aggregate the
//! resident pages of all processes into a [`index::FrameIndex`] from frame
//! number to owning processes, and compress the index into maximal
//! [`compress::PageRange`] report entries.

pub mod compress;
pub mod index;
pub mod maps;
pub mod pagemap;
pub mod parse;
pub mod process;
