//! Reader for a single-file packed archive.
//!
//! An archive is one stream of bytes:
//!
//! - bytes `0..4`: the header's length `L`, as an unsigned 32-bit number,
//!   least significant byte first;
//! - bytes `4..4 + L`: the header, a JSON document that describes a directory
//!   tree. A node with an object under `files` is a directory, whose children
//!   are that object's members. Any other node with non-negative integers
//!   under `size` and `offset` is a file. Every other node is malformed;
//! - the rest: the data region. A file's bytes start `offset` bytes into it.
//!
//! [`open_archive`] reads all of this into an [`ArchiveHandle`], which maps
//! each file's relative path, the names from the root joined by `/`, to its
//! bytes. A malformed leaf, or a file whose bytes the stream does not hold, is
//! skipped with a warning by a lenient open and fails a strict one.
//! [`Extraction`] hands the files out one by one to a caller that writes them
//! to a directory.
//!
//! The stages are public too: [`header::decode_header`], [`table::flatten`],
//! [`content::load`] and [`archive::gather`].

pub mod archive;
pub mod content;
pub mod error;
pub mod extract;
pub mod header;
pub mod json;
pub mod leaves;
pub mod model;
pub mod path;
pub mod table;
pub mod tree;

pub use archive::{open_archive, ArchiveHandle};
pub use content::Entry;
pub use error::ArchiveError;
pub use extract::{Extraction, WriteRequest};
