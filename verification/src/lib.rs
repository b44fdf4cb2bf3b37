//! `ziponline` extracts files from a zip that lies behind HTTP. It uses range requests to avoid
//! downloading the entire archive when only a few individual files are needed.
//!
//! There are two main ways to extract zip files:
//! - `ziponline::extract_file` - extracts a singular file from the archive.
//! - `ziponline::LazyZipFile` - uses caching to speed-up multiple file extractions from the same
//!   archive.
//!
//! The library makes no request itself. It says which request to make, takes the reply in chunk by
//! chunk, and says what comes next.
pub mod archive;
pub mod central_directory;
pub mod chunk_by;
pub mod content_length;
pub mod decimal;
pub mod eocd;
pub mod error;
pub mod extract;
pub mod file;
pub mod format;
pub mod lazy;
pub mod open;
pub mod outside;
pub mod parser;
pub mod range;
pub mod records;
pub mod ring_buf;
pub mod structs;
pub mod window;

pub use crate::error::{Error, Result};
pub use crate::extract::extract_file;
pub use crate::lazy::LazyZipFile;
