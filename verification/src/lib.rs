//! Packs a tree of source files into one self-describing text container and
//! unpacks such a container back into its files.
//!
//! The container begins with a fixed magic marker line.  Each file becomes a
//! section: a `## path` heading, then either a binary placeholder line or the
//! file's bytes inside a backtick fence whose length is computed so that it
//! cannot collide with any fence-like line of the payload.  Decoding is
//! strict, reads the fence length from the document, and returns the records
//! in document order, duplicates included; binary records carry no payload,
//! and a caller materializing records is expected to skip them (no file is
//! created).
//!
//! The modules hold:
//! - [`bytes`]: byte-sequence helpers (line splitting, scanning, comparison);
//! - [`record`]: the file record data model and the error type;
//! - [`classify`]: the binary-versus-text decision over a leading sample;
//! - [`lang`]: the dialect tag derived from a file name;
//! - [`fence`]: the fence-length computation;
//! - [`encode`]: records to container bytes, and container recognition;
//! - [`decode`]: container bytes back to records;
//! - [`chapter`]: the book-style grouping of files into nested chapters;
//! - [`mdbook`]: the book-style summary and chapter pages;
//! - [`git_url`]: repository-name extraction from a git URL;
//! - [`paths`]: path predicates used to filter the enumerated files;
//! - [`config`]: the run configuration as plain values.

pub mod bytes;
pub mod record;
pub mod fence;
pub mod classify;
pub mod lang;
pub mod encode;
pub mod decode;
pub mod chapter;
pub mod mdbook;
pub mod paths;
pub mod git_url;
pub mod config;
