//! The run configuration, as plain values.
//!
//! Paths are carried as strings; the caller that parses arguments and
//! touches the filesystem converts to and from its own path types.

use vstd::prelude::*;

verus! {

/// What one run does: either pack `project_root` into the container at
/// `output_path`, or, when `extract_input` is set, unpack that container
/// under `extract_path`.
pub struct Config {
    /// Where the container is written.
    pub output_path: String,
    /// An ignore file to honour while enumerating, if any.
    pub ignore_file: Option<String>,
    /// Only these files and directories are packed when non-empty.
    pub specific_paths: Vec<String>,
    /// The tree being packed.
    pub project_root: String,
    /// A container to unpack instead of packing.
    pub extract_input: Option<String>,
    /// Where unpacked files are placed; the working directory when absent.
    pub extract_path: Option<String>,
}

} // verus!
