//! The failures that decoding a stream, a string or a file can end in.

use vstd::prelude::*;

verus! {

/// Why a decode failed. The failures of reading and writing carry the
/// message of their cause and, where there is one, the path they were about.
#[derive(Debug)]
pub enum Error {
    /// The input file could not be opened.
    OpenInput { path: String, cause: String },
    /// Reading the input failed.
    ReadInput { cause: String },
    /// Writing the output failed.
    WriteOutput { cause: String },
    /// No temporary file could be made in the directory.
    CreateTemp { dir: String, cause: String },
    /// The temporary file could not take the place of the file at the path.
    PersistTemp { path: String, cause: String },
    /// The decoded bytes could not be written back to the file.
    WriteBack { path: String, cause: String },
    /// The decoded bytes are not valid UTF-8.
    InvalidUtf8,
}

} // verus!
