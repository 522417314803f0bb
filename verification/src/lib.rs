//! Decodes the percent escapes of the URLs in a stream of bytes, and leaves
//! every other byte as it is.
//!
//! A URL is a run of URL bytes that starts with `http://` or `https://`. The
//! stream is read in chunks of any size into a window of fixed capacity, so
//! memory stays bounded however long the stream or a URL in it is, and what
//! is written does not depend on where the chunks end.

pub mod code;
pub mod decode;
pub mod eol;
pub mod error;
pub mod exclude;
pub mod file;
pub mod laws;
pub mod lines;
pub mod log;
pub mod outside;
pub mod percent;
pub mod resume;
pub mod scan;
pub mod stream;
pub mod tables;
pub mod text;

pub use crate::decode::{decode_reads, decode_str, decode_str_safe, decode_stream};
pub use crate::error::Error;
pub use crate::log::{DecodeLogger, NoOpLogger, VerboseLogger};
pub use crate::stream::Decoder;
pub use crate::text::Options;
