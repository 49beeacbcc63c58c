//! What can go wrong while a form is built and while it is streamed.

use vstd::prelude::*;

verus! {

/// A failure while the body is streamed. After any of them the body yields
/// nothing more.
#[derive(Debug, Clone, Copy, PartialEq, Eq, Structural)]
pub enum Error {
    /// A boundary line could not be written to the chunk.
    BoundaryWrite,
    /// The headers of a part could not be written to the chunk.
    HeaderWrite,
    /// The content of a part could not be read from its source.
    ContentRead,
}

/// A failure to add a file to a form. The form is left as it was.
#[derive(Debug, Clone, Copy, PartialEq, Eq, Structural)]
pub enum FileError {
    /// The path could not be opened for reading.
    Open,
    /// The metadata of the opened path could not be read.
    Metadata,
    /// The path is no regular file: a directory, or a special file.
    InvalidInput,
}

/// The chunk cannot take the bytes that were to be written to it.
#[derive(Debug, Clone, Copy, PartialEq, Eq, Structural)]
pub struct WriteZero;

} // verus!
