use vstd::prelude::*;

verus! {

/// The kind of failure hit while reading or writing a byte stream.
#[derive(Clone, Copy, Debug, PartialEq, Eq, Structural)]
pub enum IoErrorKind {
    /// The input ended before a complete field could be read.
    UnexpectedEof,
}

/// The two error kinds of this crate: a contract violation carrying a
/// static description, or a byte-stream failure.
#[derive(Clone, Copy, Debug)]
pub enum Error {
    InvalidArgument(&'static str),
    IoError(IoErrorKind),
}

} // verus!
