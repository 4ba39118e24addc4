use vstd::prelude::*;

verus! {

/// A Dockerfile parsing error.
#[derive(Debug)]
pub enum Error {
    /// The text does not follow the Dockerfile grammar at `position`.
    ParseError { position: usize, message: String },
    /// An instruction lacks a required part, or holds an invalid one.
    GenericParseError { message: String },
    /// A quoted literal could not be decoded.
    UnescapeError { message: String },
    /// The grammar gave no result at all.
    UnknownParseError,
    /// The input could not be read.
    ReadError { message: String },
    /// An instruction was viewed as a kind it is not.
    ConversionError { from: String, to: String },
}

} // verus!
