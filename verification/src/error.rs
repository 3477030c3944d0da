//! Errors of the library, grouped in the three fatal categories the formats
//! call for: format violations, tokenizer failures, and short reads.

use vstd::prelude::*;

verus! {

/// Everything that can go wrong while reading or transforming an image.
/// All variants are fatal to the current operation; none is transient.
#[derive(Copy, Clone, PartialEq, Eq, Structural, Debug)]
pub enum PpmError {
    /// The magic token is not the expected format identifier.
    BadMagic,
    /// The width token is not a positive decimal number that fits the machine.
    BadWidth,
    /// The height token is not a positive decimal number that fits the machine.
    BadHeight,
    /// The channel max-value token is not exactly 255.
    BadMaxValue,
    /// No delimiter was found within the tokenizer's lookahead window.
    UnterminatedToken,
    /// A comment line has no terminating newline within the lookahead window.
    UnterminatedComment,
    /// A token's bytes are not valid text.
    NotText,
    /// The pixel section holds fewer bytes than the header declares.
    Truncated,
}

/// The broad categories errors fall in.
#[derive(Copy, Clone, PartialEq, Eq, Structural, Debug)]
pub enum ErrorKind {
    /// A header field violates the format's invariants.
    Format,
    /// The tokenizer could not finish within its lookahead window.
    Parse,
    /// Token bytes that are not text.
    Decode,
    /// A read fell short of what the header declares.
    Io,
}

/// The category an error belongs to.
pub open spec fn spec_kind(e: PpmError) -> ErrorKind {
    match e {
        PpmError::BadMagic => ErrorKind::Format,
        PpmError::BadWidth => ErrorKind::Format,
        PpmError::BadHeight => ErrorKind::Format,
        PpmError::BadMaxValue => ErrorKind::Format,
        PpmError::UnterminatedToken => ErrorKind::Parse,
        PpmError::UnterminatedComment => ErrorKind::Parse,
        PpmError::NotText => ErrorKind::Decode,
        PpmError::Truncated => ErrorKind::Io,
    }
}

/// The user-visible message of each error.
pub open spec fn spec_describe(e: PpmError) -> Seq<char> {
    match e {
        PpmError::BadMagic => "binary pixel maps must have P6 as a magic number"@,
        PpmError::BadWidth => "could not parse width header into a positive number"@,
        PpmError::BadHeight => "could not parse height header into a positive number"@,
        PpmError::BadMaxValue => "unsupported channel depth: expected 255"@,
        PpmError::UnterminatedToken => "no delimiter after a header token"@,
        PpmError::UnterminatedComment => "could not find end of comment"@,
        PpmError::NotText => "header token is not valid text"@,
        PpmError::Truncated => "pixel section ends before the declared size"@,
    }
}

impl PpmError {
    /// The category this error belongs to.
    pub fn kind(&self) -> (r: ErrorKind)
        ensures
            r == spec_kind(*self),
    {
        match *self {
            PpmError::BadMagic => ErrorKind::Format,
            PpmError::BadWidth => ErrorKind::Format,
            PpmError::BadHeight => ErrorKind::Format,
            PpmError::BadMaxValue => ErrorKind::Format,
            PpmError::UnterminatedToken => ErrorKind::Parse,
            PpmError::UnterminatedComment => ErrorKind::Parse,
            PpmError::NotText => ErrorKind::Decode,
            PpmError::Truncated => ErrorKind::Io,
        }
    }

    /// A short message naming the validation that failed.
    pub fn describe(&self) -> (r: &'static str)
        ensures
            r@ == spec_describe(*self),
    {
        match *self {
            PpmError::BadMagic => "binary pixel maps must have P6 as a magic number",
            PpmError::BadWidth => "could not parse width header into a positive number",
            PpmError::BadHeight => "could not parse height header into a positive number",
            PpmError::BadMaxValue => "unsupported channel depth: expected 255",
            PpmError::UnterminatedToken => "no delimiter after a header token",
            PpmError::UnterminatedComment => "could not find end of comment",
            PpmError::NotText => "header token is not valid text",
            PpmError::Truncated => "pixel section ends before the declared size",
        }
    }
}

} // verus!
