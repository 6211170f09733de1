use vstd::prelude::*;

verus! {

/// Why compression failed.
#[derive(Debug)]
pub enum CompressError {
    /// A broken invariant of the encoder: a code that does not fit the width,
    /// or a string that should be in the dictionary and is not.
    InternalError(&'static str),
}

/// Why decompression failed.
#[derive(Debug)]
pub enum DecompressError {
    /// A broken invariant of the decoder.
    InternalError(&'static str),
    /// The input holds no header byte.
    MissingEmptyFileError,
    /// The input is malformed; the number tells which check refused it:
    /// `1` for a header byte that is no code width, `2` for a code that is
    /// not yet in the dictionary, `3` for the same found when a literal byte
    /// extends it.
    CorruptInvalidFileError(u16),
}

impl From<&'static str> for CompressError {
    fn from(msg: &'static str) -> (r: CompressError)
        ensures
            r == CompressError::InternalError(msg),
    {
        CompressError::InternalError(msg)
    }
}

impl vstd::std_specs::convert::FromSpecImpl<&'static str> for CompressError {
    open spec fn obeys_from_spec() -> bool {
        true
    }

    open spec fn from_spec(msg: &'static str) -> CompressError {
        CompressError::InternalError(msg)
    }
}

impl From<&'static str> for DecompressError {
    fn from(msg: &'static str) -> (r: DecompressError)
        ensures
            r == DecompressError::InternalError(msg),
    {
        DecompressError::InternalError(msg)
    }
}

impl vstd::std_specs::convert::FromSpecImpl<&'static str> for DecompressError {
    open spec fn obeys_from_spec() -> bool {
        true
    }

    open spec fn from_spec(msg: &'static str) -> DecompressError {
        DecompressError::InternalError(msg)
    }
}

} // verus!
