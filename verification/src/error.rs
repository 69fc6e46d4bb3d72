//! What can go wrong while decoding.
use vstd::prelude::*;

verus! {

/// The outside type `std::io::Error`.
#[verifier::external_type_specification]
#[verifier::external_body]
pub struct ExIoError(std::io::Error);

/// Error while decoding.
#[derive(Debug)]
pub enum DecodeError {
    /// An error occurred while reading from the underlying IO object.
    ///
    /// This variant is not used by this crate itself
    /// since decoding does not interact with IO,
    /// but a reader that wraps both a decoder and an IO object
    /// needs to present a single error type.
    Io(std::io::Error),
    /// A frame was found to start with a sentinel byte.
    ///
    /// This variant indicates corrupted data,
    /// either by the sender or during transmission.
    MissingFrame,
    /// The sentinel byte was found in an invalid position.
    ///
    /// This variant indicates corrupted data,
    /// either by the sender or during transmission.
    UnexpectedSentinel,
    /// The frame was longer than the limit.
    ///
    /// This variant is never returned by unlimited decoders.
    ///
    /// Either the data was corrupted during transmission,
    /// or the sender encoded a frame that exceeds the limit.
    FrameOverflow,
}

impl vstd::std_specs::convert::FromSpecImpl<std::io::Error> for DecodeError {
    open spec fn obeys_from_spec() -> bool {
        true
    }

    open spec fn from_spec(error: std::io::Error) -> Self {
        DecodeError::Io(error)
    }
}

impl From<std::io::Error> for DecodeError {
    fn from(error: std::io::Error) -> (decode_error: Self)
        ensures
            decode_error == DecodeError::Io(error),
    {
        DecodeError::Io(error)
    }
}

} // verus!
