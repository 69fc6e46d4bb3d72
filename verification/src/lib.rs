//! This crate provides a COBS (Consistent Overhead Byte Stuffing) codec.
//!
//! The COBS encoding is a very efficient framing method for network packets.
//! Basically; it allows you to send messages consisting of any bytes
//! while still being able to detect where messages start and end.
//!
//! This is achieved by ending encoded messages with a specific
//! (customizable) byte called a sentinel.
//! Any occurrence of this byte within the message is avoided by a substitution
//! scheme that adds very little overhead: `O(1 + N/254)` worst case.
//!
//! See [the Wikipedia article on COBS][wiki] for details.
//!
//! [wiki]: https://www.wikipedia.org/wiki/Consistent_Overhead_Byte_Stuffing
//!
//! ### Choosing a Sentinel Value
//!
//! This crate allows users to choose their own sentinel value.
//! There are two guiding principles when choosing a value.
//!
//! **Size**: The encoding has the least overhead when the message
//!   contains one sentinel at least every 254 bytes.
//!  Note that this consideration is irrelevant for messages
//!  up to 254 bytes long.
//!
//! **Speed**: Encoding/decoding is fastest for messages with as few
//!   sentinel values as possible, ideally none.
//!
//! ### What is proved
//!
//! [`frame`] says what a frame is and [`model`] what a decoder makes of bytes;
//! [`Encoder`], [`Decoder`] and [`Codec`] are proved to do exactly that. [`code`],
//! [`frame`], [`laws`] and [`stream`] state what follows: the codes are the byte
//! values in order, without the sentinel; what is encoded is decoded, in whichever
//! parts it arrives; what comes of any other bytes is told by the first sentinel in
//! them and the limit; the sentinel stands at the end of a frame and nowhere else; no
//! other bytes as short are decoded to the same message; the overhead and the length
//! limit are kept; behind an error a decoder goes on, with the next byte as the start
//! of a frame or, after a frame over the limit, behind the next sentinel. What is
//! taken for granted of `bytes::BytesMut` stands in [`buffer`].
use vstd::prelude::*;

pub mod buffer;
pub mod code;
pub mod codec;
pub mod decoder;
pub mod encoder;
pub mod error;
pub mod frame;
pub mod laws;
pub mod model;
pub mod stream;

pub use crate::code::{decode_len, encode_len, MAX_RUN};
pub use crate::codec::Codec;
pub use crate::decoder::{decode_buffer_cap, Decoder};
pub use crate::encoder::{max_encoded_len, Encoder};
pub use crate::error::DecodeError;

verus! {

/// The sentinel to use where nothing speaks for another.
pub const DEFAULT_SENTINEL: u8 = 0x00;

/// The message size limit to use where nothing speaks for another: none.
pub const DEFAULT_MAX_LEN: usize = 0;

} // verus!
