//! Encoding and decoding with one value.
use crate::buffer::contents;
use crate::decoder::{decodable, result_view, Decoder};
use crate::encoder::{encodable, Encoder};
use crate::error::DecodeError;
use crate::frame::frame;
use crate::model::{decode, valid_phase, Phase};
use bytes::BytesMut;
use vstd::prelude::*;

verus! {

/// Frame codec.
///
/// This type contains both an [`Encoder`] and a [`Decoder`].
///
/// Refer to the underlying encoder and decoder types
/// for details on the generic parameters.
#[derive(Debug)]
pub struct Codec<
    const SENTINEL_ENCODE: u8,
    const SENTINEL_DECODE: u8,
    const MAX_LEN_ENCODE: usize,
    const MAX_LEN_DECODE: usize,
> {
    encoder: Encoder<SENTINEL_ENCODE, MAX_LEN_ENCODE>,
    decoder: Decoder<SENTINEL_DECODE, MAX_LEN_DECODE>,
}

/// The state of a codec is that of its decoder.
impl<
    const SENTINEL_ENCODE: u8,
    const SENTINEL_DECODE: u8,
    const MAX_LEN_ENCODE: usize,
    const MAX_LEN_DECODE: usize,
> View for Codec<SENTINEL_ENCODE, SENTINEL_DECODE, MAX_LEN_ENCODE, MAX_LEN_DECODE> {
    type V = Phase;

    closed spec fn view(&self) -> Phase {
        self.decoder@
    }
}

impl<
    const SENTINEL_ENCODE: u8,
    const SENTINEL_DECODE: u8,
    const MAX_LEN_ENCODE: usize,
    const MAX_LEN_DECODE: usize,
> Codec<SENTINEL_ENCODE, SENTINEL_DECODE, MAX_LEN_ENCODE, MAX_LEN_DECODE> {
    /// Create a new codec.
    pub fn new() -> (codec: Self)
        ensures
            codec@ == Phase::Initial,
    {
        Self { encoder: Encoder::new(), decoder: Decoder::new() }
    }

    /// Tells whether the frame of `item` can be appended to `dst`; see
    /// [`Encoder::can_encode`].
    pub fn can_encode(&self, item: &[u8], dst: &BytesMut) -> (can: bool)
        ensures
            can == encodable(MAX_LEN_ENCODE, item@.len() as int, contents(*dst).len() as int),
            can <==> {
                let len = item@.len() as int;
                let codes = if len == 0 {
                    1
                } else {
                    (len + 253) / 254
                };
                &&& MAX_LEN_ENCODE == 0 || len <= MAX_LEN_ENCODE
                &&& contents(*dst).len() + codes + len + 1 <= usize::MAX / 8
            },
    {
        self.encoder.can_encode(item, dst)
    }

    /// Appends the frame of `item` to `dst`; see [`Encoder::encode`].
    pub fn encode(&mut self, item: &[u8], dst: &mut BytesMut) -> (result: Result<
        (),
        std::io::Error,
    >)
        requires
            encodable(MAX_LEN_ENCODE, item@.len() as int, contents(*old(dst)).len() as int),
        ensures
            result is Ok,
            contents(*final(dst)) == contents(*old(dst)) + frame(SENTINEL_ENCODE, item@),
            final(self)@ == old(self)@,
    {
        self.encoder.encode(item, dst)
    }

    /// Tells whether `src` can be decoded; see [`Decoder::can_decode`].
    pub fn can_decode(&self, src: &BytesMut) -> (can: bool)
        ensures
            can == decodable(MAX_LEN_DECODE, self@, contents(*src)),
            can <==> match self@ {
                Phase::Reading(reading) => {
                    &&& MAX_LEN_DECODE <= isize::MAX
                    &&& reading.output.len() + contents(*src).len() <= usize::MAX / 8
                },
                _ => {
                    let cap = if MAX_LEN_DECODE == 0 {
                        8192
                    } else {
                        MAX_LEN_DECODE as int
                    };
                    contents(*src).len() + cap + (cap + 253) / 254 + 1 <= usize::MAX / 8
                },
            },
    {
        self.decoder.can_decode(src)
    }

    /// Consumes bytes from `src` until a frame is complete; see
    /// [`Decoder::decode`].
    pub fn decode(&mut self, src: &mut BytesMut) -> (result: Result<
        Option<BytesMut>,
        DecodeError,
    >)
        requires
            decodable(MAX_LEN_DECODE, old(self)@, contents(*old(src))),
        ensures
            ({
                let decoded = decode(
                    SENTINEL_DECODE,
                    MAX_LEN_DECODE,
                    old(self)@,
                    contents(*old(src)),
                );
                &&& result_view(result) == decoded.result
                &&& result matches Ok(Some(message)) ==> decoded.result == Ok::<
                    Option<Seq<u8>>,
                    DecodeError,
                >(Some(contents(message)))
                &&& result matches Ok(None) ==> decoded.result == Ok::<
                    Option<Seq<u8>>,
                    DecodeError,
                >(None)
                &&& result matches Err(error) ==> decoded.result == Err::<
                    Option<Seq<u8>>,
                    DecodeError,
                >(error)
                &&& final(self)@ == decoded.phase
                &&& contents(*final(src)) == decoded.rest
            }),
            valid_phase(MAX_LEN_DECODE, old(self)@) ==> valid_phase(
                MAX_LEN_DECODE,
                final(self)@,
            ),
    {
        self.decoder.decode(src)
    }
}

impl<
    const SENTINEL_ENCODE: u8,
    const SENTINEL_DECODE: u8,
    const MAX_LEN_ENCODE: usize,
    const MAX_LEN_DECODE: usize,
> Default for Codec<SENTINEL_ENCODE, SENTINEL_DECODE, MAX_LEN_ENCODE, MAX_LEN_DECODE> {
    fn default() -> (codec: Self)
        ensures
            codec@ == Phase::Initial,
    {
        Self::new()
    }
}

} // verus!
