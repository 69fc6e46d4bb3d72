# Cobs-Codec

A COBS (Consistent Overhead Byte Stuffing) codec, written and verified in Verus.

The COBS encoding is a very efficient framing method for network packets.
Basically; it allows you to send messages consisting of any bytes
while still being able to detect where messages start and end.

Encoded messages end with a specific (customizable) byte called a sentinel.
Any occurrence of this byte within the message is avoided by a substitution
scheme that adds very little overhead: `O(1 + N/254)` worst case.

## Layout

  * `src/code.rs`: length codes.
  * `src/frame.rs`: what a frame is, and how long it can be.
  * `src/model.rs`: what a decoder makes of bytes, as functions on sequences.
  * `src/encoder.rs`, `src/decoder.rs`, `src/codec.rs`, `src/error.rs`: the encoder,
    the decoder, both in one, and the errors.
  * `src/laws.rs`: what holds of encoding and decoding taken together.
  * `src/stream.rs`: what a decoder makes of a stream, wherever it is cut.
  * `src/buffer.rs`: what is taken for granted of `bytes::BytesMut`.
  * `tests/`: tests on concrete bytes.
  * `app/`: the types that implement Tokio's traits.
