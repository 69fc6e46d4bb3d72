//! Encoding messages into frames.
use crate::buffer::{contents, put_slice, put_u8, MAX_BUFFER_LEN};
use crate::code::{code_of, encode_len, MAX_RUN};
use crate::frame::{
    find_sentinel, frame, frame_bound, law_frame_len_bounded, lemma_first_sentinel_is,
    stuffed,
};
use crate::model::within;
use bytes::BytesMut;
use vstd::prelude::*;
use vstd::slice::slice_subrange;

verus! {

/// The most bytes that the frame of a message of `input_len` bytes can take.
pub fn max_encoded_len(input_len: usize) -> (len: usize)
    requires
        frame_bound(input_len as int) <= usize::MAX,
    ensures
        len == frame_bound(input_len as int),
        input_len == 0 ==> len == 2,
        input_len > 0 ==> len == input_len + (input_len + 253) / 254 + 1,
{
    let overhead: usize = if input_len == 0 {
        // An empty message still takes the code of its one, empty chunk.
        1
    } else {
        (input_len + 253) / 254
    };
    // +1 for terminator byte.
    input_len + overhead + 1
}

/// What is written between two runs. A chunk of maximal length stands for no
/// sentinel, so the sentinel behind it takes an empty chunk of its own.
spec fn separator(sentinel: u8, prev_run_was_maximal: bool) -> Seq<u8> {
    if prev_run_was_maximal {
        seq![code_of(sentinel, 0)]
    } else {
        seq![]
    }
}

/// Where a message cursor stands at the start of a chunk of a sentinel-free run
/// that ends at `end`, this is the chunk that comes next and what it leaves.
proof fn lemma_next_chunk(sentinel: u8, message: Seq<u8>, start: int, end: int)
    requires
        0 <= start <= end <= message.len(),
        end < message.len() ==> message[end] == sentinel,
        forall|i: int| start <= i < end ==> message[i] != sentinel,
    ensures
        ({
            let run = end - start;
            let rest = stuffed(sentinel, message.skip(start));
            if run >= MAX_RUN {
                let chunk = seq![code_of(sentinel, MAX_RUN as int)] + message.subrange(
                    start,
                    start + MAX_RUN,
                );
                rest == if start + MAX_RUN == message.len() {
                    chunk
                } else {
                    chunk + stuffed(sentinel, message.skip(start + MAX_RUN))
                }
            } else {
                let chunk = seq![code_of(sentinel, run)] + message.subrange(start, end);
                rest == if end == message.len() {
                    chunk
                } else {
                    chunk + stuffed(sentinel, message.skip(end + 1))
                }
            }
        }),
{
    let tail = message.skip(start);
    let run = end - start;
    lemma_first_sentinel_is(sentinel, tail, run);
    if run >= MAX_RUN {
        assert(tail.take(MAX_RUN as int) =~= message.subrange(start, start + MAX_RUN));
        if start + MAX_RUN < message.len() {
            assert(tail.skip(MAX_RUN as int) =~= message.skip(start + MAX_RUN));
        }
    } else {
        assert(tail.take(run) =~= message.subrange(start, end));
        if end < message.len() {
            assert(tail.skip(run + 1) =~= message.skip(end + 1));
        }
    }
}

/// Appends the frame of `input` to `output`.
pub fn encode<const SENTINEL: u8, const MAX_LEN: usize>(input: &[u8], output: &mut BytesMut)
    requires
        encodable(MAX_LEN, input@.len() as int, contents(*old(output)).len() as int),
    ensures
        contents(*final(output)) == contents(*old(output)) + frame(SENTINEL, input@),
{
    let ghost before = contents(*output);
    let ghost whole = before + stuffed(SENTINEL, input@);
    proof {
        law_frame_len_bounded(SENTINEL, input@);
        assert(input@.skip(0) =~= input@);
    }
    output.reserve(max_encoded_len(input.len()));
    let len = input.len();
    let mut start: usize = 0;
    if MAX_LEN != 0 && MAX_LEN <= MAX_RUN {
        // The input is small enough to never need more than one chunk for a run.
        loop
            invariant_except_break
                whole == contents(*output) + stuffed(SENTINEL, input@.skip(start as int)),
            invariant
                len == input@.len() <= MAX_RUN,
                start <= len,
                whole.len() < MAX_BUFFER_LEN,
            ensures
                whole == contents(*output),
            decreases len - start,
        {
            let end = find_sentinel::<SENTINEL>(input, start);
            proof {
                lemma_next_chunk(SENTINEL, input@, start as int, end as int);
            }
            put_u8(output, encode_len::<SENTINEL>(end - start));
            put_slice(output, slice_subrange(input, start, end));
            if end == len {
                break;
            }
            start = end + 1;
        }
    } else {
        let mut prev_run_was_maximal: bool = false;
        loop
            invariant_except_break
                whole == contents(*output) + separator(SENTINEL, prev_run_was_maximal) + stuffed(
                    SENTINEL,
                    input@.skip(start as int),
                ),
            invariant
                len == input@.len(),
                start <= len,
                whole.len() < MAX_BUFFER_LEN,
            ensures
                whole == contents(*output),
            decreases len - start,
        {
            if prev_run_was_maximal {
                put_u8(output, encode_len::<SENTINEL>(0));
            }
            let end = find_sentinel::<SENTINEL>(input, start);
            // A run of more than `MAX_RUN` bytes takes several chunks. An empty run
            // takes one.
            loop
                invariant_except_break
                    whole == contents(*output) + stuffed(SENTINEL, input@.skip(start as int)),
                invariant
                    len == input@.len(),
                    start <= end <= len,
                    whole.len() < MAX_BUFFER_LEN,
                    end < len ==> input@[end as int] == SENTINEL,
                    forall|i: int| start <= i < end ==> input@[i] != SENTINEL,
                ensures
                    end == len ==> whole == contents(*output),
                    end < len ==> whole == contents(*output) + separator(
                        SENTINEL,
                        prev_run_was_maximal,
                    ) + stuffed(SENTINEL, input@.skip(end + 1)),
                decreases end - start,
            {
                let chunk_len: usize = if end - start < MAX_RUN {
                    end - start
                } else {
                    MAX_RUN
                };
                proof {
                    lemma_next_chunk(SENTINEL, input@, start as int, end as int);
                    if end < len {
                        lemma_next_chunk(SENTINEL, input@, end as int, end as int);
                    }
                }
                put_u8(output, encode_len::<SENTINEL>(chunk_len));
                put_slice(output, slice_subrange(input, start, start + chunk_len));
                start += chunk_len;
                prev_run_was_maximal = chunk_len == MAX_RUN;
                if start == end {
                    break;
                }
            }
            if end == len {
                break;
            }
            start = end + 1;
        }
    }
    put_u8(output, SENTINEL);
}

/// Whether an encoder with this limit can append the frame of a message of `len`
/// bytes to a buffer of `dst_len` bytes: the message is within the limit, and the
/// buffer does not grow past [`MAX_BUFFER_LEN`].
pub open spec fn encodable(max_len: usize, len: int, dst_len: int) -> bool {
    within(max_len, len) && dst_len + frame_bound(len) <= MAX_BUFFER_LEN
}

/// A message can be encoded wherever it is within the limit and there is room for
/// it: what the buffer holds does not matter, only how much. The room is counted for
/// a message without a sentinel, whose frame takes a code for each 254 bytes begun
/// (an empty message takes one) and the sentinel at the end.
pub proof fn law_encodable(max_len: usize, len: int, dst_len: int)
    requires
        0 <= len,
    ensures
        encodable(max_len, len, dst_len) <==> {
            let codes = if len == 0 {
                1
            } else {
                (len + 253) / 254
            };
            &&& max_len == 0 || len <= max_len
            &&& dst_len + codes + len + 1 <= usize::MAX / 8
        },
{
}

/// Frame encoder.
///
/// It encodes any message that is a byte slice.
///
/// This type can be customized via generic parameters:\
/// *`SENTINEL`*: Choose a byte to be used as a frame separator.
///   The corresponding [`Decoder`](crate::Decoder) must use the same value.
///   Refer to the crate documentation for more details on choosing a sentinel.\
/// *`MAX_LEN`*: Choose the maximum size of a message,
///   or set to `0` for unlimited message sizes.
///   This parameter is used as an optimization.
///   No message may exceed this limit.
#[derive(Debug)]
pub struct Encoder<const SENTINEL: u8, const MAX_LEN: usize>;

impl<const SENTINEL: u8, const MAX_LEN: usize> Encoder<SENTINEL, MAX_LEN> {
    /// Create a new encoder.
    pub fn new() -> (encoder: Self)
        ensures
            encoder == Self,
    {
        Self
    }

    /// Tells whether the frame of `item` can be appended to `dst`.
    pub fn can_encode(&self, item: &[u8], dst: &BytesMut) -> (can: bool)
        ensures
            can == encodable(MAX_LEN, item@.len() as int, contents(*dst).len() as int),
            can <==> {
                let len = item@.len() as int;
                let codes = if len == 0 {
                    1
                } else {
                    (len + 253) / 254
                };
                &&& MAX_LEN == 0 || len <= MAX_LEN
                &&& contents(*dst).len() + codes + len + 1 <= usize::MAX / 8
            },
    {
        let len = item.len();
        if MAX_LEN != 0 && len > MAX_LEN {
            return false;
        }
        if len > MAX_BUFFER_LEN {
            return false;
        }
        let frame_len = max_encoded_len(len);
        frame_len <= MAX_BUFFER_LEN && dst.len() <= MAX_BUFFER_LEN - frame_len
    }

    /// Appends the frame of `item` to `dst`.
    ///
    /// This never fails: the error type is there for writers that wrap both an
    /// encoder and an IO object.
    pub fn encode(&mut self, item: &[u8], dst: &mut BytesMut) -> (result: Result<
        (),
        std::io::Error,
    >)
        requires
            encodable(MAX_LEN, item@.len() as int, contents(*old(dst)).len() as int),
        ensures
            result is Ok,
            contents(*final(dst)) == contents(*old(dst)) + frame(SENTINEL, item@),
            *final(self) == *old(self),
    {
        encode::<SENTINEL, MAX_LEN>(item, dst);
        Ok(())
    }
}

impl<const SENTINEL: u8, const MAX_LEN: usize> Default for Encoder<SENTINEL, MAX_LEN> {
    fn default() -> (encoder: Self)
        ensures
            encoder == Self,
    {
        Self::new()
    }
}

} // verus!
