//! Decoding frames back into messages.
use crate::buffer::{as_slice, contents, get_u8, put, put_u8, MAX_BUFFER_LEN};
use crate::code::{decode_len, MAX_RUN};
use crate::encoder::max_encoded_len;
use crate::error::DecodeError;
use crate::frame::{find_sentinel, frame_bound};
use crate::laws::law_limit_kept;
use crate::model::{decode, read, valid_phase, Phase, ReadEnd, Reading};
use bytes::BytesMut;
use vstd::prelude::*;

verus! {

/// The decode output buffer size if there is no frame length limit.
pub const DEFAULT_DECODE_BUFFER_CAPACITY: usize = 8 * 1024;

/// The room that the output of a decoder with this frame length limit starts with.
pub open spec fn buffer_cap(max_len: usize) -> usize {
    if max_len == 0 {
        DEFAULT_DECODE_BUFFER_CAPACITY
    } else {
        max_len
    }
}

/// The room that the output of a decoder with this frame length limit starts with.
pub fn decode_buffer_cap(max_len: usize) -> (cap: usize)
    ensures
        cap == buffer_cap(max_len),
        max_len == 0 ==> cap == 8192,
        max_len != 0 ==> cap == max_len,
{
    if max_len == 0 {
        // use a reasonable default in case the frame size is unlimited
        DEFAULT_DECODE_BUFFER_CAPACITY
    } else {
        max_len
    }
}

/// How [`DecoderReadingState::read`] ends.
#[derive(Debug)]
enum DecoderReadResult {
    NeedMoreData,
    Frame(BytesMut),
    UnexpectedSentinel,
    FrameOverflow,
}

impl View for DecoderReadResult {
    type V = ReadEnd;

    closed spec fn view(&self) -> ReadEnd {
        match *self {
            DecoderReadResult::NeedMoreData => ReadEnd::NeedMoreData,
            DecoderReadResult::Frame(frame) => ReadEnd::Frame(contents(frame)),
            DecoderReadResult::UnexpectedSentinel => ReadEnd::UnexpectedSentinel,
            DecoderReadResult::FrameOverflow => ReadEnd::FrameOverflow,
        }
    }
}

/// A frame that is being read.
#[derive(Debug)]
struct DecoderReadingState {
    /// The distance to the code of the next chunk, or to the end of the frame.
    next_chunk_offset: usize,
    /// The part of the message that has been read.
    output: BytesMut,
    /// Whether the current chunk is of maximal length.
    chunk_overflow: bool,
}

impl View for DecoderReadingState {
    type V = Reading;

    closed spec fn view(&self) -> Reading {
        Reading {
            remaining: self.next_chunk_offset as int,
            output: contents(self.output),
            maximal: self.chunk_overflow,
        }
    }
}

impl DecoderReadingState {
    /// Begins a frame, whose first chunk has `offset` bytes.
    fn new<const MAX_LEN: usize>(offset: usize) -> (this: Self)
        requires
            buffer_cap(MAX_LEN) <= isize::MAX,
        ensures
            this@ == Reading::chunk(offset as int, Seq::empty()),
    {
        let mut this = Self {
            next_chunk_offset: 0,
            output: BytesMut::with_capacity(decode_buffer_cap(MAX_LEN)),
            chunk_overflow: false,
        };
        this.update(offset);
        this
    }

    /// Begins a chunk of `offset` bytes.
    fn update(&mut self, offset: usize)
        ensures
            final(self)@ == Reading::chunk(offset as int, old(self)@.output),
    {
        self.next_chunk_offset = offset;
        self.chunk_overflow = offset == MAX_RUN;
    }

    /// Reads on in the frame.
    fn read<const SENTINEL: u8, const MAX_LEN: usize>(&mut self, src: &mut BytesMut) -> (end:
        DecoderReadResult)
        requires
            buffer_cap(MAX_LEN) <= isize::MAX,
            old(self)@.output.len() + contents(*old(src)).len() <= MAX_BUFFER_LEN,
        ensures
            ({
                let read = read(SENTINEL, MAX_LEN, old(self)@, contents(*old(src)));
                &&& end@ == read.end
                &&& final(self)@ == read.reading
                &&& contents(*final(src)) == read.rest
            }),
    {
        loop
            invariant
                buffer_cap(MAX_LEN) <= isize::MAX,
                self@.output.len() + contents(*src).len() <= MAX_BUFFER_LEN,
                read(SENTINEL, MAX_LEN, old(self)@, contents(*old(src))) == read(
                    SENTINEL,
                    MAX_LEN,
                    self@,
                    contents(*src),
                ),
            decreases contents(*src).len(),
        {
            if src.is_empty() {
                return DecoderReadResult::NeedMoreData;
            }
            if self.next_chunk_offset > 0 {
                // Process the remainder of a chunk.
                let len: usize = if self.next_chunk_offset < src.len() {
                    self.next_chunk_offset
                } else {
                    src.len()
                };
                if MAX_LEN != 0 && self.output.len() + len > MAX_LEN {
                    return DecoderReadResult::FrameOverflow;
                }
                self.next_chunk_offset -= len;
                let chunk = src.split_to(len);
                if find_sentinel::<SENTINEL>(as_slice(&chunk), 0) < chunk.len() {
                    return DecoderReadResult::UnexpectedSentinel;
                }
                put(&mut self.output, chunk);
            } else if let Some(offset) = decode_len::<SENTINEL>(get_u8(src)) {
                // Process the start of a new chunk.
                if !self.chunk_overflow {
                    if MAX_LEN != 0 && self.output.len() == MAX_LEN {
                        return DecoderReadResult::FrameOverflow;
                    }
                    put_u8(&mut self.output, SENTINEL);
                }
                self.update(offset);
            } else {
                // The frame is complete.
                let mut frame = BytesMut::with_capacity(decode_buffer_cap(MAX_LEN));
                std::mem::swap(&mut self.output, &mut frame);
                return DecoderReadResult::Frame(frame);
            }
        }
    }
}

/// Where a decoder stands.
#[derive(Debug)]
enum DecoderState {
    Initial,
    Reading(DecoderReadingState),
    Lost,
}

impl View for DecoderState {
    type V = Phase;

    closed spec fn view(&self) -> Phase {
        match *self {
            DecoderState::Initial => Phase::Initial,
            DecoderState::Reading(state) => Phase::Reading(state@),
            DecoderState::Lost => Phase::Lost,
        }
    }
}

/// Frame decoder.
///
/// It decodes into [`BytesMut`].
///
/// This type can be customized via generic parameters:\
/// *`SENTINEL`*: Choose a byte to be used as a frame separator.
///   The corresponding [`Encoder`](crate::Encoder) must use the same value.
///   Refer to the crate documentation for more details on choosing a sentinel.\
/// *`MAX_LEN`*: Choose the maximum size of a message,
///   or set to `0` for unlimited message sizes.
///   This parameter is used as a safety measure to prevent
///   running out of memory. If any message exceeds this limit,
///   decoding will return [`DecodeError::FrameOverflow`].
#[derive(Debug)]
pub struct Decoder<const SENTINEL: u8, const MAX_LEN: usize> {
    state: DecoderState,
}

impl<const SENTINEL: u8, const MAX_LEN: usize> View for Decoder<SENTINEL, MAX_LEN> {
    type V = Phase;

    closed spec fn view(&self) -> Phase {
        self.state@
    }
}

/// Whether a decoder in this phase can decode `src` without any of its buffers
/// growing past [`MAX_BUFFER_LEN`].
pub open spec fn decodable(max_len: usize, phase: Phase, src: Seq<u8>) -> bool {
    match phase {
        Phase::Reading(reading) => {
            &&& buffer_cap(max_len) <= isize::MAX
            &&& reading.output.len() + src.len() <= MAX_BUFFER_LEN
        },
        _ => src.len() + frame_bound(buffer_cap(max_len) as int) <= MAX_BUFFER_LEN,
    }
}

/// What a call of [`Decoder::decode`] returns, with the message as a sequence.
pub open spec fn result_view(result: Result<Option<BytesMut>, DecodeError>) -> Result<
    Option<Seq<u8>>,
    DecodeError,
> {
    match result {
        Ok(Some(message)) => Ok(Some(contents(message))),
        Ok(None) => Ok(None),
        Err(error) => Err(error),
    }
}

/// Bytes can be decoded wherever there is room for them, whatever they are: at the
/// start of a frame, or looking for one, for them and for the longest frame within the
/// limit; in the middle of a frame, for them and for the part of the message that is
/// held already.
pub proof fn law_decodable(max_len: usize, phase: Phase, src: Seq<u8>)
    ensures
        decodable(max_len, phase, src) <==> match phase {
            Phase::Reading(reading) => {
                &&& max_len <= isize::MAX
                &&& reading.output.len() + src.len() <= usize::MAX / 8
            },
            _ => {
                let cap = if max_len == 0 {
                    8192
                } else {
                    max_len as int
                };
                src.len() + cap + (cap + 253) / 254 + 1 <= usize::MAX / 8
            },
        },
{
}

impl<const SENTINEL: u8, const MAX_LEN: usize> Decoder<SENTINEL, MAX_LEN> {
    /// Create a new decoder.
    pub fn new() -> (decoder: Self)
        ensures
            decoder@ == Phase::Initial,
    {
        Self { state: DecoderState::Initial }
    }

    /// Tells whether `src` can be decoded.
    pub fn can_decode(&self, src: &BytesMut) -> (can: bool)
        ensures
            can == decodable(MAX_LEN, self@, contents(*src)),
            can <==> match self@ {
                Phase::Reading(reading) => {
                    &&& MAX_LEN <= isize::MAX
                    &&& reading.output.len() + contents(*src).len() <= usize::MAX / 8
                },
                _ => {
                    let cap = if MAX_LEN == 0 {
                        8192
                    } else {
                        MAX_LEN as int
                    };
                    contents(*src).len() + cap + (cap + 253) / 254 + 1 <= usize::MAX / 8
                },
            },
    {
        let cap = decode_buffer_cap(MAX_LEN);
        match &self.state {
            DecoderState::Reading(state) => {
                cap <= usize::MAX / 2 && src.len() <= MAX_BUFFER_LEN && state.output.len()
                    <= MAX_BUFFER_LEN - src.len()
            },
            _ => {
                if cap > MAX_BUFFER_LEN {
                    return false;
                }
                let frame_len = max_encoded_len(cap);
                frame_len <= MAX_BUFFER_LEN && src.len() <= MAX_BUFFER_LEN - frame_len
            },
        }
    }

    /// Consumes bytes from `src` until a frame is complete, and returns its
    /// message. Returns `None` where all of `src` is consumed before that.
    pub fn decode(&mut self, src: &mut BytesMut) -> (result: Result<
        Option<BytesMut>,
        DecodeError,
    >)
        requires
            decodable(MAX_LEN, old(self)@, contents(*old(src))),
        ensures
            ({
                let decoded = decode(SENTINEL, MAX_LEN, old(self)@, contents(*old(src)));
                &&& result_view(result) == decoded.result
                &&& result matches Ok(Some(message)) ==> decoded.result == Ok::<
                    Option<Seq<u8>>,
                    DecodeError,
                >(Some(contents(message)))
                &&& result matches Ok(None) ==> decoded.result == Ok::<
                    Option<Seq<u8>>,
                    DecodeError,
                >(None)
                &&& result matches Err(error) ==> decoded.result == Err::<
                    Option<Seq<u8>>,
                    DecodeError,
                >(error)
                &&& final(self)@ == decoded.phase
                &&& contents(*final(src)) == decoded.rest
            }),
            valid_phase(MAX_LEN, old(self)@) ==> valid_phase(MAX_LEN, final(self)@),
    {
        proof {
            if valid_phase(MAX_LEN, self@) {
                law_limit_kept(SENTINEL, MAX_LEN, self@, contents(*src));
            }
        }
        loop
            invariant
                valid_phase(MAX_LEN, old(self)@) ==> valid_phase(
                    MAX_LEN,
                    decode(SENTINEL, MAX_LEN, old(self)@, contents(*old(src))).phase,
                ),
                decodable(MAX_LEN, self@, contents(*src)),
                decode(SENTINEL, MAX_LEN, old(self)@, contents(*old(src))) == decode(
                    SENTINEL,
                    MAX_LEN,
                    self@,
                    contents(*src),
                ),
            decreases
                (if self@ is Lost {
                    1int
                } else {
                    0
                }),
        {
            if matches!(self.state, DecoderState::Initial) {
                src.reserve(max_encoded_len(decode_buffer_cap(MAX_LEN)));
                if src.is_empty() {
                    // Need more data to start a new frame.
                    return Ok(None);
                } else if let Some(offset) = decode_len::<SENTINEL>(get_u8(src)) {
                    // The first byte of a frame is the offset to the next sentinel
                    // value in the frame or the sentinel that marks its end.
                    let read_state = DecoderReadingState::new::<MAX_LEN>(offset);
                    self.state = DecoderState::Reading(read_state);
                } else {
                    // A frame may not start with a sentinel value.
                    //
                    // Either this is the first byte received
                    // or it follows a previous sentinel that ended the last frame.
                    //
                    // Note that this case could be used to send a signal
                    // distinct from any other message.
                    return Err(DecodeError::MissingFrame);
                }
            }
            match &mut self.state {
                DecoderState::Reading(state) => {
                    match state.read::<SENTINEL, MAX_LEN>(src) {
                        DecoderReadResult::NeedMoreData => return Ok(None),
                        DecoderReadResult::Frame(frame) => {
                            self.state = DecoderState::Initial;
                            return Ok(Some(frame));
                        },
                        DecoderReadResult::UnexpectedSentinel => {
                            self.state = DecoderState::Initial;
                            return Err(DecodeError::UnexpectedSentinel);
                        },
                        DecoderReadResult::FrameOverflow => {
                            self.state = DecoderState::Lost;
                            return Err(DecodeError::FrameOverflow);
                        },
                    }
                },
                // The start of a frame is dealt with above, so the decoder is lost.
                _ => {
                    assert(contents(*src).skip(0) == contents(*src));
                    let end = find_sentinel::<SENTINEL>(as_slice(src), 0);
                    if end < src.len() {
                        let _ = src.split_to(end + 1);
                        let total_capacity = max_encoded_len(decode_buffer_cap(MAX_LEN));
                        src.reserve(total_capacity.saturating_sub(src.len()));
                        self.state = DecoderState::Initial;
                    } else {
                        src.clear();
                        return Ok(None);
                    }
                },
            }
        }
    }
}

impl<const SENTINEL: u8, const MAX_LEN: usize> Default for Decoder<SENTINEL, MAX_LEN> {
    fn default() -> (decoder: Self)
        ensures
            decoder@ == Phase::Initial,
    {
        Self::new()
    }
}

} // verus!
