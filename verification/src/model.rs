//! What a decoder makes of the bytes it is given, as functions on byte sequences.
use crate::code::{run_of, MAX_RUN};
use crate::error::DecodeError;
use crate::frame::first_sentinel;
use vstd::prelude::*;

verus! {

/// A decoder in the middle of a frame.
pub ghost struct Reading {
    /// The bytes of the current chunk that are still to come.
    pub remaining: int,
    /// The part of the message that has been read.
    pub output: Seq<u8>,
    /// Whether the current chunk is one of maximal length, so that it stands for
    /// no sentinel.
    pub maximal: bool,
}

impl Reading {
    /// A chunk of `run` bytes has begun.
    pub open spec fn chunk(run: int, output: Seq<u8>) -> Reading {
        Reading { remaining: run, output, maximal: run == MAX_RUN }
    }

    /// How many of the bytes at hand belong to the current chunk.
    pub open spec fn at_hand(self, src: Seq<u8>) -> int {
        if self.remaining < src.len() {
            self.remaining
        } else {
            src.len() as int
        }
    }

    /// Bytes of the current chunk have gone to the output.
    pub open spec fn taken(self, bytes: Seq<u8>) -> Reading {
        Reading {
            remaining: self.remaining - bytes.len(),
            output: self.output + bytes,
            ..self
        }
    }

    /// The output that the next chunk continues: a sentinel stands for the end of the
    /// current chunk, unless that is of maximal length.
    pub open spec fn continued(self, sentinel: u8) -> Seq<u8> {
        if self.maximal {
            self.output
        } else {
            self.output.push(sentinel)
        }
    }
}

/// How reading a part of a frame ends.
pub ghost enum ReadEnd {
    /// All bytes are consumed and the frame goes on.
    NeedMoreData,
    /// The frame is complete.
    Frame(Seq<u8>),
    /// A chunk holds a sentinel.
    UnexpectedSentinel,
    /// The message is longer than the limit.
    FrameOverflow,
}

/// What comes of reading a part of a frame: how it ends, what the decoder then
/// remembers, and the bytes that it did not consume.
pub ghost struct Read {
    pub end: ReadEnd,
    pub reading: Reading,
    pub rest: Seq<u8>,
}

/// Whether a message of `len` bytes is within the limit; a limit of zero is none.
pub open spec fn within(max_len: usize, len: int) -> bool {
    max_len == 0 || len <= max_len
}

/// Reads on in a frame.
///
/// While bytes of the current chunk are to come, as many of them as there are go to
/// the output, unless they exceed the limit or hold a sentinel. At the end of a
/// chunk the sentinel completes the frame. Any other byte is the code of the next
/// chunk, and a sentinel goes to the output for the chunk that ended, unless that
/// was of maximal length.
pub open spec fn read(sentinel: u8, max_len: usize, reading: Reading, src: Seq<u8>) -> Read
    decreases src.len(),
{
    if src.len() == 0 {
        Read { end: ReadEnd::NeedMoreData, reading, rest: src }
    } else if reading.remaining > 0 {
        let len = reading.at_hand(src);
        if !within(max_len, reading.output.len() + len) {
            Read { end: ReadEnd::FrameOverflow, reading, rest: src }
        } else if src.take(len).contains(sentinel) {
            Read {
                end: ReadEnd::UnexpectedSentinel,
                reading: Reading { remaining: reading.remaining - len, ..reading },
                rest: src.skip(len),
            }
        } else {
            read(sentinel, max_len, reading.taken(src.take(len)), src.skip(len))
        }
    } else {
        match run_of(sentinel, src[0]) {
            None => Read {
                end: ReadEnd::Frame(reading.output),
                reading: Reading { output: Seq::empty(), ..reading },
                rest: src.skip(1),
            },
            Some(run) => if !reading.maximal && max_len != 0 && reading.output.len() == max_len {
                Read { end: ReadEnd::FrameOverflow, reading, rest: src.skip(1) }
            } else {
                read(
                    sentinel,
                    max_len,
                    Reading::chunk(run, reading.continued(sentinel)),
                    src.skip(1),
                )
            },
        }
    }
}

/// The three phases of a decoder.
pub ghost enum Phase {
    /// At the start of a frame.
    Initial,
    /// In the middle of a frame.
    Reading(Reading),
    /// In a frame that exceeded the limit, looking for its end.
    Lost,
}

/// Whether a decoder with this limit can be in this phase.
pub open spec fn valid_phase(max_len: usize, phase: Phase) -> bool {
    match phase {
        Phase::Initial => true,
        Phase::Reading(reading) => {
            &&& 0 <= reading.remaining <= MAX_RUN
            &&& within(max_len, reading.output.len() as int)
        },
        Phase::Lost => max_len != 0,
    }
}

/// What comes of decoding: the result, the phase that the decoder is in
/// afterwards, and the bytes that it did not consume.
pub ghost struct Decoded {
    pub result: Result<Option<Seq<u8>>, DecodeError>,
    pub phase: Phase,
    pub rest: Seq<u8>,
}

/// Decodes in the middle of a frame.
pub open spec fn decode_reading(
    sentinel: u8,
    max_len: usize,
    reading: Reading,
    src: Seq<u8>,
) -> Decoded {
    let read = read(sentinel, max_len, reading, src);
    match read.end {
        ReadEnd::NeedMoreData => Decoded {
            result: Ok(None),
            phase: Phase::Reading(read.reading),
            rest: read.rest,
        },
        ReadEnd::Frame(message) => Decoded {
            result: Ok(Some(message)),
            phase: Phase::Initial,
            rest: read.rest,
        },
        ReadEnd::UnexpectedSentinel => Decoded {
            result: Err(DecodeError::UnexpectedSentinel),
            phase: Phase::Initial,
            rest: read.rest,
        },
        ReadEnd::FrameOverflow => Decoded {
            result: Err(DecodeError::FrameOverflow),
            phase: Phase::Lost,
            rest: read.rest,
        },
    }
}

/// Decodes at the start of a frame, which is the code of the first chunk.
pub open spec fn decode_initial(sentinel: u8, max_len: usize, src: Seq<u8>) -> Decoded {
    if src.len() == 0 {
        Decoded { result: Ok(None), phase: Phase::Initial, rest: src }
    } else {
        match run_of(sentinel, src[0]) {
            None => Decoded {
                result: Err(DecodeError::MissingFrame),
                phase: Phase::Initial,
                rest: src.skip(1),
            },
            Some(run) => decode_reading(
                sentinel,
                max_len,
                Reading::chunk(run, Seq::empty()),
                src.skip(1),
            ),
        }
    }
}

/// Decodes in any phase. A decoder that is lost drops all bytes up to the first
/// sentinel, and that sentinel, and goes on from there at the start of a frame.
pub open spec fn decode(sentinel: u8, max_len: usize, phase: Phase, src: Seq<u8>) -> Decoded {
    match phase {
        Phase::Initial => decode_initial(sentinel, max_len, src),
        Phase::Reading(reading) => decode_reading(sentinel, max_len, reading, src),
        Phase::Lost => {
            let end = first_sentinel(sentinel, src);
            if end < src.len() {
                decode_initial(sentinel, max_len, src.skip(end + 1))
            } else {
                Decoded { result: Ok(None), phase: Phase::Lost, rest: Seq::empty() }
            }
        },
    }
}

} // verus!
