//! What holds of encoding and decoding taken together.
use crate::code::{code_of, law_code_roundtrip, law_len_roundtrip, run_of, MAX_RUN};
use crate::error::DecodeError;
use crate::frame::{
    code_from, first_sentinel, frame, law_frame_len_least, law_sentinel_only_at_end,
    lemma_first_sentinel, lemma_first_sentinel_is, run_behind, stuffed, unstuffed,
};
use crate::model::{
    decode, decode_initial, read, valid_phase, within, Decoded, Phase, ReadEnd, Reading,
};
use vstd::prelude::*;

verus! {

/// The frames of several messages, one after the other.
pub open spec fn frames(sentinel: u8, messages: Seq<Seq<u8>>) -> Seq<u8>
    decreases messages.len(),
{
    if messages.len() == 0 {
        Seq::empty()
    } else {
        frame(sentinel, messages[0]) + frames(sentinel, messages.skip(1))
    }
}

/// Whether `bytes` are some bytes without a sentinel and `tail` behind them.
pub open spec fn leads_to(sentinel: u8, bytes: Seq<u8>, tail: Seq<u8>) -> bool {
    &&& tail.len() <= bytes.len()
    &&& bytes.skip(bytes.len() - tail.len()) =~= tail
    &&& forall|i: int| 0 <= i < bytes.len() - tail.len() ==> bytes[i] != sentinel
}

/// The length of the first chunk of a message.
spec fn first_run(sentinel: u8, message: Seq<u8>) -> int {
    let end = first_sentinel(sentinel, message);
    if end < MAX_RUN {
        end
    } else {
        MAX_RUN as int
    }
}

/// What follows the first chunk in the frame of a message.
spec fn behind_first_chunk(sentinel: u8, message: Seq<u8>) -> Seq<u8> {
    let run = first_run(sentinel, message);
    if run == message.len() {
        seq![sentinel]
    } else if run == MAX_RUN {
        frame(sentinel, message.skip(run))
    } else {
        frame(sentinel, message.skip(run + 1))
    }
}

/// A frame is the code of the first chunk, that chunk, and what follows it.
proof fn lemma_frame_chunks(sentinel: u8, message: Seq<u8>)
    ensures
        ({
            let run = first_run(sentinel, message);
            &&& 0 <= run <= message.len()
            &&& run <= MAX_RUN
            &&& !message.take(run).contains(sentinel)
            &&& run < message.len() && run < MAX_RUN ==> message[run] == sentinel
            &&& frame(sentinel, message) == seq![code_of(sentinel, run)] + message.take(run)
                + behind_first_chunk(sentinel, message)
        }),
{
    lemma_first_sentinel(sentinel, message);
    let run = first_run(sentinel, message);
    let whole = seq![code_of(sentinel, run)] + message.take(run) + behind_first_chunk(
        sentinel,
        message,
    );
    assert(frame(sentinel, message) =~= whole);
}

/// Reading the rest of a chunk puts it to the output.
proof fn lemma_read_chunk(
    sentinel: u8,
    max_len: usize,
    reading: Reading,
    chunk: Seq<u8>,
    behind: Seq<u8>,
)
    requires
        reading.remaining == chunk.len(),
        !chunk.contains(sentinel),
        within(max_len, (reading.output.len() + chunk.len()) as int),
        behind.len() > 0,
    ensures
        read(sentinel, max_len, reading, chunk + behind) == read(
            sentinel,
            max_len,
            Reading { remaining: 0, output: reading.output + chunk, ..reading },
            behind,
        ),
{
    let src = chunk + behind;
    assert(src.take(chunk.len() as int) =~= chunk);
    assert(src.skip(chunk.len() as int) =~= behind);
    if chunk.len() == 0 {
        assert(src =~= behind);
        assert(reading.output + chunk =~= reading.output);
    }
}

/// Reading a frame from behind its first code gives the message.
proof fn lemma_read_frame(
    sentinel: u8,
    max_len: usize,
    output: Seq<u8>,
    message: Seq<u8>,
    rest: Seq<u8>,
)
    requires
        within(max_len, (output.len() + message.len()) as int),
    ensures
        ({
            let src = frame(sentinel, message) + rest;
            let done = read(
                sentinel,
                max_len,
                Reading::chunk(first_run(sentinel, message), output),
                src.skip(1),
            );
            &&& src.len() > 1
            &&& run_of(sentinel, src[0]) == Some(first_run(sentinel, message))
            &&& done.end == ReadEnd::Frame(output + message)
            &&& done.rest == rest
        }),
    decreases message.len(),
{
    let src = frame(sentinel, message) + rest;
    let run = first_run(sentinel, message);
    let chunk = message.take(run);
    let behind = behind_first_chunk(sentinel, message) + rest;
    lemma_frame_chunks(sentinel, message);
    law_len_roundtrip(sentinel, run);
    assert(src.skip(1) =~= chunk + behind);
    lemma_read_chunk(sentinel, max_len, Reading::chunk(run, output), chunk, behind);
    if run == message.len() {
        assert(chunk =~= message);
        assert(behind.skip(1) =~= rest);
    } else if run == MAX_RUN {
        let next = message.skip(run);
        lemma_read_frame(sentinel, max_len, output + chunk, next, rest);
        assert(output + chunk + next =~= output + message);
    } else {
        let next = message.skip(run + 1);
        let longer = (output + chunk).push(sentinel);
        lemma_read_frame(sentinel, max_len, longer, next, rest);
        assert(longer + next =~= output + message);
    }
}

/// What is encoded is decoded: the frame of a message within the limit is decoded
/// to that message, and the bytes behind the frame are left as they are.
pub proof fn law_roundtrip(sentinel: u8, max_len: usize, message: Seq<u8>, rest: Seq<u8>)
    requires
        within(max_len, message.len() as int),
    ensures
        decode(sentinel, max_len, Phase::Initial, frame(sentinel, message) + rest) == (Decoded {
            result: Ok(Some(message)),
            phase: Phase::Initial,
            rest,
        }),
{
    lemma_read_frame(sentinel, max_len, Seq::empty(), message, rest);
    assert(Seq::<u8>::empty() + message =~= message);
}

/// The frames of several messages are decoded to those messages, one with each
/// call, in the order in which they were encoded.
pub proof fn law_stream_roundtrip(
    sentinel: u8,
    max_len: usize,
    messages: Seq<Seq<u8>>,
    i: int,
    rest: Seq<u8>,
)
    requires
        0 <= i < messages.len(),
        within(max_len, messages[i].len() as int),
    ensures
        decode(
            sentinel,
            max_len,
            Phase::Initial,
            frames(sentinel, messages.skip(i)) + rest,
        ) == (Decoded {
            result: Ok(Some(messages[i])),
            phase: Phase::Initial,
            rest: frames(sentinel, messages.skip(i + 1)) + rest,
        }),
{
    let later = frames(sentinel, messages.skip(i + 1)) + rest;
    law_roundtrip(sentinel, max_len, messages[i], later);
    assert(messages.skip(i).skip(1) =~= messages.skip(i + 1));
    assert(frames(sentinel, messages.skip(i)) + rest =~= frame(sentinel, messages[i]) + later);
}

/// Two messages never share a frame, and what follows a frame does not change
/// where it ends.
pub proof fn law_frame_unique(
    sentinel: u8,
    message1: Seq<u8>,
    rest1: Seq<u8>,
    message2: Seq<u8>,
    rest2: Seq<u8>,
)
    requires
        frame(sentinel, message1) + rest1 == frame(sentinel, message2) + rest2,
    ensures
        message1 == message2,
        rest1 == rest2,
{
    law_roundtrip(sentinel, 0, message1, rest1);
    law_roundtrip(sentinel, 0, message2, rest2);
}

/// Where a frame is read to its end, a part of it leaves the reader waiting.
proof fn lemma_read_prefix(
    sentinel: u8,
    max_len: usize,
    reading: Reading,
    front: Seq<u8>,
    back: Seq<u8>,
)
    requires
        reading.remaining >= 0,
        read(sentinel, max_len, reading, front + back).end is Frame,
        read(sentinel, max_len, reading, front + back).rest.len() < back.len(),
    ensures
        read(sentinel, max_len, reading, front).end == ReadEnd::NeedMoreData,
    decreases front.len(),
{
    let src = front + back;
    if front.len() == 0 {
    } else if reading.remaining > 0 {
        let len = reading.at_hand(src);
        let front_len = reading.at_hand(front);
        assert forall|i: int| 0 <= i < front_len implies front.take(front_len)[i] != sentinel by {
            assert(src.take(len)[i] != sentinel);
        }
        let next = reading.taken(front.take(front_len));
        if front_len == front.len() {
            assert(front.skip(front_len) =~= Seq::empty());
            assert(read(sentinel, max_len, next, Seq::empty()).end is NeedMoreData);
        } else {
            assert(front.take(len) =~= src.take(len));
            assert(src.skip(len) =~= front.skip(len) + back);
            lemma_read_prefix(sentinel, max_len, next, front.skip(len), back);
        }
    } else {
        assert(src.skip(1) =~= front.skip(1) + back);
        law_code_roundtrip(sentinel, src[0]);
        let run = run_of(sentinel, src[0])->0;
        lemma_read_prefix(sentinel, max_len, Reading::chunk(run, reading.continued(sentinel)), front.skip(1), back);
    }
}

/// What is encoded is decoded, also where the frame arrives in parts: a part of it
/// is consumed without a result, and what comes then completes it.
pub proof fn law_roundtrip_in_parts(
    sentinel: u8,
    max_len: usize,
    message: Seq<u8>,
    front: Seq<u8>,
    back: Seq<u8>,
    rest: Seq<u8>,
)
    requires
        within(max_len, message.len() as int),
        front + back == frame(sentinel, message),
        back.len() > 0,
    ensures
        ({
            let first = decode(sentinel, max_len, Phase::Initial, front);
            &&& first.result == Ok::<Option<Seq<u8>>, DecodeError>(None)
            &&& first.rest == Seq::<u8>::empty()
            &&& decode(sentinel, max_len, first.phase, back + rest) == (Decoded {
                result: Ok(Some(message)),
                phase: Phase::Initial,
                rest,
            })
        }),
{
    law_roundtrip(sentinel, max_len, message, rest);
    assert(front + (back + rest) =~= frame(sentinel, message) + rest);
    lemma_frame_chunks(sentinel, message);
    let run = first_run(sentinel, message);
    if front.len() > 0 {
        law_len_roundtrip(sentinel, run);
        assert((front + (back + rest)).skip(1) =~= front.skip(1) + (back + rest));
        lemma_read_prefix(
            sentinel,
            max_len,
            Reading::chunk(run, Seq::empty()),
            front.skip(1),
            back + rest,
        );
    }
    law_arrival_in_parts(sentinel, max_len, Phase::Initial, front, back + rest);
}

/// Whether reading `front` consumes it all, and reading `back` then gives what
/// reading both at once does.
spec fn reads_on(
    sentinel: u8,
    max_len: usize,
    reading: Reading,
    front: Seq<u8>,
    back: Seq<u8>,
) -> bool {
    let first = read(sentinel, max_len, reading, front);
    let parts = read(sentinel, max_len, first.reading, back);
    let whole = read(sentinel, max_len, reading, front + back);
    &&& first.rest.len() == 0
    &&& whole.end == parts.end
    &&& parts.end is NeedMoreData ==> whole.reading == parts.reading
    &&& parts.end is FrameOverflow ==> leads_to(sentinel, whole.rest, parts.rest)
    &&& !(parts.end is FrameOverflow) ==> whole.rest == parts.rest
}

/// How reading goes on where it left off.
proof fn lemma_read_on(
    sentinel: u8,
    max_len: usize,
    reading: Reading,
    front: Seq<u8>,
    back: Seq<u8>,
)
    requires
        read(sentinel, max_len, reading, front).end is NeedMoreData,
    ensures
        reads_on(sentinel, max_len, reading, front, back),
    decreases front.len(),
{
    let src = front + back;
    if front.len() == 0 {
        assert(src =~= back);
    } else if reading.remaining > 0 {
        if reading.remaining <= front.len() {
            let len = reading.remaining;
            let next = reading.taken(front.take(len));
            assert(src.take(len) =~= front.take(len));
            assert(src.skip(len) =~= front.skip(len) + back);
            lemma_read_on(sentinel, max_len, next, front.skip(len), back);
        } else {
            lemma_read_on_in_chunk(sentinel, max_len, reading, front, back);
        }
    } else {
        assert(src.skip(1) =~= front.skip(1) + back);
        let run = run_of(sentinel, src[0])->0;
        let next = Reading::chunk(run, reading.continued(sentinel));
        lemma_read_on(sentinel, max_len, next, front.skip(1), back);
    }
}

/// How reading goes on where it left off inside a chunk.
proof fn lemma_read_on_in_chunk(
    sentinel: u8,
    max_len: usize,
    reading: Reading,
    front: Seq<u8>,
    back: Seq<u8>,
)
    requires
        0 < front.len() < reading.remaining,
        read(sentinel, max_len, reading, front).end is NeedMoreData,
    ensures
        reads_on(sentinel, max_len, reading, front, back),
{
    let src = front + back;
    let first = reading.taken(front);
    assert(front.take(front.len() as int) =~= front);
    assert(front.skip(front.len() as int) =~= Seq::empty());
    assert(read(sentinel, max_len, first, Seq::empty()).end is NeedMoreData);
    assert(read(sentinel, max_len, reading, front) == read(
        sentinel,
        max_len,
        first,
        Seq::empty(),
    ));
    if back.len() == 0 {
        assert(src =~= front);
        assert(back =~= Seq::empty());
    } else {
        let back_len = first.at_hand(back);
        let len = front.len() + back_len;
        assert(src.take(len) =~= front + back.take(back_len));
        assert(src.skip(len) =~= back.skip(back_len));
        assert(first.output + back.take(back_len) =~= reading.output + src.take(len));
        assert(src.take(len).contains(sentinel) == back.take(back_len).contains(sentinel)) by {
            if src.take(len).contains(sentinel) {
                let i = choose|i: int| 0 <= i < len && src.take(len)[i] == sentinel;
                if i < front.len() {
                    assert(front.contains(front[i]));
                }
                assert(back.take(back_len)[i - front.len()] == sentinel);
            }
            if back.take(back_len).contains(sentinel) {
                let i = choose|i: int| 0 <= i < back_len && back.take(back_len)[i] == sentinel;
                assert(src.take(len)[i + front.len()] == sentinel);
            }
        }
        assert(leads_to(sentinel, src, back)) by {
            assert(src.skip(front.len() as int) =~= back);
            assert forall|i: int| 0 <= i < front.len() implies src[i] != sentinel by {
                assert(front.contains(front[i]));
            }
        }
    }
}

/// A decoder that is lost makes the same of bytes whether or not others without a
/// sentinel come before them.
proof fn lemma_lost_skips(sentinel: u8, max_len: usize, bytes: Seq<u8>, tail: Seq<u8>)
    requires
        leads_to(sentinel, bytes, tail),
    ensures
        decode(sentinel, max_len, Phase::Lost, bytes) == decode(
            sentinel,
            max_len,
            Phase::Lost,
            tail,
        ),
{
    let skipped = bytes.len() - tail.len();
    let end = first_sentinel(sentinel, tail);
    lemma_first_sentinel(sentinel, tail);
    assert forall|i: int| 0 <= i < skipped + end implies bytes[i] != sentinel by {
        if i >= skipped {
            assert(bytes[i] == tail[i - skipped]);
        }
    }
    if end < tail.len() {
        assert(bytes[skipped + end] == tail[end]);
    }
    lemma_first_sentinel_is(sentinel, bytes, skipped + end);
    if end < tail.len() {
        assert(bytes.skip(skipped + end + 1) =~= tail.skip(end + 1));
    }
}

/// It does not matter in which parts the bytes arrive. Where a decoder consumed
/// `front` without a result, it makes of `back` what it would have made of both at
/// once: the same result, the same phase and the same bytes left. Only the bytes
/// left of a frame over the limit may differ, by bytes that the decoder will drop.
pub proof fn law_arrival_in_parts(
    sentinel: u8,
    max_len: usize,
    phase: Phase,
    front: Seq<u8>,
    back: Seq<u8>,
)
    requires
        decode(sentinel, max_len, phase, front).result == Ok::<Option<Seq<u8>>, DecodeError>(None),
    ensures
        ({
            let first = decode(sentinel, max_len, phase, front);
            let parts = decode(sentinel, max_len, first.phase, back);
            let whole = decode(sentinel, max_len, phase, front + back);
            &&& first.rest == Seq::<u8>::empty()
            &&& whole.result == parts.result
            &&& whole.phase == parts.phase
            &&& whole.rest == parts.rest || {
                &&& whole.result == Err::<Option<Seq<u8>>, DecodeError>(DecodeError::FrameOverflow)
                &&& forall|more: Seq<u8>| #[trigger]
                    decode(sentinel, max_len, Phase::Lost, whole.rest + more) == decode(
                        sentinel,
                        max_len,
                        Phase::Lost,
                        parts.rest + more,
                    )
            }
        }),
{
    let first = decode(sentinel, max_len, phase, front);
    let parts = decode(sentinel, max_len, first.phase, back);
    let whole = decode(sentinel, max_len, phase, front + back);
    match phase {
        Phase::Initial => {
            lemma_initial_in_parts(sentinel, max_len, front, back);
        },
        Phase::Reading(reading) => {
            lemma_read_on(sentinel, max_len, reading, front, back);
        },
        Phase::Lost => {
            let end = first_sentinel(sentinel, front);
            lemma_first_sentinel(sentinel, front);
            if end < front.len() {
                lemma_first_sentinel_is(sentinel, front + back, end);
                assert((front + back).skip(end + 1) =~= front.skip(end + 1) + back);
                lemma_initial_in_parts(sentinel, max_len, front.skip(end + 1), back);
            } else {
                assert((front + back).skip(front.len() as int) =~= back);
                lemma_lost_skips(sentinel, max_len, front + back, back);
            }
        },
    }
    if whole.rest != parts.rest {
        assert forall|more: Seq<u8>| #[trigger]
            decode(sentinel, max_len, Phase::Lost, whole.rest + more) == decode(
                sentinel,
                max_len,
                Phase::Lost,
                parts.rest + more,
            ) by {
            assert(leads_to(sentinel, whole.rest, parts.rest));
            let skipped = whole.rest.len() - parts.rest.len();
            assert((whole.rest + more).skip(skipped) =~= whole.rest.skip(skipped) + more);
            lemma_lost_skips(sentinel, max_len, whole.rest + more, parts.rest + more);
        }
    }
}

/// Arrival in parts at the start of a frame.
proof fn lemma_initial_in_parts(sentinel: u8, max_len: usize, front: Seq<u8>, back: Seq<u8>)
    requires
        decode_initial(sentinel, max_len, front).result == Ok::<Option<Seq<u8>>, DecodeError>(None),
    ensures
        ({
            let first = decode_initial(sentinel, max_len, front);
            let parts = decode(sentinel, max_len, first.phase, back);
            let whole = decode_initial(sentinel, max_len, front + back);
            &&& first.rest == Seq::<u8>::empty()
            &&& whole.result == parts.result
            &&& whole.phase == parts.phase
            &&& whole.rest == parts.rest || {
                &&& whole.result == Err::<Option<Seq<u8>>, DecodeError>(DecodeError::FrameOverflow)
                &&& leads_to(sentinel, whole.rest, parts.rest)
            }
        }),
{
    if front.len() == 0 {
        assert(front + back =~= back);
    } else {
        let run = run_of(sentinel, front[0])->0;
        assert((front + back).skip(1) =~= front.skip(1) + back);
        lemma_read_on(
            sentinel,
            max_len,
            Reading::chunk(run, Seq::empty()),
            front.skip(1),
            back,
        );
    }
}

/// The first sentinel in any part of a frame is its terminator.
proof fn lemma_frame_end(sentinel: u8, message: Seq<u8>, from: int, rest: Seq<u8>)
    requires
        0 <= from < frame(sentinel, message).len(),
    ensures
        ({
            let src = (frame(sentinel, message) + rest).skip(from);
            let end = first_sentinel(sentinel, src);
            end < src.len() && src.skip(end + 1) == rest
        }),
{
    let whole = frame(sentinel, message);
    let src = (whole + rest).skip(from);
    law_sentinel_only_at_end(sentinel, message);
    lemma_first_sentinel_is(sentinel, src, whole.len() - 1 - from);
    assert(src.skip(whole.len() - from) =~= rest);
}

/// Reading a frame from behind its first code overflows where the message exceeds
/// the limit, and the terminator is not consumed.
proof fn lemma_read_too_long(
    sentinel: u8,
    max_len: usize,
    output: Seq<u8>,
    message: Seq<u8>,
    rest: Seq<u8>,
)
    requires
        max_len != 0,
        output.len() <= max_len < output.len() + message.len(),
    ensures
        ({
            let src = frame(sentinel, message) + rest;
            let done = read(
                sentinel,
                max_len,
                Reading::chunk(first_run(sentinel, message), output),
                src.skip(1),
            );
            let end = first_sentinel(sentinel, done.rest);
            &&& src.len() > 1
            &&& run_of(sentinel, src[0]) == Some(first_run(sentinel, message))
            &&& done.end == ReadEnd::FrameOverflow
            &&& end < done.rest.len()
            &&& done.rest.skip(end + 1) == rest
        }),
    decreases message.len(),
{
    let src = frame(sentinel, message) + rest;
    let run = first_run(sentinel, message);
    let chunk = message.take(run);
    let behind = behind_first_chunk(sentinel, message) + rest;
    lemma_frame_chunks(sentinel, message);
    law_len_roundtrip(sentinel, run);
    assert(src.skip(1) =~= chunk + behind);
    if output.len() + run > max_len {
        lemma_frame_end(sentinel, message, 1, rest);
    } else {
        lemma_read_chunk(sentinel, max_len, Reading::chunk(run, output), chunk, behind);
        if run == MAX_RUN {
            lemma_read_too_long(sentinel, max_len, output + chunk, message.skip(run), rest);
        } else {
            let next = message.skip(run + 1);
            lemma_frame_chunks(sentinel, next);
            law_len_roundtrip(sentinel, first_run(sentinel, next));
            if output.len() + run == max_len {
                lemma_frame_end(sentinel, next, 1, rest);
            } else {
                let longer = (output + chunk).push(sentinel);
                lemma_read_too_long(sentinel, max_len, longer, next, rest);
            }
        }
    }
}

/// The frame of a message over the limit is refused with
/// [`DecodeError::FrameOverflow`], and the decoder then goes on behind that frame.
pub proof fn law_too_long(sentinel: u8, max_len: usize, message: Seq<u8>, rest: Seq<u8>)
    requires
        !within(max_len, message.len() as int),
    ensures
        ({
            let refused = decode(
                sentinel,
                max_len,
                Phase::Initial,
                frame(sentinel, message) + rest,
            );
            &&& refused.result == Err::<Option<Seq<u8>>, DecodeError>(DecodeError::FrameOverflow)
            &&& refused.phase == Phase::Lost
            &&& decode(sentinel, max_len, refused.phase, refused.rest) == decode(
                sentinel,
                max_len,
                Phase::Initial,
                rest,
            )
        }),
{
    lemma_read_too_long(sentinel, max_len, Seq::empty(), message, rest);
}

/// A decoder that is lost finds its way at the next sentinel: it drops what comes
/// before it, and goes on behind it as at the start of a frame.
pub proof fn law_lost_recovers(sentinel: u8, max_len: usize, dropped: Seq<u8>, rest: Seq<u8>)
    requires
        !dropped.contains(sentinel),
    ensures
        decode(sentinel, max_len, Phase::Lost, dropped.push(sentinel) + rest) == decode(
            sentinel,
            max_len,
            Phase::Initial,
            rest,
        ),
{
    let src = dropped.push(sentinel) + rest;
    assert forall|i: int| 0 <= i < dropped.len() implies src[i] != sentinel by {
        assert(dropped.contains(dropped[i]));
    }
    lemma_first_sentinel_is(sentinel, src, dropped.len() as int);
    assert(src.skip(dropped.len() as int + 1) =~= rest);
}

/// Whatever bytes are read, the part of a message that is held stays within the
/// limit, and so does a message that is complete; and without a limit nothing
/// overflows.
pub proof fn law_read_limit_kept(sentinel: u8, max_len: usize, reading: Reading, src: Seq<u8>)
    requires
        within(max_len, reading.output.len() as int),
    ensures
        ({
            let done = read(sentinel, max_len, reading, src);
            &&& within(max_len, done.reading.output.len() as int)
            &&& done.end matches ReadEnd::Frame(message) ==> within(max_len, message.len() as int)
            &&& done.end is FrameOverflow ==> max_len != 0
        }),
    decreases src.len(),
{
    if src.len() == 0 {
    } else if reading.remaining > 0 {
        let len = reading.at_hand(src);
        if within(max_len, reading.output.len() + len) {
            law_read_limit_kept(
                sentinel,
                max_len,
                reading.taken(src.take(len)),
                src.skip(len),
            );
        }
    } else if src[0] != sentinel {
        let run = run_of(sentinel, src[0])->0;
        let next = Reading::chunk(run, reading.continued(sentinel));
        if within(max_len, next.output.len() as int) {
            law_read_limit_kept(sentinel, max_len, next, src.skip(1));
        }
    }
}

/// The bytes of a chunk that are still to come stay within its length.
proof fn lemma_read_remaining(sentinel: u8, max_len: usize, reading: Reading, src: Seq<u8>)
    requires
        0 <= reading.remaining <= MAX_RUN,
    ensures
        0 <= read(sentinel, max_len, reading, src).reading.remaining <= MAX_RUN,
    decreases src.len(),
{
    if src.len() == 0 {
    } else if reading.remaining > 0 {
        let len = reading.at_hand(src);
        lemma_read_remaining(sentinel, max_len, reading.taken(src.take(len)), src.skip(len));
    } else if src[0] != sentinel {
        law_code_roundtrip(sentinel, src[0]);
        let run = run_of(sentinel, src[0])->0;
        let next = Reading::chunk(run, reading.continued(sentinel));
        lemma_read_remaining(sentinel, max_len, next, src.skip(1));
    }
}

/// A decoder never holds or returns more of a message than its limit allows; and
/// without a limit it neither gets lost nor returns [`DecodeError::FrameOverflow`].
pub proof fn law_limit_kept(sentinel: u8, max_len: usize, phase: Phase, src: Seq<u8>)
    requires
        valid_phase(max_len, phase),
    ensures
        ({
            let decoded = decode(sentinel, max_len, phase, src);
            &&& valid_phase(max_len, decoded.phase)
            &&& decoded.result matches Ok(Some(message)) ==> within(max_len, message.len() as int)
            &&& decoded.result == Err::<Option<Seq<u8>>, DecodeError>(DecodeError::FrameOverflow)
                ==> max_len != 0
        }),
{
    match phase {
        Phase::Initial => {
            lemma_initial_valid(sentinel, max_len, src);
        },
        Phase::Reading(reading) => {
            law_read_limit_kept(sentinel, max_len, reading, src);
            lemma_read_remaining(sentinel, max_len, reading, src);
        },
        Phase::Lost => {
            let end = first_sentinel(sentinel, src);
            if end < src.len() {
                lemma_initial_valid(sentinel, max_len, src.skip(end + 1));
            }
        },
    }
}

/// [`law_limit_kept`] at the start of a frame.
proof fn lemma_initial_valid(sentinel: u8, max_len: usize, src: Seq<u8>)
    ensures
        ({
            let decoded = decode_initial(sentinel, max_len, src);
            &&& valid_phase(max_len, decoded.phase)
            &&& decoded.result matches Ok(Some(message)) ==> within(max_len, message.len() as int)
            &&& decoded.result == Err::<Option<Seq<u8>>, DecodeError>(DecodeError::FrameOverflow)
                ==> max_len != 0
        }),
{
    if src.len() > 0 && src[0] != sentinel {
        law_code_roundtrip(sentinel, src[0]);
        let run = run_of(sentinel, src[0])->0;
        let next = Reading::chunk(run, Seq::empty());
        law_read_limit_kept(sentinel, max_len, next, src.skip(1));
        lemma_read_remaining(sentinel, max_len, next, src.skip(1));
    }
}

/// Where reading stops, as told by the first sentinel.
proof fn lemma_read_stops(sentinel: u8, max_len: usize, reading: Reading, src: Seq<u8>)
    requires
        reading.remaining >= 0,
    ensures
        ({
            let done = read(sentinel, max_len, reading, src);
            let end = first_sentinel(sentinel, src);
            &&& done.rest.len() <= src.len()
            &&& done.rest == src.skip(src.len() - done.rest.len())
            &&& done.end is NeedMoreData ==> end == src.len() && done.rest.len() == 0
            &&& done.end is Frame ==> end == src.len() - done.rest.len() - 1
            &&& done.end is UnexpectedSentinel ==> end < src.len() - done.rest.len()
            &&& done.end is FrameOverflow ==> end >= src.len() - done.rest.len()
        }),
    decreases src.len(),
{
    lemma_first_sentinel(sentinel, src);
    if src.len() == 0 {
        assert(src.skip(0) =~= src);
    } else if reading.remaining > 0 {
        let len = reading.at_hand(src);
        if !within(max_len, reading.output.len() + len) {
            assert(src.skip(0) =~= src);
        } else if src.take(len).contains(sentinel) {
            let i = choose|i: int| 0 <= i < len && src.take(len)[i] == sentinel;
            assert(src[i] == sentinel);
        } else {
            let next = reading.taken(src.take(len));
            lemma_read_stops(sentinel, max_len, next, src.skip(len));
            lemma_first_sentinel_behind(sentinel, src, len);
            let done = read(sentinel, max_len, next, src.skip(len));
            assert(src.skip(len).skip(src.len() - len - done.rest.len()) =~= src.skip(
                src.len() - done.rest.len(),
            ));
        }
    } else if src[0] != sentinel {
        law_code_roundtrip(sentinel, src[0]);
        let run = run_of(sentinel, src[0])->0;
        let next = Reading::chunk(run, reading.continued(sentinel));
        lemma_read_stops(sentinel, max_len, next, src.skip(1));
        lemma_first_sentinel_behind(sentinel, src, 1);
        let done = read(sentinel, max_len, next, src.skip(1));
        assert(src.skip(1).skip(src.len() - 1 - done.rest.len()) =~= src.skip(
            src.len() - done.rest.len(),
        ));
    }
}

/// The first sentinel behind bytes that hold none.
proof fn lemma_first_sentinel_behind(sentinel: u8, src: Seq<u8>, len: int)
    requires
        0 <= len <= src.len(),
        !src.take(len).contains(sentinel),
    ensures
        first_sentinel(sentinel, src) == len + first_sentinel(sentinel, src.skip(len)),
{
    let tail = src.skip(len);
    let end = first_sentinel(sentinel, tail);
    lemma_first_sentinel(sentinel, tail);
    assert forall|i: int| 0 <= i < len + end implies src[i] != sentinel by {
        if i < len {
            assert(src.take(len).contains(src.take(len)[i]));
        } else {
            assert(src[i] == tail[i - len]);
        }
    }
    if end < tail.len() {
        assert(src[len + end] == tail[end]);
    }
    lemma_first_sentinel_is(sentinel, src, len + end);
}

/// The sentinel alone tells where frames end. Outside a frame over the limit, a
/// decoder waits for more while it has not seen a sentinel, a message comes with
/// the first sentinel and leaves all that is behind it, and the errors that tell of
/// corrupted data come only once a sentinel is consumed. An overflow comes before
/// the sentinel is.
pub proof fn law_frame_bounds(sentinel: u8, max_len: usize, phase: Phase, src: Seq<u8>)
    requires
        valid_phase(max_len, phase),
        phase !is Lost,
    ensures
        ({
            let decoded = decode(sentinel, max_len, phase, src);
            let consumed = src.len() - decoded.rest.len();
            let end = first_sentinel(sentinel, src);
            &&& consumed >= 0
            &&& decoded.rest == src.skip(consumed)
            &&& match decoded.result {
                Ok(None) => consumed == src.len() && end == src.len(),
                Ok(Some(_)) => consumed == end + 1,
                Err(DecodeError::MissingFrame) => consumed == 1 && end == 0,
                Err(DecodeError::UnexpectedSentinel) => consumed > end,
                Err(DecodeError::FrameOverflow) => consumed <= end,
                Err(DecodeError::Io(_)) => false,
            }
        }),
{
    match phase {
        Phase::Reading(reading) => {
            lemma_read_stops(sentinel, max_len, reading, src);
        },
        _ => {
            if src.len() == 0 {
                assert(src.skip(0) =~= src);
            } else if src[0] != sentinel {
                law_code_roundtrip(sentinel, src[0]);
                let run = run_of(sentinel, src[0])->0;
                let next = Reading::chunk(run, Seq::empty());
                let done = read(sentinel, max_len, next, src.skip(1));
                lemma_read_stops(sentinel, max_len, next, src.skip(1));
                lemma_first_sentinel_behind(sentinel, src, 1);
                assert(src.skip(1).skip(src.len() - 1 - done.rest.len()) =~= src.skip(
                    src.len() - done.rest.len(),
                ));
            }
        },
    }
}

/// The first code at or behind a place is not in front of it.
proof fn lemma_code_from(sentinel: u8, bytes: Seq<u8>, at: int)
    ensures
        at <= code_from(sentinel, bytes, at),
        0 <= code_from(sentinel, bytes, at),
    decreases at,
{
    let next = 1 + run_behind(sentinel, bytes[0]);
    if at > next {
        lemma_code_from(sentinel, bytes.skip(next), at - next);
    }
}

/// What a first, complete chunk stands for, where more is behind it.
spec fn first_part(sentinel: u8, bytes: Seq<u8>) -> Seq<u8> {
    let run = run_behind(sentinel, bytes[0]);
    Reading { output: bytes.subrange(1, 1 + run), ..Reading::chunk(run, Seq::empty()) }.continued(
        sentinel,
    )
}

/// Places and messages, counted from behind the first chunk.
proof fn lemma_behind_first(sentinel: u8, bytes: Seq<u8>, at: int)
    requires
        0 < at <= bytes.len() - 1 - run_behind(sentinel, bytes[0]),
    ensures
        ({
            let next = 1 + run_behind(sentinel, bytes[0]);
            let tail = bytes.skip(next);
            &&& code_from(sentinel, bytes, next + at) == next + code_from(sentinel, tail, at)
            &&& unstuffed(sentinel, bytes.take(next + at)) == first_part(sentinel, bytes)
                + unstuffed(sentinel, tail.take(at))
        }),
{
    let next = 1 + run_behind(sentinel, bytes[0]);
    let front = bytes.take(next + at);
    assert(front.subrange(1, next) =~= bytes.subrange(1, next));
    assert(front.skip(next) =~= bytes.skip(next).take(at));
}

/// Whether the chunk with its code at `place` takes the message, of which `output` is
/// there already, over the limit.
#[verifier::opaque]
spec fn overflows_at(
    sentinel: u8,
    max_len: usize,
    output: Seq<u8>,
    bytes: Seq<u8>,
    place: int,
) -> bool {
    let next = code_from(sentinel, bytes, place + 1);
    let there = if next < bytes.len() {
        next
    } else {
        bytes.len() as int
    };
    &&& 0 <= place < first_sentinel(sentinel, bytes)
    &&& code_from(sentinel, bytes, place) == place
    &&& within(max_len, (output + unstuffed(sentinel, bytes.take(place))).len() as int)
    &&& !within(max_len, (output + unstuffed(sentinel, bytes.take(there))).len() as int)
}

/// Where a message goes over the limit, counted from behind the first chunk.
proof fn lemma_overflows_behind(
    sentinel: u8,
    max_len: usize,
    output: Seq<u8>,
    bytes: Seq<u8>,
    place: int,
)
    requires
        ({
            let next = 1 + run_behind(sentinel, bytes[0]);
            &&& next < first_sentinel(sentinel, bytes)
            &&& next < bytes.len()
            &&& overflows_at(
                sentinel,
                max_len,
                output + first_part(sentinel, bytes),
                bytes.skip(next),
                place,
            )
            &&& first_sentinel(sentinel, bytes) == next + first_sentinel(
                sentinel,
                bytes.skip(next),
            )
        }),
    ensures
        0 <= place <= bytes.len() - 2 - run_behind(sentinel, bytes[0]),
        overflows_at(
            sentinel,
            max_len,
            output,
            bytes,
            1 + run_behind(sentinel, bytes[0]) + place,
        ),
{
    reveal(overflows_at);
    let next = 1 + run_behind(sentinel, bytes[0]);
    let tail = bytes.skip(next);
    let second = code_from(sentinel, tail, place + 1);
    lemma_first_sentinel(sentinel, tail);
    lemma_code_from(sentinel, tail, place + 1);
    let there = if second < tail.len() {
        second
    } else {
        tail.len() as int
    };
    lemma_behind_first(sentinel, bytes, place + 1);
    lemma_behind_first(sentinel, bytes, there);
    if place > 0 {
        lemma_behind_first(sentinel, bytes, place);
    } else {
        assert(bytes.take(next).skip(1) =~= bytes.subrange(1, next));
    }
}

/// Whether reading comes out as [`law_decode_from_start`] says, from behind the first
/// code and with `output` there already.
spec fn reads_from_code(sentinel: u8, max_len: usize, output: Seq<u8>, bytes: Seq<u8>) -> bool {
    let end = first_sentinel(sentinel, bytes);
    let code = code_from(sentinel, bytes, end);
    let there = if code < bytes.len() {
        code
    } else {
        bytes.len() as int
    };
    let held = output + unstuffed(sentinel, bytes.take(there));
    let reading = Reading::chunk(run_behind(sentinel, bytes[0]), output);
    let done = read(sentinel, max_len, reading, bytes.skip(1));
    if !within(max_len, held.len() as int) {
        let place = bytes.len() - done.rest.len() - 1;
        &&& done.end == ReadEnd::FrameOverflow
        &&& overflows_at(sentinel, max_len, output, bytes, place)
        &&& done.rest =~= bytes.skip(place + 1)
    } else if end == bytes.len() {
        &&& done.end == ReadEnd::NeedMoreData
        &&& done.rest.len() == 0
        &&& done.reading.output == held
        &&& done.reading.remaining == code - bytes.len()
    } else if code == end {
        &&& done.end == ReadEnd::Frame(held)
        &&& done.rest =~= bytes.skip(end + 1)
    } else {
        &&& done.end == ReadEnd::UnexpectedSentinel
        &&& done.rest =~= bytes.skip(there)
    }
}

/// Reading from behind the first code, where the first sentinel or the end of the bytes
/// is not behind the first chunk.
proof fn lemma_read_only_chunk(sentinel: u8, max_len: usize, output: Seq<u8>, bytes: Seq<u8>)
    requires
        bytes.len() > 0,
        bytes[0] != sentinel,
        within(max_len, output.len() as int),
        first_sentinel(sentinel, bytes) <= 1 + run_behind(sentinel, bytes[0]),
    ensures
        reads_from_code(sentinel, max_len, output, bytes),
{
    reveal(overflows_at);
    let end = first_sentinel(sentinel, bytes);
    lemma_first_sentinel(sentinel, bytes);
    let run = run_behind(sentinel, bytes[0]);
    let next = 1 + run;
    let src = bytes.skip(1);
    let reading = Reading::chunk(run, output);
    let len = reading.at_hand(src);
    let there = 1 + len;
    assert(bytes.take(there).skip(1) =~= src.take(len));
    assert(bytes.take(0) =~= Seq::empty());
    assert(output + Seq::<u8>::empty() =~= output);
    if end < there {
        assert(src.take(len)[end - 1] == sentinel);
    } else {
        let chunk = src.take(len);
        assert(!chunk.contains(sentinel));
        if len == src.len() {
            assert(src.skip(len) =~= Seq::empty());
            assert(read(sentinel, max_len, reading.taken(chunk), Seq::empty()).end is NeedMoreData);
        } else {
            assert(chunk + src.skip(len) =~= src);
            if within(max_len, (output + chunk).len() as int) {
                lemma_read_chunk(sentinel, max_len, reading, chunk, src.skip(len));
            }
        }
    }
}

/// A message goes over the limit with the first chunk, or with the second code.
proof fn lemma_overflows_early(sentinel: u8, max_len: usize, output: Seq<u8>, bytes: Seq<u8>)
    requires
        bytes.len() > 0,
        0 <= 1 + run_behind(sentinel, bytes[0]) < first_sentinel(sentinel, bytes),
        within(max_len, output.len() as int),
        !within(max_len, (output + first_part(sentinel, bytes)).len() as int),
    ensures
        ({
            let next = 1 + run_behind(sentinel, bytes[0]);
            if within(max_len, output.len() + next - 1) {
                overflows_at(sentinel, max_len, output, bytes, next)
            } else {
                overflows_at(sentinel, max_len, output, bytes, 0)
            }
        }),
{
    reveal(overflows_at);
    let next = 1 + run_behind(sentinel, bytes[0]);
    let tail = bytes.skip(next);
    lemma_first_sentinel(sentinel, bytes);
    assert(bytes.take(0) =~= Seq::empty());
    assert(bytes.take(next).skip(1) =~= bytes.subrange(1, next));
    let second = code_from(sentinel, tail, 1);
    lemma_code_from(sentinel, tail, 1);
    lemma_behind_first(sentinel, bytes, 1);
    lemma_behind_first(
        sentinel,
        bytes,
        if second < tail.len() {
            second
        } else {
            tail.len() as int
        },
    );
}

/// Reading from behind the first code.
proof fn lemma_read_from_code(sentinel: u8, max_len: usize, output: Seq<u8>, bytes: Seq<u8>)
    requires
        bytes.len() > 0,
        bytes[0] != sentinel,
        within(max_len, output.len() as int),
    ensures
        reads_from_code(sentinel, max_len, output, bytes),
    decreases bytes.len(),
{
    let end = first_sentinel(sentinel, bytes);
    lemma_first_sentinel(sentinel, bytes);
    let run = run_behind(sentinel, bytes[0]);
    let next = 1 + run;
    if end <= next {
        lemma_read_only_chunk(sentinel, max_len, output, bytes);
    } else {
        let tail = bytes.skip(next);
        let longer = output + first_part(sentinel, bytes);
        lemma_first_sentinel_is(sentinel, tail, end - next);
        lemma_read_first_chunk(sentinel, max_len, output, bytes);
        if within(max_len, longer.len() as int) {
            lemma_read_from_code(sentinel, max_len, longer, tail);
        }
        lemma_read_from_next_code(sentinel, max_len, output, bytes);
    }
}

/// Reading a first chunk that has more behind it than its sentinel.
proof fn lemma_read_first_chunk(sentinel: u8, max_len: usize, output: Seq<u8>, bytes: Seq<u8>)
    requires
        bytes.len() > 0,
        bytes[0] != sentinel,
        1 + run_behind(sentinel, bytes[0]) < first_sentinel(sentinel, bytes),
        within(max_len, output.len() as int),
    ensures
        ({
            let run = run_behind(sentinel, bytes[0]);
            let tail = bytes.skip(1 + run);
            let longer = output + first_part(sentinel, bytes);
            let done = read(sentinel, max_len, Reading::chunk(run, output), bytes.skip(1));
            if !within(max_len, output.len() + run) {
                done.end == ReadEnd::FrameOverflow && done.rest == bytes.skip(1)
            } else if !within(max_len, longer.len() as int) {
                done.end == ReadEnd::FrameOverflow && done.rest == tail.skip(1)
            } else {
                done == read(
                    sentinel,
                    max_len,
                    Reading::chunk(run_behind(sentinel, tail[0]), longer),
                    tail.skip(1),
                )
            }
        }),
{
    let run = run_behind(sentinel, bytes[0]);
    let reading = Reading::chunk(run, output);
    let chunk = bytes.subrange(1, 1 + run);
    let tail = bytes.skip(1 + run);
    lemma_first_sentinel(sentinel, bytes);
    assert(!chunk.contains(sentinel));
    assert(bytes.skip(1) =~= chunk + tail);
    let ended = Reading { remaining: 0, output: output + chunk, ..reading };
    assert(ended.continued(sentinel) =~= output + first_part(sentinel, bytes));
    if within(max_len, output.len() + run) {
        lemma_read_chunk(sentinel, max_len, reading, chunk, tail);
    }
}

/// What reading comes to, counted from behind a first chunk.
proof fn lemma_read_from_next_code(sentinel: u8, max_len: usize, output: Seq<u8>, bytes: Seq<u8>)
    requires
        bytes.len() > 0,
        bytes[0] != sentinel,
        1 + run_behind(sentinel, bytes[0]) < first_sentinel(sentinel, bytes),
        within(max_len, output.len() as int),
        ({
            let longer = output + first_part(sentinel, bytes);
            within(max_len, longer.len() as int) ==> reads_from_code(
                sentinel,
                max_len,
                longer,
                bytes.skip(1 + run_behind(sentinel, bytes[0])),
            )
        }),
    ensures
        reads_from_code(sentinel, max_len, output, bytes),
{
    let end = first_sentinel(sentinel, bytes);
    lemma_first_sentinel(sentinel, bytes);
    let next = 1 + run_behind(sentinel, bytes[0]);
    let tail = bytes.skip(next);
    let longer = output + first_part(sentinel, bytes);
    lemma_first_sentinel_is(sentinel, tail, end - next);
    lemma_read_first_chunk(sentinel, max_len, output, bytes);
    let code = code_from(sentinel, tail, end - next);
    lemma_code_from(sentinel, tail, end - next);
    let there = if code < tail.len() {
        code
    } else {
        tail.len() as int
    };
    lemma_behind_first(sentinel, bytes, end - next);
    lemma_behind_first(sentinel, bytes, there);
    assert(output + unstuffed(sentinel, bytes.take(next + there)) =~= longer + unstuffed(
        sentinel,
        tail.take(there),
    ));
    if within(max_len, longer.len() as int) {
        let done = read(
            sentinel,
            max_len,
            Reading::chunk(run_behind(sentinel, tail[0]), longer),
            tail.skip(1),
        );
        if done.end is FrameOverflow {
            let place = tail.len() - done.rest.len() - 1;
            lemma_overflows_behind(sentinel, max_len, output, bytes, place);
            assert(tail.skip(place + 1) =~= bytes.skip(next + place + 1));
        }
    } else {
        lemma_overflows_early(sentinel, max_len, output, bytes);
    }
}

/// What a decoder makes of bytes at the start of a frame is told by the first sentinel
/// in them, and by how long the message is that stands before it.
///
/// A sentinel in front of all is a missing frame. Else the bytes count up to the first
/// sentinel or, where that stands inside a chunk, up to the end of that chunk, as far as
/// it is there. If they stand for more than the limit, the frame overflows: the bytes
/// are consumed up to and with the code of the first chunk with which they do, so never
/// the sentinel. If not, the decoder waits where there is no sentinel; a sentinel in
/// the place of a code ends the frame, and the message is what the bytes before it
/// stand for; and in any other place the sentinel is unexpected, and exactly the bytes
/// that count are consumed.
pub proof fn law_decode_from_start(sentinel: u8, max_len: usize, src: Seq<u8>)
    ensures
        ({
            let end = first_sentinel(sentinel, src);
            let code = code_from(sentinel, src, end);
            let there = if code < src.len() {
                code
            } else {
                src.len() as int
            };
            let held = unstuffed(sentinel, src.take(there));
            let decoded = decode(sentinel, max_len, Phase::Initial, src);
            if src.len() == 0 {
                decoded == (Decoded {
                    result: Ok(None),
                    phase: Phase::Initial,
                    rest: Seq::empty(),
                })
            } else if end == 0 {
                decoded == (Decoded {
                    result: Err(DecodeError::MissingFrame),
                    phase: Phase::Initial,
                    rest: src.skip(1),
                })
            } else if max_len != 0 && held.len() > max_len {
                let place = src.len() - decoded.rest.len() - 1;
                let next = code_from(sentinel, src, place + 1);
                let over = if next < src.len() {
                    next
                } else {
                    src.len() as int
                };
                &&& decoded == (Decoded {
                    result: Err(DecodeError::FrameOverflow),
                    phase: Phase::Lost,
                    rest: src.skip(place + 1),
                })
                &&& 0 <= place < end
                &&& code_from(sentinel, src, place) == place
                &&& unstuffed(sentinel, src.take(place)).len() <= max_len
                &&& unstuffed(sentinel, src.take(over)).len() > max_len
            } else if end == src.len() {
                &&& decoded.result == Ok::<Option<Seq<u8>>, DecodeError>(None)
                &&& decoded.rest == Seq::<u8>::empty()
                &&& decoded.phase matches Phase::Reading(reading)
                &&& reading.output == held
                &&& reading.remaining == code - src.len()
            } else if code == end {
                decoded == (Decoded {
                    result: Ok(Some(held)),
                    phase: Phase::Initial,
                    rest: src.skip(end + 1),
                })
            } else {
                decoded == (Decoded {
                    result: Err(DecodeError::UnexpectedSentinel),
                    phase: Phase::Initial,
                    rest: src.skip(there),
                })
            }
        }),
{
    reveal(overflows_at);
    lemma_first_sentinel(sentinel, src);
    if src.len() == 0 {
        assert(src =~= Seq::empty());
    } else if src[0] != sentinel {
        let output = Seq::<u8>::empty();
        lemma_read_from_code(sentinel, max_len, output, src);
        assert forall|bytes: Seq<u8>| #[trigger] (output + bytes) == bytes by {
            assert(output + bytes =~= bytes);
        }
    }
}

/// What a decoder without a limit makes of bytes, at the start of a frame, is told by
/// the first sentinel in them. Without one it waits. A sentinel in front of all is a
/// missing frame. One in the place of a length code ends a frame, whose message is
/// what is unstuffed from the bytes before it. In any other place the sentinel is
/// unexpected, and the chunk that holds it is dropped, as far as it is there.
pub proof fn law_decode_unlimited(sentinel: u8, src: Seq<u8>)
    ensures
        ({
            let end = first_sentinel(sentinel, src);
            let code = code_from(sentinel, src, end);
            let dropped = if code < src.len() {
                code
            } else {
                src.len() as int
            };
            let decoded = decode(sentinel, 0, Phase::Initial, src);
            if end == src.len() {
                &&& decoded.result == Ok::<Option<Seq<u8>>, DecodeError>(None)
                &&& decoded.rest == Seq::<u8>::empty()
            } else if end == 0 {
                decoded == (Decoded {
                    result: Err(DecodeError::MissingFrame),
                    phase: Phase::Initial,
                    rest: src.skip(1),
                })
            } else if code == end {
                decoded == (Decoded {
                    result: Ok(Some(unstuffed(sentinel, src.take(end)))),
                    phase: Phase::Initial,
                    rest: src.skip(end + 1),
                })
            } else {
                decoded == (Decoded {
                    result: Err(DecodeError::UnexpectedSentinel),
                    phase: Phase::Initial,
                    rest: src.skip(dropped),
                })
            }
        }),
{
    lemma_first_sentinel(sentinel, src);
    law_decode_from_start(sentinel, 0, src);
}

/// Unstuffing undoes stuffing.
pub proof fn law_unstuffed(sentinel: u8, message: Seq<u8>)
    ensures
        unstuffed(sentinel, stuffed(sentinel, message)) == message,
{
    let whole = frame(sentinel, message);
    law_roundtrip(sentinel, 0, message, Seq::empty());
    law_decode_unlimited(sentinel, whole);
    law_sentinel_only_at_end(sentinel, message);
    lemma_first_sentinel_is(sentinel, whole, whole.len() - 1);
    assert(whole.take(whole.len() - 1) =~= stuffed(sentinel, message));
}

/// [`law_frame_shortest`], from behind the first code.
proof fn lemma_read_shortest(
    sentinel: u8,
    run: int,
    output: Seq<u8>,
    src: Seq<u8>,
    message: Seq<u8>,
)
    requires
        0 <= run <= MAX_RUN,
        read(sentinel, 0, Reading::chunk(run, output), src).end == ReadEnd::Frame(message),
        read(sentinel, 0, Reading::chunk(run, output), src).rest.len() == 0,
    ensures
        output.len() <= message.len(),
        message.take(output.len() as int) == output,
        ({
            let shortest = frame(sentinel, message.skip(output.len() as int));
            let bytes = seq![code_of(sentinel, run)] + src;
            &&& shortest.len() <= bytes.len()
            &&& shortest.len() == bytes.len() ==> shortest == bytes
        }),
    decreases src.len(),
{
    let reading = Reading::chunk(run, output);
    if run > 0 && src.len() <= run {
        // The chunk is not complete, so neither is the frame.
        let len = src.len() as int;
        assert(src.skip(len) =~= Seq::empty());
        assert(read(sentinel, 0, reading.taken(src.take(len)), Seq::empty()).end is NeedMoreData);
    }
    let chunk = src.take(run);
    let behind = src.skip(run);
    assert(src =~= chunk + behind);
    assert(!chunk.contains(sentinel));
    lemma_read_chunk(sentinel, 0, reading, chunk, behind);
    let own = message.skip(output.len() as int);
    if behind[0] == sentinel {
        assert(own =~= chunk);
        lemma_first_sentinel_is(sentinel, own, run);
        lemma_frame_chunks(sentinel, own);
    } else {
        let next_run = run_of(sentinel, behind[0])->0;
        let longer = Reading { output: output + chunk, ..reading }.continued(sentinel);
        lemma_read_shortest(sentinel, next_run, longer, behind.skip(1), message);
        let next = message.skip(longer.len() as int);
        assert(seq![code_of(sentinel, next_run)] + behind.skip(1) =~= behind);
        assert(message =~= longer + next);
        if run == MAX_RUN {
            assert(own =~= chunk + next);
            lemma_first_sentinel(sentinel, own);
            if next.len() > 0 {
                assert(own.skip(run) =~= next);
            }
        } else {
            assert(own =~= chunk.push(sentinel) + next);
            lemma_first_sentinel_is(sentinel, own, run);
            assert(own.skip(run + 1) =~= next);
        }
        lemma_frame_chunks(sentinel, own);
        assert(own.take(run) =~= chunk);
    }
}

/// A frame is the only shortest encoding: any bytes that are decoded to a message, and
/// consumed, are longer than its frame or are that frame.
pub proof fn law_frame_shortest(sentinel: u8, message: Seq<u8>, bytes: Seq<u8>)
    requires
        decode(sentinel, 0, Phase::Initial, bytes) == (Decoded {
            result: Ok(Some(message)),
            phase: Phase::Initial,
            rest: Seq::empty(),
        }),
    ensures
        frame(sentinel, message).len() <= bytes.len(),
        bytes.len() == frame(sentinel, message).len() ==> bytes == frame(sentinel, message),
{
    let run = run_of(sentinel, bytes[0])->0;
    lemma_read_shortest(sentinel, run, Seq::empty(), bytes.skip(1), message);
    assert(message.skip(0) =~= message);
}

/// In every phase a decoder consumes bytes from the front only and leaves the others
/// as they are, and where it waits for more it has consumed them all.
pub proof fn law_rest_is_suffix(sentinel: u8, max_len: usize, phase: Phase, src: Seq<u8>)
    requires
        valid_phase(max_len, phase),
    ensures
        ({
            let decoded = decode(sentinel, max_len, phase, src);
            &&& decoded.rest.len() <= src.len()
            &&& decoded.rest == src.skip(src.len() - decoded.rest.len())
            &&& decoded.result == Ok::<Option<Seq<u8>>, DecodeError>(None) ==> decoded.rest.len()
                == 0
        }),
{
    if phase is Lost {
        let end = first_sentinel(sentinel, src);
        lemma_first_sentinel(sentinel, src);
        if end < src.len() {
            let tail = src.skip(end + 1);
            let rest = decode(sentinel, max_len, Phase::Initial, tail).rest;
            law_frame_bounds(sentinel, max_len, Phase::Initial, tail);
            assert(tail.skip(tail.len() - rest.len()) =~= src.skip(src.len() - rest.len()));
        }
    } else {
        law_frame_bounds(sentinel, max_len, phase, src);
    }
}

/// A frame is missing where, and only where, a sentinel stands in place of its
/// first byte. The decoder then goes on behind that sentinel.
pub proof fn law_missing_frame(sentinel: u8, max_len: usize, src: Seq<u8>)
    ensures
        decode(sentinel, max_len, Phase::Initial, src).result == Err::<
            Option<Seq<u8>>,
            DecodeError,
        >(DecodeError::MissingFrame) <==> src.len() > 0 && src[0] == sentinel,
        src.len() > 0 && src[0] == sentinel ==> decode(sentinel, max_len, Phase::Initial, src)
            == (Decoded {
            result: Err(DecodeError::MissingFrame),
            phase: Phase::Initial,
            rest: src.skip(1),
        }),
{
}

/// No error stops a decoder for good. After corrupted data it takes the next byte as
/// the start of a frame, whether or not a frame starts there. After a frame over the
/// limit it looks for the next sentinel. It never returns [`DecodeError::Io`].
pub proof fn law_error_phase(sentinel: u8, max_len: usize, phase: Phase, src: Seq<u8>)
    ensures
        decode(sentinel, max_len, phase, src).result matches Err(error) ==> match error {
            DecodeError::Io(_) => false,
            DecodeError::MissingFrame => decode(sentinel, max_len, phase, src).phase
                == Phase::Initial,
            DecodeError::UnexpectedSentinel => decode(sentinel, max_len, phase, src).phase
                == Phase::Initial,
            DecodeError::FrameOverflow => decode(sentinel, max_len, phase, src).phase
                == Phase::Lost,
        },
{
}

/// Without bytes nothing happens.
pub proof fn law_no_bytes(sentinel: u8, max_len: usize, phase: Phase)
    ensures
        decode(sentinel, max_len, phase, Seq::empty()) == (Decoded {
            result: Ok(None),
            phase,
            rest: Seq::empty(),
        }),
{
}

/// A frame begins with a code: behind it a decoder is in the middle of a chunk of as many
/// bytes as it announces, with nothing of the message yet.
pub proof fn law_first_code(sentinel: u8, max_len: usize, src: Seq<u8>)
    requires
        src.len() > 0,
        src[0] != sentinel,
    ensures
        ({
            let run = if src[0] < sentinel {
                src[0] as int
            } else {
                src[0] - 1
            };
            let reading = Reading { remaining: run, output: Seq::empty(), maximal: run == 254 };
            decode(sentinel, max_len, Phase::Initial, src) == decode(
                sentinel,
                max_len,
                Phase::Reading(reading),
                src.skip(1),
            )
        }),
{
}

/// In the middle of a chunk, the bytes that belong to it and are there are taken
/// together. If they make the message too long, the frame overflows and none of them is
/// consumed. If one of them is the sentinel, it is unexpected: they are consumed, and no
/// byte behind them, and the next byte starts a frame. Else the decoder goes on as if
/// they had been there already.
pub proof fn law_inside_chunk(sentinel: u8, max_len: usize, reading: Reading, src: Seq<u8>)
    requires
        src.len() > 0,
        reading.remaining > 0,
    ensures
        ({
            let decoded = decode(sentinel, max_len, Phase::Reading(reading), src);
            let len = if reading.remaining <= src.len() {
                reading.remaining
            } else {
                src.len() as int
            };
            if max_len != 0 && reading.output.len() + len > max_len {
                decoded == (Decoded {
                    result: Err(DecodeError::FrameOverflow),
                    phase: Phase::Lost,
                    rest: src,
                })
            } else if exists|i: int| 0 <= i < len && #[trigger] src[i] == sentinel {
                decoded == (Decoded {
                    result: Err(DecodeError::UnexpectedSentinel),
                    phase: Phase::Initial,
                    rest: src.skip(len),
                })
            } else {
                let later = Reading {
                    remaining: reading.remaining - len,
                    output: reading.output + src.take(len),
                    maximal: reading.maximal,
                };
                decoded == decode(sentinel, max_len, Phase::Reading(later), src.skip(len))
            }
        }),
{
    let len = reading.at_hand(src);
    let bytes = src.take(len);
    if bytes.contains(sentinel) {
        let i = choose|i: int| 0 <= i < len && bytes[i] == sentinel;
        assert(src[i] == sentinel);
    } else if exists|i: int| 0 <= i < len && #[trigger] src[i] == sentinel {
        let i = choose|i: int| 0 <= i < len && #[trigger] src[i] == sentinel;
        assert(bytes[i] == sentinel);
    }
}

/// Behind a chunk, the sentinel ends the frame, and what is held is the message. Any
/// other byte is a code, and stands for a sentinel in the message, unless the chunk was
/// of 254 bytes. If there is no room for that sentinel, the frame overflows with the
/// code consumed. Else the decoder goes on in the chunk that the code announces.
pub proof fn law_behind_chunk(sentinel: u8, max_len: usize, reading: Reading, src: Seq<u8>)
    requires
        src.len() > 0,
        reading.remaining == 0,
    ensures
        ({
            let decoded = decode(sentinel, max_len, Phase::Reading(reading), src);
            if src[0] == sentinel {
                decoded == (Decoded {
                    result: Ok(Some(reading.output)),
                    phase: Phase::Initial,
                    rest: src.skip(1),
                })
            } else if !reading.maximal && max_len != 0 && reading.output.len() == max_len {
                decoded == (Decoded {
                    result: Err(DecodeError::FrameOverflow),
                    phase: Phase::Lost,
                    rest: src.skip(1),
                })
            } else {
                let run = if src[0] < sentinel {
                    src[0] as int
                } else {
                    src[0] - 1
                };
                let output = if reading.maximal {
                    reading.output
                } else {
                    reading.output + seq![sentinel]
                };
                let later = Reading { remaining: run, output, maximal: run == 254 };
                decoded == decode(sentinel, max_len, Phase::Reading(later), src.skip(1))
            }
        }),
{
    assert(reading.output + seq![sentinel] =~= reading.output.push(sentinel));
}

/// A decoder that is lost drops all bytes while there is no sentinel, and stays lost.
pub proof fn law_lost_waits(sentinel: u8, max_len: usize, src: Seq<u8>)
    requires
        !src.contains(sentinel),
    ensures
        decode(sentinel, max_len, Phase::Lost, src) == (Decoded {
            result: Ok(None),
            phase: Phase::Lost,
            rest: Seq::empty(),
        }),
{
    assert forall|i: int| 0 <= i < src.len() implies src[i] != sentinel by {
        assert(src.contains(src[i]));
    }
    lemma_first_sentinel_is(sentinel, src, src.len() as int);
}

/// A limit is kept by whatever is no longer than it, and a limit of zero by anything. So
/// a decoder holds no more of a message than its limit, and gets lost only where it has
/// one.
pub proof fn law_limit(max_len: usize, len: int, reading: Reading)
    ensures
        within(max_len, len) <==> max_len == 0 || len <= max_len,
        valid_phase(max_len, Phase::Initial),
        valid_phase(max_len, Phase::Lost) <==> max_len != 0,
        valid_phase(max_len, Phase::Reading(reading)) <==> {
            &&& 0 <= reading.remaining <= 254
            &&& max_len == 0 || reading.output.len() <= max_len
        },
{
}

} // verus!
