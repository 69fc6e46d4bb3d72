//! Streams: what a decoder makes of bytes that keep arriving.
use crate::code::run_of;
use crate::error::DecodeError;
use crate::frame::{first_sentinel, frame, law_frame_len_least, lemma_first_sentinel};
use crate::laws::{frames, law_arrival_in_parts, law_roundtrip_in_parts};
use crate::model::{decode, read, within, Phase, Reading};
use vstd::prelude::*;

verus! {

/// What comes of decoding for as long as there is a result: the messages and errors
/// in the order in which they came, and the phase that the decoder is in then.
#[verifier::ext_equal]
pub ghost struct Drained {
    pub results: Seq<Result<Seq<u8>, DecodeError>>,
    pub phase: Phase,
}

/// Decodes again and again until more bytes are needed.
pub open spec fn drain(sentinel: u8, max_len: usize, phase: Phase, src: Seq<u8>) -> Drained
    decreases
            src.len(),
            (if phase is Lost {
                0int
            } else {
                1
            }),
    via drain_decreases
{
    let decoded = decode(sentinel, max_len, phase, src);
    match decoded.result {
        Ok(None) => Drained { results: Seq::empty(), phase: decoded.phase },
        Ok(Some(message)) => {
            let later = drain(sentinel, max_len, decoded.phase, decoded.rest);
            Drained { results: seq![Ok(message)] + later.results, phase: later.phase }
        },
        Err(error) => {
            let later = drain(sentinel, max_len, decoded.phase, decoded.rest);
            Drained { results: seq![Err(error)] + later.results, phase: later.phase }
        },
    }
}

/// Decodes what arrives in several parts, each as far as it goes.
pub open spec fn drain_parts(
    sentinel: u8,
    max_len: usize,
    phase: Phase,
    parts: Seq<Seq<u8>>,
) -> Drained
    decreases parts.len(),
{
    if parts.len() == 0 {
        Drained { results: Seq::empty(), phase }
    } else {
        let first = drain(sentinel, max_len, phase, parts.first());
        let later = drain_parts(sentinel, max_len, first.phase, parts.drop_first());
        Drained { results: first.results + later.results, phase: later.phase }
    }
}

/// The results that deliver `messages`, in order and without an error.
pub open spec fn delivered(messages: Seq<Seq<u8>>) -> Seq<Result<Seq<u8>, DecodeError>> {
    Seq::new(messages.len(), |i: int| Ok(messages[i]))
}

/// With every result but an overflow, reading consumes a byte.
proof fn lemma_read_progress(sentinel: u8, max_len: usize, reading: Reading, src: Seq<u8>)
    ensures
        ({
            let done = read(sentinel, max_len, reading, src);
            &&& done.rest.len() <= src.len()
            &&& done.end is Frame || done.end is UnexpectedSentinel ==> done.rest.len() < src.len()
        }),
    decreases src.len(),
{
    if src.len() == 0 {
    } else if reading.remaining > 0 {
        let len = reading.at_hand(src);
        let next = reading.taken(src.take(len));
        lemma_read_progress(sentinel, max_len, next, src.skip(len));
    } else if src[0] != sentinel {
        let run = run_of(sentinel, src[0])->0;
        lemma_read_progress(
            sentinel,
            max_len,
            Reading::chunk(run, reading.continued(sentinel)),
            src.skip(1),
        );
    }
}

/// Every result takes a decoder forward: it consumes a byte, or the decoder gets
/// lost.
#[via_fn]
proof fn drain_decreases(sentinel: u8, max_len: usize, phase: Phase, src: Seq<u8>) {
    let start = match phase {
        Phase::Lost => {
            lemma_first_sentinel(sentinel, src);
            src.skip(first_sentinel(sentinel, src) + 1)
        },
        _ => src,
    };
    match phase {
        Phase::Reading(reading) => {
            lemma_read_progress(sentinel, max_len, reading, src);
        },
        _ => {
            if start.len() > 0 && start[0] != sentinel {
                let run = run_of(sentinel, start[0])->0;
                lemma_read_progress(
                    sentinel,
                    max_len,
                    Reading::chunk(run, Seq::empty()),
                    start.skip(1),
                );
            }
        },
    }
}

/// Whether a decoder in this phase has consumed `front`, a part of the frame of the
/// first of `messages`.
spec fn inside(
    sentinel: u8,
    max_len: usize,
    messages: Seq<Seq<u8>>,
    front: Seq<u8>,
    phase: Phase,
) -> bool {
    if messages.len() == 0 {
        front.len() == 0 && phase == Phase::Initial
    } else {
        let whole = frame(sentinel, messages[0]);
        &&& front.len() < whole.len()
        &&& front == whole.take(front.len() as int)
        &&& phase == decode(sentinel, max_len, Phase::Initial, front).phase
    }
}

/// A part of a stream delivers the messages whose frames end in it. Gives their
/// number, and what is consumed of the frame behind them.
proof fn lemma_drain_part(
    sentinel: u8,
    max_len: usize,
    messages: Seq<Seq<u8>>,
    front: Seq<u8>,
    phase: Phase,
    part: Seq<u8>,
    later: Seq<u8>,
) -> (reached: (int, Seq<u8>))
    requires
        forall|i: int|
            0 <= i < messages.len() ==> within(max_len, (#[trigger] messages[i]).len() as int),
        inside(sentinel, max_len, messages, front, phase),
        front + part + later == frames(sentinel, messages),
    ensures
        ({
            let (count, next_front) = reached;
            let drained = drain(sentinel, max_len, phase, part);
            &&& 0 <= count <= messages.len()
            &&& drained.results == delivered(messages.take(count))
            &&& inside(sentinel, max_len, messages.skip(count), next_front, drained.phase)
            &&& next_front + later == frames(sentinel, messages.skip(count))
        }),
    decreases messages.len(),
{
    if messages.len() == 0 {
        assert(part =~= Seq::empty());
        assert(messages.take(0) =~= messages && messages.skip(0) =~= messages);
        assert(front + later =~= front + part + later);
        (0, front)
    } else {
        let message = messages[0];
        let whole = frame(sentinel, message);
        let back = whole.skip(front.len() as int);
        let others = messages.skip(1);
        assert(front + back =~= whole);
        if part.len() < back.len() {
            let next_front = front + part;
            let next_back = whole.skip(next_front.len() as int);
            assert(next_front =~= whole.take(next_front.len() as int)) by {
                assert(next_front =~= frames(sentinel, messages).take(next_front.len() as int));
            }
            assert(next_front + next_back =~= whole);
            law_roundtrip_in_parts(sentinel, max_len, message, front, back, Seq::empty());
            law_roundtrip_in_parts(sentinel, max_len, message, next_front, next_back, Seq::empty());
            law_arrival_in_parts(sentinel, max_len, Phase::Initial, front, part);
            assert(messages.take(0) =~= Seq::empty() && messages.skip(0) =~= messages);
            (0, next_front)
        } else {
            let rest = part.skip(back.len() as int);
            let stream = frames(sentinel, messages);
            assert(part =~= back + rest) by {
                assert forall|i: int| 0 <= i < back.len() implies part[i] == back[i] by {
                    assert((front + part + later)[front.len() + i] == part[i]);
                    assert(stream[front.len() + i] == whole[front.len() + i]);
                }
            }
            assert(rest + later =~= frames(sentinel, others)) by {
                assert(frames(sentinel, others) =~= stream.skip(whole.len() as int));
            }
            law_roundtrip_in_parts(sentinel, max_len, message, front, back, rest);
            if others.len() > 0 {
                law_frame_len_least(sentinel, others[0]);
                assert(frame(sentinel, others[0]).take(0) =~= Seq::empty());
            }
            assert(Seq::<u8>::empty() + rest + later =~= rest + later);
            let (count, next_front) = lemma_drain_part(
                sentinel,
                max_len,
                others,
                Seq::empty(),
                Phase::Initial,
                rest,
                later,
            );
            assert(messages.skip(count + 1) =~= others.skip(count));
            assert(delivered(messages.take(count + 1)) =~= seq![
                Ok::<Seq<u8>, DecodeError>(message),
            ] + delivered(others.take(count)));
            (count + 1, next_front)
        }
    }
}

/// The parts of a stream deliver all its messages.
proof fn lemma_drain_parts(
    sentinel: u8,
    max_len: usize,
    messages: Seq<Seq<u8>>,
    front: Seq<u8>,
    phase: Phase,
    parts: Seq<Seq<u8>>,
)
    requires
        forall|i: int|
            0 <= i < messages.len() ==> within(max_len, (#[trigger] messages[i]).len() as int),
        inside(sentinel, max_len, messages, front, phase),
        front + parts.flatten() == frames(sentinel, messages),
    ensures
        drain_parts(sentinel, max_len, phase, parts) == (Drained {
            results: delivered(messages),
            phase: Phase::Initial,
        }),
    decreases parts.len(),
{
    if parts.len() == 0 {
        assert(messages.len() == 0) by {
            assert(front + parts.flatten() =~= front);
        }
        assert(delivered(messages) =~= Seq::empty());
    } else {
        let later = parts.drop_first();
        assert(front + parts.first() + later.flatten() =~= front + parts.flatten());
        let (count, next_front) = lemma_drain_part(
            sentinel,
            max_len,
            messages,
            front,
            phase,
            parts.first(),
            later.flatten(),
        );
        let next_phase = drain(sentinel, max_len, phase, parts.first()).phase;
        lemma_drain_parts(
            sentinel,
            max_len,
            messages.skip(count),
            next_front,
            next_phase,
            later,
        );
        assert(delivered(messages) =~= delivered(messages.take(count)) + delivered(
            messages.skip(count),
        ));
    }
}

/// A stream is decoded to exactly what was encoded, wherever it is cut: where the
/// frames of messages within the limit arrive in any parts, a decoder that decodes
/// each part as far as it goes returns those messages, in order, and no error, and
/// is then at the start of a frame.
pub proof fn law_stream_in_parts(
    sentinel: u8,
    max_len: usize,
    messages: Seq<Seq<u8>>,
    parts: Seq<Seq<u8>>,
)
    requires
        forall|i: int|
            0 <= i < messages.len() ==> within(max_len, (#[trigger] messages[i]).len() as int),
        parts.flatten() == frames(sentinel, messages),
    ensures
        drain_parts(sentinel, max_len, Phase::Initial, parts) == (Drained {
            results: delivered(messages),
            phase: Phase::Initial,
        }),
{
    if messages.len() > 0 {
        law_frame_len_least(sentinel, messages[0]);
        assert(frame(sentinel, messages[0]).take(0) =~= Seq::empty());
    }
    assert(Seq::<u8>::empty() + parts.flatten() =~= parts.flatten());
    lemma_drain_parts(sentinel, max_len, messages, Seq::empty(), Phase::Initial, parts);
}

/// A stream that is cut in two, at any byte, is decoded to exactly what was encoded.
pub proof fn law_stream_in_two_parts(
    sentinel: u8,
    max_len: usize,
    messages: Seq<Seq<u8>>,
    front: Seq<u8>,
    back: Seq<u8>,
)
    requires
        forall|i: int|
            0 <= i < messages.len() ==> within(max_len, (#[trigger] messages[i]).len() as int),
        front + back == frames(sentinel, messages),
    ensures
        ({
            let first = drain(sentinel, max_len, Phase::Initial, front);
            let second = drain(sentinel, max_len, first.phase, back);
            &&& first.results + second.results == delivered(messages)
            &&& second.phase == Phase::Initial
        }),
{
    let parts = seq![front, back];
    reveal_with_fuel(Seq::<_>::flatten, 3);
    reveal_with_fuel(drain_parts, 3);
    assert(parts.drop_first() =~= seq![back]);
    assert(parts.drop_first().drop_first() =~= Seq::empty());
    assert(parts.flatten() =~= front + back);
    law_stream_in_parts(sentinel, max_len, messages, parts);
    let first = drain(sentinel, max_len, Phase::Initial, front);
    let second = drain(sentinel, max_len, first.phase, back);
    assert(first.results + (second.results + Seq::empty()) =~= first.results + second.results);
}

} // verus!
