//! Frames: what a message looks like once it is stuffed and terminated.
use crate::code::{code_of, run_of, MAX_RUN};
use vstd::prelude::*;

verus! {

/// The index of the first sentinel in `bytes`, or the length of `bytes` where
/// there is none.
pub open spec fn first_sentinel(sentinel: u8, bytes: Seq<u8>) -> int
    decreases bytes.len(),
{
    if bytes.len() == 0 || bytes[0] == sentinel {
        0
    } else {
        1 + first_sentinel(sentinel, bytes.skip(1))
    }
}

/// A message with its sentinels stuffed away.
///
/// The message is cut into chunks. Each is a run of bytes without a sentinel, as
/// long as possible but at most [`MAX_RUN`] bytes, written behind the code of its
/// length. A chunk of fewer bytes stands for its bytes and the sentinel that ended
/// the run, unless the message ends there. A chunk of [`MAX_RUN`] bytes stands for
/// its bytes alone.
pub open spec fn stuffed(sentinel: u8, message: Seq<u8>) -> Seq<u8>
    decreases message.len(),
{
    let run = first_sentinel(sentinel, message);
    if run >= MAX_RUN {
        let chunk = seq![code_of(sentinel, MAX_RUN as int)] + message.take(MAX_RUN as int);
        if message.len() <= MAX_RUN {
            chunk
        } else {
            chunk + stuffed(sentinel, message.skip(MAX_RUN as int))
        }
    } else {
        let chunk = seq![code_of(sentinel, run)] + message.take(run);
        if 0 <= run < message.len() {
            chunk + stuffed(sentinel, message.skip(run + 1))
        } else {
            chunk
        }
    }
}

/// The frame of a message: the stuffed message and one sentinel behind it.
pub open spec fn frame(sentinel: u8, message: Seq<u8>) -> Seq<u8> {
    stuffed(sentinel, message).push(sentinel)
}

/// The length of the run behind a byte that stands in the place of a code.
pub open spec fn run_behind(sentinel: u8, code: u8) -> int {
    match run_of(sentinel, code) {
        Some(run) => run,
        None => 0,
    }
}

/// The place of the first code at or behind `at`, where the first byte is a code and
/// each code tells how far the next one is.
pub open spec fn code_from(sentinel: u8, bytes: Seq<u8>, at: int) -> int
    decreases at,
{
    if at <= 0 {
        0
    } else {
        let next = 1 + run_behind(sentinel, bytes[0]);
        if at <= next {
            next
        } else {
            next + code_from(sentinel, bytes.skip(next), at - next)
        }
    }
}

/// The message that chunks stand for: the bytes behind each code and, between two
/// chunks, a sentinel, unless the first of them is of maximal length.
pub open spec fn unstuffed(sentinel: u8, bytes: Seq<u8>) -> Seq<u8>
    decreases bytes.len(),
{
    if bytes.len() == 0 {
        Seq::empty()
    } else {
        let run = run_behind(sentinel, bytes[0]);
        if bytes.len() <= 1 + run {
            bytes.skip(1)
        } else {
            let chunk = bytes.subrange(1, 1 + run);
            let later = unstuffed(sentinel, bytes.skip(1 + run));
            if run == MAX_RUN {
                chunk + later
            } else {
                chunk.push(sentinel) + later
            }
        }
    }
}

/// An upper bound on the length of the frame of a message of `len` bytes: one byte
/// of overhead for each [`MAX_RUN`] bytes begun, but at least one, and the
/// terminator.
pub open spec fn frame_bound(len: int) -> int {
    len + (if len == 0 {
        1
    } else {
        (len + 253) / 254
    }) + 1
}

/// What [`first_sentinel`] finds.
pub(crate) proof fn lemma_first_sentinel(sentinel: u8, bytes: Seq<u8>)
    ensures
        0 <= first_sentinel(sentinel, bytes) <= bytes.len(),
        first_sentinel(sentinel, bytes) < bytes.len() ==> bytes[first_sentinel(sentinel, bytes)]
            == sentinel,
        forall|i: int| 0 <= i < first_sentinel(sentinel, bytes) ==> bytes[i] != sentinel,
    decreases bytes.len(),
{
    if bytes.len() != 0 && bytes[0] != sentinel {
        let tail = bytes.skip(1);
        lemma_first_sentinel(sentinel, tail);
        assert forall|i: int| 0 <= i < first_sentinel(sentinel, bytes) implies bytes[i]
            != sentinel by {
            if i > 0 {
                assert(bytes[i] == tail[i - 1]);
            }
        }
    }
}

/// An index is the first sentinel's if it can be nothing else.
pub(crate) proof fn lemma_first_sentinel_is(sentinel: u8, bytes: Seq<u8>, at: int)
    requires
        0 <= at <= bytes.len(),
        at < bytes.len() ==> bytes[at] == sentinel,
        forall|i: int| 0 <= i < at ==> bytes[i] != sentinel,
    ensures
        first_sentinel(sentinel, bytes) == at,
{
    lemma_first_sentinel(sentinel, bytes);
    let found = first_sentinel(sentinel, bytes);
    if found < at {
        assert(bytes[found] != sentinel);
    } else if at < found {
        assert(bytes[at] != sentinel);
    }
}

/// Finds the first sentinel in `bytes` at or behind `from`; gives the length of
/// `bytes` where there is none.
pub(crate) fn find_sentinel<const SENTINEL: u8>(bytes: &[u8], from: usize) -> (at: usize)
    requires
        from <= bytes@.len(),
    ensures
        from <= at <= bytes@.len(),
        at == from + first_sentinel(SENTINEL, bytes@.skip(from as int)),
        at < bytes@.len() ==> bytes@[at as int] == SENTINEL,
        forall|i: int| from <= i < at ==> bytes@[i] != SENTINEL,
{
    let mut at: usize = from;
    while at < bytes.len() && bytes[at] != SENTINEL
        invariant
            from <= at <= bytes@.len(),
            forall|i: int| from <= i < at ==> bytes@[i] != SENTINEL,
        decreases bytes@.len() - at,
    {
        at += 1;
    }
    proof {
        lemma_first_sentinel_is(SENTINEL, bytes@.skip(from as int), at - from);
    }
    at
}

/// The overhead of a frame is bounded: a frame is never longer than
/// [`frame_bound`] of its message's length.
pub proof fn law_frame_len_bounded(sentinel: u8, message: Seq<u8>)
    ensures
        frame(sentinel, message).len() <= frame_bound(message.len() as int),
    decreases message.len(),
{
    lemma_first_sentinel(sentinel, message);
    let run = first_sentinel(sentinel, message);
    if run >= MAX_RUN {
        if message.len() > MAX_RUN {
            law_frame_len_bounded(sentinel, message.skip(MAX_RUN as int));
        }
    } else if run < message.len() {
        law_frame_len_bounded(sentinel, message.skip(run + 1));
    }
}

/// The bound is attained: the frame of a message without a sentinel is as long as
/// [`frame_bound`] allows.
pub proof fn law_frame_bound_attained(sentinel: u8, message: Seq<u8>)
    requires
        !message.contains(sentinel),
    ensures
        frame(sentinel, message).len() == frame_bound(message.len() as int),
    decreases message.len(),
{
    assert forall|i: int| 0 <= i < message.len() implies message[i] != sentinel by {
        assert(message.contains(message[i]));
    }
    lemma_first_sentinel_is(sentinel, message, message.len() as int);
    if message.len() > MAX_RUN {
        law_frame_bound_attained(sentinel, message.skip(MAX_RUN as int));
    }
}

/// No frame has less than two bytes of overhead.
pub proof fn law_frame_len_least(sentinel: u8, message: Seq<u8>)
    ensures
        frame(sentinel, message).len() >= message.len() + 2,
    decreases message.len(),
{
    lemma_first_sentinel(sentinel, message);
    let run = first_sentinel(sentinel, message);
    if run >= MAX_RUN {
        if message.len() > MAX_RUN {
            law_frame_len_least(sentinel, message.skip(MAX_RUN as int));
        }
    } else if run < message.len() {
        law_frame_len_least(sentinel, message.skip(run + 1));
    }
}

/// The frame of a message of at most [`MAX_RUN`] bytes has the least overhead,
/// whichever byte is the sentinel.
pub proof fn law_short_frame_len(sentinel: u8, message: Seq<u8>)
    requires
        message.len() <= MAX_RUN,
    ensures
        frame(sentinel, message).len() == message.len() + 2,
{
    law_frame_len_bounded(sentinel, message);
    law_frame_len_least(sentinel, message);
}

/// The frame of a message with a sentinel among any [`MAX_RUN`] bytes in a row has
/// the least overhead.
pub proof fn law_dense_frame_len(sentinel: u8, message: Seq<u8>)
    requires
        forall|i: int|
            0 <= i <= message.len() - MAX_RUN ==> (#[trigger] message.subrange(
                i,
                i + MAX_RUN,
            )).contains(sentinel),
    ensures
        frame(sentinel, message).len() == message.len() + 2,
    decreases message.len(),
{
    lemma_first_sentinel(sentinel, message);
    let run = first_sentinel(sentinel, message);
    if run >= MAX_RUN {
        assert(message.subrange(0, 0 + MAX_RUN).contains(sentinel));
    } else if run < message.len() {
        let rest = message.skip(run + 1);
        assert forall|i: int| 0 <= i <= rest.len() - MAX_RUN implies (#[trigger] rest.subrange(
            i,
            i + MAX_RUN,
        )).contains(sentinel) by {
            assert(rest.subrange(i, i + MAX_RUN) =~= message.subrange(
                run + 1 + i,
                run + 1 + i + MAX_RUN,
            ));
        }
        law_dense_frame_len(sentinel, rest);
    }
}

/// A frame ends with the sentinel and holds it nowhere else.
pub proof fn law_sentinel_only_at_end(sentinel: u8, message: Seq<u8>)
    ensures
        frame(sentinel, message).last() == sentinel,
        forall|i: int|
            0 <= i < frame(sentinel, message).len() - 1 ==> frame(sentinel, message)[i] != sentinel,
{
    lemma_stuffed_has_no_sentinel(sentinel, message);
}

/// A stuffed message does not hold the sentinel.
pub(crate) proof fn lemma_stuffed_has_no_sentinel(sentinel: u8, message: Seq<u8>)
    ensures
        stuffed(sentinel, message).len() >= 1,
        forall|i: int|
            0 <= i < stuffed(sentinel, message).len() ==> stuffed(sentinel, message)[i] != sentinel,
    decreases message.len(),
{
    lemma_first_sentinel(sentinel, message);
    let run = first_sentinel(sentinel, message);
    if run >= MAX_RUN {
        if message.len() > MAX_RUN {
            lemma_stuffed_has_no_sentinel(sentinel, message.skip(MAX_RUN as int));
        }
    } else if run < message.len() {
        lemma_stuffed_has_no_sentinel(sentinel, message.skip(run + 1));
    }
}

/// The first sentinel stands at a place if none stands before that place, and there
/// one stands or the bytes end.
pub proof fn law_first_sentinel(sentinel: u8, bytes: Seq<u8>, at: int)
    ensures
        first_sentinel(sentinel, bytes) == at <==> {
            &&& 0 <= at <= bytes.len()
            &&& at < bytes.len() ==> bytes[at] == sentinel
            &&& forall|i: int| 0 <= i < at ==> bytes[i] != sentinel
        },
{
    lemma_first_sentinel(sentinel, bytes);
    if {
        &&& 0 <= at <= bytes.len()
        &&& at < bytes.len() ==> bytes[at] == sentinel
        &&& forall|i: int| 0 <= i < at ==> bytes[i] != sentinel
    } {
        lemma_first_sentinel_is(sentinel, bytes, at);
    }
}

/// A message of at most 254 bytes, none of them the sentinel, is framed between the
/// code of its length and the sentinel. The code is the length, or one more where that
/// is not below the sentinel.
pub proof fn law_frame_of_one_run(sentinel: u8, code: u8, run: Seq<u8>)
    requires
        run.len() <= 254,
        !run.contains(sentinel),
        run.len() < sentinel ==> code == run.len(),
        run.len() >= sentinel ==> code == run.len() + 1,
    ensures
        frame(sentinel, run) == seq![code] + run + seq![sentinel],
{
    lemma_run(sentinel, run, Seq::empty());
    lemma_first_sentinel(sentinel, run);
    assert(run + Seq::empty() =~= run);
    assert(run.take(run.len() as int) =~= run);
}

/// Where a run of less than 254 bytes is ended by a sentinel, the frame is the code of
/// the run's length, the run, and the frame of what is behind that sentinel. The code is
/// the length, or one more where that is not below the sentinel.
pub proof fn law_frame_of_ended_run(sentinel: u8, code: u8, run: Seq<u8>, later: Seq<u8>)
    requires
        run.len() < 254,
        !run.contains(sentinel),
        run.len() < sentinel ==> code == run.len(),
        run.len() >= sentinel ==> code == run.len() + 1,
    ensures
        frame(sentinel, run.push(sentinel) + later) == seq![code] + run + frame(sentinel, later),
{
    let message = run.push(sentinel) + later;
    lemma_run(sentinel, run, seq![sentinel] + later);
    assert(run + (seq![sentinel] + later) =~= message);
    assert(message.take(run.len() as int) =~= run);
    assert(message.skip(run.len() as int + 1) =~= later);
    assert(frame(sentinel, message) =~= seq![code] + run + frame(sentinel, later));
}

/// Where a message begins with 254 bytes that are not the sentinel and goes on, with
/// whichever byte, the frame is the greatest code, those bytes, and the frame of what is
/// behind them.
pub proof fn law_frame_of_full_run(sentinel: u8, code: u8, run: Seq<u8>, later: Seq<u8>)
    requires
        run.len() == 254,
        !run.contains(sentinel),
        later.len() > 0,
        code == if sentinel == 255 {
            254int
        } else {
            255
        },
    ensures
        frame(sentinel, run + later) == seq![code] + run + frame(sentinel, later),
{
    let message = run + later;
    lemma_run(sentinel, run, later);
    assert(message.take(254) =~= run);
    assert(message.skip(254) =~= later);
    assert(frame(sentinel, message) =~= seq![code] + run + frame(sentinel, later));
}

/// The first sentinel is not in a run that holds none.
proof fn lemma_run(sentinel: u8, run: Seq<u8>, later: Seq<u8>)
    requires
        !run.contains(sentinel),
    ensures
        first_sentinel(sentinel, run + later) >= run.len(),
        later.len() > 0 && later[0] == sentinel ==> first_sentinel(sentinel, run + later)
            == run.len(),
{
    let bytes = run + later;
    let end = first_sentinel(sentinel, bytes);
    lemma_first_sentinel(sentinel, bytes);
    if end < run.len() {
        assert(run[end] == sentinel);
    } else if later.len() > 0 && later[0] == sentinel {
        assert(bytes[run.len() as int] == sentinel);
    }
}

/// Where the codes stand: one stands at the front, and from each the next is as many
/// bytes away as it announces, and one more. The code at or behind any place in between
/// is that next one.
pub proof fn law_code_places(sentinel: u8, bytes: Seq<u8>, code: int, at: int)
    requires
        0 <= code < bytes.len(),
        bytes[code] != sentinel,
        code_from(sentinel, bytes, code) == code,
        code < at <= code + 1 + (if bytes[code] < sentinel {
            bytes[code] as int
        } else {
            bytes[code] - 1
        }),
    ensures
        code_from(sentinel, bytes, 0) == 0,
        code_from(sentinel, bytes, at) == code + 1 + (if bytes[code] < sentinel {
            bytes[code] as int
        } else {
            bytes[code] - 1
        }),
    decreases bytes.len(),
{
    if code > 0 {
        let next = 1 + run_behind(sentinel, bytes[0]);
        if code == next {
            assert(code_from(sentinel, bytes.skip(next), 0) == 0);
        }
        law_code_places(sentinel, bytes.skip(next), code - next, at - next);
    }
}

/// A chunk at the end of the bytes, complete or not, stands for the bytes behind its
/// code.
pub proof fn law_unstuffed_last_chunk(sentinel: u8, code: u8, chunk: Seq<u8>)
    requires
        code != sentinel,
        chunk.len() <= if code < sentinel {
            code as int
        } else {
            code - 1
        },
    ensures
        unstuffed(sentinel, seq![code] + chunk) == chunk,
        unstuffed(sentinel, Seq::empty()) == Seq::<u8>::empty(),
{
    assert((seq![code] + chunk).skip(1) =~= chunk);
}

/// A complete chunk with more behind it stands for its bytes and a sentinel, or for its
/// bytes alone where they are 254; what is behind it is unstuffed on its own.
pub proof fn law_unstuffed_chunk(sentinel: u8, code: u8, chunk: Seq<u8>, later: Seq<u8>)
    requires
        code != sentinel,
        chunk.len() == if code < sentinel {
            code as int
        } else {
            code - 1
        },
        later.len() > 0,
    ensures
        chunk.len() < 254 ==> unstuffed(sentinel, seq![code] + chunk + later) == chunk
            + seq![sentinel] + unstuffed(sentinel, later),
        chunk.len() == 254 ==> unstuffed(sentinel, seq![code] + chunk + later) == chunk
            + unstuffed(sentinel, later),
{
    let bytes = seq![code] + chunk + later;
    assert(bytes.subrange(1, chunk.len() as int + 1) =~= chunk);
    assert(bytes.skip(chunk.len() as int + 1) =~= later);
}

} // verus!
