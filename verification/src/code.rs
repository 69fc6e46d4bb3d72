//! Length codes: how the length of a run of bytes is written as one byte that is
//! never the sentinel.
use vstd::prelude::*;

verus! {

/// The longest run of bytes that one length code can announce.
pub const MAX_RUN: usize = 254;

/// The code of a run of `len` bytes: the `len`-th byte value, counted from zero,
/// when the sentinel is left out of the count.
pub open spec fn code_of(sentinel: u8, len: int) -> u8 {
    if len < sentinel {
        len as u8
    } else {
        (len + 1) as u8
    }
}

/// The length of the run that a code announces; the sentinel announces none.
pub open spec fn run_of(sentinel: u8, code: u8) -> Option<int> {
    if code == sentinel {
        None
    } else if code < sentinel {
        Some(code as int)
    } else {
        Some(code - 1)
    }
}

/// Encodes a length (between `0` and [`MAX_RUN`] inclusive) into a byte such that
/// `SENTINEL` is avoided.
pub fn encode_len<const SENTINEL: u8>(len: usize) -> (code: u8)
    requires
        len <= MAX_RUN,
    ensures
        code == code_of(SENTINEL, len as int),
        code != SENTINEL,
        len < SENTINEL ==> code == len,
        len >= SENTINEL ==> code == len + 1,
{
    if len < SENTINEL as usize {
        len as u8
    } else {
        (len + 1) as u8
    }
}

/// Decodes a length-or-terminator byte. If the byte is `SENTINEL`, returns `None`.
/// Otherwise returns the length of the run encoded by the byte.
pub fn decode_len<const SENTINEL: u8>(code: u8) -> (len: Option<usize>)
    ensures
        len is None <==> code == SENTINEL,
        len is Some <==> run_of(SENTINEL, code) is Some,
        len matches Some(n) ==> n <= MAX_RUN && run_of(SENTINEL, code) == Some(n as int),
        code < SENTINEL ==> len == Some(code as usize),
        code > SENTINEL ==> len == Some((code - 1) as usize),
{
    if code == SENTINEL {
        None
    } else if code < SENTINEL {
        Some(code as usize)
    } else {
        Some(code as usize - 1)
    }
}

/// Every length that a code can announce is read back from its code, and the code
/// is never the sentinel.
pub proof fn law_len_roundtrip(sentinel: u8, len: int)
    requires
        0 <= len <= MAX_RUN,
    ensures
        code_of(sentinel, len) != sentinel,
        run_of(sentinel, code_of(sentinel, len)) == Some(len),
{
}

/// Every byte but the sentinel is the code of exactly one length, at most
/// [`MAX_RUN`].
pub proof fn law_code_roundtrip(sentinel: u8, code: u8)
    requires
        code != sentinel,
    ensures
        run_of(sentinel, code) matches Some(len) && 0 <= len <= MAX_RUN && code_of(sentinel, len)
            == code,
{
}

/// Codes grow with the lengths that they announce. They leave out the sentinel and
/// nothing else, so they are the byte values in order: up to the sentinel a length is
/// its own code, and from there on the code is one more.
pub proof fn law_codes_in_order(sentinel: u8, shorter: int, longer: int)
    requires
        0 <= shorter < longer <= 254,
    ensures
        code_of(sentinel, shorter) < code_of(sentinel, longer),
        longer < sentinel ==> code_of(sentinel, longer) == longer,
        longer >= sentinel ==> code_of(sentinel, longer) == longer + 1,
        code_of(sentinel, 0) == (if sentinel == 0 {
            1int
        } else {
            0
        }),
{
}

/// A greater code announces a longer run, and from one code to the next the run is one
/// byte longer, also where the sentinel stands between them.
pub proof fn law_runs_in_order(sentinel: u8, smaller: u8, greater: u8)
    requires
        smaller < greater,
        smaller != sentinel,
        greater != sentinel,
    ensures
        run_of(sentinel, sentinel) is None,
        run_of(sentinel, smaller) is Some,
        run_of(sentinel, greater) is Some,
        run_of(sentinel, greater)->0 - run_of(sentinel, smaller)->0 == greater - smaller - (
        if smaller < sentinel < greater {
            1int
        } else {
            0
        }),
{
}

} // verus!
