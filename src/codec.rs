//! Byte encodings shared by every key and value of the store.
//!
//! Numbers are written big-endian so that the byte order of keys follows
//! the numeric order; strings are written with a trailing zero byte so that
//! a string key is a clean prefix of every longer key that starts with it.
use vstd::prelude::*;

verus! {

/// Errors met while turning values into bytes or bytes back into values.
#[derive(Debug, Clone, Copy, PartialEq, Eq, Structural)]
pub enum EncodingError {
    /// A string that must be written zero-terminated holds a zero byte.
    StringContainsNull,
    /// The input ended before the value was complete.
    NotEnoughBytes,
    /// A flag byte held something other than 0 or 1.
    InvalidFlag,
    /// Bytes were left over after a value that should fill the input.
    UnexpectedTrailingBytes,
}

/// The eight big-endian bytes of `n`.
pub open spec fn be64(n: u64) -> Seq<u8> {
    seq![
        (n >> 56u64) as u8,
        (n >> 48u64) as u8,
        (n >> 40u64) as u8,
        (n >> 32u64) as u8,
        (n >> 24u64) as u8,
        (n >> 16u64) as u8,
        (n >> 8u64) as u8,
        n as u8,
    ]
}

/// The number written big-endian in `b[at..at + 8]`.
pub open spec fn be64_at(b: Seq<u8>, at: int) -> u64 {
    ((b[at] as u64) << 56u64) | ((b[at + 1] as u64) << 48u64) | ((b[at + 2] as u64) << 40u64) | ((
    b[at + 3] as u64) << 32u64) | ((b[at + 4] as u64) << 24u64) | ((b[at + 5] as u64) << 16u64) | ((
    b[at + 6] as u64) << 8u64) | (b[at + 7] as u64)
}

/// A string that can be written zero-terminated: it holds no zero byte.
pub open spec fn no_nul(s: Seq<u8>) -> bool {
    forall|i: int| 0 <= i < s.len() ==> s[i] != 0u8
}

/// A string followed by its terminating zero byte.
pub open spec fn nul_str(s: Seq<u8>) -> Seq<u8> {
    s.push(0u8)
}

/// Reading back the eight bytes written for `n` gives `n`.
pub proof fn lemma_be64_round_trip(n: u64)
    ensures
        be64_at(be64(n), 0) == n,
{
    let b = be64(n);
    assert(((((n >> 56u64) as u8) as u64) << 56u64) | ((((n >> 48u64) as u8) as u64) << 48u64) | ((((
    n >> 40u64) as u8) as u64) << 40u64) | ((((n >> 32u64) as u8) as u64) << 32u64) | ((((n
        >> 24u64) as u8) as u64) << 24u64) | ((((n >> 16u64) as u8) as u64) << 16u64) | ((((n
        >> 8u64) as u8) as u64) << 8u64) | ((n as u8) as u64) == n) by (bit_vector);
}

/// Big-endian bytes read back from any position of a larger buffer.
pub proof fn lemma_be64_round_trip_at(pre: Seq<u8>, n: u64, post: Seq<u8>)
    ensures
        be64_at(pre + be64(n) + post, pre.len() as int) == n,
{
    let b = pre + be64(n) + post;
    let p = pre.len() as int;
    assert forall|i: int| 0 <= i < 8 implies b[p + i] == be64(n)[i] by {}
    lemma_be64_round_trip(n);
}

/// Eight bytes are the big-endian bytes of the number they spell.
pub proof fn lemma_be64_bytes(b: Seq<u8>, at: int)
    requires
        0 <= at,
        at + 8 <= b.len(),
    ensures
        b.subrange(at, at + 8) == be64(be64_at(b, at)),
{
    let b0 = b[at];
    let b1 = b[at + 1];
    let b2 = b[at + 2];
    let b3 = b[at + 3];
    let b4 = b[at + 4];
    let b5 = b[at + 5];
    let b6 = b[at + 6];
    let b7 = b[at + 7];
    let n = be64_at(b, at);
    assert(n == ((b0 as u64) << 56u64) | ((b1 as u64) << 48u64) | ((b2 as u64) << 40u64) | ((
    b3 as u64) << 32u64) | ((b4 as u64) << 24u64) | ((b5 as u64) << 16u64) | ((b6 as u64)
        << 8u64) | (b7 as u64));
    assert({
        let m = ((b0 as u64) << 56u64) | ((b1 as u64) << 48u64) | ((b2 as u64) << 40u64) | ((
        b3 as u64) << 32u64) | ((b4 as u64) << 24u64) | ((b5 as u64) << 16u64) | ((b6 as u64)
            << 8u64) | (b7 as u64);
        &&& (m >> 56u64) as u8 == b0
        &&& (m >> 48u64) as u8 == b1
        &&& (m >> 40u64) as u8 == b2
        &&& (m >> 32u64) as u8 == b3
        &&& (m >> 24u64) as u8 == b4
        &&& (m >> 16u64) as u8 == b5
        &&& (m >> 8u64) as u8 == b6
        &&& m as u8 == b7
    }) by (bit_vector);
    assert(b.subrange(at, at + 8) =~= be64(n));
}

/// Appends the big-endian bytes of `n`.
pub fn push_u64(out: &mut Vec<u8>, n: u64)
    ensures
        final(out)@ == old(out)@ + be64(n),
{
    out.push((n >> 56u64) as u8);
    out.push((n >> 48u64) as u8);
    out.push((n >> 40u64) as u8);
    out.push((n >> 32u64) as u8);
    out.push((n >> 24u64) as u8);
    out.push((n >> 16u64) as u8);
    out.push((n >> 8u64) as u8);
    out.push(n as u8);
    assert(final(out)@ =~= old(out)@ + be64(n));
}

/// Reads a big-endian number at `at`; `None` when fewer than eight bytes
/// are left.
pub fn read_u64(b: &[u8], at: usize) -> (r: Option<(u64, usize)>)
    ensures
        r is None <==> at as int + 8 > b@.len(),
        r matches Some((n, next)) ==> n == be64_at(b@, at as int) && next == at + 8,
{
    if at > b.len() || b.len() - at < 8 {
        return None;
    }
    let n = ((b[at] as u64) << 56u64) | ((b[at + 1] as u64) << 48u64) | ((b[at + 2] as u64)
        << 40u64) | ((b[at + 3] as u64) << 32u64) | ((b[at + 4] as u64) << 24u64) | ((b[at
        + 5] as u64) << 16u64) | ((b[at + 6] as u64) << 8u64) | (b[at + 7] as u64);
    Some((n, at + 8))
}

/// Whether `s` can be written zero-terminated.
pub fn check_no_nul(s: &[u8]) -> (r: bool)
    ensures
        r == no_nul(s@),
{
    let mut i: usize = 0;
    while i < s.len()
        invariant
            i <= s@.len(),
            forall|j: int| 0 <= j < i ==> s@[j] != 0u8,
        decreases s@.len() - i,
    {
        if s[i] == 0u8 {
            return false;
        }
        i = i + 1;
    }
    true
}

/// Appends all of `s`.
pub fn push_bytes(out: &mut Vec<u8>, s: &[u8])
    ensures
        final(out)@ == old(out)@ + s@,
{
    let ghost start = out@;
    let mut i: usize = 0;
    while i < s.len()
        invariant
            i <= s@.len(),
            out@ == start + s@.subrange(0, i as int),
        decreases s@.len() - i,
    {
        out.push(s[i]);
        i = i + 1;
        assert(out@ =~= start + s@.subrange(0, i as int));
    }
    assert(s@.subrange(0, s@.len() as int) =~= s@);
}

/// Appends `s` and its terminating zero byte.
pub fn push_str(out: &mut Vec<u8>, s: &[u8])
    ensures
        final(out)@ == old(out)@ + nul_str(s@),
{
    push_bytes(out, s);
    out.push(0u8);
    assert(final(out)@ =~= old(out)@ + nul_str(s@));
}

/// Reads a zero-terminated string that starts at `at`: the bytes up to the
/// first zero byte, and the position after that zero byte. `None` when no
/// zero byte follows `at`.
pub fn read_str(b: &[u8], at: usize) -> (r: Option<(Vec<u8>, usize)>)
    ensures
        r is None <==> forall|i: int| at <= i < b@.len() ==> b@[i] != 0u8,
        r matches Some((s, next)) ==> {
            &&& at < next <= b@.len()
            &&& b@[next - 1] == 0u8
            &&& s@ == b@.subrange(at as int, next - 1)
            &&& no_nul(s@)
        },
{
    if at >= b.len() {
        return None;
    }
    let mut out: Vec<u8> = Vec::new();
    let mut i: usize = at;
    assert(out@ =~= b@.subrange(at as int, i as int));
    while i < b.len()
        invariant
            at <= i <= b@.len(),
            forall|j: int| at <= j < i ==> b@[j] != 0u8,
            out@ == b@.subrange(at as int, i as int),
        decreases b@.len() - i,
    {
        if b[i] == 0u8 {
            return Some((out, i + 1));
        }
        out.push(b[i]);
        i = i + 1;
        assert(out@ =~= b@.subrange(at as int, i as int));
    }
    None
}

/// A zero-terminated string is read back whole from any position.
pub proof fn lemma_nul_str_read_back(pre: Seq<u8>, s: Seq<u8>, post: Seq<u8>, next: int)
    requires
        no_nul(s),
        pre.len() < next <= (pre + nul_str(s) + post).len(),
        (pre + nul_str(s) + post)[next - 1] == 0u8,
        forall|j: int| pre.len() <= j < next - 1 ==> (pre + nul_str(s) + post)[j] != 0u8,
    ensures
        next == pre.len() + s.len() + 1,
        (pre + nul_str(s) + post).subrange(pre.len() as int, next - 1) == s,
{
    let b = pre + nul_str(s) + post;
    let p = pre.len() as int;
    assert(b[p + s.len()] == 0u8);
    assert forall|j: int| p <= j < p + s.len() implies b[j] == s[j - p] by {}
    if next - 1 > p + s.len() {
        assert(b[p + s.len()] != 0u8);
    }
    if next - 1 < p + s.len() {
        assert(b[next - 1] == s[next - 1 - p]);
    }
    assert(b.subrange(p, next - 1) =~= s);
}

/// In `b`, the zero-terminated string `s` starts at `at`.
pub open spec fn str_at(b: Seq<u8>, at: int, s: Seq<u8>) -> bool {
    &&& 0 <= at
    &&& no_nul(s)
    &&& at + s.len() < b.len()
    &&& b.subrange(at, at + s.len() + 1) == nul_str(s)
}

/// In `b`, the big-endian bytes of `n` start at `at`.
pub open spec fn u64_at(b: Seq<u8>, at: int, n: u64) -> bool {
    0 <= at && at + 8 <= b.len() && b.subrange(at, at + 8) == be64(n)
}

/// A zero-terminated string is found where it was written: its zero byte
/// is the first one from `at`.
pub proof fn lemma_str_at(b: Seq<u8>, at: int, s: Seq<u8>)
    requires
        str_at(b, at, s),
    ensures
        b[at + s.len()] == 0u8,
        forall|j: int| at <= j < at + s.len() ==> b[j] != 0u8,
        b.subrange(at, at + s.len()) == s,
{
    assert(b[at + s.len()] == b.subrange(at, at + s.len() + 1)[s.len() as int]);
    assert forall|j: int| at <= j < at + s.len() implies b[j] != 0u8 by {
        assert(b[j] == b.subrange(at, at + s.len() + 1)[j - at]);
    }
    assert(b.subrange(at, at + s.len()) =~= s) by {
        assert forall|j: int| 0 <= j < s.len() implies b.subrange(at, at + s.len())[j] == s[j] by {
            assert(b[at + j] == b.subrange(at, at + s.len() + 1)[j]);
        }
    }
}

/// The first zero byte from `at` is the one that ends the string written
/// there.
pub proof fn lemma_str_at_end(b: Seq<u8>, at: int, s: Seq<u8>, next: int)
    requires
        str_at(b, at, s),
        at < next <= b.len(),
        b[next - 1] == 0u8,
        forall|j: int| at <= j < next - 1 ==> b[j] != 0u8,
    ensures
        next == at + s.len() + 1,
        b.subrange(at, next - 1) == s,
{
    lemma_str_at(b, at, s);
    if next - 1 < at + s.len() {
        assert(b[next - 1] != 0u8);
    }
    if next - 1 > at + s.len() {
        assert(b[at + s.len()] != 0u8);
    }
}

/// Big-endian bytes are read back where they were written.
pub proof fn lemma_u64_at(b: Seq<u8>, at: int, n: u64)
    requires
        u64_at(b, at, n),
    ensures
        be64_at(b, at) == n,
{
    let pre = b.subrange(0, at);
    let post = b.subrange(at + 8, b.len() as int);
    assert(b =~= pre + be64(n) + post);
    lemma_be64_round_trip_at(pre, n, post);
}

} // verus!
