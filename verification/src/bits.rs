//! Big-endian integers and length-prefixed byte strings in a flat payload.
//!
//! The readers take a position and a buffer and never allocate more than the
//! byte string they return. The writers append to a growing buffer. The laws
//! at the end of the file say that what a writer appends, the matching reader
//! gives back.

use vstd::prelude::*;

verus! {

/// The number that the four bytes of `s` from `at` spell, most significant
/// byte first.
pub open spec fn u32_at(s: Seq<u8>, at: int) -> int {
    s[at] * 0x100_0000 + s[at + 1] * 0x1_0000 + s[at + 2] * 0x100 + s[at + 3]
}

/// The number that the eight bytes of `s` from `at` spell, most significant
/// byte first: the first four bytes are the upper half.
pub open spec fn u64_at(s: Seq<u8>, at: int) -> int {
    u32_at(s, at) * 0x1_0000_0000 + u32_at(s, at + 4)
}

/// Whether `s` holds, from `at`, a four-byte length and then that many bytes.
pub open spec fn holds_bytes(s: Seq<u8>, at: int) -> bool {
    &&& 0 <= at
    &&& at + 4 <= s.len()
    &&& at + 4 + u32_at(s, at) <= s.len()
}

/// The position just behind the length-prefixed byte string that starts at `at`.
pub open spec fn bytes_end(s: Seq<u8>, at: int) -> int {
    at + 4 + u32_at(s, at)
}

/// The bytes of the length-prefixed byte string that starts at `at`, without
/// the length.
pub open spec fn bytes_at(s: Seq<u8>, at: int) -> Seq<u8> {
    s.subrange(at + 4, bytes_end(s, at))
}

/// Whether `s` holds, from `at`, two length-prefixed byte strings, the second
/// starting where the first ends.
pub open spec fn holds_bytes_pair(s: Seq<u8>, at: int) -> bool {
    holds_bytes(s, at) && holds_bytes(s, bytes_end(s, at))
}

/// The four bytes that spell `value`, most significant byte first.
#[verifier::opaque]
pub open spec fn u32_be(value: u32) -> Seq<u8> {
    seq![
        (value / 0x100_0000) as u8,
        (value / 0x1_0000 % 0x100) as u8,
        (value / 0x100 % 0x100) as u8,
        (value % 0x100) as u8,
    ]
}

/// The eight bytes that spell `value`, most significant byte first.
#[verifier::opaque]
pub open spec fn u64_be(value: u64) -> Seq<u8> {
    u32_be((value / 0x1_0000_0000) as u32) + u32_be((value % 0x1_0000_0000) as u32)
}

/// `bytes` behind its own length as a big-endian `u32`.
pub open spec fn sized(bytes: Seq<u8>) -> Seq<u8> {
    u32_be(bytes.len() as u32) + bytes
}

/// Reads a big-endian `u32` at a position of any size.
fn u32_from(data: &[u8], at: usize) -> (value: u32)
    requires
        at + 4 <= data@.len(),
    ensures
        value == u32_at(data@, at as int),
{
    let b0: u32 = data[at] as u32;
    let b1: u32 = data[at + 1] as u32;
    let b2: u32 = data[at + 2] as u32;
    let b3: u32 = data[at + 3] as u32;
    assert((b0 << 24) == b0 * 0x100_0000 && (b1 << 16) == b1 * 0x1_0000 && (b2 << 8) == b2
        * 0x100) by (bit_vector)
        requires
            b0 < 256,
            b1 < 256,
            b2 < 256,
    ;
    (b0 << 24) + (b1 << 16) + (b2 << 8) + b3
}

/// Reads a big-endian `u64` at a position of any size.
fn u64_from(data: &[u8], at: usize) -> (value: u64)
    requires
        at + 8 <= data@.len(),
    ensures
        value == u64_at(data@, at as int),
{
    // Asking for the length tells the verifier that it fits `usize`.
    let total: usize = data.len();
    let high: u64 = u32_from(data, at) as u64;
    let low: u64 = u32_from(data, at + 4) as u64;
    assert((high << 32) == high * 0x1_0000_0000) by (bit_vector)
        requires
            high < 0x1_0000_0000,
    ;
    (high << 32) + low
}

/// Reads a length-prefixed byte string at a position of any size.
fn bytes_from(data: &[u8], at: usize) -> (bytes: Vec<u8>)
    requires
        holds_bytes(data@, at as int),
    ensures
        bytes@ == bytes_at(data@, at as int),
{
    let total: usize = data.len();
    let len: usize = u32_from(data, at) as usize;
    let first: usize = at + 4;
    let mut bytes: Vec<u8> = Vec::new();
    let mut i: usize = 0;
    while i < len
        invariant
            i <= len,
            first + len <= data@.len() == total,
            bytes@ == data@.subrange(first as int, first + i),
        decreases len - i,
    {
        bytes.push(data[first + i]);
        i += 1;
    }
    bytes
}

/// Whether a length-prefixed byte string stands at a position of any size.
fn holds_bytes_from(data: &[u8], at: usize) -> (held: bool)
    ensures
        held == holds_bytes(data@, at as int),
{
    let total: usize = data.len();
    if total < 4 || at > total - 4 {
        return false;
    }
    let len: usize = u32_from(data, at) as usize;
    len <= total - 4 - at
}

/// Whether `data` holds a length-prefixed byte string at `startindex`, so
/// that `read_bytes` can read it.
pub fn can_read_bytes(startindex: u32, data: &[u8]) -> (held: bool)
    ensures
        held == holds_bytes(data@, startindex as int),
{
    holds_bytes_from(data, startindex as usize)
}

/// Whether `data` holds two length-prefixed byte strings at `startindex`, one
/// behind the other, so that `read_bytes_pair` can read them.
pub fn can_read_bytes_pair(startindex: u32, data: &[u8]) -> (held: bool)
    ensures
        held == holds_bytes_pair(data@, startindex as int),
{
    let start: usize = startindex as usize;
    if !holds_bytes_from(data, start) {
        return false;
    }
    let total: usize = data.len();
    let len: usize = u32_from(data, start) as usize;
    holds_bytes_from(data, start + 4 + len)
}

/// Reads a big-endian `u32` from the four bytes at `startindex`.
pub fn read_u32(startindex: u32, data: &[u8]) -> (value: u32)
    requires
        startindex + 4 <= data@.len(),
    ensures
        value == u32_at(data@, startindex as int),
{
    u32_from(data, startindex as usize)
}

/// Reads a big-endian `u64` from the eight bytes at `startindex`, each byte
/// at its own place.
pub fn read_u64(startindex: u32, data: &[u8]) -> (value: u64)
    requires
        startindex + 8 <= data@.len(),
    ensures
        value == u64_at(data@, startindex as int),
{
    u64_from(data, startindex as usize)
}

/// Reads the length-prefixed byte string at `startindex`: a `u32` length,
/// then that many bytes, which are returned.
pub fn read_bytes(startindex: u32, data: &[u8]) -> (bytes: Vec<u8>)
    requires
        holds_bytes(data@, startindex as int),
    ensures
        bytes@ == bytes_at(data@, startindex as int),
{
    bytes_from(data, startindex as usize)
}

/// Reads two length-prefixed byte strings, the second starting right behind
/// the last byte of the first.
pub fn read_bytes_pair(startindex: u32, data: &[u8]) -> (pair: (Vec<u8>, Vec<u8>))
    requires
        holds_bytes_pair(data@, startindex as int),
    ensures
        pair.0@ == bytes_at(data@, startindex as int),
        pair.1@ == bytes_at(data@, bytes_end(data@, startindex as int)),
{
    let total: usize = data.len();
    let start: usize = startindex as usize;
    let first: Vec<u8> = bytes_from(data, start);
    let second: Vec<u8> = bytes_from(data, start + 4 + first.len());
    (first, second)
}

/// Appends the four bytes of `value`, most significant first.
pub fn write_u32(out: &mut Vec<u8>, value: u32)
    ensures
        final(out)@ == old(out)@ + u32_be(value),
{
    assert((value >> 24) == value / 0x100_0000 && (value >> 16) & 0xff == value / 0x1_0000 % 0x100
        && (value >> 8) & 0xff == value / 0x100 % 0x100 && value & 0xff == value % 0x100)
        by (bit_vector);
    out.push((value >> 24) as u8);
    out.push(((value >> 16) & 0xff) as u8);
    out.push(((value >> 8) & 0xff) as u8);
    out.push((value & 0xff) as u8);
    proof {
        reveal(u32_be);
    }
    assert(out@ =~= old(out)@ + u32_be(value));
}

/// Appends the eight bytes of `value`, most significant first.
pub fn write_u64(out: &mut Vec<u8>, value: u64)
    ensures
        final(out)@ == old(out)@ + u64_be(value),
{
    assert((value >> 32) == value / 0x1_0000_0000 && value & 0xffff_ffff == value % 0x1_0000_0000)
        by (bit_vector);
    write_u32(out, (value >> 32) as u32);
    write_u32(out, (value & 0xffff_ffff) as u32);
    proof {
        reveal(u64_be);
    }
    assert(out@ =~= old(out)@ + u64_be(value));
}

/// Appends the length of `bytes` as a `u32`, then `bytes`.
pub fn write_bytes(out: &mut Vec<u8>, bytes: &[u8])
    requires
        bytes@.len() <= u32::MAX,
    ensures
        final(out)@ == old(out)@ + sized(bytes@),
{
    write_u32(out, bytes.len() as u32);
    let mut i: usize = 0;
    while i < bytes.len()
        invariant
            i <= bytes@.len(),
            out@ == old(out)@ + u32_be(bytes@.len() as u32) + bytes@.take(i as int),
        decreases bytes@.len() - i,
    {
        out.push(bytes[i]);
        i += 1;
        assert(bytes@.take(i as int) =~= bytes@.take(i - 1).push(bytes@[i - 1]));
    }
    assert(bytes@.take(i as int) =~= bytes@);
    assert(out@ =~= old(out)@ + sized(bytes@));
}

/// A `u32` is written as four bytes.
pub proof fn lemma_u32_be_len(value: u32)
    ensures
        u32_be(value).len() == 4,
{
    reveal(u32_be);
}

/// A `u64` is written as eight bytes.
pub proof fn lemma_u64_be_len(value: u64)
    ensures
        u64_be(value).len() == 8,
{
    reveal(u64_be);
    lemma_u32_be_len((value / 0x1_0000_0000) as u32);
    lemma_u32_be_len((value % 0x1_0000_0000) as u32);
}

/// A `u32` that was written is read back: wherever the four bytes of
/// `u32_be(value)` stand in a buffer, `u32_at` finds `value` there.
pub proof fn lemma_u32_read_back(buffer: Seq<u8>, at: int, value: u32)
    requires
        0 <= at,
        at + 4 <= buffer.len(),
        buffer.subrange(at, at + 4) == u32_be(value),
    ensures
        u32_at(buffer, at) == value,
{
    reveal(u32_be);
    let w = u32_be(value);
    assert(buffer[at] == buffer.subrange(at, at + 4)[0]);
    assert(buffer[at + 1] == buffer.subrange(at, at + 4)[1]);
    assert(buffer[at + 2] == buffer.subrange(at, at + 4)[2]);
    assert(buffer[at + 3] == buffer.subrange(at, at + 4)[3]);
    assert(w[0] == value / 0x100_0000);
    assert(w[1] == value / 0x1_0000 % 0x100);
    assert(w[2] == value / 0x100 % 0x100);
    assert(w[3] == value % 0x100);
}

/// A `u64` that was written is read back: wherever the eight bytes of
/// `u64_be(value)` stand in a buffer, `u64_at` finds `value` there.
pub proof fn lemma_u64_read_back(buffer: Seq<u8>, at: int, value: u64)
    requires
        0 <= at,
        at + 8 <= buffer.len(),
        buffer.subrange(at, at + 8) == u64_be(value),
    ensures
        u64_at(buffer, at) == value,
{
    reveal(u64_be);
    lemma_u32_be_len((value / 0x1_0000_0000) as u32);
    lemma_u32_be_len((value % 0x1_0000_0000) as u32);
    let high = (value / 0x1_0000_0000) as u32;
    let low = (value % 0x1_0000_0000) as u32;
    assert(buffer.subrange(at, at + 4) =~= buffer.subrange(at, at + 8).subrange(0, 4));
    assert(buffer.subrange(at + 4, at + 8) =~= buffer.subrange(at, at + 8).subrange(4, 8));
    assert(u64_be(value).subrange(0, 4) =~= u32_be(high));
    assert(u64_be(value).subrange(4, 8) =~= u32_be(low));
    lemma_u32_read_back(buffer, at, high);
    lemma_u32_read_back(buffer, at + 4, low);
}

/// A byte string that was written is read back, the empty one too: wherever
/// `sized(bytes)` stands in a buffer, the buffer holds a byte string there and
/// it is `bytes`.
pub proof fn lemma_bytes_read_back(buffer: Seq<u8>, at: int, bytes: Seq<u8>)
    requires
        0 <= at,
        bytes.len() <= u32::MAX,
        at + 4 + bytes.len() <= buffer.len(),
        buffer.subrange(at, at + 4 + bytes.len()) == sized(bytes),
    ensures
        holds_bytes(buffer, at),
        bytes_end(buffer, at) == at + 4 + bytes.len(),
        bytes_at(buffer, at) == bytes,
{
    lemma_u32_be_len(bytes.len() as u32);
    let whole = buffer.subrange(at, at + 4 + bytes.len());
    assert(buffer.subrange(at, at + 4) =~= whole.subrange(0, 4));
    assert(sized(bytes).subrange(0, 4) =~= u32_be(bytes.len() as u32));
    lemma_u32_read_back(buffer, at, bytes.len() as u32);
    assert(buffer.subrange(at + 4, at + 4 + bytes.len()) =~= whole.subrange(4, 4 + bytes.len() as int));
    assert(sized(bytes).subrange(4, 4 + bytes.len() as int) =~= bytes);
}

} // verus!
