//! The fields that records are made of, as they lie in an account's buffer.
//!
//! Records keep the layout that Borsh gives the same data, so that whoever
//! reads an account with a Borsh schema finds the record there: integers are
//! little-endian, a byte string stands behind its length as a `u32`, a truth
//! value is one byte. (Instruction payloads are big-endian; see `bits`.)
//!
//! The `front_*` functions say what a byte string begins with and what is left
//! behind it; a `Reader` walks a buffer by them and never reads past its end.

use vstd::prelude::*;

verus! {

/// The number that the four bytes of `s` from `at` spell, least significant
/// byte first.
pub open spec fn u32_le_at(s: Seq<u8>, at: int) -> int {
    s[at] + s[at + 1] * 0x100 + s[at + 2] * 0x1_0000 + s[at + 3] * 0x100_0000
}

/// The number that the eight bytes of `s` from `at` spell, least significant
/// byte first: the first four bytes are the lower half.
pub open spec fn u64_le_at(s: Seq<u8>, at: int) -> int {
    u32_le_at(s, at) + u32_le_at(s, at + 4) * 0x1_0000_0000
}

/// The four bytes that spell `value`, least significant byte first.
#[verifier::opaque]
pub open spec fn le_u32(value: u32) -> Seq<u8> {
    seq![
        (value % 0x100) as u8,
        (value / 0x100 % 0x100) as u8,
        (value / 0x1_0000 % 0x100) as u8,
        (value / 0x100_0000) as u8,
    ]
}

/// The eight bytes that spell `value`, least significant byte first.
#[verifier::opaque]
pub open spec fn le_u64(value: u64) -> Seq<u8> {
    le_u32((value % 0x1_0000_0000) as u32) + le_u32((value / 0x1_0000_0000) as u32)
}

/// `bytes` behind its own length as a little-endian `u32`.
pub open spec fn le_bytes(bytes: Seq<u8>) -> Seq<u8> {
    le_u32(bytes.len() as u32) + bytes
}

/// The first byte of `s`, and the rest.
pub open spec fn front_u8(s: Seq<u8>) -> Option<(u8, Seq<u8>)> {
    if s.len() >= 1 {
        Some((s[0], s.skip(1)))
    } else {
        None
    }
}

/// The first `n` bytes of `s`, and the rest.
pub open spec fn front_exact(s: Seq<u8>, n: nat) -> Option<(Seq<u8>, Seq<u8>)> {
    if s.len() >= n {
        Some((s.take(n as int), s.skip(n as int)))
    } else {
        None
    }
}

/// The little-endian `u32` that `s` begins with, and the rest.
#[verifier::opaque]
pub open spec fn front_u32(s: Seq<u8>) -> Option<(u32, Seq<u8>)> {
    if s.len() >= 4 {
        Some((u32_le_at(s, 0) as u32, s.skip(4)))
    } else {
        None
    }
}

/// The little-endian `u64` that `s` begins with, and the rest.
#[verifier::opaque]
pub open spec fn front_u64(s: Seq<u8>) -> Option<(u64, Seq<u8>)> {
    if s.len() >= 8 {
        Some((u64_le_at(s, 0) as u64, s.skip(8)))
    } else {
        None
    }
}

/// The length-prefixed byte string that `s` begins with, and the rest.
#[verifier::opaque]
pub open spec fn front_bytes(s: Seq<u8>) -> Option<(Seq<u8>, Seq<u8>)> {
    if s.len() >= 4 && s.len() - 4 >= u32_le_at(s, 0) {
        Some((s.subrange(4, 4 + u32_le_at(s, 0)), s.skip(4 + u32_le_at(s, 0))))
    } else {
        None
    }
}

/// Reads a little-endian `u32` at `at`.
fn u32_le_from(data: &[u8], at: usize) -> (value: u32)
    requires
        at + 4 <= data@.len(),
    ensures
        value == u32_le_at(data@, at as int),
{
    let b0: u32 = data[at] as u32;
    let b1: u32 = data[at + 1] as u32;
    let b2: u32 = data[at + 2] as u32;
    let b3: u32 = data[at + 3] as u32;
    assert((b3 << 24) == b3 * 0x100_0000 && (b2 << 16) == b2 * 0x1_0000 && (b1 << 8) == b1
        * 0x100) by (bit_vector)
        requires
            b1 < 256,
            b2 < 256,
            b3 < 256,
    ;
    b0 + (b1 << 8) + (b2 << 16) + (b3 << 24)
}

/// A position in a borrowed buffer; everything before it has been read.
pub struct Reader<'a> {
    data: &'a [u8],
    at: usize,
}

impl<'a> Reader<'a> {
    #[verifier::type_invariant]
    spec fn in_range(self) -> bool {
        self.at <= self.data@.len()
    }

    /// The bytes that have not been read yet.
    pub closed spec fn rest(self) -> Seq<u8> {
        self.data@.skip(self.at as int)
    }

    /// A reader at the start of `data`.
    pub fn new(data: &'a [u8]) -> (reader: Self)
        ensures
            reader.rest() == data@,
    {
        assert(data@.skip(0) =~= data@);
        Reader { data, at: 0 }
    }

    /// Reads one byte, if one is left.
    pub fn take_u8(&mut self) -> (res: Option<u8>)
        ensures
            match front_u8(old(self).rest()) {
                Some((value, rest)) => res == Some(value) && final(self).rest() == rest,
                None => res is None && final(self).rest() == old(self).rest(),
            },
    {
        proof {
            use_type_invariant(&*self);
        }
        if self.data.len() - self.at < 1 {
            return None;
        }
        let value: u8 = self.data[self.at];
        self.at = self.at + 1;
        assert(self.rest() =~= old(self).rest().skip(1));
        Some(value)
    }

    /// Reads `n` bytes, if as many are left.
    pub fn take_exact(&mut self, n: usize) -> (res: Option<Vec<u8>>)
        ensures
            match front_exact(old(self).rest(), n as nat) {
                Some((value, rest)) => {
                    &&& res matches Some(bytes) && bytes@ == value
                    &&& final(self).rest() == rest
                },
                None => res is None && final(self).rest() == old(self).rest(),
            },
    {
        proof {
            use_type_invariant(&*self);
        }
        if self.data.len() - self.at < n {
            return None;
        }
        let bytes: Vec<u8> = self.copy(n);
        assert(bytes@ =~= old(self).rest().take(n as int));
        self.at = self.at + n;
        assert(self.rest() =~= old(self).rest().skip(n as int));
        Some(bytes)
    }

    /// A copy of the next `n` bytes.
    fn copy(&self, n: usize) -> (bytes: Vec<u8>)
        requires
            self.at + n <= self.data@.len(),
        ensures
            bytes@ == self.data@.subrange(self.at as int, self.at + n),
    {
        // Asking for the length tells the verifier that it fits `usize`.
        let total: usize = self.data.len();
        let mut bytes: Vec<u8> = Vec::new();
        let mut i: usize = 0;
        while i < n
            invariant
                i <= n,
                self.at + n <= self.data@.len() == total,
                bytes@ == self.data@.subrange(self.at as int, self.at + i),
            decreases n - i,
        {
            bytes.push(self.data[self.at + i]);
            i += 1;
        }
        bytes
    }

    /// Reads a little-endian `u32`, if four bytes are left.
    pub fn take_u32(&mut self) -> (res: Option<u32>)
        ensures
            match front_u32(old(self).rest()) {
                Some((value, rest)) => res == Some(value) && final(self).rest() == rest,
                None => res is None && final(self).rest() == old(self).rest(),
            },
    {
        proof {
            use_type_invariant(&*self);
            reveal(front_u32);
        }
        if self.data.len() - self.at < 4 {
            return None;
        }
        let value: u32 = u32_le_from(self.data, self.at);
        self.at = self.at + 4;
        assert(self.rest() =~= old(self).rest().skip(4));
        Some(value)
    }

    /// Reads a little-endian `u64`, if eight bytes are left.
    pub fn take_u64(&mut self) -> (res: Option<u64>)
        ensures
            match front_u64(old(self).rest()) {
                Some((value, rest)) => res == Some(value) && final(self).rest() == rest,
                None => res is None && final(self).rest() == old(self).rest(),
            },
    {
        proof {
            use_type_invariant(&*self);
            reveal(front_u64);
        }
        if self.data.len() - self.at < 8 {
            return None;
        }
        let low: u64 = u32_le_from(self.data, self.at) as u64;
        let high: u64 = u32_le_from(self.data, self.at + 4) as u64;
        assert((high << 32) == high * 0x1_0000_0000) by (bit_vector)
            requires
                high < 0x1_0000_0000,
        ;
        self.at = self.at + 8;
        assert(self.rest() =~= old(self).rest().skip(8));
        Some(low + (high << 32))
    }

    /// Reads a length-prefixed byte string, if the length and that many bytes
    /// are left.
    pub fn take_bytes(&mut self) -> (res: Option<Vec<u8>>)
        ensures
            match front_bytes(old(self).rest()) {
                Some((value, rest)) => {
                    &&& res matches Some(bytes) && bytes@ == value
                    &&& final(self).rest() == rest
                },
                None => res is None && final(self).rest() == old(self).rest(),
            },
    {
        proof {
            use_type_invariant(&*self);
            reveal(front_bytes);
        }
        let left: usize = self.data.len() - self.at;
        if left < 4 {
            return None;
        }
        let len: usize = u32_le_from(self.data, self.at) as usize;
        if left - 4 < len {
            return None;
        }
        self.at = self.at + 4;
        let bytes: Vec<u8> = self.copy(len);
        assert(bytes@ =~= old(self).rest().subrange(4, 4 + len));
        self.at = self.at + len;
        assert(self.rest() =~= old(self).rest().skip(4 + len));
        Some(bytes)
    }
}

/// Appends the four bytes of `value`, least significant first.
pub fn put_u32(out: &mut Vec<u8>, value: u32)
    ensures
        final(out)@ == old(out)@ + le_u32(value),
{
    assert((value >> 24) == value / 0x100_0000 && (value >> 16) & 0xff == value / 0x1_0000 % 0x100
        && (value >> 8) & 0xff == value / 0x100 % 0x100 && value & 0xff == value % 0x100)
        by (bit_vector);
    out.push((value & 0xff) as u8);
    out.push(((value >> 8) & 0xff) as u8);
    out.push(((value >> 16) & 0xff) as u8);
    out.push((value >> 24) as u8);
    proof {
        reveal(le_u32);
    }
    assert(out@ =~= old(out)@ + le_u32(value));
}

/// Appends the eight bytes of `value`, least significant first.
pub fn put_u64(out: &mut Vec<u8>, value: u64)
    ensures
        final(out)@ == old(out)@ + le_u64(value),
{
    assert((value >> 32) == value / 0x1_0000_0000 && value & 0xffff_ffff == value % 0x1_0000_0000)
        by (bit_vector);
    put_u32(out, (value & 0xffff_ffff) as u32);
    put_u32(out, (value >> 32) as u32);
    proof {
        reveal(le_u64);
    }
    assert(out@ =~= old(out)@ + le_u64(value));
}

/// Appends `bytes` as they are.
pub fn put_exact(out: &mut Vec<u8>, bytes: &[u8])
    ensures
        final(out)@ == old(out)@ + bytes@,
{
    let mut i: usize = 0;
    while i < bytes.len()
        invariant
            i <= bytes@.len(),
            out@ == old(out)@ + bytes@.take(i as int),
        decreases bytes@.len() - i,
    {
        out.push(bytes[i]);
        i += 1;
        assert(bytes@.take(i as int) =~= bytes@.take(i - 1).push(bytes@[i - 1]));
    }
    assert(bytes@.take(i as int) =~= bytes@);
}

/// Appends the length of `bytes` as a `u32`, then `bytes`.
pub fn put_bytes(out: &mut Vec<u8>, bytes: &[u8])
    requires
        bytes@.len() <= u32::MAX,
    ensures
        final(out)@ == old(out)@ + le_bytes(bytes@),
{
    put_u32(out, bytes.len() as u32);
    put_exact(out, bytes);
    assert(out@ =~= old(out)@ + le_bytes(bytes@));
}

/// Whether a length fits the four bytes in front of a byte string.
pub(crate) fn fits_u32(len: usize) -> (fits: bool)
    ensures
        fits == (len <= u32::MAX),
{
    len <= u32::MAX as usize
}

/// A `u32` is written as four bytes.
pub proof fn lemma_le_u32_len(value: u32)
    ensures
        le_u32(value).len() == 4,
{
    reveal(le_u32);
}

/// What `le_u32` wrote is what `front_u32` reads, whatever follows.
pub proof fn lemma_front_u32_of_written(value: u32, tail: Seq<u8>)
    ensures
        front_u32(le_u32(value) + tail) == Some((value, tail)),
{
    reveal(front_u32);
    reveal(le_u32);
    let s = le_u32(value) + tail;
    let w = le_u32(value);
    assert(s[0] == w[0] && s[1] == w[1] && s[2] == w[2] && s[3] == w[3]);
    assert(w[0] == value % 0x100);
    assert(w[1] == value / 0x100 % 0x100);
    assert(w[2] == value / 0x1_0000 % 0x100);
    assert(w[3] == value / 0x100_0000);
    assert(s.skip(4) =~= tail);
}

/// What `front_u32` reads is what `le_u32` writes: the bytes begin with the
/// four bytes of the value.
pub proof fn lemma_front_u32_is_written(s: Seq<u8>)
    requires
        front_u32(s) is Some,
    ensures
        s == le_u32(front_u32(s).unwrap().0) + front_u32(s).unwrap().1,
{
    reveal(front_u32);
    reveal(le_u32);
    let value = front_u32(s).unwrap().0;
    let b0 = s[0];
    let b1 = s[1];
    let b2 = s[2];
    let b3 = s[3];
    assert(value == b0 + b1 * 0x100 + b2 * 0x1_0000 + b3 * 0x100_0000);
    assert(value / 0x100_0000 == b3 && value / 0x1_0000 % 0x100 == b2 && value / 0x100 % 0x100
        == b1 && value % 0x100 == b0) by (bit_vector)
        requires
            value == b0 + b1 * 0x100 + b2 * 0x1_0000 + b3 * 0x100_0000,
    ;
    assert(s =~= le_u32(value) + s.skip(4));
}

/// What `le_u64` wrote is what `front_u64` reads, whatever follows.
pub proof fn lemma_front_u64_of_written(value: u64, tail: Seq<u8>)
    ensures
        front_u64(le_u64(value) + tail) == Some((value, tail)),
{
    reveal(front_u64);
    reveal(front_u32);
    reveal(le_u64);
    let low = (value % 0x1_0000_0000) as u32;
    let high = (value / 0x1_0000_0000) as u32;
    let s = le_u64(value) + tail;
    let behind = le_u32(high) + tail;
    lemma_le_u32_len(low);
    lemma_le_u32_len(high);
    assert(s =~= le_u32(low) + behind);
    lemma_front_u32_of_written(low, behind);
    lemma_front_u32_of_written(high, tail);
    assert(u32_le_at(s, 0) == low);
    assert(s.skip(4) =~= behind);
    assert(u32_le_at(s, 4) == u32_le_at(behind, 0));
    assert(s.skip(8) =~= tail);
}

/// What `front_u64` reads is what `le_u64` writes.
pub proof fn lemma_front_u64_is_written(s: Seq<u8>)
    requires
        front_u64(s) is Some,
    ensures
        s == le_u64(front_u64(s).unwrap().0) + front_u64(s).unwrap().1,
{
    reveal(front_u64);
    reveal(front_u32);
    reveal(le_u64);
    let value = front_u64(s).unwrap().0;
    let low = u32_le_at(s, 0);
    let high = u32_le_at(s, 4);
    assert(value == low + high * 0x1_0000_0000);
    assert(value % 0x1_0000_0000 == low);
    assert(value / 0x1_0000_0000 == high);
    lemma_front_u32_is_written(s);
    let t = s.skip(4);
    assert(u32_le_at(t, 0) == high);
    lemma_front_u32_is_written(t);
    assert(t.skip(4) =~= s.skip(8));
    assert(s =~= le_u64(value) + s.skip(8));
}

/// What `le_bytes` wrote is what `front_bytes` reads, whatever follows.
pub proof fn lemma_front_bytes_of_written(bytes: Seq<u8>, tail: Seq<u8>)
    requires
        bytes.len() <= u32::MAX,
    ensures
        front_bytes(le_bytes(bytes) + tail) == Some((bytes, tail)),
{
    reveal(front_bytes);
    reveal(front_u32);
    let len = bytes.len() as u32;
    let s = le_bytes(bytes) + tail;
    lemma_le_u32_len(len);
    assert(s =~= le_u32(len) + (bytes + tail));
    lemma_front_u32_of_written(len, bytes + tail);
    assert(s.subrange(4, 4 + len) =~= bytes);
    assert(s.skip(4 + len) =~= tail);
}

/// What `front_bytes` reads is what `le_bytes` writes, and it is short enough
/// to be written.
pub proof fn lemma_front_bytes_is_written(s: Seq<u8>)
    requires
        front_bytes(s) is Some,
    ensures
        front_bytes(s).unwrap().0.len() <= u32::MAX,
        s == le_bytes(front_bytes(s).unwrap().0) + front_bytes(s).unwrap().1,
{
    reveal(front_bytes);
    reveal(front_u32);
    let bytes = front_bytes(s).unwrap().0;
    lemma_le_u32_len(bytes.len() as u32);
    lemma_front_u32_is_written(s);
    assert(bytes.len() == u32_le_at(s, 0));
    assert(s =~= le_bytes(bytes) + s.skip(4 + u32_le_at(s, 0)));
}

/// What was written as it is, is what `front_exact` reads, whatever follows.
pub proof fn lemma_front_exact_of_written(bytes: Seq<u8>, tail: Seq<u8>)
    ensures
        front_exact(bytes + tail, bytes.len()) == Some((bytes, tail)),
{
    let s = bytes + tail;
    assert(s.take(bytes.len() as int) =~= bytes);
    assert(s.skip(bytes.len() as int) =~= tail);
}

/// What `front_exact` reads is what the bytes begin with, and as long as was
/// asked.
pub proof fn lemma_front_exact_is_written(s: Seq<u8>, n: nat)
    requires
        front_exact(s, n) is Some,
    ensures
        front_exact(s, n).unwrap().0.len() == n,
        s == front_exact(s, n).unwrap().0 + front_exact(s, n).unwrap().1,
{
    assert(s =~= s.take(n as int) + s.skip(n as int));
}

} // verus!
