//! A little-endian byte codec for save data.
//!
//! Integers are written least significant byte first; a string is its UTF-8
//! length as a `u32`, then its bytes. A [`Reader`] refuses to read past the
//! end, refuses text that is not UTF-8, and can be asked to confirm that
//! nothing was left unread. What a [`Writer`] writes, a [`Reader`] reads
//! back unchanged.

use vstd::prelude::*;
use vstd::string::*;
use vstd::utf8::{decode_utf8, encode_utf8, valid_utf8};

use crate::hashing::le_bytes_u64;

verus! {

/// Why bytes could not be read.
#[derive(Debug, Clone, Copy, PartialEq, Eq, Structural)]
pub enum CodecError {
    /// Fewer bytes remain than the value needs.
    Truncated { needed: usize, remaining: usize },
    /// A string's bytes are not UTF-8.
    InvalidText,
    /// Bytes remain after the last value.
    TrailingBytes { count: usize },
}

/// The four bytes of a `u32`, least significant first.
pub open spec fn le_bytes_u32(v: u32) -> Seq<u8> {
    seq![v as u8, (v >> 8u32) as u8, (v >> 16u32) as u8, (v >> 24u32) as u8]
}

/// The `u32` whose bytes, least significant first, start at `i`.
pub open spec fn u32_at(s: Seq<u8>, i: int) -> u32 {
    (s[i] as u32) | ((s[i + 1] as u32) << 8u32) | ((s[i + 2] as u32) << 16u32) | ((s[i + 3] as u32)
        << 24u32)
}

/// The `u64` whose bytes, least significant first, start at `i`.
pub open spec fn u64_at(s: Seq<u8>, i: int) -> u64 {
    (s[i] as u64) | ((s[i + 1] as u64) << 8u64) | ((s[i + 2] as u64) << 16u64) | ((s[i + 3] as u64)
        << 24u64) | ((s[i + 4] as u64) << 32u64) | ((s[i + 5] as u64) << 40u64) | ((s[i + 6] as u64)
        << 48u64) | ((s[i + 7] as u64) << 56u64)
}

/// The encoding of a string: its byte length, then its UTF-8 bytes.
pub open spec fn string_bytes(text: Seq<char>) -> Seq<u8> {
    le_bytes_u32(encode_utf8(text).len() as u32) + encode_utf8(text)
}

/// What reading one byte at `p` gives: the byte and the next position.
pub open spec fn rd_u8(s: Seq<u8>, p: int) -> Result<(u8, int), CodecError> {
    if 0 <= p && p + 1 <= s.len() {
        Ok((s[p], p + 1))
    } else {
        Err(CodecError::Truncated { needed: 1, remaining: (s.len() - p) as usize })
    }
}

/// What reading a `u32` at `p` gives.
pub open spec fn rd_u32(s: Seq<u8>, p: int) -> Result<(u32, int), CodecError> {
    if 0 <= p && p + 4 <= s.len() {
        Ok((u32_at(s, p), p + 4))
    } else {
        Err(CodecError::Truncated { needed: 4, remaining: (s.len() - p) as usize })
    }
}

/// What reading a `u64` at `p` gives.
pub open spec fn rd_u64(s: Seq<u8>, p: int) -> Result<(u64, int), CodecError> {
    if 0 <= p && p + 8 <= s.len() {
        Ok((u64_at(s, p), p + 8))
    } else {
        Err(CodecError::Truncated { needed: 8, remaining: (s.len() - p) as usize })
    }
}

/// What reading an `i64` at `p` gives.
pub open spec fn rd_i64(s: Seq<u8>, p: int) -> Result<(i64, int), CodecError> {
    match rd_u64(s, p) {
        Ok((v, q)) => Ok((v as i64, q)),
        Err(e) => Err(e),
    }
}

/// What reading a string at `p` gives.
pub open spec fn rd_string(s: Seq<u8>, p: int) -> Result<(Seq<char>, int), CodecError> {
    match rd_u32(s, p) {
        Err(e) => Err(e),
        Ok((n, q)) => if q + n > s.len() {
            Err(CodecError::Truncated { needed: n as usize, remaining: (s.len() - q) as usize })
        } else if !valid_utf8(s.subrange(q, q + n)) {
            Err(CodecError::InvalidText)
        } else {
            Ok((decode_utf8(s.subrange(q, q + n)), q + n))
        },
    }
}

/// What reading a length-prefixed block of bytes at `p` gives.
pub open spec fn rd_block(s: Seq<u8>, p: int) -> Result<(Seq<u8>, int), CodecError> {
    match rd_u32(s, p) {
        Err(e) => Err(e),
        Ok((n, q)) => if q + n > s.len() {
            Err(CodecError::Truncated { needed: n as usize, remaining: (s.len() - q) as usize })
        } else {
            Ok((s.subrange(q, q + n), q + n))
        },
    }
}

/// Bytes that hold `a` then `b` at `p` hold `a` at `p` and `b` right after.
pub proof fn lemma_split(s: Seq<u8>, p: int, a: Seq<u8>, b: Seq<u8>)
    requires
        0 <= p,
        p + a.len() + b.len() <= s.len(),
        s.subrange(p, p + a.len() + b.len()) == a + b,
    ensures
        s.subrange(p, p + a.len()) == a,
        s.subrange(p + a.len(), p + a.len() + b.len()) == b,
{
    let whole = s.subrange(p, p + a.len() + b.len());
    assert(s.subrange(p, p + a.len()) =~= whole.subrange(0, a.len() as int));
    assert(whole.subrange(0, a.len() as int) =~= a);
    assert(s.subrange(p + a.len(), p + a.len() + b.len()) =~= whole.subrange(
        a.len() as int,
        (a.len() + b.len()) as int,
    ));
    assert(whole.subrange(a.len() as int, (a.len() + b.len()) as int) =~= b);
}

/// A `u32` written at `p` reads back there.
pub proof fn lemma_rd_u32(s: Seq<u8>, p: int, v: u32)
    requires
        0 <= p,
        p + 4 <= s.len(),
        s.subrange(p, p + 4) == le_bytes_u32(v),
    ensures
        rd_u32(s, p) == Ok::<(u32, int), CodecError>((v, p + 4)),
{
    lemma_u32_round_trip(v);
    let w = le_bytes_u32(v);
    assert(s[p] == w[0] && s[p + 1] == w[1] && s[p + 2] == w[2] && s[p + 3] == w[3]) by {
        assert(s.subrange(p, p + 4)[0] == s[p]);
        assert(s.subrange(p, p + 4)[1] == s[p + 1]);
        assert(s.subrange(p, p + 4)[2] == s[p + 2]);
        assert(s.subrange(p, p + 4)[3] == s[p + 3]);
    }
}

/// A `u64` written at `p` reads back there.
pub proof fn lemma_rd_u64(s: Seq<u8>, p: int, v: u64)
    requires
        0 <= p,
        p + 8 <= s.len(),
        s.subrange(p, p + 8) == le_bytes_u64(v),
    ensures
        rd_u64(s, p) == Ok::<(u64, int), CodecError>((v, p + 8)),
        rd_i64(s, p) == Ok::<(i64, int), CodecError>((v as i64, p + 8)),
{
    lemma_u64_round_trip(v);
    let w = le_bytes_u64(v);
    let t = s.subrange(p, p + 8);
    assert(t[0] == s[p] && t[1] == s[p + 1] && t[2] == s[p + 2] && t[3] == s[p + 3] && t[4] == s[p
        + 4] && t[5] == s[p + 5] && t[6] == s[p + 6] && t[7] == s[p + 7]);
}

/// A string written at `p` reads back there.
pub proof fn lemma_rd_string(s: Seq<u8>, p: int, text: Seq<char>)
    requires
        0 <= p,
        encode_utf8(text).len() <= u32::MAX,
        p + string_bytes(text).len() <= s.len(),
        s.subrange(p, p + string_bytes(text).len()) == string_bytes(text),
    ensures
        rd_string(s, p) == Ok::<(Seq<char>, int), CodecError>(
            (text, p + string_bytes(text).len()),
        ),
{
    let n = encode_utf8(text).len();
    let whole = string_bytes(text);
    assert(s.subrange(p, p + 4) =~= whole.subrange(0, 4));
    assert(whole.subrange(0, 4) =~= le_bytes_u32(n as u32));
    lemma_rd_u32(s, p, n as u32);
    assert(s.subrange(p + 4, p + 4 + n) =~= encode_utf8(text)) by {
        assert forall|k: int| 0 <= k < n implies s.subrange(p + 4, p + 4 + n)[k] == encode_utf8(
            text,
        )[k] by {
            assert(s.subrange(p + 4, p + 4 + n)[k] == s[p + 4 + k]);
            assert(s.subrange(p, p + whole.len())[4 + k] == s[p + 4 + k]);
            assert(whole[4 + k] == encode_utf8(text)[k]);
        }
    }
    lemma_string_round_trip(text);
}

/// A block written at `p` reads back there.
pub proof fn lemma_rd_block(s: Seq<u8>, p: int, data: Seq<u8>)
    requires
        0 <= p,
        data.len() <= u32::MAX,
        p + 4 + data.len() <= s.len(),
        s.subrange(p, p + 4 + data.len()) == le_bytes_u32(data.len() as u32) + data,
    ensures
        rd_block(s, p) == Ok::<(Seq<u8>, int), CodecError>((data, p + 4 + data.len())),
{
    let whole = le_bytes_u32(data.len() as u32) + data;
    assert(s.subrange(p, p + 4) =~= whole.subrange(0, 4));
    assert(whole.subrange(0, 4) =~= le_bytes_u32(data.len() as u32));
    lemma_rd_u32(s, p, data.len() as u32);
    assert(s.subrange(p + 4, p + 4 + data.len()) =~= data) by {
        assert forall|k: int| 0 <= k < data.len() implies s.subrange(p + 4, p + 4 + data.len())[k]
            == data[k] by {
            assert(s.subrange(p, p + whole.len())[4 + k] == s[p + 4 + k]);
            assert(whole[4 + k] == data[k]);
        }
    }
}

/// A `u32` reads back from its own bytes.
pub proof fn lemma_u32_round_trip(v: u32)
    ensures
        u32_at(le_bytes_u32(v), 0) == v,
{
    let s = le_bytes_u32(v);
    let (b0, b1, b2, b3) = (v as u8, (v >> 8u32) as u8, (v >> 16u32) as u8, (v >> 24u32) as u8);
    assert(s[0] == b0 && s[1] == b1 && s[2] == b2 && s[3] == b3);
    assert((b0 as u32) | ((b1 as u32) << 8u32) | ((b2 as u32) << 16u32) | ((b3 as u32) << 24u32) == v)
        by (bit_vector)
        requires
            b0 == v as u8,
            b1 == (v >> 8u32) as u8,
            b2 == (v >> 16u32) as u8,
            b3 == (v >> 24u32) as u8,
    ;
}

/// A `u64` reads back from its own bytes.
pub proof fn lemma_u64_round_trip(v: u64)
    ensures
        u64_at(le_bytes_u64(v), 0) == v,
{
    let s = le_bytes_u64(v);
    let b0 = v as u8;
    let b1 = (v >> 8u64) as u8;
    let b2 = (v >> 16u64) as u8;
    let b3 = (v >> 24u64) as u8;
    let b4 = (v >> 32u64) as u8;
    let b5 = (v >> 40u64) as u8;
    let b6 = (v >> 48u64) as u8;
    let b7 = (v >> 56u64) as u8;
    assert(v >> 0u64 == v) by (bit_vector);
    assert(s[0] == b0 && s[1] == b1 && s[2] == b2 && s[3] == b3 && s[4] == b4 && s[5] == b5 && s[6]
        == b6 && s[7] == b7);
    assert((b0 as u64) | ((b1 as u64) << 8u64) | ((b2 as u64) << 16u64) | ((b3 as u64) << 24u64) | ((
    b4 as u64) << 32u64) | ((b5 as u64) << 40u64) | ((b6 as u64) << 48u64) | ((b7 as u64) << 56u64)
        == v) by (bit_vector)
        requires
            b0 == v as u8,
            b1 == (v >> 8u64) as u8,
            b2 == (v >> 16u64) as u8,
            b3 == (v >> 24u64) as u8,
            b4 == (v >> 32u64) as u8,
            b5 == (v >> 40u64) as u8,
            b6 == (v >> 48u64) as u8,
            b7 == (v >> 56u64) as u8,
    ;
}

/// Reads a byte string as UTF-8 text.
///
/// Calls `std::str::from_utf8`, which succeeds exactly when the bytes are
/// well-formed UTF-8, and then yields the text those bytes encode.
#[verifier::external_body]
fn utf8_text(bytes: &[u8]) -> (r: Option<String>)
    ensures
        r is Some <==> valid_utf8(bytes@),
        r matches Some(s) ==> s@ == decode_utf8(bytes@),
{
    match std::str::from_utf8(bytes) {
        Ok(text) => Some(text.to_owned()),
        Err(_) => None,
    }
}

/// Accumulates encoded values.
#[derive(Debug, Clone)]
pub struct Writer {
    out: Vec<u8>,
}

impl View for Writer {
    type V = Seq<u8>;

    closed spec fn view(&self) -> Seq<u8> {
        self.out@
    }
}

impl Writer {
    /// An empty writer.
    pub fn new() -> (w: Self)
        ensures
            w@ == Seq::<u8>::empty(),
    {
        Writer { out: Vec::new() }
    }

    /// Write one byte.
    pub fn u8(&mut self, v: u8)
        ensures
            final(self)@ == old(self)@.push(v),
    {
        self.out.push(v);
    }

    /// Write a `u32`, least significant byte first.
    pub fn u32(&mut self, v: u32)
        ensures
            final(self)@ == old(self)@ + le_bytes_u32(v),
    {
        self.out.push(v as u8);
        self.out.push((v >> 8) as u8);
        self.out.push((v >> 16) as u8);
        self.out.push((v >> 24) as u8);
        proof {
            assert(final(self)@ =~= old(self)@ + le_bytes_u32(v));
        }
    }

    /// Write a `u64`, least significant byte first.
    pub fn u64(&mut self, v: u64)
        ensures
            final(self)@ == old(self)@ + le_bytes_u64(v),
    {
        self.out.push(v as u8);
        self.out.push((v >> 8) as u8);
        self.out.push((v >> 16) as u8);
        self.out.push((v >> 24) as u8);
        self.out.push((v >> 32) as u8);
        self.out.push((v >> 40) as u8);
        self.out.push((v >> 48) as u8);
        self.out.push((v >> 56) as u8);
        proof {
            assert(v >> 0u64 == v) by (bit_vector);
            assert(final(self)@ =~= old(self)@ + le_bytes_u64(v));
        }
    }

    /// Write an `i64` as the `u64` with the same bits.
    pub fn i64(&mut self, v: i64)
        ensures
            final(self)@ == old(self)@ + le_bytes_u64(v as u64),
    {
        self.u64(v as u64);
    }

    /// Write a string: its UTF-8 length as a `u32`, then its bytes.
    pub fn string(&mut self, text: &str)
        ensures
            final(self)@ == old(self)@ + le_bytes_u32(text.spec_bytes().len() as u32)
                + text.spec_bytes(),
    {
        let bytes = text.as_bytes();
        self.u32(bytes.len() as u32);
        let ghost start = self.out@;
        let mut i: usize = 0;
        while i < bytes.len()
            invariant
                i <= bytes@.len(),
                self.out@ == start + bytes@.take(i as int),
            decreases bytes.len() - i,
        {
            self.out.push(bytes[i]);
            i += 1;
            proof {
                assert(self.out@ =~= start + bytes@.take(i as int));
            }
        }
        proof {
            assert(bytes@.take(i as int) =~= bytes@);
        }
    }

    /// Write a block of bytes: its length as a `u32`, then the bytes.
    pub fn block(&mut self, data: &[u8])
        ensures
            final(self)@ == old(self)@ + le_bytes_u32(data@.len() as u32) + data@,
    {
        self.u32(data.len() as u32);
        let ghost start = self.out@;
        let mut i: usize = 0;
        while i < data.len()
            invariant
                i <= data@.len(),
                self.out@ == start + data@.take(i as int),
            decreases data.len() - i,
        {
            self.out.push(data[i]);
            i += 1;
            proof {
                assert(self.out@ =~= start + data@.take(i as int));
            }
        }
        proof {
            assert(data@.take(i as int) =~= data@);
        }
    }

    /// The bytes written.
    pub fn finish(self) -> (r: Vec<u8>)
        ensures
            r@ == self@,
    {
        self.out
    }
}

/// Reads encoded values in order.
#[derive(Debug, Clone)]
pub struct Reader<'a> {
    bytes: &'a [u8],
    pos: usize,
}

impl<'a> Reader<'a> {
    /// The bytes being read.
    pub closed spec fn spec_bytes(&self) -> Seq<u8> {
        self.bytes@
    }

    /// How many bytes have been read.
    pub closed spec fn spec_pos(&self) -> int {
        self.pos as int
    }

    /// The position never passes the end.
    pub open spec fn wf(&self) -> bool {
        0 <= self.spec_pos() <= self.spec_bytes().len()
    }

    /// The bytes not yet read.
    pub open spec fn rest(&self) -> Seq<u8> {
        self.spec_bytes().skip(self.spec_pos())
    }

    /// A reader at the start of `bytes`.
    pub fn new(bytes: &'a [u8]) -> (r: Self)
        ensures
            r.wf(),
            r.spec_bytes() == bytes@,
            r.spec_pos() == 0,
    {
        Reader { bytes, pos: 0 }
    }

    /// How many bytes remain.
    pub fn remaining(&self) -> (n: usize)
        requires
            self.wf(),
        ensures
            n == self.spec_bytes().len() - self.spec_pos(),
    {
        self.bytes.len() - self.pos
    }

    fn need(&self, n: usize) -> (r: Result<(), CodecError>)
        requires
            self.wf(),
        ensures
            r is Ok <==> self.spec_pos() + n <= self.spec_bytes().len(),
            r matches Err(e) ==> e == (CodecError::Truncated {
                needed: n,
                remaining: (self.spec_bytes().len() - self.spec_pos()) as usize,
            }),
    {
        let remaining = self.bytes.len() - self.pos;
        if remaining < n {
            Err(CodecError::Truncated { needed: n, remaining })
        } else {
            Ok(())
        }
    }

    /// Read one byte.
    pub fn u8(&mut self) -> (r: Result<u8, CodecError>)
        requires
            old(self).wf(),
        ensures
            final(self).wf(),
            final(self).spec_bytes() == old(self).spec_bytes(),
            match rd_u8(old(self).spec_bytes(), old(self).spec_pos()) {
                Ok((v, q)) => r == Ok::<u8, CodecError>(v) && final(self).spec_pos() == q,
                Err(e) => r == Err::<u8, CodecError>(e) && final(self).spec_pos() == old(self).spec_pos(),
            },
            r is Ok <==> old(self).spec_pos() + 1 <= old(self).spec_bytes().len(),
            r matches Ok(v) ==> v == old(self).spec_bytes()[old(self).spec_pos()] && final(self).spec_pos() == old(self).spec_pos() + 1,
            r matches Err(e) ==> e == (CodecError::Truncated {
                needed: 1,
                remaining: (old(self).spec_bytes().len() - old(self).spec_pos()) as usize,
            }) && final(self).spec_pos() == old(self).spec_pos(),
    {
        self.need(1)?;
        let v = self.bytes[self.pos];
        self.pos = self.pos + 1;
        Ok(v)
    }

    /// Read a `u32`, least significant byte first.
    pub fn u32(&mut self) -> (r: Result<u32, CodecError>)
        requires
            old(self).wf(),
        ensures
            final(self).wf(),
            final(self).spec_bytes() == old(self).spec_bytes(),
            match rd_u32(old(self).spec_bytes(), old(self).spec_pos()) {
                Ok((v, q)) => r == Ok::<u32, CodecError>(v) && final(self).spec_pos() == q,
                Err(e) => r == Err::<u32, CodecError>(e) && final(self).spec_pos() == old(self).spec_pos(),
            },
            r is Ok <==> old(self).spec_pos() + 4 <= old(self).spec_bytes().len(),
            r matches Ok(v) ==> v == u32_at(old(self).spec_bytes(), old(self).spec_pos()) && final(self).spec_pos() == old(self).spec_pos() + 4,
            r matches Err(e) ==> e == (CodecError::Truncated {
                needed: 4,
                remaining: (old(self).spec_bytes().len() - old(self).spec_pos()) as usize,
            }) && final(self).spec_pos() == old(self).spec_pos(),
    {
        self.need(4)?;
        let p = self.pos;
        let v = (self.bytes[p] as u32) | ((self.bytes[p + 1] as u32) << 8) | ((self.bytes[p + 2] as u32)
            << 16) | ((self.bytes[p + 3] as u32) << 24);
        self.pos = p + 4;
        Ok(v)
    }

    /// Read a `u64`, least significant byte first.
    pub fn u64(&mut self) -> (r: Result<u64, CodecError>)
        requires
            old(self).wf(),
        ensures
            final(self).wf(),
            final(self).spec_bytes() == old(self).spec_bytes(),
            match rd_u64(old(self).spec_bytes(), old(self).spec_pos()) {
                Ok((v, q)) => r == Ok::<u64, CodecError>(v) && final(self).spec_pos() == q,
                Err(e) => r == Err::<u64, CodecError>(e) && final(self).spec_pos() == old(self).spec_pos(),
            },
            r is Ok <==> old(self).spec_pos() + 8 <= old(self).spec_bytes().len(),
            r matches Ok(v) ==> v == u64_at(old(self).spec_bytes(), old(self).spec_pos()) && final(self).spec_pos() == old(self).spec_pos() + 8,
            r matches Err(e) ==> e == (CodecError::Truncated {
                needed: 8,
                remaining: (old(self).spec_bytes().len() - old(self).spec_pos()) as usize,
            }) && final(self).spec_pos() == old(self).spec_pos(),
    {
        self.need(8)?;
        let p = self.pos;
        let b = self.bytes;
        let v = (b[p] as u64) | ((b[p + 1] as u64) << 8) | ((b[p + 2] as u64) << 16) | ((b[p + 3] as u64)
            << 24) | ((b[p + 4] as u64) << 32) | ((b[p + 5] as u64) << 40) | ((b[p + 6] as u64) << 48)
            | ((b[p + 7] as u64) << 56);
        self.pos = p + 8;
        Ok(v)
    }

    /// Read an `i64` written as the `u64` with the same bits.
    pub fn i64(&mut self) -> (r: Result<i64, CodecError>)
        requires
            old(self).wf(),
        ensures
            final(self).wf(),
            final(self).spec_bytes() == old(self).spec_bytes(),
            match rd_i64(old(self).spec_bytes(), old(self).spec_pos()) {
                Ok((v, q)) => r == Ok::<i64, CodecError>(v) && final(self).spec_pos() == q,
                Err(e) => r == Err::<i64, CodecError>(e) && final(self).spec_pos() == old(self).spec_pos(),
            },
            r is Ok <==> old(self).spec_pos() + 8 <= old(self).spec_bytes().len(),
            r matches Ok(v) ==> v == u64_at(old(self).spec_bytes(), old(self).spec_pos()) as i64
                && final(self).spec_pos() == old(self).spec_pos() + 8,
            r matches Err(e) ==> e == (CodecError::Truncated {
                needed: 8,
                remaining: (old(self).spec_bytes().len() - old(self).spec_pos()) as usize,
            }) && final(self).spec_pos() == old(self).spec_pos(),
    {
        let v = self.u64()?;
        Ok(v as i64)
    }

    /// Read a string: a `u32` byte length, then that many bytes of UTF-8.
    pub fn string(&mut self) -> (r: Result<String, CodecError>)
        requires
            old(self).wf(),
        ensures
            final(self).wf(),
            final(self).spec_bytes() == old(self).spec_bytes(),
            match rd_string(old(self).spec_bytes(), old(self).spec_pos()) {
                Ok((text, q)) => r matches Ok(t) && t@ == text && final(self).spec_pos() == q,
                Err(e) => r == Err::<String, CodecError>(e),
            },
            ({
                let s = old(self).spec_bytes();
                let p = old(self).spec_pos();
                if p + 4 > s.len() {
                    r is Err
                } else {
                    let n = u32_at(s, p) as int;
                    if p + 4 + n > s.len() {
                        r is Err
                    } else if !valid_utf8(s.subrange(p + 4, p + 4 + n)) {
                        r == Err::<String, CodecError>(CodecError::InvalidText)
                    } else {
                        r matches Ok(text) && text@ == decode_utf8(s.subrange(p + 4, p + 4 + n))
                            && final(self).spec_pos() == p + 4 + n
                    }
                }
            }),
    {
        let n = self.u32()? as usize;
        self.need(n)?;
        let start = self.pos;
        let total = self.bytes.len();
        let mut piece: Vec<u8> = Vec::new();
        let mut i: usize = 0;
        while i < n
            invariant
                self.wf(),
                total == self.spec_bytes().len(),
                start == self.spec_pos(),
                start + n <= self.spec_bytes().len(),
                i <= n,
                piece@ == self.spec_bytes().subrange(start as int, start + i),
            decreases n - i,
        {
            piece.push(self.bytes[start + i]);
            i += 1;
            proof {
                assert(piece@ =~= self.spec_bytes().subrange(start as int, start + i));
            }
        }
        match utf8_text(piece.as_slice()) {
            Some(text) => {
                self.pos = start + n;
                Ok(text)
            },
            None => Err(CodecError::InvalidText),
        }
    }

    /// Read a block of bytes: a `u32` length, then that many bytes.
    pub fn block(&mut self) -> (r: Result<Vec<u8>, CodecError>)
        requires
            old(self).wf(),
        ensures
            final(self).wf(),
            final(self).spec_bytes() == old(self).spec_bytes(),
            match rd_block(old(self).spec_bytes(), old(self).spec_pos()) {
                Ok((data, q)) => r matches Ok(v) && v@ == data && final(self).spec_pos() == q,
                Err(e) => r == Err::<Vec<u8>, CodecError>(e),
            },
    {
        let n = self.u32()? as usize;
        self.need(n)?;
        let start = self.pos;
        let total = self.bytes.len();
        let mut data: Vec<u8> = Vec::new();
        let mut i: usize = 0;
        while i < n
            invariant
                self.wf(),
                total == self.spec_bytes().len(),
                start == self.spec_pos(),
                start + n <= self.spec_bytes().len(),
                i <= n,
                data@ == self.spec_bytes().subrange(start as int, start + i),
            decreases n - i,
        {
            data.push(self.bytes[start + i]);
            i += 1;
            proof {
                assert(data@ =~= self.spec_bytes().subrange(start as int, start + i));
            }
        }
        self.pos = start + n;
        Ok(data)
    }

    /// Confirm that every byte was read.
    pub fn expect_exhausted(&self) -> (r: Result<(), CodecError>)
        requires
            self.wf(),
        ensures
            r is Ok <==> self.spec_pos() == self.spec_bytes().len(),
            r matches Err(e) ==> e == (CodecError::TrailingBytes {
                count: (self.spec_bytes().len() - self.spec_pos()) as usize,
            }),
    {
        if self.pos < self.bytes.len() {
            Err(CodecError::TrailingBytes { count: self.bytes.len() - self.pos })
        } else {
            Ok(())
        }
    }
}

/// A string reads back from its own encoding.
pub proof fn lemma_string_round_trip(text: Seq<char>)
    ensures
        valid_utf8(encode_utf8(text)),
        decode_utf8(encode_utf8(text)) == text,
{
    vstd::utf8::encode_utf8_valid_utf8(text);
    vstd::utf8::encode_utf8_decode_utf8(text);
}

} // verus!
