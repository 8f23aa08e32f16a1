//! A deflate compressor: one fixed-Huffman block with a hash-chain match
//! finder, or stored blocks when those come out smaller.
//!
//! RFC 1951 defines a code table that both sides already know, so a fixed
//! block carries no tree. What palette-quantised texture data wants is the
//! match finder: long runs of identical texels become a handful of
//! length-distance pairs, however they are coded.
//!
//! Two bit orders live in one stream, and mixing them up is the classic way
//! to write something no decoder will read: Huffman codes go most-significant
//! bit first, everything else least-significant first. Every table here is
//! stated as a spec, and the compressor's contract says the bytes it returns
//! are the packing of a token sequence that expands back to its input.

use vstd::prelude::*;
use vstd::arithmetic::power2::{pow2, lemma2_to64};

verus! {

/// Largest distance a match may reach back. RFC 1951 §3.2.5.
pub const WINDOW: usize = 32_768;

/// Longest match deflate can encode.
pub const MAX_MATCH: usize = 258;

/// Shortest match worth encoding: below this a literal is cheaper.
pub const MIN_MATCH: usize = 3;

/// How many candidates the match finder will consider at one position.
///
/// The chain is ordered nearest-first, and a nearer match encodes in fewer
/// bits, so the early candidates are the valuable ones.
pub const MAX_CHAIN: usize = 32;

/// Size of the hash table indexing three-byte sequences.
pub const HASH_SIZE: usize = 32_768;

/// Largest payload of one stored block.
pub const MAX_STORED: usize = 0xFFFF;

/// The `n` low bits of `v`, least significant first.
pub open spec fn low_bits(v: u32, n: nat) -> Seq<bool> {
    Seq::new(n, |i: int| (v >> (i as u32)) & 1u32 == 1u32)
}

/// The `n` low bits of `v`, most significant first.
pub open spec fn high_first_bits(v: u32, n: nat) -> Seq<bool> {
    Seq::new(n, |i: int| (v >> ((n - 1 - i) as u32)) & 1u32 == 1u32)
}

/// The eight bits of a byte, least significant first.
pub open spec fn byte_bits(b: u8) -> Seq<bool> {
    low_bits(b as u32, 8)
}

/// The bits of a byte string, each byte least significant bit first.
pub open spec fn bytes_bits(bytes: Seq<u8>) -> Seq<bool>
    decreases bytes.len(),
{
    if bytes.len() == 0 {
        Seq::empty()
    } else {
        bytes_bits(bytes.drop_last()) + byte_bits(bytes.last())
    }
}

/// A bit string padded with zero bits to a whole number of bytes.
pub open spec fn pad_to_bytes(bits: Seq<bool>) -> Seq<bool> {
    bits + Seq::new(((8 - bits.len() % 8) % 8) as nat, |i: int| false)
}

/// A byte string is the packing of a bit string: its bits, byte after byte
/// and each byte from bit zero up, are the bit string padded with zeros.
pub open spec fn packs(bytes: Seq<u8>, bits: Seq<bool>) -> bool {
    bytes_bits(bytes) == pad_to_bytes(bits)
}

/// Packs bits the way deflate wants them: bits accumulate
/// least-significant first into bytes.
pub struct BitWriter {
    out: Vec<u8>,
    accumulator: u32,
    bits: u32,
}

proof fn lemma_bytes_bits_len(bytes: Seq<u8>)
    ensures
        bytes_bits(bytes).len() == 8 * bytes.len(),
    decreases bytes.len(),
{
    if bytes.len() > 0 {
        lemma_bytes_bits_len(bytes.drop_last());
    }
}

proof fn lemma_bytes_bits_push(bytes: Seq<u8>, b: u8)
    ensures
        bytes_bits(bytes.push(b)) == bytes_bits(bytes) + byte_bits(b),
{
    assert(bytes.push(b).drop_last() =~= bytes);
}

/// Splitting off the low byte of an accumulator.
proof fn lemma_split_low_byte(acc: u32, n: u32)
    requires
        8 <= n < 32,
        acc >> n == 0,
    ensures
        low_bits(acc, n as nat) =~= byte_bits((acc & 0xff) as u8) + low_bits(acc >> 8u32, (n - 8) as nat),
        (acc >> 8u32) >> ((n - 8) as u32) == 0,
{
    assert forall|i: u32| i < 8 implies ((acc >> i) & 1u32 == 1u32) == ((((acc & 0xff) as u8) as u32
        >> i) & 1u32 == 1u32) by {
        assert(i < 8 ==> ((acc >> i) & 1u32) == ((((acc & 0xff) as u8) as u32 >> i) & 1u32))
            by (bit_vector);
    }
    assert forall|i: u32| 8 <= i < 32 implies ((acc >> i) & 1u32) == (((acc >> 8u32) >> ((i - 8) as u32))
        & 1u32) by {
        assert(8 <= i < 32 ==> ((acc >> i) & 1u32) == (((acc >> 8u32) >> ((i - 8) as u32)) & 1u32))
            by (bit_vector);
    }
    assert(8 <= n < 32 && acc >> n == 0 ==> (acc >> 8u32) >> ((n - 8) as u32) == 0)
        by (bit_vector);
    let lhs = low_bits(acc, n as nat);
    let rhs = byte_bits((acc & 0xff) as u8) + low_bits(acc >> 8u32, (n - 8) as nat);
    assert forall|i: int| 0 <= i < n implies lhs[i] == rhs[i] by {
        if i < 8 {
            assert(((acc >> (i as u32)) & 1u32 == 1u32) == ((((acc & 0xff) as u8) as u32 >> (
            i as u32)) & 1u32 == 1u32));
        } else {
            assert(((acc >> (i as u32)) & 1u32) == (((acc >> 8u32) >> ((i - 8) as u32)) & 1u32));
        }
    }
}

/// Appending `c` masked bits of `v` above `b` accumulated bits.
proof fn lemma_append_bits(acc: u32, b: u32, v: u32, c: u32)
    requires
        b < 8,
        c <= 24,
        acc >> b == 0,
    ensures
        ({
            let w = v & ((1u32 << c) - 1u32) as u32;
            let next = acc | (w << b);
            &&& low_bits(next, (b + c) as nat) =~= low_bits(acc, b as nat) + low_bits(v, c as nat)
            &&& next >> ((b + c) as u32) == 0
        }),
{
    let w = v & ((1u32 << c) - 1u32) as u32;
    let next = acc | (w << b);
    assert(b < 8 && c <= 24 && acc >> b == 0 ==> (acc | ((v & ((1u32 << c) - 1u32) as u32) << b)) >> (
    (b + c) as u32) == 0) by (bit_vector);
    assert forall|i: u32| i < b implies ((next >> i) & 1u32) == ((acc >> i) & 1u32) by {
        assert(i < b && b < 8 && c <= 24 && acc >> b == 0 ==> ((acc | ((v & ((1u32 << c) - 1u32) as u32)
            << b)) >> i) & 1u32 == (acc >> i) & 1u32) by (bit_vector);
    }
    assert forall|i: u32| b <= i < b + c implies ((next >> i) & 1u32) == ((v >> ((i - b) as u32))
        & 1u32) by {
        assert(b <= i < b + c && b < 8 && c <= 24 && acc >> b == 0 ==> ((acc | ((v & ((1u32 << c)
            - 1u32) as u32) << b)) >> i) & 1u32 == (v >> ((i - b) as u32)) & 1u32) by (bit_vector);
    }
    let lhs = low_bits(next, (b + c) as nat);
    let rhs = low_bits(acc, b as nat) + low_bits(v, c as nat);
    assert forall|i: int| 0 <= i < b + c implies lhs[i] == rhs[i] by {
        if i < b {
            assert(((next >> (i as u32)) & 1u32) == ((acc >> (i as u32)) & 1u32));
        } else {
            assert(((next >> (i as u32)) & 1u32) == ((v >> ((i - b) as u32)) & 1u32));
        }
    }
}

impl BitWriter {
    /// Everything written so far, in stream order.
    pub closed spec fn view_bits(&self) -> Seq<bool> {
        bytes_bits(self.out@) + low_bits(self.accumulator, self.bits as nat)
    }

    /// Fewer than eight bits wait in the accumulator, and nothing above them.
    pub closed spec fn wf(&self) -> bool {
        &&& self.bits < 8
        &&& self.accumulator >> self.bits == 0
    }

    /// An empty writer with room for `capacity` bytes.
    pub fn new(capacity: usize) -> (w: Self)
        ensures
            w.wf(),
            w.view_bits() == Seq::<bool>::empty(),
    {
        let w = BitWriter { out: Vec::with_capacity(capacity), accumulator: 0, bits: 0 };
        proof {
            assert(0u32 >> 0u32 == 0) by (bit_vector);
            assert(w.view_bits() =~= Seq::<bool>::empty());
        }
        w
    }

    /// Write `count` bits of `value`, least-significant bit first.
    pub fn bits(&mut self, value: u32, count: u32)
        requires
            old(self).wf(),
            count <= 24,
        ensures
            final(self).wf(),
            final(self).view_bits() == old(self).view_bits() + low_bits(value, count as nat),
    {
        let ghost start = self.view_bits();
        proof {
            lemma_append_bits(self.accumulator, self.bits, value, count);
            assert(count <= 24 ==> (1u32 << count) >= 1u32) by (bit_vector);
            assert(start + low_bits(value, count as nat) =~= bytes_bits(self.out@) + (low_bits(
                self.accumulator,
                self.bits as nat,
            ) + low_bits(value, count as nat)));
        }
        self.accumulator = self.accumulator | ((value & ((1u32 << count) - 1)) << self.bits);
        self.bits = self.bits + count;
        while self.bits >= 8
            invariant
                self.bits <= 31,
                self.accumulator >> self.bits == 0,
                bytes_bits(self.out@) + low_bits(self.accumulator, self.bits as nat) == start
                    + low_bits(value, count as nat),
            decreases self.bits,
        {
            let ghost before_out = self.out@;
            let ghost before_acc = self.accumulator;
            let ghost before_bits = self.bits;
            proof {
                lemma_split_low_byte(self.accumulator, self.bits);
            }
            self.out.push((self.accumulator & 0xFF) as u8);
            self.accumulator = self.accumulator >> 8;
            self.bits = self.bits - 8;
            proof {
                lemma_bytes_bits_push(before_out, (before_acc & 0xff) as u8);
                assert(bytes_bits(self.out@) + low_bits(self.accumulator, self.bits as nat) =~= bytes_bits(
                    before_out,
                ) + low_bits(before_acc, before_bits as nat));
            }
        }
    }

    /// Write a Huffman code, most-significant bit first.
    pub fn code(&mut self, code: u32, count: u32)
        requires
            old(self).wf(),
            count <= 24,
        ensures
            final(self).wf(),
            final(self).view_bits() == old(self).view_bits() + high_first_bits(code, count as nat),
    {
        // Reversed, then written LSB-first, which is the same thing.
        let mut reversed: u32 = 0;
        let mut bit: u32 = 0;
        proof {
            assert(0u32 >> 0u32 == 0) by (bit_vector);
        }
        while bit < count
            invariant
                count <= 24,
                bit <= count,
                reversed >> bit == 0,
                forall|j: u32|
                    j < bit ==> #[trigger] ((reversed >> j) & 1u32) == ((code >> ((count - 1 - j) as u32))
                        & 1u32),
            decreases count - bit,
        {
            let ghost before = reversed;
            let b = (code >> (count - 1 - bit)) & 1;
            proof {
                let sh = (count - 1 - bit) as u32;
                assert(((code >> sh) & 1u32) <= 1u32) by (bit_vector);
            }
            reversed = reversed | (b << bit);
            proof {
                assert(b <= 1u32 && bit < 24 && before >> bit == 0 ==> (before | (b << bit)) >> ((bit
                    + 1) as u32) == 0) by (bit_vector);
                assert forall|j: u32| j < bit + 1 implies #[trigger] ((reversed >> j) & 1u32) == ((code
                    >> ((count - 1 - j) as u32)) & 1u32) by {
                    assert(b <= 1u32 && bit < 24 && before >> bit == 0 && j < bit ==> ((before | (b
                        << bit)) >> j) & 1u32 == (before >> j) & 1u32) by (bit_vector);
                    assert(b <= 1u32 && bit < 24 && before >> bit == 0 ==> ((before | (b << bit))
                        >> bit) & 1u32 == b) by (bit_vector);
                }
            }
            bit += 1;
        }
        proof {
            assert(low_bits(reversed, count as nat) =~= high_first_bits(code, count as nat)) by {
                assert forall|i: int| 0 <= i < count implies low_bits(reversed, count as nat)[i]
                    == high_first_bits(code, count as nat)[i] by {
                    assert(((reversed >> (i as u32)) & 1u32) == ((code >> ((count - 1 - (i as u32))
                        as u32)) & 1u32));
                }
            }
        }
        self.bits(reversed, count);
    }

    /// The bytes written, with the last partial byte padded with zeros.
    pub fn finish(self) -> (out: Vec<u8>)
        requires
            self.wf(),
        ensures
            packs(out@, self.view_bits()),
    {
        let mut out = self.out;
        let ghost before = out@;
        proof {
            lemma_bytes_bits_len(before);
        }
        if self.bits > 0 {
            out.push((self.accumulator & 0xFF) as u8);
            proof {
                lemma_bytes_bits_push(before, (self.accumulator & 0xff) as u8);
                let acc = self.accumulator;
                let n = self.bits;
                assert forall|i: u32| i < 8 implies ((acc >> i) & 1u32 == 1u32) == ((((acc & 0xff) as u8)
                    as u32 >> i) & 1u32 == 1u32) by {
                    assert(i < 8 ==> ((acc >> i) & 1u32) == ((((acc & 0xff) as u8) as u32 >> i)
                        & 1u32)) by (bit_vector);
                }
                assert forall|i: u32| n <= i < 8 implies (acc >> i) & 1u32 == 0u32 by {
                    assert(n <= i < 8 && acc >> n == 0 ==> (acc >> i) & 1u32 == 0u32) by (bit_vector);
                }
                let view = self.view_bits();
                assert(view.len() == 8 * before.len() + n);
                assert((8 - view.len() % 8) % 8 == 8 - n) by (nonlinear_arith)
                    requires
                        view.len() == 8 * before.len() + n,
                        0 < n < 8,
                ;
                assert(bytes_bits(out@) =~= pad_to_bytes(view)) by {
                    assert forall|i: int| 0 <= i < bytes_bits(out@).len() implies bytes_bits(out@)[i]
                        == pad_to_bytes(view)[i] by {
                        if i >= 8 * before.len() {
                            let k = i - 8 * before.len();
                            if k < n {
                                assert(((acc >> (k as u32)) & 1u32 == 1u32) == ((((acc & 0xff) as u8)
                                    as u32 >> (k as u32)) & 1u32 == 1u32));
                            } else {
                                assert(((acc >> (k as u32)) & 1u32 == 1u32) == ((((acc & 0xff) as u8)
                                    as u32 >> (k as u32)) & 1u32 == 1u32));
                                assert((acc >> (k as u32)) & 1u32 == 0u32);
                            }
                        }
                    }
                }
            }
        } else {
            proof {
                assert(self.view_bits() =~= bytes_bits(before));
                assert(pad_to_bytes(self.view_bits()) =~= bytes_bits(before));
            }
        }
        out
    }
}

/// Base length of each length code, RFC 1951 §3.2.5.
pub open spec fn length_base(i: int) -> int {
    if i == 0 { 3 } else if i == 1 { 4 } else if i == 2 { 5 } else if i == 3 { 6 }
    else if i == 4 { 7 } else if i == 5 { 8 } else if i == 6 { 9 } else if i == 7 { 10 }
    else if i == 8 { 11 } else if i == 9 { 13 } else if i == 10 { 15 } else if i == 11 { 17 }
    else if i == 12 { 19 } else if i == 13 { 23 } else if i == 14 { 27 } else if i == 15 { 31 }
    else if i == 16 { 35 } else if i == 17 { 43 } else if i == 18 { 51 } else if i == 19 { 59 }
    else if i == 20 { 67 } else if i == 21 { 83 } else if i == 22 { 99 } else if i == 23 { 115 }
    else if i == 24 { 131 } else if i == 25 { 163 } else if i == 26 { 195 } else if i == 27 { 227 }
    else { 258 }
}

/// Extra bits of each length code, RFC 1951 §3.2.5.
pub open spec fn length_extra(i: int) -> int {
    if i < 8 { 0 } else if i < 12 { 1 } else if i < 16 { 2 } else if i < 20 { 3 }
    else if i < 24 { 4 } else if i < 28 { 5 } else { 0 }
}

/// Base distance of each distance code, RFC 1951 §3.2.5.
pub open spec fn distance_base(i: int) -> int {
    if i == 0 { 1 } else if i == 1 { 2 } else if i == 2 { 3 } else if i == 3 { 4 }
    else if i == 4 { 5 } else if i == 5 { 7 } else if i == 6 { 9 } else if i == 7 { 13 }
    else if i == 8 { 17 } else if i == 9 { 25 } else if i == 10 { 33 } else if i == 11 { 49 }
    else if i == 12 { 65 } else if i == 13 { 97 } else if i == 14 { 129 } else if i == 15 { 193 }
    else if i == 16 { 257 } else if i == 17 { 385 } else if i == 18 { 513 } else if i == 19 { 769 }
    else if i == 20 { 1025 } else if i == 21 { 1537 } else if i == 22 { 2049 } else if i == 23 { 3073 }
    else if i == 24 { 4097 } else if i == 25 { 6145 } else if i == 26 { 8193 } else if i == 27 { 12289 }
    else if i == 28 { 16385 } else { 24577 }
}

/// Extra bits of each distance code, RFC 1951 §3.2.5.
pub open spec fn distance_extra(i: int) -> int {
    if i < 4 { 0 } else { (i - 2) / 2 }
}

/// The length code covering `len`: the last whose base does not exceed it.
pub open spec fn length_index_from(len: int, i: int) -> int
    decreases i,
{
    if i <= 0 || length_base(i) <= len {
        if i <= 0 { 0 } else { i }
    } else {
        length_index_from(len, i - 1)
    }
}

/// The length code a match of `len` bytes is written with.
pub open spec fn length_index(len: int) -> int {
    length_index_from(len, 28)
}

/// The distance code covering `dist`: the last whose base does not exceed it.
pub open spec fn distance_index_from(dist: int, i: int) -> int
    decreases i,
{
    if i <= 0 || distance_base(i) <= dist {
        if i <= 0 { 0 } else { i }
    } else {
        distance_index_from(dist, i - 1)
    }
}

/// The distance code a match reaching back `dist` bytes is written with.
pub open spec fn distance_index(dist: int) -> int {
    distance_index_from(dist, 29)
}

/// The fixed literal/length code of a symbol, RFC 1951 §3.2.6.
pub open spec fn fixed_code(symbol: int) -> int {
    if symbol <= 143 {
        0x30 + symbol
    } else if symbol <= 255 {
        0x190 + (symbol - 144)
    } else if symbol <= 279 {
        symbol - 256
    } else {
        0xc0 + (symbol - 280)
    }
}

/// The length in bits of a symbol's fixed code, RFC 1951 §3.2.6.
pub open spec fn fixed_code_len(symbol: int) -> int {
    if symbol <= 143 {
        8
    } else if symbol <= 255 {
        9
    } else if symbol <= 279 {
        7
    } else {
        8
    }
}

/// One unit of a compressed block.
#[derive(Debug, Clone, Copy, PartialEq, Eq, Structural)]
pub enum Token {
    /// One byte, as itself.
    Literal(u8),
    /// Copy `length` bytes starting `distance` bytes back.
    Match { length: u16, distance: u16 },
}

/// Append `n` bytes, each copied from `d` bytes before it: an overlapping
/// copy repeats the bytes it has just written.
pub open spec fn copy_back(out: Seq<u8>, n: nat, d: int) -> Seq<u8>
    decreases n,
{
    if n == 0 {
        out
    } else {
        let prev = copy_back(out, (n - 1) as nat, d);
        prev.push(prev[prev.len() - d])
    }
}

/// What a decoder makes of one token, given what it has produced so far.
pub open spec fn apply_token(out: Seq<u8>, t: Token) -> Seq<u8> {
    match t {
        Token::Literal(b) => out.push(b),
        Token::Match { length, distance } => copy_back(out, length as nat, distance as int),
    }
}

/// What a decoder makes of a token sequence.
pub open spec fn expand(tokens: Seq<Token>) -> Seq<u8>
    decreases tokens.len(),
{
    if tokens.len() == 0 {
        Seq::empty()
    } else {
        apply_token(expand(tokens.drop_last()), tokens.last())
    }
}

/// A token a decoder accepts after `produced` bytes: a match is 3 to 258
/// bytes long and reaches back at least one byte, at most the window, and
/// no further than the start of the output.
pub open spec fn token_ok(t: Token, produced: int) -> bool {
    match t {
        Token::Literal(_) => true,
        Token::Match { length, distance } => 3 <= length <= 258 && 1 <= distance <= WINDOW
            && distance <= produced,
    }
}

/// Every token of a sequence is accepted where it stands.
pub open spec fn tokens_ok(tokens: Seq<Token>) -> bool {
    forall|k: int| 0 <= k < tokens.len() ==> #[trigger] token_ok(tokens[k], expand(tokens.take(k)).len() as int)
}

/// The fixed-Huffman bits of one token.
pub open spec fn token_bits(t: Token) -> Seq<bool> {
    match t {
        Token::Literal(b) => high_first_bits(fixed_code(b as int) as u32, fixed_code_len(b as int) as nat),
        Token::Match { length, distance } => {
            let i = length_index(length as int);
            let j = distance_index(distance as int);
            high_first_bits(fixed_code(257 + i) as u32, fixed_code_len(257 + i) as nat) + low_bits(
                (length - length_base(i)) as u32,
                length_extra(i) as nat,
            ) + high_first_bits(j as u32, 5) + low_bits(
                (distance - distance_base(j)) as u32,
                distance_extra(j) as nat,
            )
        },
    }
}

/// The bits of a token sequence, one token after another.
pub open spec fn tokens_bits(tokens: Seq<Token>) -> Seq<bool>
    decreases tokens.len(),
{
    if tokens.len() == 0 {
        Seq::empty()
    } else {
        tokens_bits(tokens.drop_last()) + token_bits(tokens.last())
    }
}

/// The block header: final block, fixed Huffman codes.
pub open spec fn fixed_header() -> Seq<bool> {
    low_bits(1, 1) + low_bits(1, 2)
}

/// A whole fixed-Huffman block: header, tokens, end-of-block symbol.
pub open spec fn fixed_stream(tokens: Seq<Token>) -> Seq<bool> {
    fixed_header() + tokens_bits(tokens) + high_first_bits(fixed_code(256) as u32, fixed_code_len(256) as nat)
}

/// A fixed-Huffman block that a decoder expands to `data`.
pub open spec fn is_fixed_block_of(out: Seq<u8>, data: Seq<u8>) -> bool {
    exists|tokens: Seq<Token>|
        tokens_ok(tokens) && expand(tokens) == data && packs(out, #[trigger] fixed_stream(tokens))
}

/// The fixed literal/length code for a symbol, and its length in bits.
pub fn fixed_literal(symbol: u16) -> (r: (u32, u32))
    requires
        symbol <= 287,
    ensures
        r.0 == fixed_code(symbol as int),
        r.1 == fixed_code_len(symbol as int),
        r.0 < 512,
{
    if symbol <= 143 {
        (0x30 + symbol as u32, 8)
    } else if symbol <= 255 {
        (0x190 + (symbol as u32 - 144), 9)
    } else if symbol <= 279 {
        (symbol as u32 - 256, 7)
    } else {
        (0xc0 + (symbol as u32 - 280), 8)
    }
}

/// The extra bits and base length of length code `i`, RFC 1951 §3.2.5.
pub fn length_code(i: usize) -> (r: (u32, u16))
    requires
        i <= 28,
    ensures
        r.0 == length_extra(i as int),
        r.1 == length_base(i as int),
{
    let base: u16 = if i == 0 { 3 } else if i == 1 { 4 } else if i == 2 { 5 } else if i == 3 { 6 }
    else if i == 4 { 7 } else if i == 5 { 8 } else if i == 6 { 9 } else if i == 7 { 10 }
    else if i == 8 { 11 } else if i == 9 { 13 } else if i == 10 { 15 } else if i == 11 { 17 }
    else if i == 12 { 19 } else if i == 13 { 23 } else if i == 14 { 27 } else if i == 15 { 31 }
    else if i == 16 { 35 } else if i == 17 { 43 } else if i == 18 { 51 } else if i == 19 { 59 }
    else if i == 20 { 67 } else if i == 21 { 83 } else if i == 22 { 99 } else if i == 23 { 115 }
    else if i == 24 { 131 } else if i == 25 { 163 } else if i == 26 { 195 } else if i == 27 { 227 }
    else { 258 };
    let extra: u32 = if i < 8 { 0 } else if i < 12 { 1 } else if i < 16 { 2 } else if i < 20 { 3 }
    else if i < 24 { 4 } else if i < 28 { 5 } else { 0 };
    (extra, base)
}

/// The extra bits and base distance of distance code `i`, RFC 1951 §3.2.5.
pub fn distance_code(i: usize) -> (r: (u32, u16))
    requires
        i <= 29,
    ensures
        r.0 == distance_extra(i as int),
        r.1 == distance_base(i as int),
{
    let base: u16 = if i == 0 { 1 } else if i == 1 { 2 } else if i == 2 { 3 } else if i == 3 { 4 }
    else if i == 4 { 5 } else if i == 5 { 7 } else if i == 6 { 9 } else if i == 7 { 13 }
    else if i == 8 { 17 } else if i == 9 { 25 } else if i == 10 { 33 } else if i == 11 { 49 }
    else if i == 12 { 65 } else if i == 13 { 97 } else if i == 14 { 129 } else if i == 15 { 193 }
    else if i == 16 { 257 } else if i == 17 { 385 } else if i == 18 { 513 } else if i == 19 { 769 }
    else if i == 20 { 1025 } else if i == 21 { 1537 } else if i == 22 { 2049 } else if i == 23 { 3073 }
    else if i == 24 { 4097 } else if i == 25 { 6145 } else if i == 26 { 8193 } else if i == 27 { 12289 }
    else if i == 28 { 16385 } else { 24577 };
    let extra: u32 = if i < 4 { 0 } else { ((i - 2) / 2) as u32 };
    (extra, base)
}

/// Which length code covers a match of this length, and the extra bits.
pub fn length_symbol(length: usize) -> (r: (u16, u32, u32))
    requires
        MIN_MATCH <= length <= MAX_MATCH,
    ensures
        r.0 == 257 + length_index(length as int),
        r.1 == length - length_base(length_index(length as int)),
        r.2 == length_extra(length_index(length as int)),
        0 <= length_index(length as int) <= 28,
{
    let mut index: usize = 28;
    while index > 0 && length_code(index).1 as usize > length
        invariant
            index <= 28,
            length_index(length as int) == length_index_from(length as int, index as int),
        decreases index,
    {
        index -= 1;
    }
    let (extra, base) = length_code(index);
    proof {
        assert(length_index_from(length as int, index as int) == index);
    }
    ((257 + index) as u16, (length - base as usize) as u32, extra)
}

/// Which distance code covers this distance, and the extra bits.
pub fn distance_symbol(distance: usize) -> (r: (u32, u32, u32))
    requires
        1 <= distance <= WINDOW,
    ensures
        r.0 == distance_index(distance as int),
        r.1 == distance - distance_base(distance_index(distance as int)),
        r.2 == distance_extra(distance_index(distance as int)),
        0 <= distance_index(distance as int) <= 29,
{
    let mut index: usize = 29;
    while index > 0 && distance_code(index).1 as usize > distance
        invariant
            index <= 29,
            distance_index(distance as int) == distance_index_from(distance as int, index as int),
        decreases index,
    {
        index -= 1;
    }
    let (extra, base) = distance_code(index);
    proof {
        assert(distance_index_from(distance as int, index as int) == index);
    }
    (index as u32, (distance - base as usize) as u32, extra)
}

proof fn lemma_length_index_from(len: int, i: int)
    requires
        3 <= len,
        0 <= i <= 28,
    ensures
        0 <= length_index_from(len, i) <= i,
        length_base(length_index_from(len, i)) <= len,
        forall|j: int| length_index_from(len, i) < j <= i ==> len < #[trigger] length_base(j),
    decreases i,
{
    if i > 0 && length_base(i) > len {
        lemma_length_index_from(len, i - 1);
    }
}

proof fn lemma_distance_index_from(dist: int, i: int)
    requires
        1 <= dist,
        0 <= i <= 29,
    ensures
        0 <= distance_index_from(dist, i) <= i,
        distance_base(distance_index_from(dist, i)) <= dist,
        forall|j: int| distance_index_from(dist, i) < j <= i ==> dist < #[trigger] distance_base(j),
    decreases i,
{
    if i > 0 && distance_base(i) > dist {
        lemma_distance_index_from(dist, i - 1);
    }
}

/// Every match length from 3 to 258 has a length code whose base plus its
/// extra bits reach it exactly: the base does not exceed the length, and
/// what is left fits in the code's extra bits.
pub proof fn lemma_length_codes_cover(len: int)
    requires
        MIN_MATCH <= len <= MAX_MATCH,
    ensures
        0 <= length_index(len) <= 28,
        length_base(length_index(len)) <= len,
        len - length_base(length_index(len)) < pow2(length_extra(length_index(len)) as nat),
{
    lemma_length_index_from(len, 28);
    lemma2_to64();
    let i = length_index(len);
    if i < 28 {
        assert(len < length_base(i + 1));
    }
    assert(0 <= i <= 28);
    if i < 8 {
    } else if i < 12 {
    } else if i < 16 {
    } else if i < 20 {
    } else if i < 24 {
    } else if i < 28 {
    } else {
    }
}

/// Every distance from 1 to the window size has a distance code whose base
/// plus its extra bits reach it exactly.
pub proof fn lemma_distance_codes_cover(dist: int)
    requires
        1 <= dist <= WINDOW,
    ensures
        0 <= distance_index(dist) <= 29,
        distance_base(distance_index(dist)) <= dist,
        dist - distance_base(distance_index(dist)) < pow2(distance_extra(distance_index(dist)) as nat),
{
    lemma_distance_index_from(dist, 29);
    lemma2_to64();
    let i = distance_index(dist);
    if i < 29 {
        assert(dist < distance_base(i + 1));
    }
    assert(0 <= i <= 29);
    if i < 4 {
    } else if i < 6 {
    } else if i < 8 {
    } else if i < 10 {
    } else if i < 12 {
    } else if i < 14 {
    } else if i < 16 {
    } else if i < 18 {
    } else if i < 20 {
    } else if i < 22 {
    } else if i < 24 {
    } else if i < 26 {
    } else if i < 28 {
    } else {
    }
}

/// The hash-table slot of a three-byte sequence: Knuth's multiplicative
/// hash, folded into the table's index width.
pub open spec fn hash3_spec(a: u8, b: u8, c: u8) -> usize {
    ((vstd::wrapping::u32_specs::wrapping_mul(
        ((a as u32) << 16u32) | ((b as u32) << 8u32) | (c as u32),
        2_654_435_761u32,
    ) >> 17u32) as usize) % HASH_SIZE
}

/// The hash-table slot of the three bytes at `at`.
pub fn hash3(data: &[u8], at: usize) -> (r: usize)
    requires
        at + 2 < data@.len(),
    ensures
        r == hash3_spec(data@[at as int], data@[at + 1], data@[at + 2]),
        r < HASH_SIZE,
{
    let triple = ((data[at] as u32) << 16) | ((data[at + 1] as u32) << 8) | (data[at + 2] as u32);
    ((triple.wrapping_mul(2_654_435_761) >> 17) as usize) % HASH_SIZE
}

/// A match copies what it compared equal.
proof fn lemma_copy_back(data: Seq<u8>, at: int, n: nat, d: int)
    requires
        1 <= d <= at,
        at + n <= data.len(),
        forall|k: int| 0 <= k < n ==> #[trigger] data[at - d + k] == data[at + k],
    ensures
        copy_back(data.take(at), n, d) == data.take(at + n),
    decreases n,
{
    if n > 0 {
        lemma_copy_back(data, at, (n - 1) as nat, d);
        let prev = copy_back(data.take(at), (n - 1) as nat, d);
        assert(prev == data.take(at + n - 1));
        assert(prev[prev.len() - d] == data[at - d + (n - 1)]);
        assert(prev.push(prev[prev.len() - d]) =~= data.take(at + n));
    }
}

proof fn lemma_push_token(tokens: Seq<Token>, t: Token)
    ensures
        expand(tokens.push(t)) == apply_token(expand(tokens), t),
        tokens_bits(tokens.push(t)) == tokens_bits(tokens) + token_bits(t),
{
    assert(tokens.push(t).drop_last() =~= tokens);
}

proof fn lemma_tokens_ok_push(tokens: Seq<Token>, t: Token)
    requires
        tokens_ok(tokens),
        token_ok(t, expand(tokens).len() as int),
    ensures
        tokens_ok(tokens.push(t)),
{
    let next = tokens.push(t);
    assert forall|k: int| 0 <= k < next.len() implies #[trigger] token_ok(
        next[k],
        expand(next.take(k)).len() as int,
    ) by {
        if k < tokens.len() {
            assert(next.take(k) =~= tokens.take(k));
            assert(token_ok(tokens[k], expand(tokens.take(k)).len() as int));
        } else {
            assert(next.take(k) =~= tokens);
        }
    }
}

/// A vector of `n` copies of a value.
fn filled(value: usize, n: usize) -> (v: Vec<usize>)
    ensures
        v@.len() == n,
        forall|i: int| 0 <= i < n ==> #[trigger] v@[i] == value,
{
    let mut v: Vec<usize> = Vec::new();
    let mut i: usize = 0;
    while i < n
        invariant
            i <= n,
            v@.len() == i,
            forall|k: int| 0 <= k < i ==> #[trigger] v@[k] == value,
        decreases n - i,
    {
        v.push(value);
        i += 1;
    }
    v
}

/// How many bytes from `c + k` on agree with the bytes from `at + k` on,
/// counting from `k` and stopping at `max`.
pub open spec fn agree_from(data: Seq<u8>, c: int, at: int, max: int, k: int) -> int
    decreases max - k,
{
    if k < max && data[c + k] == data[at + k] {
        agree_from(data, c, at, max, k + 1)
    } else {
        k
    }
}

/// Of two candidate matches, the second only when it is strictly longer.
pub open spec fn better(a: (usize, usize), b: (usize, usize)) -> (usize, usize) {
    if b.0 > a.0 {
        b
    } else {
        a
    }
}

/// The longest match for the bytes at `at` among at most `steps` candidates
/// of the chain that starts at `c`, following `prev`, while they stay inside
/// the window that starts at `limit`: its length, at most `max`, and its
/// distance back. Of equally long matches the nearest is kept.
pub open spec fn best_match(
    data: Seq<u8>,
    prev: Seq<usize>,
    at: int,
    c: usize,
    steps: nat,
    limit: int,
    max: int,
) -> (usize, usize)
    decreases steps,
{
    if c == usize::MAX || c < limit || steps == 0 {
        (0, 0)
    } else {
        better(
            (agree_from(data, c as int, at, max, 0) as usize, (at - c) as usize),
            best_match(data, prev, at, prev[c as int], (steps - 1) as nat, limit, max),
        )
    }
}

/// No match found along a chain is longer than `max`.
proof fn lemma_best_match_bound(
    data: Seq<u8>,
    prev: Seq<usize>,
    at: int,
    c: usize,
    steps: nat,
    limit: int,
    max: int,
)
    requires
        0 <= max <= MAX_MATCH,
    ensures
        best_match(data, prev, at, c, steps, limit, max).0 <= max,
    decreases steps,
{
    if !(c == usize::MAX || c < limit || steps == 0) {
        lemma_agree_bound(data, c as int, at, max, 0);
        lemma_best_match_bound(data, prev, at, prev[c as int], (steps - 1) as nat, limit, max);
    }
}

/// Agreement counted from `k` ends between `k` and `max`.
proof fn lemma_agree_bound(data: Seq<u8>, c: int, at: int, max: int, k: int)
    requires
        0 <= k <= max,
    ensures
        k <= agree_from(data, c, at, max, k) <= max,
    decreases max - k,
{
    if k < max && data[c + k] == data[at + k] {
        lemma_agree_bound(data, c, at, max, k + 1);
    }
}

/// The longest match for the bytes at `at` among the first [`MAX_CHAIN`]
/// candidates of a hash chain, nearest first, inside the window.
fn longest_match(data: &[u8], at: usize, first: usize, prev: &Vec<usize>) -> (r: (usize, usize))
    requires
        at < data@.len(),
        data@.len() - at >= MIN_MATCH,
        prev@.len() == data@.len(),
        forall|p: int| 0 <= p < prev@.len() ==> #[trigger] prev@[p] == usize::MAX || prev@[p] < p,
        first == usize::MAX || first < at,
    ensures
        r == better(
            (0, 0),
            best_match(
                data@,
                prev@,
                at as int,
                first,
                MAX_CHAIN as nat,
                if at >= WINDOW {
                    at - WINDOW
                } else {
                    0
                },
                if MAX_MATCH < data@.len() - at {
                    MAX_MATCH as int
                } else {
                    data@.len() - at
                },
            ),
        ),
        r.0 <= MAX_MATCH,
        at + r.0 <= data@.len(),
        r.0 > 0 ==> 1 <= r.1 <= at && r.1 <= WINDOW,
        forall|k: int| 0 <= k < r.0 ==> #[trigger] data@[at - r.1 + k] == data@[at + k],
{
    let n = data.len();
    let max = if MAX_MATCH < n - at { MAX_MATCH } else { n - at };
    let mut best_length: usize = 0;
    let mut best_distance: usize = 0;
    let mut candidate = first;
    let limit = at.saturating_sub(WINDOW);
    let mut examined: usize = 0;
    let mut done = false;
    let ghost answer = better(
        (0, 0),
        best_match(data@, prev@, at as int, first, MAX_CHAIN as nat, limit as int, max as int),
    );
    while candidate != usize::MAX && candidate >= limit && examined < MAX_CHAIN && !done
        invariant
            n == data@.len(),
            at < n,
            max == if MAX_MATCH < n - at { MAX_MATCH } else { (n - at) as usize },
            limit == if at >= WINDOW { (at - WINDOW) as usize } else { 0usize },
            prev@.len() == n,
            forall|p: int| 0 <= p < prev@.len() ==> #[trigger] prev@[p] == usize::MAX || prev@[p] < p,
            candidate == usize::MAX || candidate < at,
            best_length <= max,
            best_length > 0 ==> 1 <= best_distance <= at && best_distance <= WINDOW,
            forall|k: int|
                0 <= k < best_length ==> #[trigger] data@[at - best_distance + k] == data@[at + k],
            examined <= MAX_CHAIN,
            answer == if done {
                (best_length, best_distance)
            } else {
                better(
                    (best_length, best_distance),
                    best_match(
                        data@,
                        prev@,
                        at as int,
                        candidate,
                        (MAX_CHAIN - examined) as nat,
                        limit as int,
                        max as int,
                    ),
                )
            },
        decreases (if candidate == usize::MAX { 0int } else { candidate as int + 1 }) + (if done {
            0int
        } else {
            1int
        }),
    {
        let mut length: usize = 0;
        while length < max && data[candidate + length] == data[at + length]
            invariant
                n == data@.len(),
                candidate < at,
                at + max <= n,
                length <= max,
                forall|k: int| 0 <= k < length ==> #[trigger] data@[candidate + k] == data@[at + k],
                agree_from(data@, candidate as int, at as int, max as int, length as int)
                    == agree_from(data@, candidate as int, at as int, max as int, 0),
            decreases max - length,
        {
            length += 1;
        }
        proof {
            let here = (length, (at - candidate) as usize);
            let rest = best_match(
                data@,
                prev@,
                at as int,
                prev@[candidate as int],
                (MAX_CHAIN - examined - 1) as nat,
                limit as int,
                max as int,
            );
            assert(agree_from(data@, candidate as int, at as int, max as int, 0) == length);
            assert(best_match(
                data@,
                prev@,
                at as int,
                candidate,
                (MAX_CHAIN - examined) as nat,
                limit as int,
                max as int,
            ) == better(here, rest));
            lemma_best_match_bound(
                data@,
                prev@,
                at as int,
                prev@[candidate as int],
                (MAX_CHAIN - examined - 1) as nat,
                limit as int,
                max as int,
            );
        }
        if length > best_length {
            best_length = length;
            best_distance = at - candidate;
            proof {
                assert forall|k: int| 0 <= k < best_length implies #[trigger] data@[at - best_distance
                    + k] == data@[at + k] by {
                    assert(at - best_distance + k == candidate + k);
                }
            }
            if length == max {
                done = true;
            }
        }
        candidate = prev[candidate];
        examined += 1;
    }
    proof {
        if !done {
            assert(best_match(
                data@,
                prev@,
                at as int,
                candidate,
                (MAX_CHAIN - examined) as nat,
                limit as int,
                max as int,
            ) == (0usize, 0usize));
        }
    }
    (best_length, best_distance)
}

/// Write one match: its length code and extra bits, then its distance code
/// and extra bits.
fn emit_match(writer: &mut BitWriter, length: usize, distance: usize)
    requires
        old(writer).wf(),
        MIN_MATCH <= length <= MAX_MATCH,
        1 <= distance <= WINDOW,
    ensures
        final(writer).wf(),
        final(writer).view_bits() == old(writer).view_bits() + token_bits(
            Token::Match { length: length as u16, distance: distance as u16 },
        ),
{
    let ghost start = writer.view_bits();
    let (symbol, extra, extra_bits) = length_symbol(length);
    let (code, length_bits) = fixed_literal(symbol);
    writer.code(code, length_bits);
    if extra_bits > 0 {
        writer.bits(extra, extra_bits);
    } else {
        proof {
            assert(writer.view_bits() =~= writer.view_bits() + low_bits(extra, extra_bits as nat));
        }
    }
    let (distance_code, distance_extra_value, distance_bits) = distance_symbol(distance);
    writer.code(distance_code, 5);
    if distance_bits > 0 {
        writer.bits(distance_extra_value, distance_bits);
    } else {
        proof {
            assert(writer.view_bits() =~= writer.view_bits() + low_bits(
                distance_extra_value,
                distance_bits as nat,
            ));
        }
    }
    proof {
        let t = Token::Match { length: length as u16, distance: distance as u16 };
        assert(writer.view_bits() =~= start + token_bits(t));
    }
}

/// The hash tables once position `p` is pushed onto the chain of its next
/// three bytes, when three bytes remain from it: the slot's head becomes
/// `p`, and `p` links to the slot's former head.
pub open spec fn chain_position(data: Seq<u8>, tables: (Seq<usize>, Seq<usize>), p: int) -> (
    Seq<usize>,
    Seq<usize>,
) {
    if data.len() - p >= MIN_MATCH {
        let slot = hash3_spec(data[p], data[p + 1], data[p + 2]) as int;
        (tables.0.update(slot, p as usize), tables.1.update(p, tables.0[slot]))
    } else {
        tables
    }
}

/// The hash tables once each position from `from` up to `to` is pushed
/// onto its chain, in order.
pub open spec fn chain_positions(data: Seq<u8>, tables: (Seq<usize>, Seq<usize>), from: int, to: int) -> (
    Seq<usize>,
    Seq<usize>,
)
    decreases to - from,
{
    if to <= from {
        tables
    } else {
        chain_position(data, chain_positions(data, tables, from, to - 1), to - 1)
    }
}

/// Chain every position a match covered into the hash table, so the next
/// match has something to find.
fn index_covered(data: &[u8], head: &mut Vec<usize>, prev: &mut Vec<usize>, at: usize, length: usize)
    requires
        at + length <= data@.len(),
        length >= 1,
        old(head)@.len() == HASH_SIZE,
        old(prev)@.len() == data@.len(),
        forall|s: int| 0 <= s < HASH_SIZE ==> #[trigger] old(head)@[s] == usize::MAX || old(head)@[s] < at + 1,
        forall|p: int| 0 <= p < old(prev)@.len() ==> #[trigger] old(prev)@[p] == usize::MAX || old(prev)@[p] < p,
    ensures
        (final(head)@, final(prev)@) == chain_positions(
            data@,
            (old(head)@, old(prev)@),
            at + 1,
            at + length,
        ),
        final(head)@.len() == HASH_SIZE,
        final(prev)@.len() == data@.len(),
        forall|s: int| 0 <= s < HASH_SIZE ==> #[trigger] final(head)@[s] == usize::MAX || final(head)@[s] < at + length,
        forall|p: int| 0 <= p < final(prev)@.len() ==> #[trigger] final(prev)@[p] == usize::MAX || final(prev)@[p] < p,
{
    let n = data.len();
    let mut skip: usize = 1;
    while skip < length
        invariant
            n == data@.len(),
            at + length <= n,
            1 <= skip <= length,
            head@.len() == HASH_SIZE,
            prev@.len() == n,
            forall|s: int| 0 <= s < HASH_SIZE ==> #[trigger] head@[s] == usize::MAX || head@[s] < at + skip,
            forall|p: int| 0 <= p < prev@.len() ==> #[trigger] prev@[p] == usize::MAX || prev@[p] < p,
            (head@, prev@) == chain_positions(data@, (old(head)@, old(prev)@), at + 1, at + skip),
        decreases length - skip,
    {
        let position = at + skip;
        if n - position >= MIN_MATCH {
            let slot = hash3(data, position);
            let chained = head[slot];
            prev.set(position, chained);
            head.set(slot, position);
        }
        skip += 1;
    }
}

/// What the match finder does at `at` with the hash tables as they stand:
/// when three bytes remain, the longest match along the chain of those
/// bytes (at most [`MAX_CHAIN`] candidates, inside the window, nearest first
/// on ties), and the tables once `at` is chained; otherwise no match and the
/// tables unchanged.
pub open spec fn find_at(data: Seq<u8>, at: int, head: Seq<usize>, prev: Seq<usize>) -> (
    (usize, usize),
    Seq<usize>,
    Seq<usize>,
) {
    if data.len() - at >= MIN_MATCH {
        let slot = hash3_spec(data[at], data[at + 1], data[at + 2]) as int;
        let m = better(
            (0, 0),
            best_match(
                data,
                prev,
                at,
                head[slot],
                MAX_CHAIN as nat,
                if at >= WINDOW {
                    at - WINDOW
                } else {
                    0
                },
                if MAX_MATCH < data.len() - at {
                    MAX_MATCH as int
                } else {
                    data.len() - at
                },
            ),
        );
        (m, head.update(slot, at as usize), prev.update(at, head[slot]))
    } else {
        ((0, 0), head, prev)
    }
}

/// The tokens the greedy parse writes from `at` on: at each position the
/// match the finder keeps when it is at least [`MIN_MATCH`] long, with every
/// position it covers chained in turn, and otherwise the byte as a literal.
pub open spec fn greedy_tokens(data: Seq<u8>, at: int, head: Seq<usize>, prev: Seq<usize>) -> Seq<
    Token,
>
    decreases data.len() - at,
{
    if at < 0 || at >= data.len() {
        Seq::empty()
    } else {
        let found = find_at(data, at, head, prev);
        let m = found.0;
        if m.0 >= MIN_MATCH && at + m.0 <= data.len() {
            let tables = chain_positions(data, (found.1, found.2), at + 1, at + m.0);
            seq![Token::Match { length: m.0 as u16, distance: m.1 as u16 }] + greedy_tokens(
                data,
                at + m.0,
                tables.0,
                tables.1,
            )
        } else {
            seq![Token::Literal(data[at])] + greedy_tokens(data, at + 1, found.1, found.2)
        }
    }
}

/// The tokens of the whole input, starting from empty hash tables.
pub open spec fn fixed_tokens(data: Seq<u8>) -> Seq<Token> {
    greedy_tokens(
        data,
        0,
        Seq::new(HASH_SIZE as nat, |i: int| usize::MAX),
        Seq::new(
            if data.len() > 0 {
                data.len()
            } else {
                1
            },
            |i: int| usize::MAX,
        ),
    )
}

/// The bytes a fixed-Huffman block of `data` packs into: its header, the
/// greedy parse's tokens and the end-of-block symbol.
pub open spec fn fixed_block_bytes(data: Seq<u8>) -> Seq<u8> {
    choose|b: Seq<u8>| packs(b, fixed_stream(fixed_tokens(data)))
}

/// Bytes with the same bits agree bit by bit.
proof fn lemma_bit_agrees(x: u8, y: u8, k: u32)
    requires
        byte_bits(x) == byte_bits(y),
        k < 8,
    ensures
        ((x as u32) >> k) & 1u32 == ((y as u32) >> k) & 1u32,
{
    let a = x as u32;
    let b = y as u32;
    let i = k as int;
    assert(i as u32 == k);
    assert(byte_bits(x)[i] == ((a >> (i as u32)) & 1u32 == 1u32));
    assert(byte_bits(y)[i] == ((b >> (i as u32)) & 1u32 == 1u32));
    assert(byte_bits(x)[i] == byte_bits(y)[i]);
    assert(((a >> k) & 1u32 == 1u32) == ((b >> k) & 1u32 == 1u32));
    assert((a >> k) & 1u32 <= 1u32) by (bit_vector);
    assert((b >> k) & 1u32 <= 1u32) by (bit_vector);
}

/// A byte is determined by its eight bits.
proof fn lemma_byte_bits_injective(x: u8, y: u8)
    requires
        byte_bits(x) == byte_bits(y),
    ensures
        x == y,
{
    let a = x as u32;
    let b = y as u32;
    lemma_bit_agrees(x, y, 0);
    lemma_bit_agrees(x, y, 1);
    lemma_bit_agrees(x, y, 2);
    lemma_bit_agrees(x, y, 3);
    lemma_bit_agrees(x, y, 4);
    lemma_bit_agrees(x, y, 5);
    lemma_bit_agrees(x, y, 6);
    lemma_bit_agrees(x, y, 7);
    assert(a == b) by (bit_vector)
        requires
            a < 256,
            b < 256,
            (a >> 0u32) & 1u32 == (b >> 0u32) & 1u32,
            (a >> 1u32) & 1u32 == (b >> 1u32) & 1u32,
            (a >> 2u32) & 1u32 == (b >> 2u32) & 1u32,
            (a >> 3u32) & 1u32 == (b >> 3u32) & 1u32,
            (a >> 4u32) & 1u32 == (b >> 4u32) & 1u32,
            (a >> 5u32) & 1u32 == (b >> 5u32) & 1u32,
            (a >> 6u32) & 1u32 == (b >> 6u32) & 1u32,
            (a >> 7u32) & 1u32 == (b >> 7u32) & 1u32,
    ;
}

/// A byte string is determined by its bits.
proof fn lemma_bytes_bits_injective(a: Seq<u8>, b: Seq<u8>)
    requires
        bytes_bits(a) == bytes_bits(b),
    ensures
        a == b,
    decreases a.len(),
{
    lemma_bytes_bits_len(a);
    lemma_bytes_bits_len(b);
    if a.len() > 0 {
        let ha = bytes_bits(a.drop_last());
        let hb = bytes_bits(b.drop_last());
        lemma_bytes_bits_len(a.drop_last());
        lemma_bytes_bits_len(b.drop_last());
        let whole = bytes_bits(a);
        assert(whole.subrange(0, ha.len() as int) =~= ha);
        assert(bytes_bits(b).subrange(0, hb.len() as int) =~= hb);
        assert(whole.subrange(ha.len() as int, whole.len() as int) =~= byte_bits(a.last()));
        assert(bytes_bits(b).subrange(hb.len() as int, whole.len() as int) =~= byte_bits(b.last()));
        lemma_byte_bits_injective(a.last(), b.last());
        lemma_bytes_bits_injective(a.drop_last(), b.drop_last());
        assert(a =~= a.drop_last().push(a.last()));
        assert(b =~= b.drop_last().push(b.last()));
    } else {
        assert(a =~= b);
    }
}

/// The packing of a bit string is the only one.
proof fn lemma_packs_unique(a: Seq<u8>, b: Seq<u8>, bits: Seq<bool>)
    requires
        packs(a, bits),
        packs(b, bits),
    ensures
        a == b,
{
    lemma_bytes_bits_injective(a, b);
}

/// Compress with one fixed-Huffman block.
///
/// Returns the raw deflate stream, with no zlib wrapper: the packing of a
/// header, a token sequence that a decoder expands back to `data`, and the
/// end-of-block symbol. At each position the match finder walks the hash
/// chain of the next three bytes, nearest first, for at most
/// [`MAX_CHAIN`] candidates inside the window, and keeps the longest match;
/// a match shorter than [`MIN_MATCH`] is written as a literal.
pub fn fixed_block(data: &[u8]) -> (out: Vec<u8>)
    ensures
        out@ == fixed_block_bytes(data@),
        packs(out@, fixed_stream(fixed_tokens(data@))),
        tokens_ok(fixed_tokens(data@)),
        expand(fixed_tokens(data@)) == data@,
        is_fixed_block_of(out@, data@),
{
    let n = data.len();
    let mut writer = BitWriter::new(n / 2 + 64);
    writer.bits(1, 1);
    writer.bits(1, 2);
    let mut head = filled(usize::MAX, HASH_SIZE);
    let mut prev = filled(usize::MAX, if n > 0 { n } else { 1 });
    let ghost mut tokens: Seq<Token> = Seq::empty();
    let mut at: usize = 0;
    proof {
        assert(head@ =~= Seq::new(HASH_SIZE as nat, |i: int| usize::MAX));
        assert(prev@ =~= Seq::new(
            if data@.len() > 0 {
                data@.len()
            } else {
                1
            },
            |i: int| usize::MAX,
        ));
        assert(tokens + greedy_tokens(data@, 0, head@, prev@) =~= fixed_tokens(data@));
        assert(data@.take(0) =~= Seq::<u8>::empty());
        assert(writer.view_bits() =~= fixed_header() + tokens_bits(tokens));
    }
    while at < n
        invariant
            n == data@.len(),
            at <= n,
            expand(tokens) == data@.take(at as int),
            tokens_ok(tokens),
            writer.wf(),
            writer.view_bits() == fixed_header() + tokens_bits(tokens),
            head@.len() == HASH_SIZE,
            prev@.len() == if n > 0 { n } else { 1 },
            forall|s: int| 0 <= s < HASH_SIZE ==> #[trigger] head@[s] == usize::MAX || head@[s] < at,
            forall|p: int| 0 <= p < prev@.len() ==> #[trigger] prev@[p] == usize::MAX || prev@[p] < p,
            tokens + greedy_tokens(data@, at as int, head@, prev@) == fixed_tokens(data@),
        decreases n - at,
    {
        let ghost found = find_at(data@, at as int, head@, prev@);
        let ghost rest = greedy_tokens(data@, at as int, head@, prev@);
        let mut best_length: usize = 0;
        let mut best_distance: usize = 0;
        if n - at >= MIN_MATCH {
            let slot = hash3(data, at);
            let (length, distance) = longest_match(data, at, head[slot], &prev);
            best_length = length;
            best_distance = distance;
            let chained = head[slot];
            prev.set(at, chained);
            head.set(slot, at);
        }
        proof {
            assert(found.0 == (best_length, best_distance));
            assert(found.1 == head@);
            assert(found.2 == prev@);
        }
        if best_length >= MIN_MATCH {
            emit_match(&mut writer, best_length, best_distance);
            let ghost token = Token::Match { length: best_length as u16, distance: best_distance as u16 };
            proof {
                lemma_push_token(tokens, token);
                lemma_copy_back(data@, at as int, best_length as nat, best_distance as int);
                lemma_tokens_ok_push(tokens, token);
                tokens = tokens.push(token);
                assert(writer.view_bits() =~= fixed_header() + tokens_bits(tokens));
            }
            index_covered(data, &mut head, &mut prev, at, best_length);
            proof {
                assert(rest == seq![token] + greedy_tokens(
                    data@,
                    at + best_length,
                    head@,
                    prev@,
                ));
                assert(tokens + greedy_tokens(data@, at + best_length, head@, prev@) =~= tokens.drop_last()
                    + rest);
            }
            at += best_length;
        } else {
            let byte = data[at];
            let (code, bits) = fixed_literal(byte as u16);
            writer.code(code, bits);
            let ghost token = Token::Literal(byte);
            proof {
                lemma_push_token(tokens, token);
                lemma_tokens_ok_push(tokens, token);
                assert(data@.take(at as int).push(byte) =~= data@.take(at + 1));
                assert(rest == seq![token] + greedy_tokens(data@, at + 1, head@, prev@));
                assert(tokens.push(token) + greedy_tokens(data@, at + 1, head@, prev@) =~= tokens
                    + rest);
                tokens = tokens.push(token);
                assert(writer.view_bits() =~= fixed_header() + tokens_bits(tokens));
            }
            at += 1;
        }
    }
    let (code, bits) = fixed_literal(256);
    writer.code(code, bits);
    let out = writer.finish();
    proof {
        assert(data@.take(n as int) =~= data@);
        assert(tokens =~= fixed_tokens(data@));
        assert(writer.view_bits() == fixed_stream(tokens));
        let chosen = fixed_block_bytes(data@);
        assert(packs(out@, fixed_stream(fixed_tokens(data@))));
        assert(packs(chosen, fixed_stream(fixed_tokens(data@))));
        lemma_packs_unique(out@, chosen, fixed_stream(fixed_tokens(data@)));
    }
    out
}

/// The five header bytes of a stored block: the final-block flag, then the
/// length and its one's complement, each as two little-endian bytes.
pub open spec fn stored_header(last: bool, len: int) -> Seq<u8> {
    seq![
        if last { 1u8 } else { 0u8 },
        (len % 256) as u8,
        (len / 256) as u8,
        ((0xFFFF - len) % 256) as u8,
        ((0xFFFF - len) / 256) as u8,
    ]
}

/// Stored blocks of at most [`MAX_STORED`] bytes each, the last one flagged
/// final.
pub open spec fn stored_chunks(data: Seq<u8>) -> Seq<u8>
    decreases data.len(),
{
    if data.len() <= MAX_STORED {
        stored_header(true, data.len() as int) + data
    } else {
        stored_header(false, MAX_STORED as int) + data.take(MAX_STORED as int) + stored_chunks(
            data.skip(MAX_STORED as int),
        )
    }
}

/// The stored-block encoding of `data`: one empty final block for empty
/// input, else the input cut into stored blocks.
pub open spec fn stored_spec(data: Seq<u8>) -> Seq<u8> {
    if data.len() == 0 {
        seq![0x01u8, 0x00u8, 0x00u8, 0xFFu8, 0xFFu8]
    } else {
        stored_chunks(data)
    }
}

/// A deflate stream for `data`: a fixed-Huffman block or its stored blocks.
pub open spec fn is_deflate_of(out: Seq<u8>, data: Seq<u8>) -> bool {
    is_fixed_block_of(out, data) || out == stored_spec(data)
}

fn push_stored_header(out: &mut Vec<u8>, last: bool, len: usize)
    requires
        len <= MAX_STORED,
    ensures
        final(out)@ == old(out)@ + stored_header(last, len as int),
{
    let complement = MAX_STORED - len;
    out.push(if last { 1 } else { 0 });
    out.push((len % 256) as u8);
    out.push((len / 256) as u8);
    out.push((complement % 256) as u8);
    out.push((complement / 256) as u8);
    proof {
        assert(final(out)@ =~= old(out)@ + stored_header(last, len as int));
    }
}

fn push_range(out: &mut Vec<u8>, data: &[u8], from: usize, to: usize)
    requires
        from <= to <= data@.len(),
    ensures
        final(out)@ == old(out)@ + data@.subrange(from as int, to as int),
{
    let ghost start = out@;
    let mut i = from;
    while i < to
        invariant
            from <= i <= to <= data@.len(),
            out@ == start + data@.subrange(from as int, i as int),
        decreases to - i,
    {
        out.push(data[i]);
        i += 1;
        proof {
            assert(out@ =~= start + data@.subrange(from as int, i as int));
        }
    }
}

/// Wrap data in stored deflate blocks: correct, and no smaller than the input.
pub fn stored_blocks(data: &[u8]) -> (out: Vec<u8>)
    ensures
        out@ == stored_spec(data@),
{
    let n = data.len();
    let mut out: Vec<u8> = Vec::new();
    if n == 0 {
        push_stored_header(&mut out, true, 0);
        proof {
            assert(out@ =~= stored_spec(data@));
        }
        return out;
    }
    let mut pos: usize = 0;
    let mut finished = false;
    proof {
        assert(data@.skip(0) =~= data@);
        assert(out@ + stored_chunks(data@) =~= stored_chunks(data@));
    }
    while !finished
        invariant
            n == data@.len(),
            n > 0,
            !finished ==> pos < n,
            !finished ==> out@ + stored_chunks(data@.skip(pos as int)) == stored_chunks(data@),
            finished ==> out@ == stored_chunks(data@),
        decreases n - pos + (if finished { 0int } else { 1int }),
    {
        let ghost rest = data@.skip(pos as int);
        if n - pos <= MAX_STORED {
            let ghost before = out@;
            push_stored_header(&mut out, true, n - pos);
            push_range(&mut out, data, pos, n);
            proof {
                assert(data@.subrange(pos as int, n as int) =~= rest);
                assert(stored_chunks(rest) == stored_header(true, rest.len() as int) + rest);
                assert(out@ =~= before + stored_chunks(rest));
            }
            finished = true;
        } else {
            let ghost before = out@;
            push_stored_header(&mut out, false, MAX_STORED);
            push_range(&mut out, data, pos, pos + MAX_STORED);
            proof {
                assert(data@.subrange(pos as int, pos + MAX_STORED) =~= rest.take(MAX_STORED as int));
                assert(rest.skip(MAX_STORED as int) =~= data@.skip(pos + MAX_STORED));
                assert(stored_chunks(rest) == stored_header(false, MAX_STORED as int) + rest.take(
                    MAX_STORED as int,
                ) + stored_chunks(rest.skip(MAX_STORED as int)));
                assert(out@ + stored_chunks(data@.skip(pos + MAX_STORED)) =~= before + stored_chunks(
                    rest,
                ));
            }
            pos += MAX_STORED;
        }
    }
    out
}

/// Compress, falling back to stored blocks when compressing would not help.
///
/// Fixed Huffman spends nine bits on any byte above 143, so on data with no
/// structure it can come out larger than it went in; trying both and keeping
/// the smaller removes that case entirely.
pub fn deflate(data: &[u8]) -> (out: Vec<u8>)
    ensures
        out@ == if fixed_block_bytes(data@).len() < stored_spec(data@).len() {
            fixed_block_bytes(data@)
        } else {
            stored_spec(data@)
        },
        is_deflate_of(out@, data@),
        out@.len() <= stored_spec(data@).len(),
{
    let compressed = fixed_block(data);
    let stored = stored_blocks(data);
    if compressed.len() < stored.len() {
        compressed
    } else {
        stored
    }
}

} // verus!
