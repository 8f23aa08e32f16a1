//! FNV-1a, 64-bit.
//!
//! Used wherever a value must be a pure function of its inputs on every
//! platform: world identities, positional terrain values, noise lattices and
//! content hashes. Each byte is folded in as `state = (state ^ byte) * prime`,
//! wrapping at 64 bits, starting from the offset basis.

use vstd::prelude::*;
use vstd::string::*;

verus! {

/// The FNV-1a 64-bit offset basis.
pub const FNV_OFFSET_BASIS: u64 = 0xcbf2_9ce4_8422_2325;

/// The FNV-1a 64-bit prime.
pub const FNV_PRIME: u64 = 0x0000_0100_0000_01b3;

/// One FNV-1a step.
pub open spec fn fnv_step(state: u64, byte: u8) -> u64 {
    vstd::wrapping::u64_specs::wrapping_mul(state ^ (byte as u64), FNV_PRIME)
}

/// The state after folding `bytes` into `state`, first byte first.
pub open spec fn fnv_fold(state: u64, bytes: Seq<u8>) -> u64
    decreases bytes.len(),
{
    if bytes.len() == 0 {
        state
    } else {
        fnv_step(fnv_fold(state, bytes.drop_last()), bytes.last())
    }
}

/// The hash of a byte string.
pub open spec fn fnv1a64_spec(bytes: Seq<u8>) -> u64 {
    fnv_fold(FNV_OFFSET_BASIS, bytes)
}

/// The eight bytes of a `u64`, least significant first.
pub open spec fn le_bytes_u64(value: u64) -> Seq<u8> {
    Seq::new(8, |i: int| (value >> ((8 * i) as u64)) as u8)
}

/// Folding a concatenation folds one part after the other.
pub proof fn lemma_fold_append(state: u64, a: Seq<u8>, b: Seq<u8>)
    ensures
        fnv_fold(state, a + b) == fnv_fold(fnv_fold(state, a), b),
    decreases b.len(),
{
    if b.len() == 0 {
        assert(a + b =~= a);
    } else {
        lemma_fold_append(state, a, b.drop_last());
        assert((a + b).drop_last() =~= a + b.drop_last());
    }
}

/// Fold `bytes` into `state`.
pub fn fnv_extend(state: u64, bytes: &[u8]) -> (r: u64)
    ensures
        r == fnv_fold(state, bytes@),
{
    let mut h = state;
    let mut i: usize = 0;
    while i < bytes.len()
        invariant
            i <= bytes@.len(),
            h == fnv_fold(state, bytes@.take(i as int)),
        decreases bytes.len() - i,
    {
        proof {
            assert(bytes@.take(i + 1).drop_last() =~= bytes@.take(i as int));
        }
        h = (h ^ (bytes[i] as u64)).wrapping_mul(FNV_PRIME);
        i += 1;
    }
    proof {
        assert(bytes@.take(i as int) =~= bytes@);
    }
    h
}

/// The FNV-1a 64-bit hash of a byte string.
pub fn fnv1a64(bytes: &[u8]) -> (r: u64)
    ensures
        r == fnv1a64_spec(bytes@),
{
    fnv_extend(FNV_OFFSET_BASIS, bytes)
}

/// The bytes of a `u64`, least significant first.
pub fn u64_le_bytes(value: u64) -> (r: [u8; 8])
    ensures
        r@ == le_bytes_u64(value),
{
    let r: [u8; 8] = [
        value as u8,
        (value >> 8u64) as u8,
        (value >> 16u64) as u8,
        (value >> 24u64) as u8,
        (value >> 32u64) as u8,
        (value >> 40u64) as u8,
        (value >> 48u64) as u8,
        (value >> 56u64) as u8,
    ];
    proof {
        assert(value >> 0u64 == value) by (bit_vector);
        assert(r@ =~= le_bytes_u64(value));
    }
    r
}

/// An incremental FNV-1a hasher.
#[derive(Debug, Clone, Copy, PartialEq, Eq, Structural)]
pub struct Fnv1a64 {
    state: u64,
}

impl Fnv1a64 {
    /// The state so far.
    pub closed spec fn spec_state(self) -> u64 {
        self.state
    }

    /// A hasher at the offset basis.
    pub fn new() -> (h: Self)
        ensures
            h.spec_state() == FNV_OFFSET_BASIS,
    {
        Fnv1a64 { state: FNV_OFFSET_BASIS }
    }

    /// Fold in raw bytes.
    pub fn write(&mut self, bytes: &[u8])
        ensures
            final(self).spec_state() == fnv_fold(old(self).spec_state(), bytes@),
    {
        self.state = fnv_extend(self.state, bytes);
    }

    /// Fold in a `u64` as its eight little-endian bytes.
    pub fn write_u64(&mut self, value: u64)
        ensures
            final(self).spec_state() == fnv_fold(old(self).spec_state(), le_bytes_u64(value)),
    {
        let bytes = u64_le_bytes(value);
        self.write(bytes.as_slice());
    }

    /// Fold in the UTF-8 bytes of a string.
    pub fn write_str(&mut self, text: &str)
        ensures
            final(self).spec_state() == fnv_fold(old(self).spec_state(), text.spec_bytes()),
    {
        self.write(text.as_bytes());
    }

    /// The hash of everything written.
    pub fn finish(&self) -> (r: u64)
        ensures
            r == self.spec_state(),
    {
        self.state
    }
}

/// The reflected CRC-32 polynomial of CRC-32/ISO-HDLC.
pub const CRC32_POLY: u32 = 0xEDB8_8320;

/// One bit step of the reflected CRC register.
pub open spec fn crc_bit(c: u32) -> u32 {
    if c & 1u32 == 1u32 {
        (c >> 1u32) ^ CRC32_POLY
    } else {
        c >> 1u32
    }
}

/// `k` bit steps of the CRC register.
pub open spec fn crc_bits(c: u32, k: nat) -> u32
    decreases k,
{
    if k == 0 {
        c
    } else {
        crc_bit(crc_bits(c, (k - 1) as nat))
    }
}

/// The register after folding `bytes` in, first byte first.
pub open spec fn crc_fold(c: u32, bytes: Seq<u8>) -> u32
    decreases bytes.len(),
{
    if bytes.len() == 0 {
        c
    } else {
        crc_bits(crc_fold(c, bytes.drop_last()) ^ (bytes.last() as u32), 8)
    }
}

/// CRC-32/ISO-HDLC, the checksum of every PNG chunk.
pub open spec fn crc32_spec(bytes: Seq<u8>) -> u32 {
    !crc_fold(0xFFFF_FFFFu32, bytes)
}

/// CRC-32/ISO-HDLC of a byte string.
pub fn crc32(bytes: &[u8]) -> (r: u32)
    ensures
        r == crc32_spec(bytes@),
{
    let mut c: u32 = 0xFFFF_FFFF;
    let mut i: usize = 0;
    while i < bytes.len()
        invariant
            i <= bytes@.len(),
            c == crc_fold(0xFFFF_FFFFu32, bytes@.take(i as int)),
        decreases bytes.len() - i,
    {
        proof {
            assert(bytes@.take(i + 1).drop_last() =~= bytes@.take(i as int));
        }
        let start = c ^ (bytes[i] as u32);
        c = start;
        let mut k: u32 = 0;
        while k < 8
            invariant
                k <= 8,
                c == crc_bits(start, k as nat),
            decreases 8 - k,
        {
            c = if c & 1 == 1 {
                (c >> 1) ^ CRC32_POLY
            } else {
                c >> 1
            };
            k += 1;
        }
        i += 1;
    }
    proof {
        assert(bytes@.take(i as int) =~= bytes@);
    }
    !c
}

} // verus!
