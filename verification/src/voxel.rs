//! Voxel storage for one chunk section.
//!
//! A section stores one of three representations and moves between them as
//! its contents change:
//!
//! ```text
//! Uniform    - every cell is the same state. An all-air section costs one u32.
//! Paletted   - few distinct states; cells are indices packed at the minimum
//!              bit width the palette needs.
//! Direct     - too many distinct states for a palette to pay for itself.
//! ```
//!
//! Whatever the representation, a section *means* one thing: a sequence of
//! block states, one per cell (its view). Every operation is specified over
//! that view, so a promotion or a compaction is proved to change nothing a
//! reader can see.

use vstd::prelude::*;
use vstd::arithmetic::div_mod::*;
use vstd::arithmetic::mul::*;
use vstd::arithmetic::power2::*;
use vstd::bits::*;

use crate::spatial::{ChunkShape, LocalPos, SpatialError, lemma_volume_bounds, lemma_index_in_range};

verus! {

/// A block state handle, valid within one runtime session.
#[derive(Debug, Clone, Copy, PartialEq, Eq, Structural, Hash, PartialOrd, Ord)]
pub struct BlockStateId(pub u32);

/// The runtime id of the empty block.
pub const AIR_ID: u32 = 0;

/// The empty block as a state.
pub open spec fn spec_air() -> BlockStateId {
    BlockStateId(AIR_ID)
}

/// The empty block, pinned to runtime id 0.
///
/// Air is registered first by every world, so "is this section empty" is
/// answered without consulting a registry.
#[verifier::when_used_as_spec(spec_air)]
pub fn air() -> (a: BlockStateId)
    ensures
        a == spec_air(),
{
    BlockStateId(AIR_ID)
}

/// Largest palette index width before a section switches to direct storage.
pub const MAX_PALETTE_BITS: u8 = 12;

/// Largest palette a section will hold before promoting to direct storage.
pub const MAX_PALETTE_LEN: usize = 4096;

/// How many palette entries an index of `bits` bits can address.
pub open spec fn capacity(bits: u8) -> nat {
    pow2(bits as nat)
}

/// The exact width [`bits_for`] picks for a palette of `len` entries: the
/// smallest width from one up that addresses them all, capped at
/// [`MAX_PALETTE_BITS`].
pub open spec fn is_bits_for(len: nat, bits: u8) -> bool {
    &&& 1 <= bits <= MAX_PALETTE_BITS
    &&& (bits == MAX_PALETTE_BITS || capacity(bits) >= len)
    &&& forall|b: u8| 1 <= b < bits ==> capacity(b) < len
}

/// Indices of `bits` bits that fit in one word, without straddling.
pub open spec fn per_word(bits: u8) -> int {
    64int / (bits as int)
}

/// Words that hold `volume` indices of `bits` bits.
pub open spec fn spec_word_count(volume: int, bits: u8) -> int {
    (volume + per_word(bits) - 1) / per_word(bits)
}

/// The mask of one packed field.
pub open spec fn field_mask(bits: u8) -> u64 {
    (pow2(bits as nat) - 1) as u64
}

/// The word holding packed index `index`.
pub open spec fn word_of(bits: u8, index: int) -> int {
    index / per_word(bits)
}

/// The bit offset of packed index `index` inside its word.
pub open spec fn offset_of(bits: u8, index: int) -> int {
    (index % per_word(bits)) * (bits as int)
}

/// A word with the field at `offset` of `bits` bits replaced by `value`,
/// cut to the field's width.
pub open spec fn field_write(word: u64, bits: u8, offset: int, value: u64) -> u64 {
    (word & !(field_mask(bits) << (offset as u64))) | ((value & field_mask(bits)) << (offset as u64))
}

/// The words after `value` is packed at `index`: only the word holding that
/// index changes, and nothing when the index is past the end.
pub open spec fn packed_write(words: Seq<u64>, bits: u8, index: int, value: u64) -> Seq<u64> {
    let w = word_of(bits, index);
    if 0 <= w < words.len() {
        words.update(w, field_write(words[w], bits, offset_of(bits, index), value))
    } else {
        words
    }
}

/// The value packed at `index`; zero past the end of the words.
pub open spec fn packed_at(words: Seq<u64>, bits: u8, index: int) -> u64 {
    let w = word_of(bits, index);
    if 0 <= w < words.len() {
        (words[w] >> (offset_of(bits, index) as u64)) & field_mask(bits)
    } else {
        0
    }
}

/// Facts about widths from one to [`MAX_PALETTE_BITS`].
proof fn lemma_width_facts(bits: u8)
    requires
        1 <= bits <= MAX_PALETTE_BITS,
    ensures
        5 <= per_word(bits) <= 64,
        per_word(bits) * (bits as int) <= 64,
        2 <= capacity(bits) <= 4096,
        field_mask(bits) == capacity(bits) - 1,
        (1u64 << (bits as u64)) == capacity(bits),
        field_mask(bits) == ((1u64 << (bits as u64)) - 1) as u64,
{
    lemma2_to64();
    lemma_u64_pow2_no_overflow(bits as nat);
    lemma_u64_shl_is_mul(1, bits as u64);
    let b = bits as int;
    assert(5 <= 64int / b <= 64 && (64int / b) * b <= 64) by {
        lemma_fundamental_div_mod(64, b);
        lemma_mod_bound(64, b);
        if b <= 12 {
            lemma_div_is_ordered_by_denominator(64, b, 12);
        }
        lemma_div_is_ordered_by_denominator(64, 1, b);
    }
    if bits == 1 {
    } else if bits == 2 {
    } else if bits == 3 {
    } else if bits == 4 {
    } else if bits == 5 {
    } else if bits == 6 {
    } else if bits == 7 {
    } else if bits == 8 {
    } else if bits == 9 {
    } else if bits == 10 {
    } else if bits == 11 {
    } else {
    }
}

/// A packed index sits in a field that lies inside its word.
proof fn lemma_offset_bounds(bits: u8, index: int)
    requires
        1 <= bits <= MAX_PALETTE_BITS,
        index >= 0,
    ensures
        0 <= offset_of(bits, index),
        offset_of(bits, index) + bits <= 64,
        offset_of(bits, index) % (bits as int) == 0,
        0 <= word_of(bits, index),
{
    lemma_width_facts(bits);
    let per = per_word(bits);
    let b = bits as int;
    lemma_mod_bound(index, per);
    lemma_div_pos_is_pos(index, per);
    let k = index % per;
    assert(0 <= k * b && k * b + b <= 64) by (nonlinear_arith)
        requires
            0 <= k < per,
            per * b <= 64,
            b >= 1,
    {
        assert(k * b + b == (k + 1) * b);
        assert((k + 1) * b <= per * b);
    }
    lemma_mod_multiples_basic(k, b);
    lemma_mul_is_commutative(k, b);
}

/// Two different indices in the same word occupy disjoint fields.
proof fn lemma_fields_disjoint(bits: u8, i: int, j: int)
    requires
        1 <= bits <= MAX_PALETTE_BITS,
        i >= 0,
        j >= 0,
        i != j,
        word_of(bits, i) == word_of(bits, j),
    ensures
        offset_of(bits, i) + bits <= offset_of(bits, j) || offset_of(bits, j) + bits <= offset_of(
            bits,
            i,
        ),
{
    lemma_width_facts(bits);
    let per = per_word(bits);
    let b = bits as int;
    lemma_fundamental_div_mod(i, per);
    lemma_fundamental_div_mod(j, per);
    let ki = i % per;
    let kj = j % per;
    assert(ki != kj);
    if ki < kj {
        assert(ki * b + b <= kj * b) by (nonlinear_arith)
            requires
                ki < kj,
                b >= 1,
        {
            assert(ki * b + b == (ki + 1) * b);
        }
    } else {
        assert(kj * b + b <= ki * b) by (nonlinear_arith)
            requires
                kj < ki,
                b >= 1,
        {
            assert(kj * b + b == (kj + 1) * b);
        }
    }
}

/// Writing one field and reading it back gives the written value, masked.
proof fn lemma_field_write_same(w: u64, v: u64, o: u64, b: u64, m: u64)
    requires
        1 <= b <= 12,
        o + b <= 64,
        m == ((1u64 << b) - 1) as u64,
    ensures
        ((((w & !(m << o)) | ((v & m) << o)) >> o) & m) == (v & m),
{
    assert(((((w & !(m << o)) | ((v & m) << o)) >> o) & m) == (v & m)) by (bit_vector)
        requires
            1 <= b <= 12,
            o + b <= 64,
            m == ((1u64 << b) - 1) as u64,
    ;
}

/// Writing one field leaves a disjoint field alone.
proof fn lemma_field_write_other(w: u64, v: u64, o1: u64, o2: u64, b: u64, m: u64)
    requires
        1 <= b <= 12,
        o1 + b <= 64,
        o2 + b <= 64,
        o1 + b <= o2 || o2 + b <= o1,
        m == ((1u64 << b) - 1) as u64,
    ensures
        ((((w & !(m << o1)) | ((v & m) << o1)) >> o2) & m) == ((w >> o2) & m),
{
    assert(((((w & !(m << o1)) | ((v & m) << o1)) >> o2) & m) == ((w >> o2) & m)) by (bit_vector)
        requires
            1 <= b <= 12,
            o1 + b <= 64,
            o2 + b <= 64,
            o1 + b <= o2 || o2 + b <= o1,
            m == ((1u64 << b) - 1) as u64,
    ;
}

/// A masked value is at most the mask, and a value within a narrower mask
/// survives a wider one.
proof fn lemma_mask_facts(x: u64, b1: u64, b2: u64)
    requires
        1 <= b1 <= b2 <= 12,
    ensures
        (x & (((1u64 << b1) - 1) as u64)) <= (((1u64 << b1) - 1) as u64),
        x <= (((1u64 << b1) - 1) as u64) ==> (x & (((1u64 << b2) - 1) as u64)) == x,
{
    assert((x & (((1u64 << b1) - 1) as u64)) <= (((1u64 << b1) - 1) as u64)) by (bit_vector)
        requires
            1 <= b1 <= 12,
    ;
    assert(x <= (((1u64 << b1) - 1) as u64) ==> (x & (((1u64 << b2) - 1) as u64)) == x)
        by (bit_vector)
        requires
            1 <= b1 <= b2 <= 12,
    ;
}

/// A packed value is always below the capacity of its width.
pub proof fn lemma_packed_bound(words: Seq<u64>, bits: u8, index: int)
    requires
        1 <= bits <= MAX_PALETTE_BITS,
    ensures
        packed_at(words, bits, index) < capacity(bits),
{
    lemma_width_facts(bits);
    let w = word_of(bits, index);
    if 0 <= w < words.len() {
        lemma_mask_facts(words[w] >> (offset_of(bits, index) as u64), bits as u64, bits as u64);
    }
}

/// Enough words for every index below the volume.
proof fn lemma_word_count_covers(volume: int, bits: u8, index: int)
    requires
        1 <= bits <= MAX_PALETTE_BITS,
        0 <= index < volume,
    ensures
        0 <= word_of(bits, index) < spec_word_count(volume, bits),
{
    lemma_width_facts(bits);
    let per = per_word(bits);
    lemma_div_pos_is_pos(index, per);
    lemma_fundamental_div_mod(index, per);
    lemma_mod_bound(index, per);
    lemma_fundamental_div_mod(volume + per - 1, per);
    lemma_mod_bound(volume + per - 1, per);
    let q = index / per;
    let c = (volume + per - 1) / per;
    assert(q < c) by (nonlinear_arith)
        requires
            index == per * q + index % per,
            0 <= index % per < per,
            volume + per - 1 == per * c + (volume + per - 1) % per,
            0 <= (volume + per - 1) % per < per,
            index < volume,
            per >= 1,
    {
        if q >= c {
            assert(per * q >= per * c);
        }
    }
}

/// Smallest index width that can address `len` palette entries.
pub fn bits_for(len: usize) -> (bits: u8)
    ensures
        is_bits_for(len as nat, bits),
{
    let mut bits = 1u8;
    proof {
        lemma2_to64();
    }
    while (1usize << bits) < len && bits < MAX_PALETTE_BITS
        invariant
            1 <= bits <= MAX_PALETTE_BITS,
            forall|b: u8| 1 <= b < bits ==> capacity(b) < len,
        decreases MAX_PALETTE_BITS - bits,
    {
        proof {
            lemma_usize_pow2_no_overflow(bits as nat);
            lemma_usize_shl_is_mul(1, bits as usize);
        }
        bits += 1;
    }
    proof {
        lemma_usize_pow2_no_overflow(bits as nat);
        lemma_usize_shl_is_mul(1, bits as usize);
    }
    bits
}

/// How many `u64` words hold `volume` indices of `bits` each.
///
/// Indices never straddle a word boundary.
pub fn word_count(volume: usize, bits: u8) -> (n: usize)
    requires
        1 <= bits <= 64,
    ensures
        n == spec_word_count(volume as int, bits),
{
    let per_word = 64 / (bits as usize);
    proof {
        let b = bits as int;
        lemma_div_is_ordered_by_denominator(64, b, 64);
        lemma_fundamental_div_mod(volume as int, per_word as int);
        lemma_mod_bound(volume as int, per_word as int);
        let q = (volume as int) / (per_word as int);
        let r = (volume as int) % (per_word as int);
        lemma_mul_is_commutative(q, per_word as int);
        if r != 0 {
            assert(per_word >= 2);
            assert(q * per_word >= 2 * q) by (nonlinear_arith)
                requires
                    per_word >= 2,
                    q >= 0,
            ;
        }
        if r == 0 {
            lemma_fundamental_div_mod_converse(
                volume + per_word - 1,
                per_word as int,
                q,
                per_word - 1,
            );
        } else {
            lemma_mul_is_distributive_add_other_way(per_word as int, q, 1);
            lemma_fundamental_div_mod_converse(
                volume + per_word - 1,
                per_word as int,
                q + 1,
                r - 1,
            );
        }
        lemma_div_pos_is_pos(volume as int, per_word as int);
        lemma_div_is_ordered_by_denominator(volume as int, 1, per_word as int);
    }
    let whole = volume / per_word;
    if volume % per_word != 0 {
        whole + 1
    } else {
        whole
    }
}

/// Read the index packed at `index`; zero past the end of the words.
pub fn read_packed(words: &Vec<u64>, bits: u8, index: usize) -> (r: u64)
    requires
        1 <= bits <= MAX_PALETTE_BITS,
    ensures
        r == packed_at(words@, bits, index as int),
        r < capacity(bits),
{
    proof {
        lemma_width_facts(bits);
        lemma_offset_bounds(bits, index as int);
        lemma_packed_bound(words@, bits, index as int);
    }
    let per_word = 64 / (bits as usize);
    let word = index / per_word;
    let offset = (index % per_word) * (bits as usize);
    let mask = (1u64 << bits) - 1;
    if word < words.len() {
        (words[word] >> (offset as u64)) & mask
    } else {
        0
    }
}

/// Write `value`, masked to `bits`, as the index packed at `index`.
///
/// A position past the end of the words is ignored.
pub fn write_packed(words: &mut Vec<u64>, bits: u8, index: usize, value: u64)
    requires
        1 <= bits <= MAX_PALETTE_BITS,
    ensures
        final(words)@.len() == old(words)@.len(),
        final(words)@ == packed_write(old(words)@, bits, index as int, value),
        word_of(bits, index as int) >= old(words)@.len() ==> final(words)@ == old(words)@,
        word_of(bits, index as int) < old(words)@.len() ==> packed_at(
            final(words)@,
            bits,
            index as int,
        ) == value & field_mask(bits),
        forall|j: int|
            0 <= j && j != index ==> #[trigger] packed_at(final(words)@, bits, j) == packed_at(
                old(words)@,
                bits,
                j,
            ),
{
    proof {
        lemma_width_facts(bits);
        lemma_offset_bounds(bits, index as int);
    }
    let per_word = 64 / (bits as usize);
    let word = index / per_word;
    let offset = (index % per_word) * (bits as usize);
    let mask = (1u64 << bits) - 1;
    if word < words.len() {
        let old_word = words[word];
        let new_word = (old_word & !(mask << (offset as u64))) | ((value & mask) << (offset as u64));
        words.set(word, new_word);
        proof {
            lemma_field_write_same(old_word, value, offset as u64, bits as u64, mask);
            assert forall|j: int| 0 <= j && j != index implies #[trigger] packed_at(
                words@,
                bits,
                j,
            ) == packed_at(old(words)@, bits, j) by {
                if word_of(bits, j) == word as int {
                    lemma_offset_bounds(bits, j);
                    lemma_fields_disjoint(bits, index as int, j);
                    lemma_field_write_other(
                        old_word,
                        value,
                        offset as u64,
                        offset_of(bits, j) as u64,
                        bits as u64,
                        mask,
                    );
                }
            }
        }
    }
}

/// Re-pack `volume` indices from one width to a wider one.
pub fn repack(words: &Vec<u64>, from_bits: u8, to_bits: u8, volume: usize) -> (out: Vec<u64>)
    requires
        1 <= from_bits <= to_bits <= MAX_PALETTE_BITS,
    ensures
        out@.len() == spec_word_count(volume as int, to_bits),
        forall|i: int|
            0 <= i < volume ==> #[trigger] packed_at(out@, to_bits, i) == packed_at(
                words@,
                from_bits,
                i,
            ),
{
    let count = word_count(volume, to_bits);
    let mut out: Vec<u64> = Vec::new();
    let mut k: usize = 0;
    while k < count
        invariant
            k <= count,
            out@.len() == k,
            forall|j: int| 0 <= j < k ==> out@[j] == 0u64,
        decreases count - k,
    {
        out.push(0u64);
        k += 1;
    }
    let mut index: usize = 0;
    while index < volume
        invariant
            1 <= from_bits <= to_bits <= MAX_PALETTE_BITS,
            index <= volume,
            out@.len() == count,
            count == spec_word_count(volume as int, to_bits),
            forall|i: int|
                0 <= i < index ==> #[trigger] packed_at(out@, to_bits, i) == packed_at(
                    words@,
                    from_bits,
                    i,
                ),
        decreases volume - index,
    {
        let value = read_packed(words, from_bits, index);
        proof {
            lemma_word_count_covers(volume as int, to_bits, index as int);
            lemma_width_facts(from_bits);
            lemma_width_facts(to_bits);
            lemma_mask_facts(value, from_bits as u64, to_bits as u64);
        }
        write_packed(&mut out, to_bits, index, value);
        index += 1;
    }
    out
}


/// Whether a state is something other than air.
pub open spec fn weight(s: BlockStateId) -> nat {
    if s == spec_air() {
        0
    } else {
        1
    }
}

/// How many cells of a sequence hold something other than air.
pub open spec fn count_non_air(cells: Seq<BlockStateId>) -> nat
    decreases cells.len(),
{
    if cells.len() == 0 {
        0
    } else {
        count_non_air(cells.drop_last()) + weight(cells.last())
    }
}

/// A count never exceeds the number of cells.
pub proof fn lemma_count_bound(cells: Seq<BlockStateId>)
    ensures
        count_non_air(cells) <= cells.len(),
    decreases cells.len(),
{
    if cells.len() > 0 {
        lemma_count_bound(cells.drop_last());
    }
}

/// Replacing one cell moves the count by exactly that cell's difference.
pub proof fn lemma_count_update(cells: Seq<BlockStateId>, i: int, v: BlockStateId)
    requires
        0 <= i < cells.len(),
    ensures
        count_non_air(cells.update(i, v)) + weight(cells[i]) == count_non_air(cells) + weight(v),
    decreases cells.len(),
{
    let updated = cells.update(i, v);
    if i == cells.len() - 1 {
        assert(updated.drop_last() =~= cells.drop_last());
    } else {
        assert(updated.drop_last() =~= cells.drop_last().update(i, v));
        lemma_count_update(cells.drop_last(), i, v);
    }
}

/// A cell holding something other than air is counted.
pub proof fn lemma_count_at_least(cells: Seq<BlockStateId>, i: int)
    requires
        0 <= i < cells.len(),
    ensures
        count_non_air(cells) >= weight(cells[i]),
{
    lemma_count_update(cells, i, spec_air());
}

/// A constant sequence counts all of its cells, or none of them.
pub proof fn lemma_count_constant(cells: Seq<BlockStateId>, s: BlockStateId)
    requires
        forall|i: int| 0 <= i < cells.len() ==> cells[i] == s,
    ensures
        count_non_air(cells) == (if s == spec_air() {
            0
        } else {
            cells.len()
        }),
    decreases cells.len(),
{
    if cells.len() > 0 {
        lemma_count_constant(cells.drop_last(), s);
    }
}

/// Counting a prefix one cell further.
pub proof fn lemma_count_prefix_step(cells: Seq<BlockStateId>, i: int)
    requires
        0 <= i < cells.len(),
    ensures
        count_non_air(cells.take(i + 1)) == count_non_air(cells.take(i)) + weight(cells[i]),
{
    assert(cells.take(i + 1).drop_last() =~= cells.take(i));
}

/// Every packed value reads as zero from zeroed words.
proof fn lemma_zero_words(words: Seq<u64>, bits: u8, index: int)
    requires
        1 <= bits <= MAX_PALETTE_BITS,
        forall|k: int| 0 <= k < words.len() ==> words[k] == 0u64,
    ensures
        packed_at(words, bits, index) == 0,
{
    let w = word_of(bits, index);
    if 0 <= w < words.len() {
        let o = offset_of(bits, index) as u64;
        let m = field_mask(bits);
        assert(((0u64 >> o) & m) == 0u64) by (bit_vector);
    }
}

/// `n` zeroed words.
fn zero_words(n: usize) -> (v: Vec<u64>)
    ensures
        v@.len() == n,
        forall|k: int| 0 <= k < n ==> v@[k] == 0u64,
{
    let mut v: Vec<u64> = Vec::new();
    let mut k: usize = 0;
    while k < n
        invariant
            k <= n,
            v@.len() == k,
            forall|j: int| 0 <= j < k ==> v@[j] == 0u64,
        decreases n - k,
    {
        v.push(0u64);
        k += 1;
    }
    v
}

/// A copy of a list of states.
fn copy_states(src: &Vec<BlockStateId>) -> (v: Vec<BlockStateId>)
    ensures
        v@ == src@,
{
    let mut v: Vec<BlockStateId> = Vec::new();
    let mut k: usize = 0;
    while k < src.len()
        invariant
            k <= src.len(),
            v@ == src@.take(k as int),
        decreases src.len() - k,
    {
        v.push(src[k]);
        k += 1;
        proof {
            assert(v@ =~= src@.take(k as int));
        }
    }
    proof {
        assert(v@ =~= src@);
    }
    v
}

/// A copy of a list of words.
fn copy_words(src: &Vec<u64>) -> (v: Vec<u64>)
    ensures
        v@ == src@,
{
    let mut v: Vec<u64> = Vec::new();
    let mut k: usize = 0;
    while k < src.len()
        invariant
            k <= src.len(),
            v@ == src@.take(k as int),
        decreases src.len() - k,
    {
        v.push(src[k]);
        k += 1;
        proof {
            assert(v@ =~= src@.take(k as int));
        }
    }
    proof {
        assert(v@ =~= src@);
    }
    v
}

/// The first position of `state` in `palette`, if it is there.
fn position_of(palette: &Vec<BlockStateId>, state: BlockStateId) -> (r: Option<usize>)
    ensures
        r matches Some(p) ==> p < palette@.len() && palette@[p as int] == state && forall|q: int|
            0 <= q < p ==> palette@[q] != state,
        r is None ==> forall|q: int| 0 <= q < palette@.len() ==> palette@[q] != state,
{
    let mut k: usize = 0;
    while k < palette.len()
        invariant
            k <= palette@.len(),
            forall|q: int| 0 <= q < k ==> palette@[q] != state,
        decreases palette.len() - k,
    {
        if palette[k] == state {
            return Some(k);
        }
        k += 1;
    }
    None
}

/// Which representation a section is currently using.
#[derive(Debug, Clone, Copy, PartialEq, Eq, Structural)]
pub enum StorageKind {
    /// Every cell holds the same state.
    Uniform,
    /// Cells are packed palette indices.
    Paletted,
    /// Cells are full state ids.
    Direct,
}

#[derive(Debug, Clone, PartialEq, Eq)]
enum Storage {
    Uniform(BlockStateId),
    Paletted { palette: Vec<BlockStateId>, bits: u8, words: Vec<u64> },
    Direct(Vec<BlockStateId>),
}

/// The cell a paletted store holds at `index`: air when the packed index
/// names no palette entry.
pub open spec fn paletted_cell(palette: Seq<BlockStateId>, bits: u8, words: Seq<u64>, index: int) -> BlockStateId {
    let p = packed_at(words, bits, index);
    if p < palette.len() {
        palette[p as int]
    } else {
        spec_air()
    }
}

/// The cell a direct store holds at `index`: air past its end.
pub open spec fn direct_cell(cells: Seq<BlockStateId>, index: int) -> BlockStateId {
    if 0 <= index < cells.len() {
        cells[index]
    } else {
        spec_air()
    }
}

/// The cell a set of parts holds at `index`.
pub open spec fn parts_cell(parts: PartsView, index: int) -> BlockStateId {
    match parts {
        PartsView::Uniform(s) => s,
        PartsView::Paletted { palette, bits, words } => paletted_cell(palette, bits, words, index),
        PartsView::Direct(cells) => direct_cell(cells, index),
    }
}

/// Every cell a set of parts holds, in cell-index order.
pub open spec fn parts_cells(shape: ChunkShape, parts: PartsView) -> Seq<BlockStateId> {
    Seq::new(shape.spec_volume(), |i: int| parts_cell(parts, i))
}

/// Every state a set of parts records: the fill, the palette or the cells.
pub open spec fn parts_states(parts: PartsView) -> Seq<BlockStateId> {
    match parts {
        PartsView::Uniform(s) => seq![s],
        PartsView::Paletted { palette, .. } => palette,
        PartsView::Direct(cells) => cells,
    }
}

/// Whether cell `index` of a set of parts reads a recorded state.
pub open spec fn parts_stored(parts: PartsView, index: int) -> bool {
    match parts {
        PartsView::Uniform(_) => true,
        PartsView::Paletted { palette, bits, words } => packed_at(words, bits, index) < palette.len(),
        PartsView::Direct(cells) => 0 <= index < cells.len(),
    }
}

/// The cells of a set of parts after every recorded state is translated

/// The distinct states among the first `n` cells, in the order they first
/// occur.
pub open spec fn first_occurrences(cells: Seq<BlockStateId>, n: int) -> Seq<BlockStateId>
    decreases n,
{
    if n <= 0 {
        Seq::empty()
    } else {
        let p = first_occurrences(cells, n - 1);
        if p.contains(cells[n - 1]) {
            p
        } else {
            p.push(cells[n - 1])
        }
    }
}

/// Where `x` stands in a palette that holds it once.
pub open spec fn palette_index(palette: Seq<BlockStateId>, x: BlockStateId) -> int {
    choose|p: int| 0 <= p < palette.len() && palette[p] == x
}

/// The one width [`is_bits_for`] allows for a palette of `len` entries.
pub open spec fn width_for(len: nat) -> u8 {
    choose|b: u8| is_bits_for(len, b)
}

/// The words that pack the palette index of each of the first `n` cells,
/// starting from all zero.
pub open spec fn pack_cells(palette: Seq<BlockStateId>, cells: Seq<BlockStateId>, bits: u8, n: int) -> Seq<u64>
    decreases n,
{
    if n <= 0 {
        Seq::new(spec_word_count(cells.len() as int, bits) as nat, |k: int| 0u64)
    } else {
        packed_write(
            pack_cells(palette, cells, bits, n - 1),
            bits,
            n - 1,
            palette_index(palette, cells[n - 1]) as u64,
        )
    }
}

/// The parts compaction gives cells: one state when they are all alike;
/// every cell when they hold more distinct states than a palette may;
/// otherwise the distinct states in order of first occurrence, at the
/// narrowest width that addresses them, packed cell by cell.
pub open spec fn compacted_parts(cells: Seq<BlockStateId>) -> PartsView {
    if forall|i: int| 0 <= i < cells.len() ==> #[trigger] cells[i] == cells[0] {
        PartsView::Uniform(cells[0])
    } else if cells.to_set().len() > MAX_PALETTE_LEN {
        PartsView::Direct(cells)
    } else {
        let palette = first_occurrences(cells, cells.len() as int);
        let bits = width_for(palette.len());
        PartsView::Paletted { palette, bits, words: pack_cells(palette, cells, bits, cells.len() as int) }
    }
}

/// A palette length has one width.
proof fn lemma_width_unique(len: nat, b1: u8, b2: u8)
    requires
        is_bits_for(len, b1),
        is_bits_for(len, b2),
    ensures
        b1 == b2,
{
    if b1 < b2 {
        assert(capacity(b1) < len);
    } else if b2 < b1 {
        assert(capacity(b2) < len);
    }
}

/// through `table`; a cell that reads no recorded state is air.
pub open spec fn remapped_cells(shape: ChunkShape, parts: PartsView, table: Seq<BlockStateId>) -> Seq<
    BlockStateId,
> {
    Seq::new(
        shape.spec_volume(),
        |i: int|
            if parts_stored(parts, i) {
                table[parts_cell(parts, i).0 as int]
            } else {
                spec_air()
            },
    )
}

/// The first recorded state a table of `n` entries does not cover.
pub open spec fn first_uncovered(states: Seq<BlockStateId>, n: int) -> Option<u32>
    decreases states.len(),
{
    if states.len() == 0 {
        None
    } else if states[0].0 >= n {
        Some(states[0].0)
    } else {
        first_uncovered(states.drop_first(), n)
    }
}

/// No uncovered state means every state is covered.
pub proof fn lemma_first_uncovered(states: Seq<BlockStateId>, n: int)
    ensures
        first_uncovered(states, n) is None <==> forall|k: int|
            0 <= k < states.len() ==> (#[trigger] states[k]).0 < n,
        first_uncovered(states, n) matches Some(id) ==> id >= n,
    decreases states.len(),
{
    if states.len() > 0 {
        lemma_first_uncovered(states.drop_first(), n);
        if states[0].0 < n {
            assert forall|k: int| 0 <= k < states.len() && (forall|j: int| 0 <= j < states.drop_first().len() ==> (#[trigger] states.drop_first()[j]).0 < n) implies (#[trigger] states[k]).0 < n by {
                if k > 0 {
                    assert(states[k] == states.drop_first()[k - 1]);
                }
            }
            if exists|k: int| 0 <= k < states.len() && (#[trigger] states[k]).0 >= n {
                let k = choose|k: int| 0 <= k < states.len() && (#[trigger] states[k]).0 >= n;
                assert(states.drop_first()[k - 1] == states[k]);
            }
        }
    }
}

/// Serialization-facing view of a section's contents.
#[derive(Debug, Clone, PartialEq, Eq)]
pub enum SectionParts {
    /// Every cell holds this state.
    Uniform(BlockStateId),
    /// Packed palette indices.
    Paletted {
        /// The palette.
        palette: Vec<BlockStateId>,
        /// Index width.
        bits: u8,
        /// Packed indices.
        words: Vec<u64>,
    },
    /// One state per cell.
    Direct(Vec<BlockStateId>),
}

/// The mathematical content of a [`SectionParts`].
pub enum PartsView {
    /// Every cell holds this state.
    Uniform(BlockStateId),
    /// Packed palette indices.
    Paletted {
        /// The palette.
        palette: Seq<BlockStateId>,
        /// Index width.
        bits: u8,
        /// Packed indices.
        words: Seq<u64>,
    },
    /// One state per cell.
    Direct(Seq<BlockStateId>),
}

/// What storing these parts costs on the heap, in bytes: four per palette
/// entry or direct cell, eight per packed word, nothing for a uniform fill.
pub open spec fn parts_storage_bytes(p: PartsView) -> int {
    match p {
        PartsView::Uniform(_) => 0,
        PartsView::Paletted { palette, words, .. } => (palette.len() * 4 + words.len() * 8) as int,
        PartsView::Direct(cells) => (cells.len() * 4) as int,
    }
}

impl View for SectionParts {
    type V = PartsView;

    open spec fn view(&self) -> PartsView {
        match self {
            SectionParts::Uniform(s) => PartsView::Uniform(*s),
            SectionParts::Paletted { palette, bits, words } => PartsView::Paletted {
                palette: palette@,
                bits: *bits,
                words: words@,
            },
            SectionParts::Direct(cells) => PartsView::Direct(cells@),
        }
    }
}

/// Why a section refused an access or a set of parts.
#[derive(Debug, Clone, Copy, PartialEq, Eq, Structural)]
pub enum VoxelError {
    /// The position lies outside the section.
    OutOfRange {
        /// The position asked for.
        local: LocalPos,
    },
    /// The palette is empty or its index width is out of range.
    PaletteMetadata,
    /// The packed words do not match the shape.
    PackingMismatch {
        /// Words the shape needs at this width.
        expected_words: usize,
        /// Words found.
        found_words: usize,
    },
    /// A direct store does not hold one state per cell.
    CellCountMismatch {
        /// Cells in the shape.
        expected: usize,
        /// Cells found.
        found: usize,
    },
}

/// The text of a section error.
pub open spec fn voxel_error_text(e: VoxelError) -> Seq<char> {
    match e {
        VoxelError::OutOfRange { .. } => "local position is outside the section"@,
        VoxelError::PaletteMetadata => "section palette metadata is out of range"@,
        VoxelError::PackingMismatch { .. } => "section packing does not match the chunk shape"@,
        VoxelError::CellCountMismatch { .. } => "section cell count does not match the chunk shape"@,
    }
}

impl VoxelError {
    /// A description of the error.
    pub fn message(&self) -> (r: String)
        ensures
            r@ == voxel_error_text(*self),
    {
        let text = match self {
            VoxelError::OutOfRange { .. } => "local position is outside the section",
            VoxelError::PaletteMetadata => "section palette metadata is out of range",
            VoxelError::PackingMismatch { .. } => "section packing does not match the chunk shape",
            VoxelError::CellCountMismatch { .. } => "section cell count does not match the chunk shape",
        };
        text.to_owned()
    }
}

/// A cubic block of voxels.
#[derive(Debug, Clone, PartialEq, Eq)]
pub struct Section {
    shape: ChunkShape,
    storage: Storage,
    non_air: u32,
}

impl View for Section {
    type V = Seq<BlockStateId>;

    /// One state per cell, in cell-index order.
    open spec fn view(&self) -> Seq<BlockStateId> {
        Seq::new(self.spec_shape().spec_volume(), |i: int| self.cell(i))
    }
}

impl Section {
    /// The section's extent.
    pub closed spec fn spec_shape(self) -> ChunkShape {
        self.shape
    }

    /// The recorded count of non-air cells.
    pub closed spec fn spec_non_air(self) -> nat {
        self.non_air as nat
    }

    /// The state the storage holds at cell `index`.
    pub closed spec fn cell(self, index: int) -> BlockStateId {
        match self.storage {
            Storage::Uniform(s) => s,
            Storage::Paletted { palette, bits, words } => paletted_cell(palette@, bits, words@, index),
            Storage::Direct(cells) => direct_cell(cells@, index),
        }
    }

    /// The representation in use.
    pub closed spec fn spec_kind(self) -> StorageKind {
        match self.storage {
            Storage::Uniform(_) => StorageKind::Uniform,
            Storage::Paletted { .. } => StorageKind::Paletted,
            Storage::Direct(_) => StorageKind::Direct,
        }
    }

    /// The parts this section decomposes into.
    pub closed spec fn spec_parts(self) -> PartsView {
        match self.storage {
            Storage::Uniform(s) => PartsView::Uniform(s),
            Storage::Paletted { palette, bits, words } => PartsView::Paletted {
                palette: palette@,
                bits,
                words: words@,
            },
            Storage::Direct(cells) => PartsView::Direct(cells@),
        }
    }

    /// Every state the storage records: the fill, the palette or the cells.
    pub closed spec fn stored_states(self) -> Seq<BlockStateId> {
        match self.storage {
            Storage::Uniform(s) => seq![s],
            Storage::Paletted { palette, .. } => palette@,
            Storage::Direct(cells) => cells@,
        }
    }

    /// Whether cell `index` reads a recorded state rather than air by default.
    pub closed spec fn is_stored(self, index: int) -> bool {
        match self.storage {
            Storage::Uniform(_) => true,
            Storage::Paletted { palette, bits, words } => packed_at(words@, bits, index) < palette@.len(),
            Storage::Direct(cells) => 0 <= index < cells@.len(),
        }
    }

    /// The heap cost the storage declares, in bytes.
    pub closed spec fn spec_storage_bytes(self) -> int {
        match self.storage {
            Storage::Uniform(_) => 0int,
            Storage::Paletted { palette, words, .. } => (palette@.len() * 4 + words@.len() * 8) as int,
            Storage::Direct(cells) => (cells@.len() * 4) as int,
        }
    }

    /// The representation is internally consistent with the shape.
    pub closed spec fn structure_ok(self) -> bool {
        &&& self.shape.wf()
        &&& match self.storage {
            Storage::Uniform(_) => true,
            Storage::Paletted { palette, bits, words } => {
                &&& 1 <= bits <= MAX_PALETTE_BITS
                &&& palette@.len() >= 1
                &&& words@.len() == spec_word_count(self.shape.spec_volume() as int, bits)
            },
            Storage::Direct(cells) => cells@.len() == self.shape.spec_volume(),
        }
    }

    /// Every packed index names a palette entry, and the width can address
    /// the whole palette. Always true of a section this module built; a
    /// section rebuilt from parts holds it exactly when its parts did.
    pub closed spec fn fits(self) -> bool {
        match self.storage {
            Storage::Paletted { palette, bits, words } => {
                &&& palette@.len() <= capacity(bits)
                &&& forall|i: int|
                    0 <= i < self.shape.spec_volume() ==> #[trigger] packed_at(words@, bits, i)
                        < palette@.len()
            },
            _ => true,
        }
    }

    /// A palette no longer than its width can address: every entry has an
    /// index that can be written. Always true of a section that fits; a
    /// section rebuilt from parts may hold stale indices past its palette
    /// and still be addressable.
    pub closed spec fn addressable(self) -> bool {
        match self.storage {
            Storage::Paletted { palette, bits, .. } => palette@.len() <= capacity(bits),
            _ => true,
        }
    }

    /// A section that fits is addressable, and addressability is read from
    /// the parts alone.
    pub proof fn lemma_addressable(self)
        ensures
            self.fits() ==> self.addressable(),
            self.addressable() == match self.spec_parts() {
                PartsView::Paletted { palette, bits, .. } => palette.len() <= capacity(bits),
                _ => true,
            },
    {
    }

    /// Consistent storage and an accurate non-air count.
    pub open spec fn wf(self) -> bool {
        &&& self.structure_ok()
        &&& self.spec_non_air() == count_non_air(self@)
    }

    /// Well formed, and every write lands where it is aimed.
    pub open spec fn sound(self) -> bool {
        self.wf() && self.fits()
    }

    /// A well-formed section has a well-formed shape and a bounded count.
    pub proof fn lemma_wf(self)
        requires
            self.wf(),
        ensures
            self.spec_shape().wf(),
            self@.len() == self.spec_shape().spec_volume(),
            self.spec_non_air() <= self@.len(),
            self@.len() <= 256 * 256 * 256,
    {
        lemma_count_bound(self@);
        lemma_volume_bounds(self.shape);
    }

    /// The heap cost a section declares is the cost of its parts, so a
    /// caller reads it from [`Section::spec_parts`]; a uniform section costs
    /// nothing to hold.
    pub proof fn lemma_storage_bytes(self)
        ensures
            self.spec_storage_bytes() == parts_storage_bytes(self.spec_parts()),
            self.spec_parts() is Uniform ==> self.spec_storage_bytes() == 0,
            self.spec_kind() == StorageKind::Uniform <==> self.spec_parts() is Uniform,
    {
    }

    /// A sound section costs less than 2^28 bytes to hold.
    pub proof fn lemma_storage_bytes_bound(self)
        requires
            self.sound(),
        ensures
            0 <= self.spec_storage_bytes() < 0x1000_0000,
    {
        lemma_volume_bounds(self.shape);
        let v = self.shape.spec_volume() as int;
        match self.storage {
            Storage::Uniform(_) => {},
            Storage::Paletted { palette, bits, words } => {
                lemma_pow2_strictly_increases(bits as nat, 13);
                assert(pow2(13) == 8192) by {
                    lemma2_to64();
                }
                let p = per_word(bits);
                assert(p >= 5) by (nonlinear_arith)
                    requires
                        1 <= bits <= 12,
                        p == 64int / (bits as int),
                ;
                assert((v + p - 1) / p <= v + 1) by (nonlinear_arith)
                    requires
                        p >= 5,
                        v >= 0,
                ;
            },
            Storage::Direct(_) => {},
        }
    }

    /// A well-formed section's parts pass every check a rebuild makes, and
    /// they fit exactly when the section does.
    pub proof fn lemma_parts_pass(self)
        requires
            self.wf(),
        ensures
            parts_problem(self.spec_shape(), self.spec_parts()) is None,
            parts_fit(self.spec_shape(), self.spec_parts()) == self.fits(),
    {
    }

    /// Sections of one shape with the same parts read the same cells and
    /// cost the same to hold.
    pub proof fn lemma_parts_determine(self, other: Section)
        requires
            self.spec_shape() == other.spec_shape(),
            self.spec_parts() == other.spec_parts(),
        ensures
            self@ == other@,
            self.spec_kind() == other.spec_kind(),
            self.spec_storage_bytes() == other.spec_storage_bytes(),
            self.fits() == other.fits(),
            self.wf() && other.wf() ==> self.spec_non_air() == other.spec_non_air(),
    {
        assert(self@ =~= other@);
    }

    /// A declared storage cost is never negative.
    pub proof fn lemma_storage_bytes_nonneg(self)
        ensures
            self.spec_storage_bytes() >= 0,
    {
    }

    /// A uniform section reads its fill in every cell.
    pub proof fn lemma_uniform_view(self, fill: BlockStateId)
        requires
            self.spec_parts() == PartsView::Uniform(fill),
        ensures
            self@ == Seq::new(self.spec_shape().spec_volume(), |i: int| fill),
    {
        assert(self@ =~= Seq::new(self.spec_shape().spec_volume(), |i: int| fill));
    }

    /// Whether every packed index names a palette entry and the width can
    /// address the whole palette: the condition under which writes land where
    /// they are aimed. Sections built by this module always fit; a section
    /// rebuilt from stored parts fits exactly when its parts did.
    pub fn check_fit(&self) -> (r: bool)
        requires
            self.wf(),
        ensures
            r == self.fits(),
    {
        proof {
            self.lemma_wf();
        }
        match &self.storage {
            Storage::Paletted { palette, bits, words } => {
                let bits = *bits;
                proof {
                    lemma_width_facts(bits);
                    assert(self.fits() <==> (palette@.len() <= capacity(bits) && forall|j: int|
                        0 <= j < self.shape.spec_volume() ==> #[trigger] packed_at(words@, bits, j)
                            < palette@.len()));
                }
                let capacity_here = 1u64 << (bits as u64);
                if (palette.len() as u64) > capacity_here {
                    return false;
                }
                let volume = self.shape.volume();
                let mut i: usize = 0;
                while i < volume
                    invariant
                        1 <= bits <= MAX_PALETTE_BITS,
                        volume == self.shape.spec_volume(),
                        palette@.len() <= capacity(bits),
                        self.fits() <==> (palette@.len() <= capacity(bits) && forall|j: int|
                            0 <= j < self.shape.spec_volume() ==> #[trigger] packed_at(words@, bits, j)
                                < palette@.len()),
                        i <= volume,
                        forall|j: int| 0 <= j < i ==> #[trigger] packed_at(words@, bits, j) < palette@.len(),
                    decreases volume - i,
                {
                    if read_packed(words, bits, i) >= palette.len() as u64 {
                        proof {
                            assert(packed_at(words@, bits, i as int) >= palette@.len());
                            assert(!(forall|j: int|
                                0 <= j < self.shape.spec_volume() ==> #[trigger] packed_at(words@, bits, j)
                                    < palette@.len()));
                        }
                        return false;
                    }
                    i += 1;
                }
                true
            },
            _ => true,
        }
    }

    /// A section's cells, recorded states and stored cells are those of its
    /// parts.
    pub proof fn lemma_section_parts(self)
        ensures
            self@ == parts_cells(self.spec_shape(), self.spec_parts()),
            self.stored_states() == parts_states(self.spec_parts()),
            forall|i: int| #[trigger] self.is_stored(i) == parts_stored(self.spec_parts(), i),
    {
        assert(self@ =~= parts_cells(self.spec_shape(), self.spec_parts()));
    }

    /// A sound section's parts are consistent and keep every index inside
    /// the palette.
    pub proof fn lemma_parts_sound(self)
        requires
            self.sound(),
        ensures
            parts_problem(self.spec_shape(), self.spec_parts()) is None,
            parts_fit(self.spec_shape(), self.spec_parts()),
    {
    }

    /// A section entirely filled with one state.
    pub fn uniform(shape: ChunkShape, state: BlockStateId) -> (s: Self)
        requires
            shape.wf(),
        ensures
            s.sound(),
            s.spec_shape() == shape,
            s@ == Seq::new(shape.spec_volume(), |i: int| state),
            s.spec_kind() == StorageKind::Uniform,
            s.spec_parts() == PartsView::Uniform(state),
    {
        let volume = shape.volume();
        let non_air = if state == air() {
            0
        } else {
            volume as u32
        };
        let s = Section { shape, storage: Storage::Uniform(state), non_air };
        proof {
            lemma_count_constant(s@, state);
        }
        s
    }

    /// An empty section.
    pub fn empty(shape: ChunkShape) -> (s: Self)
        requires
            shape.wf(),
        ensures
            s.sound(),
            s.spec_shape() == shape,
            s@ == Seq::new(shape.spec_volume(), |i: int| spec_air()),
            s.spec_kind() == StorageKind::Uniform,
            s.spec_parts() == PartsView::Uniform(spec_air()),
    {
        Self::uniform(shape, air())
    }

    /// The section's voxel extent.
    pub fn shape(&self) -> (r: ChunkShape)
        ensures
            r == self.spec_shape(),
    {
        self.shape
    }

    /// The representation currently in use.
    pub fn storage_kind(&self) -> (r: StorageKind)
        ensures
            r == self.spec_kind(),
    {
        match &self.storage {
            Storage::Uniform(_) => StorageKind::Uniform,
            Storage::Paletted { .. } => StorageKind::Paletted,
            Storage::Direct(_) => StorageKind::Direct,
        }
    }

    /// The single state filling this section, if it is uniform.
    pub fn uniform_state(&self) -> (r: Option<BlockStateId>)
        ensures
            r is Some <==> self.spec_kind() == StorageKind::Uniform,
            r == (match self.spec_parts() {
                PartsView::Uniform(s) => Some(s),
                _ => None,
            }),
    {
        match &self.storage {
            Storage::Uniform(state) => Some(*state),
            _ => None,
        }
    }

    /// How many cells hold something other than air.
    pub fn non_air_count(&self) -> (r: u32)
        ensures
            r == self.spec_non_air(),
    {
        self.non_air
    }

    /// Whether every cell is air.
    pub fn is_empty(&self) -> (r: bool)
        ensures
            r == (self.spec_non_air() == 0),
    {
        self.non_air == 0
    }

    fn get_by_index(&self, index: usize) -> (r: BlockStateId)
        requires
            self.structure_ok(),
        ensures
            r == self.cell(index as int),
    {
        match &self.storage {
            Storage::Uniform(state) => *state,
            Storage::Paletted { palette, bits, words } => {
                let p = read_packed(words, *bits, index);
                if p < palette.len() as u64 {
                    palette[p as usize]
                } else {
                    air()
                }
            },
            Storage::Direct(cells) => {
                if index < cells.len() {
                    cells[index]
                } else {
                    air()
                }
            },
        }
    }

    /// Read one cell.
    pub fn get(&self, local: LocalPos) -> (r: Result<BlockStateId, VoxelError>)
        requires
            self.wf(),
        ensures
            r is Ok <==> self.spec_shape().contains_local(local),
            r matches Ok(s) ==> s == self@[self.spec_shape().spec_index(local)],
            r matches Err(e) ==> e == (VoxelError::OutOfRange { local }),
    {
        let index = match self.shape.index_of(local) {
            Ok(i) => i,
            Err(_) => return Err(VoxelError::OutOfRange { local }),
        };
        Ok(self.get_by_index(index))
    }

    /// Expand the section into one state per cell.
    fn materialize(&self) -> (cells: Vec<BlockStateId>)
        requires
            self.structure_ok(),
        ensures
            cells@ == self@,
    {
        let volume = self.shape.volume();
        let mut cells: Vec<BlockStateId> = Vec::new();
        let mut index: usize = 0;
        while index < volume
            invariant
                self.structure_ok(),
                volume == self.spec_shape().spec_volume(),
                index <= volume,
                cells@ == self@.take(index as int),
            decreases volume - index,
        {
            cells.push(self.get_by_index(index));
            index += 1;
            proof {
                assert(cells@ =~= self@.take(index as int));
            }
        }
        proof {
            assert(cells@ =~= self@);
        }
        cells
    }

    /// Count the non-air cells from scratch.
    fn recount(&self) -> (n: u32)
        requires
            self.structure_ok(),
        ensures
            n == count_non_air(self@),
    {
        let volume = self.shape.volume();
        let mut n: u32 = 0;
        let mut index: usize = 0;
        while index < volume
            invariant
                self.structure_ok(),
                volume == self.spec_shape().spec_volume(),
                volume <= 256 * 256 * 256,
                index <= volume,
                n == count_non_air(self@.take(index as int)),
            decreases volume - index,
        {
            proof {
                lemma_count_prefix_step(self@, index as int);
                lemma_count_bound(self@.take(index as int));
            }
            if self.get_by_index(index) != air() {
                n += 1;
            }
            index += 1;
        }
        proof {
            assert(self@.take(volume as int) =~= self@);
        }
        n
    }

    /// Expand a paletted store into one state per cell.
    fn materialize_paletted(
        palette: &Vec<BlockStateId>,
        bits: u8,
        words: &Vec<u64>,
        volume: usize,
    ) -> (cells: Vec<BlockStateId>)
        requires
            1 <= bits <= MAX_PALETTE_BITS,
        ensures
            cells@ == Seq::new(volume as nat, |i: int| paletted_cell(palette@, bits, words@, i)),
    {
        let ghost target = Seq::new(volume as nat, |i: int| paletted_cell(palette@, bits, words@, i));
        let mut cells: Vec<BlockStateId> = Vec::new();
        let mut index: usize = 0;
        while index < volume
            invariant
                1 <= bits <= MAX_PALETTE_BITS,
                index <= volume,
                target == Seq::new(volume as nat, |i: int| paletted_cell(palette@, bits, words@, i)),
                cells@ == target.take(index as int),
            decreases volume - index,
        {
            let p = read_packed(words, bits, index);
            let cell = if p < palette.len() as u64 {
                palette[p as usize]
            } else {
                air()
            };
            cells.push(cell);
            index += 1;
            proof {
                assert(cells@ =~= target.take(index as int));
            }
        }
        proof {
            assert(cells@ =~= target);
        }
        cells
    }

    /// Write one cell and return the state it replaced.
    ///
    /// The first write that differs from a uniform fill grows a two-entry
    /// palette; a new distinct state joins the palette, widening the packed
    /// indices when it must; a palette already at [`MAX_PALETTE_LEN`]
    /// promotes the section to direct storage. None of that is visible in
    /// the view: exactly one cell changes.
    pub fn set(&mut self, local: LocalPos, state: BlockStateId) -> (r: Result<
        BlockStateId,
        VoxelError,
    >)
        requires
            old(self).wf(),
        ensures
            r is Ok <==> old(self).spec_shape().contains_local(local),
            r matches Err(e) ==> e == (VoxelError::OutOfRange { local }) && *final(self) == *old(
                self,
            ),
            r matches Ok(prev) ==> prev == old(self)@[old(self).spec_shape().spec_index(local)],
            r matches Ok(prev) ==> (prev == state ==> *final(self) == *old(self)),
            final(self).spec_shape() == old(self).spec_shape(),
            r is Ok && old(self).fits() ==> {
                &&& final(self).sound()
                &&& final(self)@ == old(self)@.update(
                    old(self).spec_shape().spec_index(local),
                    state,
                )
            },
            r is Ok && old(self).addressable() ==> {
                &&& final(self).addressable()
                &&& final(self).structure_ok()
                &&& final(self)@[old(self).spec_shape().spec_index(local)] == state
            },
    {
        let index = match self.shape.index_of(local) {
            Ok(i) => i,
            Err(_) => return Err(VoxelError::OutOfRange { local }),
        };
        let previous = self.get_by_index(index);
        if previous == state {
            return Ok(previous);
        }
        let volume = self.shape.volume();
        let ghost old_self = *self;
        let ghost idx = index as int;
        proof {
            old_self.lemma_wf();
            lemma_count_update(old_self@, idx, state);
            lemma_count_at_least(old_self@, idx);
        }
        let mut storage = Storage::Uniform(air());
        std::mem::swap(&mut storage, &mut self.storage);
        let next = match storage {
            Storage::Uniform(existing) => {
                // First divergence: grow into a two-entry palette, where
                // index 0 is the pre-existing state.
                let bits = bits_for(2);
                proof {
                    lemma2_to64();
                    assert(bits == 1) by {
                        if bits > 1 {
                            assert(capacity(1) < 2);
                        }
                    }
                }
                let mut words = zero_words(word_count(volume, bits));
                proof {
                    lemma_word_count_covers(volume as int, bits, idx);
                    lemma_width_facts(bits);
                    lemma_mask_facts(1u64, bits as u64, bits as u64);
                }
                let ghost zeroed = words@;
                write_packed(&mut words, bits, index, 1);
                let mut palette: Vec<BlockStateId> = Vec::new();
                palette.push(existing);
                palette.push(state);
                proof {
                    lemma_width_facts(bits);
                    assert forall|i: int| 0 <= i < volume implies #[trigger] packed_at(
                        words@,
                        bits,
                        i,
                    ) == if i == idx {
                        1u64
                    } else {
                        0u64
                    } by {
                        if i != idx {
                            lemma_zero_words(zeroed, bits, i);
                        }
                    }
                }
                Storage::Paletted { palette, bits, words }
            },
            Storage::Paletted { mut palette, mut bits, mut words } => {
                match position_of(&palette, state) {
                    Some(found) => {
                        proof {
                            lemma_word_count_covers(volume as int, bits, idx);
                            lemma_width_facts(bits);
                            if old_self.addressable() {
                                lemma_mask_facts(found as u64, bits as u64, bits as u64);
                            }
                        }
                        write_packed(&mut words, bits, index, found as u64);
                        Storage::Paletted { palette, bits, words }
                    },
                    None => {
                        if palette.len() >= MAX_PALETTE_LEN {
                            // Too many distinct states: stop paying for indirection.
                            let mut cells = Self::materialize_paletted(&palette, bits, &words, volume);
                            cells.set(index, state);
                            Storage::Direct(cells)
                        } else {
                            let ghost old_words = words@;
                            let ghost old_bits = bits;
                            palette.push(state);
                            let needed = bits_for(palette.len());
                            if needed > bits {
                                words = repack(&words, bits, needed, volume);
                                bits = needed;
                            }
                            proof {
                                lemma_word_count_covers(volume as int, bits, idx);
                                lemma_width_facts(bits);
                                lemma2_to64();
                                if needed <= old_bits {
                                    if needed < old_bits {
                                        lemma_pow2_strictly_increases(needed as nat, old_bits as nat);
                                    }
                                }
                                assert(palette@.len() <= capacity(bits));
                                lemma_mask_facts(
                                    (palette.len() - 1) as u64,
                                    bits as u64,
                                    bits as u64,
                                );
                                assert forall|i: int| 0 <= i < volume implies #[trigger] packed_at(
                                    words@,
                                    bits,
                                    i,
                                ) == packed_at(old_words, old_bits, i) by {}
                            }
                            write_packed(&mut words, bits, index, (palette.len() - 1) as u64);
                            Storage::Paletted { palette, bits, words }
                        }
                    },
                }
            },
            Storage::Direct(mut cells) => {
                cells.set(index, state);
                Storage::Direct(cells)
            },
        };
        self.storage = next;
        if previous == air() && state != air() {
            self.non_air = self.non_air + 1;
        } else if previous != air() && state == air() {
            self.non_air = self.non_air - 1;
        }
        proof {
            let s = *self;
            if old_self.fits() {
                assert(s@ =~= old_self@.update(idx, state)) by {
                    assert forall|i: int| 0 <= i < s@.len() implies s@[i] == old_self@.update(
                        idx,
                        state,
                    )[i] by {}
                }
            }
        }
        Ok(previous)
    }

    /// The first cell that differs from cell zero, if any does.
    fn first_difference(&self) -> (r: Option<usize>)
        requires
            self.structure_ok(),
        ensures
            r matches Some(i) ==> 0 < i < self@.len() && self@[i as int] != self@[0],
            r is None ==> forall|i: int| 0 <= i < self@.len() ==> #[trigger] self@[i] == self@[0],
    {
        let volume = self.shape.volume();
        let first = self.get_by_index(0);
        let mut index: usize = 1;
        while index < volume
            invariant
                self.structure_ok(),
                volume == self@.len(),
                volume >= 1,
                1 <= index <= volume,
                first == self@[0],
                forall|k: int| 0 <= k < index ==> #[trigger] self@[k] == first,
            decreases volume - index,
        {
            if self.get_by_index(index) != first {
                return Some(index);
            }
            index += 1;
        }
        None
    }

    /// The distinct states of `cells` in order of first occurrence, or
    /// `None` as soon as there are more than [`MAX_PALETTE_LEN`] of them.
    fn distinct_states(cells: &Vec<BlockStateId>) -> (r: Option<Vec<BlockStateId>>)
        ensures
            r matches Some(p) ==> {
                &&& p@.no_duplicates()
                &&& p@.len() <= MAX_PALETTE_LEN
                &&& forall|k: int| 0 <= k < cells@.len() ==> p@.contains(#[trigger] cells@[k])
                &&& forall|q: int| 0 <= q < p@.len() ==> cells@.contains(#[trigger] p@[q])
            },
            r is None ==> cells@.to_set().len() > MAX_PALETTE_LEN,
            r matches Some(p) ==> p@ == first_occurrences(cells@, cells@.len() as int),
    {
        let mut palette: Vec<BlockStateId> = Vec::new();
        let mut i: usize = 0;
        while i < cells.len()
            invariant
                i <= cells@.len(),
                palette@ == first_occurrences(cells@, i as int),
                palette@.no_duplicates(),
                palette@.len() <= MAX_PALETTE_LEN,
                forall|k: int| 0 <= k < i ==> palette@.contains(#[trigger] cells@[k]),
                forall|q: int| 0 <= q < palette@.len() ==> cells@.contains(#[trigger] palette@[q]),
            decreases cells.len() - i,
        {
            let cell = cells[i];
            let found = position_of(&palette, cell);
            if let Some(p) = found {
                proof {
                    assert(palette@[p as int] == cell);
                    assert(palette@.contains(cell));
                }
            }
            proof {
                if found is None {
                    assert(!palette@.contains(cell));
                }
            }
            if found.is_none() {
                let ghost before = palette@;
                palette.push(cell);
                proof {
                    assert(palette@ == before.push(cell));
                    assert(palette@[before.len() as int] == cell);
                    assert(cells@.contains(cell)) by {
                        assert(cells@[i as int] == cell);
                    }
                    assert forall|k: int| 0 <= k < i implies palette@.contains(
                        #[trigger] cells@[k],
                    ) by {
                        let w = choose|w: int| 0 <= w < before.len() && before[w] == cells@[k];
                        assert(palette@[w] == cells@[k]);
                    }
                    assert forall|q: int| 0 <= q < palette@.len() implies cells@.contains(
                        #[trigger] palette@[q],
                    ) by {
                        if q < before.len() {
                            assert(palette@[q] == before[q]);
                        }
                    }
                }
                if palette.len() > MAX_PALETTE_LEN {
                    proof {
                        palette@.unique_seq_to_set();
                        assert(palette@.to_set().subset_of(cells@.to_set())) by {
                            assert forall|x: BlockStateId| palette@.to_set().contains(
                                x,
                            ) implies cells@.to_set().contains(x) by {
                                let q = choose|q: int| 0 <= q < palette@.len() && palette@[q] == x;
                                assert(cells@.contains(palette@[q]));
                            }
                        }
                        vstd::seq_lib::seq_to_set_is_finite(cells@);
                        vstd::set_lib::lemma_len_subset(palette@.to_set(), cells@.to_set());
                    }
                    return None;
                }
            }
            proof {
                assert(palette@.contains(cells@[i as int]));
            }
            i += 1;
        }
        Some(palette)
    }

    /// Collapse the section to the smallest representation that still fits.
    ///
    /// A section whose cells are all one state becomes uniform; otherwise the
    /// palette is rebuilt from what is actually present, dropping entries no
    /// cell references any more, and a section with more distinct states
    /// than a palette holds becomes direct. The cells themselves never move.
    pub fn compact(&mut self)
        requires
            old(self).wf(),
        ensures
            final(self).sound(),
            final(self)@ == old(self)@,
            final(self).spec_shape() == old(self).spec_shape(),
            (final(self).spec_kind() == StorageKind::Uniform) <==> (forall|i: int|
                0 <= i < old(self)@.len() ==> #[trigger] old(self)@[i] == old(self)@[0]),
            final(self).spec_kind() == StorageKind::Uniform ==> final(self).spec_parts()
                == PartsView::Uniform(old(self)@[0]) && final(self).spec_storage_bytes() == 0,
            final(self).spec_kind() == StorageKind::Direct ==> old(self)@.to_set().len()
                > MAX_PALETTE_LEN,
            final(self).spec_parts() matches PartsView::Paletted { palette, bits, words } ==> {
                &&& palette.no_duplicates()
                &&& palette.to_set() == old(self)@.to_set()
                &&& is_bits_for(palette.len(), bits)
                &&& words.len() == spec_word_count(old(self)@.len() as int, bits)
            },
            final(self).spec_parts() == compacted_parts(old(self)@),
    {
        let ghost old_self = *self;
        proof {
            old_self.lemma_wf();
        }
        let volume = self.shape.volume();
        match self.first_difference() {
            None => {
                let first = self.get_by_index(0);
                self.storage = Storage::Uniform(first);
                self.non_air = if first == air() {
                    0
                } else {
                    volume as u32
                };
                proof {
                    assert(self@ =~= old_self@);
                    lemma_count_constant(self@, first);
                }
                return;
            },
            Some(d) => {
                proof {
                    assert(old_self@[d as int] != old_self@[0]);
                    assert(!(forall|i: int| 0 <= i < old_self@.len() ==> #[trigger] old_self@[i] == old_self@[0]));
                }
            },
        }
        let cells = self.materialize();
        match Self::distinct_states(&cells) {
            None => {
                self.storage = Storage::Direct(cells);
                proof {
                    assert(self@ =~= old_self@);
                    assert(cells@ == old_self@);
                }
            },
            Some(palette) => {
                let bits = bits_for(palette.len());
                proof {
                    lemma_width_facts(bits);
                    lemma2_to64();
                    assert(palette@.len() <= capacity(bits));
                }
                let mut words = zero_words(word_count(volume, bits));
                proof {
                    assert(words@ =~= pack_cells(palette@, cells@, bits, 0));
                }
                let mut index: usize = 0;
                while index < volume
                    invariant
                        1 <= bits <= MAX_PALETTE_BITS,
                        palette@.len() <= capacity(bits),
                        palette@.no_duplicates(),
                        words@ == pack_cells(palette@, cells@, bits, index as int),
                        cells@.len() == volume,
                        index <= volume,
                        words@.len() == spec_word_count(volume as int, bits),
                        forall|k: int| 0 <= k < cells@.len() ==> palette@.contains(#[trigger] cells@[k]),
                        forall|k: int|
                            0 <= k < index ==> #[trigger] packed_at(words@, bits, k)
                                < palette@.len() && paletted_cell(palette@, bits, words@, k)
                                == cells@[k],
                    decreases volume - index,
                {
                    let found = position_of(&palette, cells[index]);
                    let p = match found {
                        Some(p) => p,
                        None => {
                            proof {
                                assert(palette@.contains(cells@[index as int]));
                            }
                            0
                        },
                    };
                    proof {
                        lemma_word_count_covers(volume as int, bits, index as int);
                        lemma_mask_facts(p as u64, bits as u64, bits as u64);
                        lemma_width_facts(bits);
                        let q = palette_index(palette@, cells@[index as int]);
                        assert(0 <= q < palette@.len() && palette@[q] == cells@[index as int]);
                        assert(q == p as int);
                    }
                    write_packed(&mut words, bits, index, p as u64);
                    index += 1;
                }
                let ghost final_palette = palette@;
                self.storage = Storage::Paletted { palette, bits, words };
                proof {
                    assert(self@ =~= old_self@);
                    assert(final_palette.to_set() =~= old_self@.to_set()) by {
                        assert forall|x: BlockStateId| final_palette.to_set().contains(
                            x,
                        ) implies old_self@.to_set().contains(x) by {
                            let q = choose|q: int| 0 <= q < final_palette.len() && final_palette[q] == x;
                            assert(cells@.contains(final_palette[q]));
                        }
                        assert forall|x: BlockStateId| old_self@.to_set().contains(
                            x,
                        ) implies final_palette.to_set().contains(x) by {
                            let k = choose|k: int| 0 <= k < cells@.len() && cells@[k] == x;
                            assert(final_palette.contains(cells@[k]));
                        }
                    }
                    final_palette.unique_seq_to_set();
                    assert(cells@ == old_self@);
                    let wb = width_for(final_palette.len());
                    assert(is_bits_for(final_palette.len(), bits));
                    lemma_width_unique(final_palette.len(), wb, bits);
                    assert(index == volume);
                }
            },
        }
    }

    /// Approximate heap cost of this section's cell storage, in bytes: four
    /// per palette entry or direct cell, eight per packed word.
    pub fn storage_bytes(&self) -> (n: usize)
        requires
            self.wf(),
            self.spec_storage_bytes() <= usize::MAX,
        ensures
            n == self.spec_storage_bytes(),
    {
        match &self.storage {
            Storage::Uniform(_) => 0,
            Storage::Paletted { palette, words, .. } => palette.len() * 4 + words.len() * 8,
            Storage::Direct(cells) => cells.len() * 4,
        }
    }

    /// Rebuild a section from the parts recorded in a save.
    ///
    /// The non-air count is recomputed from the cells rather than trusted.
    pub fn from_parts(shape: ChunkShape, parts: SectionParts) -> (r: Result<Self, VoxelError>)
        requires
            shape.wf(),
        ensures
            r is Ok <==> parts_problem(shape, parts@) is None,
            r matches Err(e) ==> parts_problem(shape, parts@) == Some(e),
            r matches Ok(s) ==> {
                &&& s.wf()
                &&& s.spec_shape() == shape
                &&& s.spec_parts() == parts@
                &&& s.fits() == parts_fit(shape, parts@)
            },
    {
        let volume = shape.volume();
        let storage = match parts {
            SectionParts::Uniform(state) => Storage::Uniform(state),
            SectionParts::Paletted { palette, bits, words } => {
                if palette.len() == 0 || bits == 0 || bits > MAX_PALETTE_BITS {
                    return Err(VoxelError::PaletteMetadata);
                }
                let expected = word_count(volume, bits);
                if words.len() != expected {
                    return Err(
                        VoxelError::PackingMismatch { expected_words: expected, found_words: words.len() },
                    );
                }
                Storage::Paletted { palette, bits, words }
            },
            SectionParts::Direct(cells) => {
                if cells.len() != volume {
                    return Err(VoxelError::CellCountMismatch { expected: volume, found: cells.len() });
                }
                Storage::Direct(cells)
            },
        };
        let mut section = Section { shape, storage, non_air: 0 };
        assert(section.structure_ok());
        let n = section.recount();
        let ghost counted = section@;
        section.non_air = n;
        proof {
            assert(section@ =~= counted);
        }
        Ok(section)
    }

    /// Decompose the section for serialization.
    pub fn to_parts(&self) -> (p: SectionParts)
        ensures
            p@ == self.spec_parts(),
    {
        match &self.storage {
            Storage::Uniform(state) => SectionParts::Uniform(*state),
            Storage::Paletted { palette, bits, words } => SectionParts::Paletted {
                palette: copy_states(palette),
                bits: *bits,
                words: copy_words(words),
            },
            Storage::Direct(cells) => SectionParts::Direct(copy_states(cells)),
        }
    }

    /// Rewrite every recorded state id through a translation table, as when
    /// a save's palette is remapped onto the current registry.
    ///
    /// A state with no entry in the table stops the rewrite and is returned;
    /// the section is then left half translated, for the caller to discard.
    pub fn remap(&mut self, table: &Vec<BlockStateId>) -> (r: Result<(), u32>)
        requires
            old(self).wf(),
        ensures
            final(self).spec_shape() == old(self).spec_shape(),
            final(self).spec_kind() == old(self).spec_kind(),
            r is Ok <==> forall|k: int|
                0 <= k < old(self).stored_states().len() ==> (#[trigger] old(
                    self,
                ).stored_states()[k]).0 < table@.len(),
            r matches Err(id) ==> id >= table@.len() && exists|k: int|
                0 <= k < old(self).stored_states().len() && (#[trigger] old(
                    self,
                ).stored_states()[k]).0 == id,
            r == match first_uncovered(old(self).stored_states(), table@.len() as int) {
                Some(id) => Err::<(), u32>(id),
                None => Ok::<(), u32>(()),
            },
            r is Ok ==> {
                &&& final(self).wf()
                &&& final(self).fits() == old(self).fits()
                &&& forall|i: int|
                    0 <= i < old(self)@.len() ==> #[trigger] final(self)@[i] == if old(
                        self,
                    ).is_stored(i) {
                        table@[old(self)@[i].0 as int]
                    } else {
                        spec_air()
                    }
            },
    {
        let ghost old_self = *self;
        proof {
            old_self.lemma_wf();
        }
        let mut storage = Storage::Uniform(air());
        std::mem::swap(&mut storage, &mut self.storage);
        let (next, outcome) = match storage {
            Storage::Uniform(state) => {
                proof {
                    assert(old_self.stored_states() =~= seq![state]);
                    assert(seq![state].drop_first() =~= Seq::<BlockStateId>::empty());
                }
                if (state.0 as usize) < table.len() {
                    proof {
                        assert(first_uncovered(Seq::<BlockStateId>::empty(), table@.len() as int) is None);
                        assert(first_uncovered(seq![state], table@.len() as int) is None);
                    }
                    (Storage::Uniform(table[state.0 as usize]), Ok(()))
                } else {
                    proof {
                        assert(old_self.stored_states()[0] == state);
                    }
                    (Storage::Uniform(state), Err(state.0))
                }
            },
            Storage::Paletted { mut palette, bits, words } => {
                assert(old_self.stored_states() == palette@);
                let outcome = map_states(&mut palette, table);
                (Storage::Paletted { palette, bits, words }, outcome)
            },
            Storage::Direct(mut cells) => {
                assert(old_self.stored_states() == cells@);
                let outcome = map_states(&mut cells, table);
                (Storage::Direct(cells), outcome)
            },
        };
        self.storage = next;
        match outcome {
            Ok(()) => {},
            Err(id) => return Err(id),
        }
        let n = self.recount();
        let ghost counted = self@;
        self.non_air = n;
        proof {
            assert(self@ =~= counted);
            assert forall|i: int| 0 <= i < old_self@.len() implies #[trigger] self@[i] == if old_self.is_stored(
                i,
            ) {
                table@[old_self@[i].0 as int]
            } else {
                spec_air()
            } by {}
        }
        Ok(())
    }
}

/// Translate every state of a list through a table, stopping at the first
/// state the table has no entry for.
fn map_states(states: &mut Vec<BlockStateId>, table: &Vec<BlockStateId>) -> (r: Result<(), u32>)
    ensures
        final(states)@.len() == old(states)@.len(),
        r is Ok <==> forall|k: int|
            0 <= k < old(states)@.len() ==> (#[trigger] old(states)@[k]).0 < table@.len(),
        r matches Err(id) ==> id >= table@.len() && exists|k: int|
            0 <= k < old(states)@.len() && (#[trigger] old(states)@[k]).0 == id,
        r == match first_uncovered(old(states)@, table@.len() as int) {
            Some(id) => Err::<(), u32>(id),
            None => Ok::<(), u32>(()),
        },
        r is Ok ==> forall|k: int|
            0 <= k < old(states)@.len() ==> #[trigger] final(states)@[k] == table@[old(
                states,
            )@[k].0 as int],
{
    let ghost initial = states@;
    let mut k: usize = 0;
    proof {
        assert(initial.skip(0) =~= initial);
    }
    while k < states.len()
        invariant
            initial == old(states)@,
            k <= states@.len(),
            states@.len() == initial.len(),
            forall|j: int| 0 <= j < k ==> (#[trigger] initial[j]).0 < table@.len(),
            forall|j: int| 0 <= j < k ==> #[trigger] states@[j] == table@[initial[j].0 as int],
            forall|j: int| k <= j < states@.len() ==> #[trigger] states@[j] == initial[j],
            first_uncovered(initial, table@.len() as int) == first_uncovered(
                initial.skip(k as int),
                table@.len() as int,
            ),
        decreases initial.len() - k,
    {
        let state = states[k];
        proof {
            assert(initial.skip(k as int)[0] == state);
            assert(initial.skip(k as int).drop_first() =~= initial.skip(k + 1));
        }
        if (state.0 as usize) >= table.len() {
            return Err(state.0);
        }
        states.set(k, table[state.0 as usize]);
        k += 1;
    }
    proof {
        assert(initial.skip(k as int).len() == 0);
    }
    Ok(())
}

/// What, if anything, makes a set of parts inconsistent with a shape.
pub open spec fn parts_problem(shape: ChunkShape, parts: PartsView) -> Option<VoxelError> {
    match parts {
        PartsView::Uniform(_) => None,
        PartsView::Paletted { palette, bits, words } => {
            if palette.len() == 0 || bits == 0 || bits > MAX_PALETTE_BITS {
                Some(VoxelError::PaletteMetadata)
            } else if words.len() != spec_word_count(shape.spec_volume() as int, bits) {
                Some(
                    VoxelError::PackingMismatch {
                        expected_words: spec_word_count(shape.spec_volume() as int, bits) as usize,
                        found_words: words.len() as usize,
                    },
                )
            } else {
                None
            }
        },
        PartsView::Direct(cells) => {
            if cells.len() != shape.spec_volume() {
                Some(
                    VoxelError::CellCountMismatch {
                        expected: shape.spec_volume() as usize,
                        found: cells.len() as usize,
                    },
                )
            } else {
                None
            }
        },
    }
}

/// Consistent parts that keep their indices inside the palette are small:
/// a palette of at most 4096 entries, no more words or cells than the
/// section has cells.
pub proof fn lemma_parts_bounded(shape: ChunkShape, parts: PartsView)
    requires
        shape.wf(),
        parts_problem(shape, parts) is None,
        parts_fit(shape, parts),
    ensures
        shape.spec_volume() <= 256 * 256 * 256,
        match parts {
            PartsView::Paletted { palette, words, .. } => palette.len() <= 4096 && words.len()
                <= shape.spec_volume(),
            PartsView::Direct(cells) => cells.len() == shape.spec_volume(),
            PartsView::Uniform(_) => true,
        },
{
    lemma_volume_bounds(shape);
    match parts {
        PartsView::Paletted { palette, bits, words } => {
            lemma_width_facts(bits);
            let v = shape.spec_volume() as int;
            let pw = per_word(bits);
            let n = spec_word_count(v, bits);
            assert(n <= v) by {
                lemma_fundamental_div_mod(v + pw - 1, pw);
                lemma_mod_bound(v + pw - 1, pw);
                assert(n * pw <= v + pw - 1);
                assert(n <= v) by (nonlinear_arith)
                    requires
                        n * pw <= v + pw - 1,
                        pw >= 1,
                        v >= 1,
                ;
            }
        },
        _ => {},
    }
}

/// Whether a set of paletted parts keeps every index inside its palette.
pub open spec fn parts_fit(shape: ChunkShape, parts: PartsView) -> bool {
    match parts {
        PartsView::Paletted { palette, bits, words } => {
            &&& palette.len() <= capacity(bits)
            &&& forall|i: int|
                0 <= i < shape.spec_volume() ==> #[trigger] packed_at(words, bits, i)
                    < palette.len()
        },
        _ => true,
    }
}

} // verus!
