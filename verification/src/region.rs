//! A world save spread over region files.
//!
//! Chunks are grouped into regions rather than stored a file per column. A
//! region store is a directory:
//!
//! ```text
//! <root>/world.nxsv               world header: identity, seed, bounds, clock
//! <root>/region/r.0.0.nxsv        one region: its palette and its columns
//! <root>/region/r.-1.0.nxsv
//! ```
//!
//! Every file is an ordinary save container. This module holds what a store
//! decides: where each file goes and how a region's address survives its
//! file name, which regions a write may skip, how resident columns group
//! into regions, what a stored region extent says about reopening, and how
//! incoming columns merge over stored ones. Reading and writing the files
//! themselves is the caller's.
//!
//! A region file is authoritative for its region: the resident set is not a
//! delete list, and a region that scrolled out of memory is still part of
//! the world. The header is written last, so a crash between the regions
//! and the header leaves the regions ahead of the clock, which replaying the
//! journal repairs.

use vstd::prelude::*;

use crate::cli::{
    digit_value, digits_value, lemma_digits_monotone, lemma_digits_nonneg, parse_radix,
    u64_from_radix,
};
use crate::codec::{CodecError, Reader, rd_u32};
use crate::container::{SaveContainer, section_of};
use crate::error::{Recovery, join};
use crate::ident::{Identifier, valid_identifier};
use crate::layout::{find_last_dot, last_dot, lemma_last_dot, push_part, push_segment};
use crate::recipe_book::file_stem;
use crate::chunk::Chunk;
use crate::persist::{
    PersistError, SECTION_BLOCK_PALETTE, SECTION_CHUNKS, chunk_matches, chunk_record,
    chunk_records, chunks_bytes, decode_chunks, encode_chunks_from, encode_palette,
    identity_table, lemma_builtin_resolution, lemma_chunk_data_round_trip,
    lemma_chunk_record_faithful, lemma_palette_round_trip, palette_bytes, record_convertible,
    states_below,
    decode_chunks_spec, decode_palette, first_unregistered, lemma_first_unregistered_bounds,
    lemma_section_names, rd_palette,
    resolve_palette, resolved, section_id,
};
use crate::spatial::{
    ChunkCoord, DEFAULT_REGION_COLUMNS, RegionCoord, RegionShape, coord_less, coord_lt,
};
use crate::voxel::{BlockStateId, PartsView};
use crate::world::{
    World, coords_sorted, find_chunk, lemma_find_at, lemma_find_insert, lemma_find_update,
};

verus! {

/// File name of the world header inside a region store.
pub const HEADER_FILE: &'static str = "world.nxsv";

/// Directory holding the region files, relative to the store root.
pub const REGION_DIR: &'static str = "region";

/// Extension shared by the header and every region file.
pub const SAVE_EXTENSION: &'static str = "nxsv";

/// Section in the header file recording how columns were grouped. It lives
/// only in a region store: which region a column belongs to is a property of
/// this layout, not of the world.
pub const SECTION_REGION_SHAPE: &'static str = "nexora:save/region_shape";

/// The decimal digit for a value below ten.
pub open spec fn digit_char(d: int) -> char {
    if d == 0 {
        '0'
    } else if d == 1 {
        '1'
    } else if d == 2 {
        '2'
    } else if d == 3 {
        '3'
    } else if d == 4 {
        '4'
    } else if d == 5 {
        '5'
    } else if d == 6 {
        '6'
    } else if d == 7 {
        '7'
    } else if d == 8 {
        '8'
    } else {
        '9'
    }
}

/// The decimal digits of a natural number, most significant first, with no
/// leading zero.
pub open spec fn decimal_digits(n: nat) -> Seq<char>
    decreases n,
{
    if n < 10 {
        seq![digit_char(n as int)]
    } else {
        decimal_digits(n / 10).push(digit_char((n % 10) as int))
    }
}

/// An integer in decimal as `Display` writes it: digits, with `-` before a
/// negative one.
pub open spec fn decimal_text(x: int) -> Seq<char> {
    if x < 0 {
        seq!['-'] + decimal_digits((-x) as nat)
    } else {
        decimal_digits(x as nat)
    }
}

/// What `i64::from_str` reads: an optional `+` or `-`, then at least one
/// decimal digit, for a value that fits in 64 signed bits.
pub open spec fn i64_from_text(s: Seq<char>) -> Option<i64> {
    if s.len() > 0 && s[0] == '-' {
        let digits = s.drop_first();
        if digits.len() == 0 {
            None
        } else {
            match digits_value(digits, 10) {
                Some(v) => if v <= 0x8000_0000_0000_0000 {
                    Some((-v) as i64)
                } else {
                    None
                },
                None => None,
            }
        }
    } else {
        match u64_from_radix(s, 10) {
            Some(v) => if v <= i64::MAX {
                Some(v as i64)
            } else {
                None
            },
            None => None,
        }
    }
}

/// The stem of a region's file name: `r.<x>.<z>`.
pub open spec fn region_stem(region: RegionCoord) -> Seq<char> {
    seq!['r', '.'] + decimal_text(region.x as int) + seq!['.'] + decimal_text(region.z as int)
}

/// The region a file stem names: `r.`, then two integers split at the last
/// `.`, since the first may itself be negative.
pub open spec fn region_of_stem(s: Seq<char>) -> Option<RegionCoord> {
    if s.len() >= 2 && s[0] == 'r' && s[1] == '.' {
        let rest = s.skip(2);
        match last_dot(rest) {
            Some(d) => match (i64_from_text(rest.take(d)), i64_from_text(rest.skip(d + 1))) {
                (Some(x), Some(z)) => Some(RegionCoord { x, z }),
                _ => None,
            },
            None => None,
        }
    } else {
        None
    }
}

/// Each decimal digit reads back as its value.
proof fn lemma_digit_char(d: int)
    requires
        0 <= d < 10,
    ensures
        digit_value(digit_char(d), 10) == Some(d),
        digit_char(d) != '.',
        digit_char(d) != '-',
        digit_char(d) != '+',
{
}

/// Decimal digits read back as the number they spell, and hold no sign or
/// dot.
pub proof fn lemma_decimal_digits(n: nat)
    ensures
        decimal_digits(n).len() >= 1,
        digits_value(decimal_digits(n), 10) == Some(n as int),
        forall|i: int|
            0 <= i < decimal_digits(n).len() ==> {
                let c = #[trigger] decimal_digits(n)[i];
                c != '.' && c != '-' && c != '+'
            },
    decreases n,
{
    if n < 10 {
        lemma_digit_char(n as int);
        let s = decimal_digits(n);
        assert(s.drop_last() =~= Seq::<char>::empty());
        assert(digits_value(s.drop_last(), 10) == Some(0int));
        assert(s.last() == digit_char(n as int));
    } else {
        lemma_decimal_digits(n / 10);
        lemma_digit_char((n % 10) as int);
        let s = decimal_digits(n);
        assert(s.drop_last() =~= decimal_digits(n / 10));
        assert(s.last() == digit_char((n % 10) as int));
        let high = (n / 10) as int;
        let low = (n % 10) as int;
        assert(high * 10 + low == n) by (nonlinear_arith)
            requires
                high == n / 10,
                low == n % 10,
        ;
        assert(digits_value(s, 10) == Some(high * 10 + low));
        assert forall|i: int| 0 <= i < s.len() implies {
            let c = #[trigger] s[i];
            c != '.' && c != '-' && c != '+'
        } by {
            if i < s.len() - 1 {
                assert(s[i] == decimal_digits(n / 10)[i]);
            }
        }
    }
}

/// An integer written in decimal reads back as itself.
pub proof fn lemma_decimal_round_trip(x: i64)
    ensures
        i64_from_text(decimal_text(x as int)) == Some(x),
        forall|i: int| 0 <= i < decimal_text(x as int).len() ==> #[trigger] decimal_text(x as int)[i] != '.',
{
    if x < 0 {
        let n = (-x) as nat;
        lemma_decimal_digits(n);
        let s = decimal_text(x as int);
        assert(s.drop_first() =~= decimal_digits(n));
        assert forall|i: int| 0 <= i < s.len() implies #[trigger] s[i] != '.' by {
            if i > 0 {
                assert(s[i] == decimal_digits(n)[i - 1]);
            }
        }
    } else {
        let n = x as nat;
        lemma_decimal_digits(n);
        let s = decimal_digits(n);
        assert(s[0] != '+');
    }
}

/// The last `.` of `a.b` is the one between them when `b` holds none.
proof fn lemma_last_dot_split(a: Seq<char>, b: Seq<char>)
    requires
        forall|i: int| 0 <= i < b.len() ==> #[trigger] b[i] != '.',
    ensures
        last_dot(a + seq!['.'] + b) == Some(a.len() as int),
    decreases b.len(),
{
    let s = a + seq!['.'] + b;
    if b.len() == 0 {
        assert(s.last() == '.');
    } else {
        assert(s.last() == b.last());
        assert(b[b.len() - 1] != '.');
        assert(s.drop_last() =~= a + seq!['.'] + b.drop_last());
        lemma_last_dot_split(a, b.drop_last());
    }
}

/// A region's address survives its file name, in both signs and at both
/// ends of the range.
pub proof fn lemma_region_stem_round_trip(region: RegionCoord)
    ensures
        region_of_stem(region_stem(region)) == Some(region),
{
    let dx = decimal_text(region.x as int);
    let dz = decimal_text(region.z as int);
    lemma_decimal_round_trip(region.x);
    lemma_decimal_round_trip(region.z);
    let s = region_stem(region);
    let rest = s.skip(2);
    assert(rest =~= dx + seq!['.'] + dz);
    lemma_last_dot_split(dx, dz);
    assert(rest.take(dx.len() as int) =~= dx);
    assert(rest.skip((dx.len() + 1) as int) =~= dz);
}

/// The text of a digit below ten.
fn digit_str(d: u64) -> (r: &'static str)
    requires
        d < 10,
    ensures
        r@ == seq![digit_char(d as int)],
{
    proof {
        reveal_strlit("0");
        reveal_strlit("1");
        reveal_strlit("2");
        reveal_strlit("3");
        reveal_strlit("4");
        reveal_strlit("5");
        reveal_strlit("6");
        reveal_strlit("7");
        reveal_strlit("8");
        reveal_strlit("9");
    }
    let r = match d {
        0 => "0",
        1 => "1",
        2 => "2",
        3 => "3",
        4 => "4",
        5 => "5",
        6 => "6",
        7 => "7",
        8 => "8",
        _ => "9",
    };
    proof {
        assert(r@ =~= seq![digit_char(d as int)]);
    }
    r
}

/// A natural number in decimal, as `Display` writes it.
pub fn decimal_nat(value: u64) -> (r: String)
    ensures
        r@ == decimal_digits(value as nat),
{
    let ghost m: nat = value as nat;
    let mut n = value;
    let mut low = String::new();
    while n >= 10
        invariant
            decimal_digits(m) == decimal_digits(n as nat) + low@,
        decreases n,
    {
        let d = digit_str(n % 10);
        let next = join(d, low.as_str());
        proof {
            assert(decimal_digits(n as nat) == decimal_digits((n / 10) as nat).push(
                digit_char((n % 10) as int),
            ));
            assert(decimal_digits(m) =~= decimal_digits((n / 10) as nat) + next@);
        }
        low = next;
        n = n / 10;
    }
    let r = join(digit_str(n), low.as_str());
    proof {
        assert(r@ =~= decimal_digits(m));
    }
    r
}

/// An integer in decimal, as `Display` writes it.
pub fn decimal(x: i64) -> (r: String)
    ensures
        r@ == decimal_text(x as int),
{
    let negative = x < 0;
    let magnitude: u64 = if negative {
        ((-(x + 1)) as u64) + 1
    } else {
        x as u64
    };
    let digits = decimal_nat(magnitude);
    if negative {
        let r = join("-", digits.as_str());
        proof {
            reveal_strlit("-");
            assert(r@ =~= seq!['-'] + decimal_digits(magnitude as nat));
        }
        r
    } else {
        digits
    }
}

/// Read a signed decimal integer, as `i64::from_str` does.
pub fn parse_i64(text: &str) -> (r: Option<i64>)
    ensures
        r == i64_from_text(text@),
{
    let n = text.unicode_len();
    if n > 0 && text.get_char(0) == '-' {
        let ghost digits = text@.drop_first();
        proof {
            assert(text@.skip(1) =~= digits);
        }
        if n > 1 && text.get_char(1) == '+' {
            proof {
                if digits_value(digits, 10) is Some {
                    lemma_digits_monotone(digits, 10, 1);
                    assert(digits.take(1).drop_last() =~= Seq::<char>::empty());
                    assert(digits.take(1).last() == '+');
                }
            }
            return None;
        }
        proof {
            if digits.len() > 0 {
                assert(digits[0] == text@[1]);
            }
            assert(u64_from_radix(digits, 10) == if digits.len() == 0 {
                None
            } else {
                match digits_value(digits, 10) {
                    Some(v) => if v <= u64::MAX {
                        Some(v as u64)
                    } else {
                        None
                    },
                    None => None,
                }
            });
        }
        let parsed = parse_radix(text, 1, 10);
        proof {
            assert(text@.skip(1) =~= digits);
            if digits_value(digits, 10) is Some {
                lemma_digits_nonneg(digits, 10);
            }
            if let Some(v) = parsed {
                assert(digits_value(digits, 10) == Some(v as int));
            }
        }
        match parsed {
            Some(v) => if v <= 0x8000_0000_0000_0000 {
                proof {
                    assert(i64_from_text(text@) == Some((-(v as int)) as i64));
                }
                if v == 0x8000_0000_0000_0000 {
                    Some(i64::MIN)
                } else {
                    Some(-(v as i64))
                }
            } else {
                None
            },
            None => None,
        }
    } else {
        match parse_radix(text, 0, 10) {
            Some(v) => {
                proof {
                    assert(text@.skip(0) =~= text@);
                }
                if v <= 0x7fff_ffff_ffff_ffff {
                    Some(v as i64)
                } else {
                    None
                }
            },
            None => {
                proof {
                    assert(text@.skip(0) =~= text@);
                }
                None
            },
        }
    }
}


/// A region's file name: its stem, then the save extension.
pub open spec fn region_file_name(region: RegionCoord) -> Seq<char> {
    region_stem(region) + seq!['.'] + SAVE_EXTENSION@
}

/// The name of a region's file.
fn region_file_name_exec(region: RegionCoord) -> (r: String)
    ensures
        r@ == region_file_name(region),
{
    proof {
        reveal_strlit("r.");
        reveal_strlit(".");
    }
    let head = join("r.", decimal(region.x).as_str());
    let head = join(head.as_str(), ".");
    let stem = join(head.as_str(), decimal(region.z).as_str());
    let dotted = join(stem.as_str(), ".");
    let r = join(dotted.as_str(), SAVE_EXTENSION);
    proof {
        assert(r@ =~= region_file_name(region));
    }
    r
}

/// Why a region store refused.
#[derive(Debug, Clone, PartialEq, Eq)]
pub enum RegionError {
    /// A save file in the region directory is not named for a region
    /// address; the name's stem is given.
    NotARegionName { stem: String },
    /// The store was written with a different region extent.
    ShapeMismatch { recorded: u32, opened_with: u32 },
    /// The recorded region extent could not be read.
    Codec(CodecError),
}

impl RegionError {
    /// What a caller can do about it: a stray file or an unreadable extent
    /// is set aside; opening with the wrong extent is refused outright.
    pub fn recovery(&self) -> (r: Recovery)
        ensures
            self is NotARegionName ==> r == Recovery::Quarantine,
            self is ShapeMismatch ==> r == Recovery::Reject,
            self is Codec ==> r == Recovery::Quarantine,
    {
        match self {
            RegionError::NotARegionName { .. } => Recovery::Quarantine,
            RegionError::ShapeMismatch { .. } => Recovery::Reject,
            RegionError::Codec(_) => Recovery::Quarantine,
        }
    }

    /// What went wrong, in words; a stray file's stem is quoted.
    pub fn message(&self) -> (r: String)
        ensures
            self matches RegionError::NotARegionName { stem } ==> exists|pre: Seq<char>, post: Seq<
                char,
            >| r@ == pre + stem@ + post,
    {
        match self {
            RegionError::NotARegionName { stem } => {
                let head = join(
                    "the region directory holds a save file whose name is not a region address (expected r.<x>.<z>): `",
                    stem.as_str(),
                );
                let r = join(head.as_str(), "`");
                proof {
                    let pre =
                        "the region directory holds a save file whose name is not a region address (expected r.<x>.<z>): `"@;
                    assert(r@ == pre + stem@ + "`"@);
                }
                r
            },
            RegionError::ShapeMismatch { .. } => {
                "this store was written with a different region extent".to_owned()
            },
            RegionError::Codec(_) => "the recorded region extent could not be read".to_owned(),
        }
    }
}

/// The region a file stem names, or the refusal that names the stem.
pub fn parse_region_stem(stem: &str) -> (r: Result<RegionCoord, RegionError>)
    ensures
        match region_of_stem(stem@) {
            Some(region) => r == Ok::<RegionCoord, RegionError>(region),
            None => (r matches Err(RegionError::NotARegionName { stem: s }) && s@ == stem@),
        },
{
    let n = stem.unicode_len();
    if n < 2 || stem.get_char(0) != 'r' || stem.get_char(1) != '.' {
        return Err(RegionError::NotARegionName { stem: stem.to_owned() });
    }
    let rest = stem.substring_char(2, n);
    let dot = find_last_dot(rest);
    proof {
        lemma_last_dot(rest@);
        assert(rest@ =~= stem@.skip(2));
    }
    let d = match dot {
        Some(d) => d,
        None => {
            return Err(RegionError::NotARegionName { stem: stem.to_owned() });
        },
    };
    let m = rest.unicode_len();
    let x_text = rest.substring_char(0, d);
    let z_text = rest.substring_char(d + 1, m);
    proof {
        assert(x_text@ =~= rest@.take(d as int));
        assert(z_text@ =~= rest@.skip(d + 1));
    }
    match (parse_i64(x_text), parse_i64(z_text)) {
        (Some(x), Some(z)) => Ok(RegionCoord::new(x, z)),
        _ => Err(RegionError::NotARegionName { stem: stem.to_owned() }),
    }
}

/// The header section recording the region extent names a valid
/// identifier.
proof fn lemma_region_shape_section()
    ensures
        valid_identifier(SECTION_REGION_SHAPE@),
{
    reveal_strlit("nexora:save/region_shape");
    reveal_with_fuel(crate::ident::chars_all, 20);
    crate::ident::lemma_valid_by_parts(SECTION_REGION_SHAPE@, 6);
}

/// What a header's recorded extent says about opening a store with
/// `columns` per axis. A header without the section predates it and is
/// accepted: the only stores that can lack it were written by the same
/// default.
pub open spec fn shape_check(header: Seq<(Seq<char>, Seq<u8>)>, columns: nat) -> Result<
    (),
    RegionError,
> {
    match section_of(header, SECTION_REGION_SHAPE@) {
        None => Ok(()),
        Some(bytes) => match rd_u32(bytes, 0) {
            Err(e) => Err(RegionError::Codec(e)),
            Ok((v, q)) => if q < bytes.len() {
                Err(
                    RegionError::Codec(
                        CodecError::TrailingBytes { count: (bytes.len() - q) as usize },
                    ),
                )
            } else if v == columns {
                Ok(())
            } else {
                Err(RegionError::ShapeMismatch { recorded: v, opened_with: columns as u32 })
            },
        },
    }
}

/// What one write touched, and what it was able to leave alone.
#[derive(Debug, Clone, Default, PartialEq, Eq)]
pub struct WriteReport {
    /// Regions encoded and written, in ascending order.
    pub written: Vec<RegionCoord>,
    /// Regions left untouched because nothing in them had changed.
    pub skipped: Vec<RegionCoord>,
    /// Bytes written across the region files, excluding the header.
    pub bytes: u64,
}

impl WriteReport {
    /// How many regions the world spans, written and skipped together.
    pub fn regions(&self) -> (n: usize)
        requires
            self.written.len() + self.skipped.len() <= usize::MAX,
        ensures
            n == self.written.len() + self.skipped.len(),
    {
        self.written.len() + self.skipped.len()
    }
}

/// Which regions a write is allowed to skip.
#[derive(Debug, Clone, Copy, PartialEq, Eq, Structural)]
pub enum Scope {
    /// Write every resident region.
    Everything,
    /// Write the regions that changed, and any that has no file yet.
    Changed,
}

/// Whether a write rewrites a region: always for [`Scope::Everything`];
/// for [`Scope::Changed`], when one of its columns changed or it has no file
/// yet.
pub fn should_write(scope: Scope, dirty: bool, file_exists: bool) -> (r: bool)
    ensures
        r == (scope == Scope::Everything || dirty || !file_exists),
{
    !(scope == Scope::Changed && !dirty && file_exists)
}

/// A world save laid out as one file per region.
#[derive(Debug, Clone, PartialEq, Eq)]
pub struct RegionStore {
    root: String,
    shape: RegionShape,
}

impl RegionStore {
    /// The directory this store owns.
    pub closed spec fn spec_root(&self) -> Seq<char> {
        self.root@
    }

    /// How columns are grouped into regions here.
    pub closed spec fn spec_shape(&self) -> RegionShape {
        self.shape
    }

    /// Open a store at `root`, grouping columns by the engine default
    /// region extent.
    pub fn new(root: &str) -> (s: Self)
        ensures
            s.spec_root() == root@,
            s.spec_shape().wf(),
            s.spec_shape().spec_columns() == DEFAULT_REGION_COLUMNS,
    {
        RegionStore { root: root.to_owned(), shape: RegionShape::default_shape() }
    }

    /// Open a store at `root` with an explicit region extent.
    pub fn with_shape(root: &str, shape: RegionShape) -> (s: Self)
        ensures
            s.spec_root() == root@,
            s.spec_shape() == shape,
    {
        RegionStore { root: root.to_owned(), shape }
    }

    /// The directory this store owns.
    pub fn root(&self) -> (r: &str)
        ensures
            r@ == self.spec_root(),
    {
        self.root.as_str()
    }

    /// How many columns per axis one region covers here.
    pub fn shape(&self) -> (r: RegionShape)
        ensures
            r == self.spec_shape(),
    {
        self.shape
    }

    /// Path of the world header file.
    pub fn header_path(&self) -> (r: String)
        ensures
            r@ == push_segment(self.spec_root(), HEADER_FILE@),
    {
        push_part(self.root.clone(), HEADER_FILE)
    }

    /// Path of one region's file, whether or not it exists.
    pub fn region_path(&self, region: RegionCoord) -> (r: String)
        ensures
            r@ == push_segment(
                push_segment(self.spec_root(), REGION_DIR@),
                region_file_name(region),
            ),
    {
        let dir = push_part(self.root.clone(), REGION_DIR);
        let name = region_file_name_exec(region);
        push_part(dir, name.as_str())
    }

    /// Fail when a header says the store was written with a different
    /// region extent: columns filed under one grouping and reopened under
    /// another would land on region addresses that already hold different
    /// columns.
    pub fn compare_shape(&self, header: &SaveContainer) -> (r: Result<(), RegionError>)
        ensures
            r == shape_check(header@, self.spec_shape().spec_columns()),
    {
        proof {
            lemma_region_shape_section();
        }
        let name = match Identifier::parse(SECTION_REGION_SHAPE) {
            Ok(id) => id,
            Err(_) => {
                return Ok(());
            },
        };
        let bytes = match header.get(&name) {
            Some(b) => b,
            None => {
                return Ok(());
            },
        };
        let mut reader = Reader::new(bytes);
        let recorded = match reader.u32() {
            Ok(v) => v,
            Err(e) => {
                return Err(RegionError::Codec(e));
            },
        };
        match reader.expect_exhausted() {
            Ok(()) => {},
            Err(e) => {
                return Err(RegionError::Codec(e));
            },
        }
        let columns = self.shape.columns_per_axis();
        if recorded == columns {
            Ok(())
        } else {
            Err(RegionError::ShapeMismatch { recorded, opened_with: columns })
        }
    }

    /// The bytes a header records this store's region extent as.
    pub fn encode_shape(&self) -> (r: Vec<u8>)
        ensures
            r@ == crate::codec::le_bytes_u32(self.spec_shape().spec_columns() as u32),
    {
        let mut out = crate::codec::Writer::new();
        out.u32(self.shape.columns_per_axis());
        out.finish()
    }
}


/// What reading a region file's sections comes to.
pub enum RegionOutcome {
    /// Refused for a reason that names neither a section nor a block.
    Refused(PersistError),
    /// A required section is absent.
    MissingSection(Seq<char>),
    /// The region names block content this build does not register.
    MissingContent(Seq<char>),
    /// The region's columns, read from these records through this table.
    Columns { table: Seq<BlockStateId>, records: Seq<(ChunkCoord, Seq<(i64, PartsView)>)> },
}

/// What reading the sections `v` of a region file comes to: its own palette
/// resolved against this build's registry, then its columns, each refused as
/// soon as it is missing or malformed. A region file needs no header.
pub open spec fn region_outcome(v: Seq<(Seq<char>, Seq<u8>)>, shape: crate::spatial::ChunkShape) -> RegionOutcome {
    match section_of(v, SECTION_BLOCK_PALETTE@) {
        None => RegionOutcome::MissingSection(SECTION_BLOCK_PALETTE@),
        Some(pb) => match rd_palette(pb) {
            Err(e) => RegionOutcome::Refused(e),
            Ok(names) => match first_unregistered(names) {
                Some(k) => RegionOutcome::MissingContent(names[k]),
                None => match section_of(v, SECTION_CHUNKS@) {
                    None => RegionOutcome::MissingSection(SECTION_CHUNKS@),
                    Some(cb) => match decode_chunks_spec(cb, shape, resolved(names)) {
                        Err(e) => RegionOutcome::Refused(e),
                        Ok(recs) => RegionOutcome::Columns { table: resolved(names), records: recs },
                    },
                },
            },
        },
    }
}

/// The columns one region file holds, resolved against `world`'s registry
/// and read at its section shape. A region file is self-contained: this
/// reads exactly one container, without the header or its neighbours.
pub fn region_columns(world: &World, container: &SaveContainer) -> (r: Result<Vec<Chunk>, PersistError>)
    requires
        world.wf(),
    ensures
        match region_outcome(container@, world.spec_descriptor().shape) {
            RegionOutcome::Refused(e) => r == Err::<Vec<Chunk>, PersistError>(e),
            RegionOutcome::MissingSection(n) => (r matches Err(PersistError::MissingSection { name })
                && name@ == n),
            RegionOutcome::MissingContent(n) => (r matches Err(PersistError::MissingContent { name })
                && name@ == n),
            RegionOutcome::Columns { table, records } => (r matches Ok(cs) && cs@.len()
                == records.len() && forall|i: int|
                0 <= i < records.len() ==> #[trigger] chunk_matches(
                    cs@[i],
                    records[i],
                    world.spec_descriptor().shape,
                    table,
                )),
        },
{
    proof {
        lemma_section_names();
    }
    let palette_name = match section_id(SECTION_BLOCK_PALETTE) {
        Ok(id) => id,
        Err(e) => {
            return Err(e);
        },
    };
    let palette_bytes = match container.require(&palette_name) {
        Ok(b) => b,
        Err(e) => {
            return Err(e);
        },
    };
    let saved = match decode_palette(palette_bytes) {
        Ok(ids) => ids,
        Err(e) => {
            return Err(e);
        },
    };
    proof {
        let names = rd_palette(palette_bytes@)->Ok_0;
        assert(saved@.map_values(|id: Identifier| id@) =~= names);
    }
    let remap = match resolve_palette(world, &saved) {
        Ok(t) => t,
        Err(e) => {
            proof {
                let names = rd_palette(palette_bytes@)->Ok_0;
                lemma_first_unregistered_bounds(names);
                if let Some(k) = first_unregistered(names) {
                    assert(names[k] == saved@[k]@);
                }
            }
            return Err(e);
        },
    };
    let chunks_name = match section_id(SECTION_CHUNKS) {
        Ok(id) => id,
        Err(e) => {
            return Err(e);
        },
    };
    let chunk_bytes = match container.require(&chunks_name) {
        Ok(b) => b,
        Err(e) => {
            return Err(e);
        },
    };
    decode_chunks(chunk_bytes, world.descriptor().shape, &remap)
}


/// The sections of the region file holding `chunks` of a world: the
/// registry's names, then the chunks in the order given.
pub open spec fn region_view(chunks: Seq<Chunk>) -> Seq<(Seq<char>, Seq<u8>)> {
    seq![
        (SECTION_BLOCK_PALETTE@, palette_bytes(crate::world::builtin_blocks())),
        (SECTION_CHUNKS@, chunks_bytes(chunk_records(chunks))),
    ]
}

/// The container for one region file: the world's palette, so the file
/// reads on its own, and the given columns.
pub fn region_container(world: &World, chunks: &Vec<Chunk>) -> (r: Result<SaveContainer, PersistError>)
    requires
        world.wf(),
    ensures
        r matches Ok(c) && c@ == region_view(chunks@),
{
    proof {
        lemma_section_names();
    }
    let mut container = SaveContainer::new();
    let palette = match section_id(SECTION_BLOCK_PALETTE) {
        Ok(id) => id,
        Err(e) => {
            return Err(e);
        },
    };
    let columns = match section_id(SECTION_CHUNKS) {
        Ok(id) => id,
        Err(e) => {
            return Err(e);
        },
    };
    container.put(palette, encode_palette(world));
    let ghost v1 = container@;
    assert(v1 =~= seq![(SECTION_BLOCK_PALETTE@, palette_bytes(crate::world::builtin_blocks()))]);
    container.put(columns, encode_chunks_from(chunks));
    assert(container@ =~= region_view(chunks@)) by {
        assert(!exists|i: int| 0 <= i < v1.len() && v1[i].0 == SECTION_CHUNKS@);
    }
    Ok(container)
}

/// Chunks a region file can hold and give back: few enough to count, each
/// of the world's section shape with a countable number of sections, and
/// every state they record registered.
pub open spec fn storable(chunks: Seq<Chunk>, shape: crate::spatial::ChunkShape) -> bool {
    &&& chunks.len() <= u32::MAX
    &&& forall|i: int|
        0 <= i < chunks.len() ==> {
            &&& (#[trigger] chunks[i]).sound()
            &&& chunks[i].spec_sections().len() <= u32::MAX
            &&& chunks[i].spec_shape() == shape
            &&& states_below(chunks[i], crate::world::builtin_blocks().len() as int)
        }
}

/// A region file reads without the header: reading what a region write
/// wrote gives back one record per column written, in the order written,
/// each the column's coordinate and stored sections, through the
/// registry's own ids.
pub proof fn lemma_region_write_then_read(chunks: Seq<Chunk>, shape: crate::spatial::ChunkShape)
    requires
        shape.wf(),
        storable(chunks, shape),
    ensures
        region_outcome(region_view(chunks), shape) == (RegionOutcome::Columns {
            table: resolved(crate::world::builtin_blocks()),
            records: chunk_records(chunks),
        }),
        identity_table(resolved(crate::world::builtin_blocks())),
{
    let v = region_view(chunks);
    let names = crate::world::builtin_blocks();
    let table = resolved(names);
    let recs = chunk_records(chunks);
    lemma_section_names();
    assert(crate::container::names_distinct(v));
    crate::container::lemma_section_at(v, 0);
    crate::container::lemma_section_at(v, 1);
    crate::world::lemma_builtin_names();
    assert forall|i: int| 0 <= i < names.len() implies vstd::utf8::encode_utf8(#[trigger] names[i]).len()
        <= u32::MAX by {
        crate::ident::lemma_identifier_ascii(names[i]);
    }
    lemma_palette_round_trip(names);
    lemma_builtin_resolution();
    assert forall|i: int| 0 <= i < recs.len() implies record_convertible(#[trigger] recs[i], shape, table) by {
        let c = chunks[i];
        assert(recs[i] == chunk_record(c));
        lemma_chunk_record_faithful(c, table);
    }
    lemma_chunk_data_round_trip(recs, shape, table);
}


/// The last of `s` that belongs to column `c`.
pub open spec fn last_at(s: Seq<Chunk>, c: ChunkCoord) -> Option<Chunk>
    decreases s.len(),
{
    if s.len() == 0 {
        None
    } else if s.last().spec_coord() == c {
        Some(s.last())
    } else {
        last_at(s.drop_last(), c)
    }
}

/// The first of `s` that belongs to column `c`.
pub open spec fn first_at(s: Seq<Chunk>, c: ChunkCoord) -> Option<Chunk>
    decreases s.len(),
{
    if s.len() == 0 {
        None
    } else {
        match first_at(s.drop_last(), c) {
            Some(x) => Some(x),
            None => if s.last().spec_coord() == c {
                Some(s.last())
            } else {
                None
            },
        }
    }
}

/// What a region holds of column `c` once `incoming` is stored over
/// `stored`: the last incoming chunk of the column when there is one, else
/// the stored one.
pub open spec fn merged_at(incoming: Seq<Chunk>, stored: Seq<Chunk>, c: ChunkCoord) -> Option<Chunk> {
    match last_at(incoming, c) {
        Some(x) => Some(x),
        None => first_at(stored, c),
    }
}

/// Where column `c` stands in columns sorted by column, or where it would
/// go.
fn locate(chunks: &Vec<Chunk>, c: ChunkCoord) -> (r: Result<usize, usize>)
    requires
        coords_sorted(chunks@),
    ensures
        r matches Ok(i) ==> i < chunks@.len() && chunks@[i as int].spec_coord() == c,
        r matches Err(i) ==> i <= chunks@.len() && (forall|k: int|
            0 <= k < i ==> coord_lt(chunks@[k].spec_coord(), c)) && (forall|k: int|
            i <= k < chunks@.len() ==> coord_lt(c, chunks@[k].spec_coord())),
{
    let mut i: usize = 0;
    while i < chunks.len()
        invariant
            coords_sorted(chunks@),
            i <= chunks@.len(),
            forall|k: int| 0 <= k < i ==> coord_lt(chunks@[k].spec_coord(), c),
        decreases chunks.len() - i,
    {
        let here = chunks[i].coord();
        if here == c {
            return Ok(i);
        }
        if coord_less(c, here) {
            proof {
                assert forall|k: int| i <= k < chunks@.len() implies coord_lt(
                    c,
                    chunks@[k].spec_coord(),
                ) by {
                    if k > i {
                        assert(coord_lt(chunks@[i as int].spec_coord(), chunks@[k].spec_coord()));
                    }
                }
            }
            return Err(i);
        }
        i += 1;
    }
    Err(i)
}

/// The chunks among the first `n` of `pending` whose column is (`keep`) or
/// is not (`!keep`) among `members`, in order.
pub open spec fn kept_columns(pending: Seq<Chunk>, members: Seq<ChunkCoord>, n: int, keep: bool) -> Seq<
    Chunk,
>
    decreases n,
{
    if n <= 0 {
        Seq::empty()
    } else if members.contains(pending[n - 1].spec_coord()) == keep {
        kept_columns(pending, members, n - 1, keep).push(pending[n - 1])
    } else {
        kept_columns(pending, members, n - 1, keep)
    }
}

/// Split chunks into those whose column is among `members` and the rest,
/// each in the order given.
pub fn split_columns(pending: Vec<Chunk>, members: &Vec<ChunkCoord>) -> (r: (Vec<Chunk>, Vec<Chunk>))
    ensures
        r.0@ == kept_columns(pending@, members@, pending@.len() as int, true),
        r.1@ == kept_columns(pending@, members@, pending@.len() as int, false),
{
    let ghost all = pending@;
    let mut rest = pending;
    let mut inside: Vec<Chunk> = Vec::new();
    let mut outside: Vec<Chunk> = Vec::new();
    let ghost mut done: int = 0;
    while rest.len() > 0
        invariant
            0 <= done <= all.len(),
            rest@ == all.skip(done),
            inside@ == kept_columns(all, members@, done, true),
            outside@ == kept_columns(all, members@, done, false),
        decreases rest.len(),
    {
        let chunk = rest.remove(0);
        proof {
            assert(chunk == all[done]);
        }
        let coord = chunk.coord();
        let mut j: usize = 0;
        let mut found = false;
        while j < members.len() && !found
            invariant
                j <= members@.len(),
                found ==> members@.contains(coord),
                !found ==> forall|k: int| 0 <= k < j ==> members@[k] != coord,
            decreases members.len() - j + if found { 0int } else { 1int },
        {
            if members[j] == coord {
                proof {
                    assert(members@[j as int] == coord);
                }
                found = true;
            } else {
                j += 1;
            }
        }
        proof {
            if !found {
                assert(!members@.contains(coord));
            }
        }
        if found {
            inside.push(chunk);
        } else {
            outside.push(chunk);
        }
        proof {
            done = done + 1;
            assert(all.skip(done - 1).skip(1) =~= all.skip(done));
        }
    }
    proof {
        assert(done == all.len());
    }
    (inside, outside)
}

/// Merge columns into a region's stored ones, keeping every stored column
/// the call does not name: a column named by the caller replaces the stored
/// one rather than being discarded by it, and of two incoming chunks for
/// one column the later wins. The result is in column order.
pub fn merge_columns(incoming: Vec<Chunk>, stored: Vec<Chunk>) -> (r: Vec<Chunk>)
    ensures
        coords_sorted(r@),
        forall|c: ChunkCoord| #[trigger] find_chunk(r@, c) == merged_at(incoming@, stored@, c),
{
    let ghost inc = incoming@;
    let ghost sto = stored@;
    let mut incoming = incoming;
    let mut stored = stored;
    let mut out: Vec<Chunk> = Vec::new();
    let ghost mut taken: int = 0;
    while incoming.len() > 0
        invariant
            0 <= taken <= inc.len(),
            incoming@ == inc.skip(taken),
            coords_sorted(out@),
            forall|c: ChunkCoord| #[trigger] find_chunk(out@, c) == last_at(inc.take(taken), c),
        decreases incoming.len(),
    {
        let chunk = incoming.remove(0);
        let ghost before = out@;
        proof {
            assert(chunk == inc[taken]);
            assert(inc.take(taken + 1).drop_last() =~= inc.take(taken));
            assert(inc.take(taken + 1).last() == chunk);
        }
        match locate(&out, chunk.coord()) {
            Ok(i) => {
                proof {
                    lemma_find_update(before, i as int, chunk);
                }
                out.set(i, chunk);
            },
            Err(i) => {
                proof {
                    lemma_find_insert(before, i as int, chunk);
                }
                out.insert(i, chunk);
            },
        }
        proof {
            taken = taken + 1;
            assert(incoming@ =~= inc.skip(taken));
        }
    }
    proof {
        assert(inc.take(taken) =~= inc);
    }
    let ghost mut kept: int = 0;
    while stored.len() > 0
        invariant
            0 <= kept <= sto.len(),
            stored@ == sto.skip(kept),
            coords_sorted(out@),
            forall|c: ChunkCoord| #[trigger] find_chunk(out@, c) == merged_at(inc, sto.take(kept), c),
        decreases stored.len(),
    {
        let chunk = stored.remove(0);
        let ghost before = out@;
        proof {
            assert(chunk == sto[kept]);
            assert(sto.take(kept + 1).drop_last() =~= sto.take(kept));
            assert(sto.take(kept + 1).last() == chunk);
        }
        match locate(&out, chunk.coord()) {
            Ok(_) => {
                proof {
                    assert forall|c: ChunkCoord| #[trigger] find_chunk(out@, c) == merged_at(
                        inc,
                        sto.take(kept + 1),
                        c,
                    ) by {
                        assert(find_chunk(out@, c) == merged_at(inc, sto.take(kept), c));
                    }
                }
            },
            Err(i) => {
                proof {
                    lemma_find_insert(before, i as int, chunk);
                    assert forall|c: ChunkCoord| #[trigger] find_chunk(before, c) == merged_at(
                        inc,
                        sto.take(kept),
                        c,
                    ) by {}
                    let key = chunk.spec_coord();
                    assert(find_chunk(before, key) is None) by {
                        if exists|j: int| 0 <= j < before.len() && before[j].spec_coord() == key {
                            let j = choose|j: int| 0 <= j < before.len() && before[j].spec_coord() == key;
                            if j < i {
                                assert(coord_lt(before[j].spec_coord(), key));
                            } else {
                                assert(coord_lt(key, before[j].spec_coord()));
                            }
                        }
                    }
                }
                out.insert(i, chunk);
            },
        }
        proof {
            kept = kept + 1;
            assert(stored@ =~= sto.skip(kept));
        }
    }
    proof {
        assert(sto.take(kept) =~= sto);
    }
    out
}


/// Region order: by `x`, then by `z`.
pub open spec fn region_lt(a: RegionCoord, b: RegionCoord) -> bool {
    a.x < b.x || (a.x == b.x && a.z < b.z)
}

/// Whether `a` comes strictly before `b` in region order.
pub fn region_less(a: RegionCoord, b: RegionCoord) -> (r: bool)
    ensures
        r == region_lt(a, b),
{
    a.x < b.x || (a.x == b.x && a.z < b.z)
}

/// The columns of `coords` stored in region `r`, in the order given.
pub open spec fn in_region(coords: Seq<ChunkCoord>, shape: RegionShape, r: RegionCoord) -> Seq<ChunkCoord>
    decreases coords.len(),
{
    if coords.len() == 0 {
        Seq::empty()
    } else {
        let front = in_region(coords.drop_last(), shape, r);
        if shape.spec_region_of(coords.last()) == r {
            front.push(coords.last())
        } else {
            front
        }
    }
}

/// Groups as plain values: each region and its columns.
pub open spec fn group_views(v: Seq<(RegionCoord, Vec<ChunkCoord>)>) -> Seq<(RegionCoord, Seq<ChunkCoord>)> {
    v.map_values(|g: (RegionCoord, Vec<ChunkCoord>)| (g.0, g.1@))
}

/// `groups` files each of `coords` under the region that stores it: the
/// regions ascend, each group holds exactly its region's columns in the
/// order given and at least one, and every column's region has a group.
pub open spec fn grouped(
    groups: Seq<(RegionCoord, Seq<ChunkCoord>)>,
    coords: Seq<ChunkCoord>,
    shape: RegionShape,
) -> bool {
    &&& forall|i: int, j: int|
        0 <= i < j < groups.len() ==> region_lt(#[trigger] groups[i].0, #[trigger] groups[j].0)
    &&& forall|k: int|
        0 <= k < groups.len() ==> (#[trigger] groups[k]).1 == in_region(coords, shape, groups[k].0)
            && groups[k].1.len() > 0
    &&& forall|i: int|
        0 <= i < coords.len() ==> exists|k: int|
            0 <= k < groups.len() && groups[k].0 == shape.spec_region_of(#[trigger] coords[i])
}

/// Taking one more column extends its region's list and no other.
proof fn lemma_in_region_step(coords: Seq<ChunkCoord>, i: int, shape: RegionShape, r: RegionCoord)
    requires
        0 <= i < coords.len(),
    ensures
        in_region(coords.take(i + 1), shape, r) == if shape.spec_region_of(coords[i]) == r {
            in_region(coords.take(i), shape, r).push(coords[i])
        } else {
            in_region(coords.take(i), shape, r)
        },
{
    assert(coords.take(i + 1).drop_last() =~= coords.take(i));
    assert(coords.take(i + 1).last() == coords[i]);
}

/// A region with columns has a column in it.
proof fn lemma_in_region_witness(coords: Seq<ChunkCoord>, shape: RegionShape, r: RegionCoord)
    requires
        in_region(coords, shape, r).len() > 0,
    ensures
        exists|j: int| 0 <= j < coords.len() && shape.spec_region_of(coords[j]) == r,
    decreases coords.len(),
{
    if coords.len() > 0 && shape.spec_region_of(coords.last()) != r {
        lemma_in_region_witness(coords.drop_last(), shape, r);
        let j = choose|j: int|
            0 <= j < coords.drop_last().len() && shape.spec_region_of(coords.drop_last()[j]) == r;
        assert(coords[j] == coords.drop_last()[j]);
    }
}

/// Group columns by the region that stores them: regions ascending, each
/// region's columns in the order given.
#[verifier::spinoff_prover]
#[verifier::rlimit(40)]
pub fn group_columns(shape: RegionShape, coords: &Vec<ChunkCoord>) -> (r: Vec<(RegionCoord, Vec<ChunkCoord>)>)
    ensures
        grouped(group_views(r@), coords@, shape),
{
    let mut groups: Vec<(RegionCoord, Vec<ChunkCoord>)> = Vec::new();
    let mut i: usize = 0;
    proof {
        assert(coords@.take(0) =~= Seq::<ChunkCoord>::empty());
    }
    while i < coords.len()
        invariant
            i <= coords@.len(),
            grouped(group_views(groups@), coords@.take(i as int), shape),
        decreases coords.len() - i,
    {
        let c = coords[i];
        let region = shape.region_of(c);
        let ghost before = group_views(groups@);
        let ghost seen = coords@.take(i as int);
        let ghost next = coords@.take(i + 1);
        proof {
            assert(next.drop_last() =~= seen);
            assert forall|r: RegionCoord| #[trigger] in_region(next, shape, r) == if region == r {
                in_region(seen, shape, r).push(c)
            } else {
                in_region(seen, shape, r)
            } by {
                lemma_in_region_step(coords@, i as int, shape, r);
            }
        }
        let mut k: usize = 0;
        while k < groups.len() && region_less(groups[k].0, region)
            invariant
                k <= groups@.len(),
                before == group_views(groups@),
                forall|j: int| 0 <= j < k ==> region_lt(#[trigger] before[j].0, region),
            decreases groups.len() - k,
        {
            k += 1;
        }
        if k < groups.len() && groups[k].0 == region {
            let (reg, mut members) = groups.remove(k);
            members.push(c);
            groups.insert(k, (reg, members));
            proof {
                let after = group_views(groups@);
                assert(after =~= before.update(k as int, (region, before[k as int].1.push(c))));
                assert forall|j: int| 0 <= j < seen.len() implies exists|q: int|
                    0 <= q < after.len() && after[q].0 == shape.spec_region_of(#[trigger] next[j]) by {
                    assert(next[j] == seen[j]);
                    let q = choose|q: int|
                        0 <= q < before.len() && before[q].0 == shape.spec_region_of(seen[j]);
                    assert(after[q].0 == before[q].0);
                }
                assert(after[k as int].0 == shape.spec_region_of(next[i as int]));
                assert forall|q: int| 0 <= q < after.len() implies (#[trigger] after[q]).1 == in_region(
                    next,
                    shape,
                    after[q].0,
                ) && after[q].1.len() > 0 by {
                    if q != k {
                        assert(after[q] == before[q]);
                        assert(before[q].0 != region) by {
                            if q < k {
                                assert(region_lt(before[q].0, region));
                            } else {
                                assert(region_lt(before[k as int].0, before[q].0));
                            }
                        }
                    }
                }
                assert forall|a: int, b: int| 0 <= a < b < after.len() implies region_lt(
                    #[trigger] after[a].0,
                    #[trigger] after[b].0,
                ) by {
                    assert(after[a].0 == before[a].0 && after[b].0 == before[b].0);
                }
            }
        } else {
            let mut members: Vec<ChunkCoord> = Vec::new();
            members.push(c);
            groups.insert(k, (region, members));
            proof {
                let after = group_views(groups@);
                assert(after =~= before.insert(k as int, (region, seq![c])));
                assert(in_region(seen, shape, region).len() == 0) by {
                    if in_region(seen, shape, region).len() > 0 {
                        lemma_in_region_witness(seen, shape, region);
                        let j = choose|j: int|
                            0 <= j < seen.len() && shape.spec_region_of(seen[j]) == region;
                        let q = choose|q: int|
                            0 <= q < before.len() && before[q].0 == shape.spec_region_of(seen[j]);
                        if q < k {
                            assert(region_lt(before[q].0, region));
                        } else if q > k {
                            assert(region_lt(before[k as int].0, before[q].0));
                            assert(!region_lt(before[k as int].0, region));
                        }
                    }
                }
                assert(in_region(next, shape, region) =~= seq![c]);
                assert forall|j: int| 0 <= j < next.len() implies exists|q: int|
                    0 <= q < after.len() && after[q].0 == shape.spec_region_of(#[trigger] next[j]) by {
                    if j < seen.len() {
                        assert(next[j] == seen[j]);
                        let q = choose|q: int|
                            0 <= q < before.len() && before[q].0 == shape.spec_region_of(seen[j]);
                        if q < k {
                            assert(after[q] == before[q]);
                        } else {
                            assert(after[q + 1] == before[q]);
                        }
                    } else {
                        assert(after[k as int].0 == shape.spec_region_of(next[j]));
                    }
                }
                assert forall|q: int| 0 <= q < after.len() implies (#[trigger] after[q]).1 == in_region(
                    next,
                    shape,
                    after[q].0,
                ) && after[q].1.len() > 0 by {
                    if q < k {
                        assert(after[q] == before[q]);
                        assert(region_lt(before[q].0, region));
                    } else if q > k {
                        assert(after[q] == before[q - 1]);
                        if k < before.len() {
                            assert(!region_lt(before[k as int].0, region));
                            if q - 1 > k {
                                assert(region_lt(before[k as int].0, before[q - 1].0));
                            }
                        }
                    }
                }
                assert forall|a: int, b: int| 0 <= a < b < after.len() implies region_lt(
                    #[trigger] after[a].0,
                    #[trigger] after[b].0,
                ) by {
                    if b < k {
                        assert(after[a] == before[a] && after[b] == before[b]);
                    } else if b == k {
                        assert(after[a] == before[a]);
                    } else if a < k {
                        assert(after[a] == before[a] && after[b] == before[b - 1]);
                        assert(!region_lt(before[k as int].0, region));
                        if b - 1 > k {
                            assert(region_lt(before[k as int].0, before[b - 1].0));
                        }
                    } else if a == k {
                        assert(after[b] == before[b - 1]);
                        assert(!region_lt(before[k as int].0, region));
                        if b - 1 > k {
                            assert(region_lt(before[k as int].0, before[b - 1].0));
                        }
                    } else {
                        assert(after[a] == before[a - 1] && after[b] == before[b - 1]);
                    }
                }
            }
        }
        i += 1;
    }
    proof {
        assert(coords@.take(i as int) =~= coords@);
    }
    groups
}


/// Region order, ties included: by `x`, then by `z`.
pub open spec fn region_le() -> spec_fn(RegionCoord, RegionCoord) -> bool {
    |a: RegionCoord, b: RegionCoord| a.x < b.x || (a.x == b.x && a.z <= b.z)
}

/// Region order is a total order.
proof fn lemma_region_le_total()
    ensures
        vstd::relations::total_ordering(region_le()),
{
    let le = region_le();
    assert forall|a: RegionCoord, b: RegionCoord| #[trigger] le(a, b) && #[trigger] le(b, a) implies a
        == b by {
        assert(a.x == b.x && a.z == b.z);
    }
}

/// Sort regions ascending.
fn sort_regions(v: Vec<RegionCoord>) -> (r: Vec<RegionCoord>)
    ensures
        r@ == v@.sort_by(region_le()),
{
    broadcast use vstd::seq_lib::to_multiset_insert;

    let ghost le = region_le();
    let mut out: Vec<RegionCoord> = Vec::new();
    let mut i: usize = 0;
    proof {
        assert(v@.take(0) =~= out@);
    }
    while i < v.len()
        invariant
            le == region_le(),
            i <= v@.len(),
            vstd::relations::sorted_by(out@, le),
            out@.to_multiset() == v@.take(i as int).to_multiset(),
        decreases v.len() - i,
    {
        let x = v[i];
        let mut k: usize = 0;
        while k < out.len() && !region_less(x, out[k])
            invariant
                le == region_le(),
                k <= out@.len(),
                forall|j: int| 0 <= j < k ==> #[trigger] le(out@[j], x),
            decreases out.len() - k,
        {
            k += 1;
        }
        let ghost before = out@;
        out.insert(k, x);
        proof {
            assert(out@ == before.insert(k as int, x));
            assert forall|a: int, b: int| 0 <= a < b < out@.len() implies #[trigger] le(
                out@[a],
                out@[b],
            ) by {
                if k < before.len() {
                    assert(region_lt(x, before[k as int]));
                }
                if b < k {
                    assert(out@[a] == before[a] && out@[b] == before[b]);
                } else if b == k {
                    assert(out@[a] == before[a]);
                } else if a < k {
                    assert(out@[a] == before[a] && out@[b] == before[b - 1]);
                    assert(le(before[a], x));
                    if b - 1 > k {
                        assert(le(before[k as int], before[b - 1]));
                    }
                } else if a == k {
                    assert(out@[b] == before[b - 1]);
                    if b - 1 > k {
                        assert(le(before[k as int], before[b - 1]));
                    }
                } else {
                    assert(out@[a] == before[a - 1] && out@[b] == before[b - 1]);
                }
            }
            assert(v@.take(i + 1) =~= v@.take(i as int).push(x));
            vstd::seq_lib::to_multiset_build(v@.take(i as int), x);
            vstd::seq_lib::to_multiset_insert(before, k as int, x);
        }
        i += 1;
    }
    proof {
        assert(v@.take(i as int) =~= v@);
        lemma_region_le_total();
        v@.lemma_sort_by_ensures(le);
        vstd::seq_lib::lemma_sorted_unique(out@, v@.sort_by(le), le);
    }
    out
}


/// The extension of a file name as a path reads it: what follows its last
/// `.`, unless that `.` is the name's first character or the name is `..`.
pub open spec fn file_extension(name: Seq<char>) -> Option<Seq<char>> {
    if name =~= seq!['.', '.'] {
        None
    } else {
        match last_dot(name) {
            Some(d) => if d > 0 {
                Some(name.skip(d + 1))
            } else {
                None
            },
            None => None,
        }
    }
}

/// The stems of the names that carry the save extension, in order. Anything
/// else, such as a quarantined copy or an interrupted write that keeps a
/// suffix of its own after the extension, is not a region file.
pub open spec fn save_stems(names: Seq<Seq<char>>) -> Seq<Seq<char>>
    decreases names.len(),
{
    if names.len() == 0 {
        Seq::empty()
    } else {
        let front = save_stems(names.drop_last());
        if file_extension(names.last()) == Some(SAVE_EXTENSION@) {
            front.push(file_stem(names.last()))
        } else {
            front
        }
    }
}

/// The position of the first stem that names no region.
pub open spec fn first_stray(stems: Seq<Seq<char>>) -> Option<int>
    decreases stems.len(),
{
    if stems.len() == 0 {
        None
    } else {
        match first_stray(stems.drop_last()) {
            Some(k) => Some(k),
            None => if region_of_stem(stems.last()) is None {
                Some(stems.len() - 1)
            } else {
                None
            },
        }
    }
}

/// The regions some stems name, in order.
pub open spec fn stem_regions(stems: Seq<Seq<char>>) -> Seq<RegionCoord> {
    stems.map_values(|s: Seq<char>| region_of_stem(s)->0)
}

/// Whether a file name carries the save extension; and its stem.
fn save_stem(name: &str) -> (r: Option<&str>)
    ensures
        file_extension(name@) == Some(SAVE_EXTENSION@) ==> (r matches Some(stem) && stem@ == file_stem(name@)),
        file_extension(name@) != Some(SAVE_EXTENSION@) ==> r is None,
{
    proof {
        reveal_strlit("nxsv");
        lemma_last_dot(name@);
    }
    let n = name.unicode_len();
    if n == 2 && name.get_char(0) == '.' && name.get_char(1) == '.' {
        proof {
            assert(name@ =~= seq!['.', '.']);
        }
        return None;
    }
    proof {
        assert(!(name@ =~= seq!['.', '.']));
    }
    let d = match find_last_dot(name) {
        Some(d) => d,
        None => {
            return None;
        },
    };
    if d == 0 {
        return None;
    }
    let ext = name.substring_char(d + 1, n).to_owned();
    let wanted = SAVE_EXTENSION.to_owned();
    proof {
        assert(ext@ =~= name@.skip(d + 1));
    }
    if ext == wanted {
        let stem = name.substring_char(0, d);
        proof {
            assert(stem@ =~= file_stem(name@));
        }
        Some(stem)
    } else {
        None
    }
}

/// The regions a region directory holds a file for, ascending, from the
/// names of its entries. Only names with the save extension count; one of
/// them whose stem is not a region address is refused, naming it.
pub fn regions_from_names(names: &Vec<String>) -> (r: Result<Vec<RegionCoord>, RegionError>)
    ensures
        ({
            let stems = save_stems(names@.map_values(|s: String| s@));
            match first_stray(stems) {
                Some(k) => (r matches Err(RegionError::NotARegionName { stem }) && stem@ == stems[k]),
                None => (r matches Ok(v) && v@ == stem_regions(stems).sort_by(region_le())),
            }
        }),
{
    let ghost all = names@.map_values(|s: String| s@);
    let mut found: Vec<RegionCoord> = Vec::new();
    let mut i: usize = 0;
    proof {
        assert(all.take(0) =~= Seq::<Seq<char>>::empty());
        assert(found@ =~= stem_regions(save_stems(all.take(0))));
    }
    while i < names.len()
        invariant
            all == names@.map_values(|s: String| s@),
            i <= names@.len(),
            first_stray(save_stems(all.take(i as int))) is None,
            found@ == stem_regions(save_stems(all.take(i as int))),
        decreases names.len() - i,
    {
        let ghost seen = all.take(i as int);
        let ghost next = all.take(i + 1);
        proof {
            assert(next.drop_last() =~= seen);
            assert(next.last() == names@[i as int]@);
        }
        match save_stem(names[i].as_str()) {
            None => {
                proof {
                    assert(save_stems(next) == save_stems(seen));
                }
            },
            Some(stem) => {
                proof {
                    assert(save_stems(next) == save_stems(seen).push(stem@));
                    assert(save_stems(next).drop_last() =~= save_stems(seen));
                }
                match parse_region_stem(stem) {
                    Ok(region) => {
                        found.push(region);
                        proof {
                            assert(found@ =~= stem_regions(save_stems(next)));
                        }
                    },
                    Err(e) => {
                        proof {
                            assert(first_stray(save_stems(next)) == Some(
                                save_stems(seen).len() as int,
                            ));
                            lemma_stray_stays(all, i as int + 1);
                        }
                        return Err(e);
                    },
                }
            },
        }
        i += 1;
    }
    proof {
        assert(all.take(i as int) =~= all);
    }
    Ok(sort_regions(found))
}

/// A stray found among the first names stays the first stray of all of
/// them.
proof fn lemma_stray_stays(all: Seq<Seq<char>>, i: int)
    requires
        0 <= i <= all.len(),
        first_stray(save_stems(all.take(i))) is Some,
    ensures
        first_stray(save_stems(all)) == first_stray(save_stems(all.take(i))),
        save_stems(all.take(i)).is_prefix_of(save_stems(all)),
    decreases all.len() - i,
{
    if i < all.len() {
        let a = all.take(i + 1);
        assert(a.drop_last() =~= all.take(i));
        let sa = save_stems(a);
        let sb = save_stems(all.take(i));
        if file_extension(a.last()) == Some(SAVE_EXTENSION@) {
            assert(sa == sb.push(file_stem(a.last())));
        } else {
            assert(sa == sb);
        }
        assert(sb.is_prefix_of(sa)) by {
            assert forall|k: int| 0 <= k < sb.len() implies sb[k] == sa[k] by {}
        }
        lemma_first_stray_prefix(sb, sa);
        lemma_stray_stays(all, i + 1);
        let sall = save_stems(all);
        assert(sb.is_prefix_of(sall)) by {
            assert forall|k: int| 0 <= k < sb.len() implies sb[k] == sall[k] by {
                assert(sb[k] == sa[k]);
                assert(sa[k] == sall.subrange(0, sa.len() as int)[k]);
            }
        }
    } else {
        assert(all.take(i) =~= all);
    }
}

/// A stray in a prefix is the first stray of any extension of it.
proof fn lemma_first_stray_prefix(a: Seq<Seq<char>>, b: Seq<Seq<char>>)
    requires
        a.is_prefix_of(b),
        first_stray(a) is Some,
    ensures
        first_stray(b) == first_stray(a),
    decreases b.len(),
{
    if b.len() > a.len() {
        assert(a.is_prefix_of(b.drop_last())) by {
            assert forall|k: int| 0 <= k < a.len() implies a[k] == b.drop_last()[k] by {}
        }
        lemma_first_stray_prefix(a, b.drop_last());
    } else {
        assert(a =~= b);
    }
}


/// A region file's name carries the save extension, and its stem reads
/// back as the region: every file a write makes is listed again as the
/// region it holds.
pub proof fn lemma_region_file_name_round_trip(region: RegionCoord)
    ensures
        file_extension(region_file_name(region)) == Some(SAVE_EXTENSION@),
        file_stem(region_file_name(region)) == region_stem(region),
        region_of_stem(file_stem(region_file_name(region))) == Some(region),
{
    reveal_strlit("nxsv");
    let stem = region_stem(region);
    let name = region_file_name(region);
    let ext = SAVE_EXTENSION@;
    assert(ext =~= seq!['n', 'x', 's', 'v']);
    assert forall|i: int| 0 <= i < ext.len() implies #[trigger] ext[i] != '.' by {}
    lemma_last_dot_split(stem, ext);
    assert(stem[0] == 'r');
    assert(!(name =~= seq!['.', '.'])) by {
        if name =~= seq!['.', '.'] {
            assert(name[0] == 'r');
        }
    }
    assert(name.skip((stem.len() + 1) as int) =~= ext);
    assert(name.take(stem.len() as int) =~= stem);
    lemma_region_stem_round_trip(region);
}

impl RegionStore {
    /// Group the resident columns by the region that stores them: regions
    /// ascending, each region's columns in column order.
    pub fn group(&self, world: &World) -> (r: Vec<(RegionCoord, Vec<ChunkCoord>)>)
        requires
            world.wf(),
        ensures
            grouped(
                group_views(r@),
                world.spec_chunks().map_values(|c: Chunk| c.spec_coord()),
                self.spec_shape(),
            ),
    {
        let columns = world.loaded_chunks();
        group_columns(self.shape, &columns)
    }
}

} // verus!
