//! Where recipes are found.

use vstd::prelude::*;

use crate::color::Rgba;
use crate::error::{Recovery, join};
use crate::ident::{Identifier, namespace_of, path_of};
use crate::layout::{
    NamingError, RECIPE_PATH_PREFIX, find_last_dot, find_unusable, first_unusable, last_dot,
    lemma_first_unusable, lemma_last_dot,
    lemma_split_nonempty, push_all, push_part, push_segment, push_segments, split_segments,
    split_slash, strip_or_keep, strip_prefix_or_keep, views,
};

verus! {

/// Finds recipes under a root directory.
#[derive(Debug, Clone)]
pub struct RecipeBook {
    root: Option<String>,
}

impl RecipeBook {
    /// The directory recipes are read from, when there is one.
    pub closed spec fn spec_root(&self) -> Option<Seq<char>> {
        match &self.root {
            Some(r) => Some(r@),
            None => None,
        }
    }

    /// A book reading recipe documents under a directory.
    pub fn at(root: &str) -> (b: Self)
        ensures
            b.spec_root() == Some(root@),
    {
        RecipeBook { root: Some(root.to_owned()) }
    }

    /// A book with no documents: only category defaults resolve.
    pub fn empty() -> (b: Self)
        ensures
            b.spec_root() is None,
    {
        RecipeBook { root: None }
    }

    /// The directory recipes are read from, when there is one.
    pub fn root(&self) -> (r: Option<&str>)
        ensures
            match r {
                Some(s) => self.spec_root() == Some(s@),
                None => self.spec_root() is None,
            },
    {
        match &self.root {
            Some(r) => Some(r.as_str()),
            None => None,
        }
    }
}

/// The lower-case hexadecimal digit of a value below sixteen.
pub open spec fn hex_digit(n: int) -> Seq<char> {
    if n == 0 { "0"@ } else if n == 1 { "1"@ } else if n == 2 { "2"@ } else if n == 3 { "3"@ }
    else if n == 4 { "4"@ } else if n == 5 { "5"@ } else if n == 6 { "6"@ } else if n == 7 { "7"@ }
    else if n == 8 { "8"@ } else if n == 9 { "9"@ } else if n == 10 { "a"@ } else if n == 11 { "b"@ }
    else if n == 12 { "c"@ } else if n == 13 { "d"@ } else if n == 14 { "e"@ } else { "f"@ }
}

/// A byte as two lower-case hexadecimal digits.
pub open spec fn hex_byte(b: u8) -> Seq<char> {
    hex_digit(b as int / 16) + hex_digit(b as int % 16)
}

fn hex_nibble(n: u8) -> (r: &'static str)
    requires
        n < 16,
    ensures
        r@ == hex_digit(n as int),
{
    match n {
        0 => "0",
        1 => "1",
        2 => "2",
        3 => "3",
        4 => "4",
        5 => "5",
        6 => "6",
        7 => "7",
        8 => "8",
        9 => "9",
        10 => "a",
        11 => "b",
        12 => "c",
        13 => "d",
        14 => "e",
        _ => "f",
    }
}

/// Append a byte as two hexadecimal digits.
fn push_hex(text: String, b: u8) -> (r: String)
    ensures
        r@ == text@ + hex_byte(b),
{
    let high = join(text.as_str(), hex_nibble(b / 16));
    let r = join(high.as_str(), hex_nibble(b % 16));
    proof {
        assert(r@ =~= text@ + hex_byte(b));
    }
    r
}

/// A colour as `#rrggbb`, in lower-case hexadecimal; coverage is not shown.
pub fn format_colour(colour: Rgba) -> (r: String)
    ensures
        r@ == "#"@ + hex_byte(colour.r) + hex_byte(colour.g) + hex_byte(colour.b),
{
    let text = "#".to_owned();
    let text = push_hex(text, colour.r);
    let text = push_hex(text, colour.g);
    let r = push_hex(text, colour.b);
    proof {
        assert(r@ =~= "#"@ + hex_byte(colour.r) + hex_byte(colour.g) + hex_byte(colour.b));
    }
    r
}

/// Why a ramp stop was refused.
#[derive(Debug, Clone, Copy, PartialEq, Eq, Structural)]
pub enum StopError {
    /// A ramp stop is written `#rrggbb`.
    NotHexRgb,
}

/// The value of a hexadecimal digit, either case.
pub open spec fn hex_value(c: char) -> Option<int> {
    if '0' <= c && c <= '9' {
        Some(c as int - '0' as int)
    } else if 'a' <= c && c <= 'f' {
        Some(c as int - 'a' as int + 10)
    } else if 'A' <= c && c <= 'F' {
        Some(c as int - 'A' as int + 10)
    } else {
        None
    }
}

/// The colour `#rrggbb` names, opaque; `None` for any other text.
pub open spec fn colour_spec(s: Seq<char>) -> Option<Rgba> {
    if s.len() == 7 && s[0] == '#' && forall|i: int| 1 <= i < 7 ==> (#[trigger] hex_value(s[i])) is Some {
        Some(
            Rgba {
                r: (hex_value(s[1])->0 * 16 + hex_value(s[2])->0) as u8,
                g: (hex_value(s[3])->0 * 16 + hex_value(s[4])->0) as u8,
                b: (hex_value(s[5])->0 * 16 + hex_value(s[6])->0) as u8,
                a: 255,
            },
        )
    } else {
        None
    }
}

fn hex_char(c: char) -> (r: Option<u8>)
    ensures
        match hex_value(c) {
            Some(v) => r == Some(v as u8),
            None => r is None,
        },
{
    if '0' <= c && c <= '9' {
        Some(((c as u32) - ('0' as u32)) as u8)
    } else if 'a' <= c && c <= 'f' {
        Some(((c as u32) - ('a' as u32) + 10) as u8)
    } else if 'A' <= c && c <= 'F' {
        Some(((c as u32) - ('A' as u32) + 10) as u8)
    } else {
        None
    }
}

/// Read a ramp stop written `#rrggbb`, either case, as an opaque colour.
/// Coverage is not a recipe's business: it comes from the blend mode.
pub fn parse_colour(raw: &str) -> (r: Result<Rgba, StopError>)
    ensures
        match colour_spec(raw@) {
            Some(c) => r == Ok::<Rgba, StopError>(c),
            None => r == Err::<Rgba, StopError>(StopError::NotHexRgb),
        },
{
    if raw.unicode_len() != 7 || raw.get_char(0) != '#' {
        return Err(StopError::NotHexRgb);
    }
    let mut digits: [u8; 6] = [0; 6];
    let mut i: usize = 1;
    while i < 7
        invariant
            raw@.len() == 7,
            raw@[0] == '#',
            1 <= i <= 7,
            forall|k: int| 1 <= k < i ==> (#[trigger] hex_value(raw@[k])) is Some && digits@[k - 1]
                == hex_value(raw@[k])->0,
        decreases 7 - i,
    {
        match hex_char(raw.get_char(i)) {
            Some(v) => {
                digits.set(i - 1, v);
            },
            None => {
                return Err(StopError::NotHexRgb);
            },
        }
        i += 1;
    }
    proof {
        assert(hex_value(raw@[1]) is Some && hex_value(raw@[2]) is Some);
        assert(hex_value(raw@[3]) is Some && hex_value(raw@[4]) is Some);
        assert(hex_value(raw@[5]) is Some && hex_value(raw@[6]) is Some);
    }
    Ok(Rgba::opaque(digits[0] * 16 + digits[1], digits[2] * 16 + digits[3], digits[4] * 16 + digits[5]))
}

/// A colour written by [`format_colour`] reads back by [`parse_colour`] as
/// the same colour, opaque.
pub proof fn lemma_colour_round_trip(c: Rgba)
    ensures
        colour_spec("#"@ + hex_byte(c.r) + hex_byte(c.g) + hex_byte(c.b)) == Some(
            Rgba { r: c.r, g: c.g, b: c.b, a: 255 },
        ),
{
    reveal_strlit("#");
    lemma_hex_digits();
    let s = "#"@ + hex_byte(c.r) + hex_byte(c.g) + hex_byte(c.b);
    lemma_hex_byte(c.r);
    lemma_hex_byte(c.g);
    lemma_hex_byte(c.b);
    assert(s.len() == 7);
    assert(s[1] == hex_byte(c.r)[0] && s[2] == hex_byte(c.r)[1]);
    assert(s[3] == hex_byte(c.g)[0] && s[4] == hex_byte(c.g)[1]);
    assert(s[5] == hex_byte(c.b)[0] && s[6] == hex_byte(c.b)[1]);
    assert forall|i: int| 1 <= i < 7 implies (#[trigger] hex_value(s[i])) is Some by {
        if i == 1 || i == 2 {
        } else if i == 3 || i == 4 {
        } else {
        }
    }
}

/// Every hexadecimal digit written is one character that reads back as its
/// value.
proof fn lemma_hex_digits()
    ensures
        forall|n: int| 0 <= n < 16 ==> (#[trigger] hex_digit(n)).len() == 1 && hex_value(hex_digit(n)[0]) == Some(n),
{
    reveal_strlit("0");
    reveal_strlit("1");
    reveal_strlit("2");
    reveal_strlit("3");
    reveal_strlit("4");
    reveal_strlit("5");
    reveal_strlit("6");
    reveal_strlit("7");
    reveal_strlit("8");
    reveal_strlit("9");
    reveal_strlit("a");
    reveal_strlit("b");
    reveal_strlit("c");
    reveal_strlit("d");
    reveal_strlit("e");
    reveal_strlit("f");
}

/// A byte's two digits read back as the byte.
proof fn lemma_hex_byte(b: u8)
    ensures
        hex_byte(b).len() == 2,
        hex_value(hex_byte(b)[0]) == Some(b as int / 16),
        hex_value(hex_byte(b)[1]) == Some(b as int % 16),
        (b as int / 16) * 16 + b as int % 16 == b,
{
    lemma_hex_digits();
    assert(0 <= b as int / 16 < 16);
    assert(0 <= b as int % 16 < 16);
}


/// A file name without its extension: what stands before its last `.`,
/// unless that `.` is the name's first character.
pub open spec fn file_stem(name: Seq<char>) -> Seq<char> {
    match last_dot(name) {
        Some(d) => if d > 0 {
            name.take(d)
        } else {
            name
        },
        None => name,
    }
}

/// Where a recipe's document lives under `root`, when its identifier can
/// name one: the namespace, each piece of the path past the recipe prefix,
/// and the last piece given the extension `json` in place of its own.
pub open spec fn recipe_file_spec(root: Seq<char>, id: Seq<char>) -> Seq<char> {
    let segs = split_slash(strip_or_keep(path_of(id), RECIPE_PATH_PREFIX@));
    push_segment(
        push_segments(push_segment(root, namespace_of(id)), segs.drop_last()),
        file_stem(segs.last()) + ".json"@,
    )
}

/// Where a recipe's document lives, under a root.
///
/// Refused when the identifier has no path beyond its prefix, or when a
/// piece of the path is empty, `.` or `..`; the first such piece is named.
pub fn recipe_file(root: &str, id: &Identifier) -> (r: Result<String, NamingError>)
    ensures
        ({
            let stem = strip_or_keep(path_of(id@), RECIPE_PATH_PREFIX@);
            let segs = split_slash(stem);
            &&& stem.len() == 0 ==> (r matches Err(NamingError::NoPath))
            &&& stem.len() > 0 ==> match first_unusable(segs, true) {
                Some(k) => (r matches Err(NamingError::Reserved { segment }) && segment@ == segs[k]),
                None => (r matches Ok(path) && path@ == recipe_file_spec(root@, id@)),
            }
        }),
{
    let stem = strip_prefix_or_keep(id.path(), RECIPE_PATH_PREFIX);
    if stem.unicode_len() == 0 {
        return Err(NamingError::NoPath);
    }
    let segs = split_segments(stem);
    let found = find_unusable(&segs, true);
    proof {
        lemma_first_unusable(views(segs@), true);
        lemma_split_nonempty(stem@);
    }
    if let Some(k) = found {
        proof {
            assert(views(segs@)[k as int] == segs@[k as int]@);
        }
        return Err(NamingError::Reserved { segment: segs[k].to_owned() });
    }
    let base = push_part(root.to_owned(), id.namespace());
    let last = segs.len() - 1;
    let dir = push_all(base, &segs, last);
    let name = segs[last];
    let dot = find_last_dot(name);
    proof {
        lemma_last_dot(name@);
    }
    let stem_of_name = match dot {
        Some(d) => if d > 0 {
            name.substring_char(0, d)
        } else {
            name
        },
        None => name,
    };
    let file = join(stem_of_name, ".json");
    let r = push_part(dir, file.as_str());
    proof {
        let all = views(segs@);
        assert(all.take(last as int) =~= all.drop_last());
        assert(all.last() == name@);
        assert(stem_of_name@ =~= file_stem(name@));
    }
    Ok(r)
}


/// The newest recipe schema this build reads.
pub const RECIPE_SCHEMA: u32 = 1;

/// The trace parameter a recipe's fingerprint is recorded under.
pub const FINGERPRINT_PARAMETER: &'static str = "recipe_fingerprint";

/// Most stops a ramp may have. A first-generation palette is four to eight.
pub const MAX_RAMP_STOPS: usize = 32;

/// Most lattice cells along one axis. Far past a 16-texel tile.
pub const MAX_CELLS: u32 = 1024;

/// Most octaves a field may sum.
pub const MAX_OCTAVES: u32 = 8;

/// Why a recipe document was refused, for the checks on its whole numbers
/// and its field names.
#[derive(Debug, Clone, PartialEq, Eq)]
pub enum RecipeError {
    /// The schema is zero or newer than this build reads.
    Schema { schema: u32 },
    /// The ramp lists more stops than a recipe accepts.
    TooManyStops { stops: usize },
    /// The palette step count is out of range.
    Levels { levels: u32 },
    /// A lattice count is zero or above [`MAX_CELLS`].
    Cells { field: String, value: u32 },
    /// An octave count is zero or above [`MAX_OCTAVES`].
    Octaves { field: String, value: u32 },
    /// Courses need an even number of rows to tile: every other course is
    /// offset by half a unit, and an odd count breaks the bond at the seam.
    OddCourses { rows: u32 },
    /// A section carries a field this build does not know.
    UnknownField { section: String, field: String },
}

impl RecipeError {
    /// A malformed recipe is refused; asking again will not change it.
    pub fn recovery(&self) -> (r: Recovery)
        ensures
            r == Recovery::Reject,
    {
        Recovery::Reject
    }
}

/// Check a recipe's schema number.
pub fn check_schema(schema: u32) -> (r: Result<(), RecipeError>)
    ensures
        r is Ok <==> 1 <= schema <= RECIPE_SCHEMA,
        r is Err ==> r == Err::<(), RecipeError>(RecipeError::Schema { schema }),
{
    if schema == 0 || schema > RECIPE_SCHEMA {
        return Err(RecipeError::Schema { schema });
    }
    Ok(())
}

/// Check how many stops a ramp lists.
pub fn check_stops(stops: usize) -> (r: Result<(), RecipeError>)
    ensures
        r is Ok <==> stops <= MAX_RAMP_STOPS,
        r is Err ==> r == Err::<(), RecipeError>(RecipeError::TooManyStops { stops }),
{
    if stops > MAX_RAMP_STOPS {
        return Err(RecipeError::TooManyStops { stops });
    }
    Ok(())
}

/// Check a palette step count.
pub fn check_levels(levels: u32) -> (r: Result<u32, RecipeError>)
    ensures
        r is Ok <==> levels <= MAX_RAMP_STOPS,
        r is Ok ==> r == Ok::<u32, RecipeError>(levels),
        r is Err ==> r == Err::<u32, RecipeError>(RecipeError::Levels { levels }),
{
    if levels as usize > MAX_RAMP_STOPS {
        return Err(RecipeError::Levels { levels });
    }
    Ok(levels)
}

/// Check a lattice count named `field`: one to [`MAX_CELLS`].
pub fn cells(field: &str, value: u32) -> (r: Result<u32, RecipeError>)
    ensures
        r is Ok <==> 1 <= value <= MAX_CELLS,
        r is Ok ==> r == Ok::<u32, RecipeError>(value),
        r matches Err(e) ==> (e matches RecipeError::Cells { field: f, value: v } && f@ == field@
            && v == value),
{
    if value == 0 || value > MAX_CELLS {
        return Err(RecipeError::Cells { field: field.to_owned(), value });
    }
    Ok(value)
}

/// Check an octave count named `field`: one to [`MAX_OCTAVES`].
pub fn octaves(field: &str, value: u32) -> (r: Result<u32, RecipeError>)
    ensures
        r is Ok <==> 1 <= value <= MAX_OCTAVES,
        r is Ok ==> r == Ok::<u32, RecipeError>(value),
        r matches Err(e) ==> (e matches RecipeError::Octaves { field: f, value: v } && f@ == field@
            && v == value),
{
    if value == 0 || value > MAX_OCTAVES {
        return Err(RecipeError::Octaves { field: field.to_owned(), value });
    }
    Ok(value)
}

/// Check the row count of courses: a lattice count, and even.
pub fn course_rows(rows: u32) -> (r: Result<u32, RecipeError>)
    ensures
        r is Ok <==> 1 <= rows <= MAX_CELLS && rows % 2 == 0,
        r is Ok ==> r == Ok::<u32, RecipeError>(rows),
        !(1 <= rows <= MAX_CELLS) ==> (r matches Err(RecipeError::Cells { field: f, value: v }) && f@
            == "rows"@ && v == rows),
        1 <= rows <= MAX_CELLS && rows % 2 != 0 ==> r == Err::<u32, RecipeError>(
            RecipeError::OddCourses { rows },
        ),
{
    let rows = match cells("rows", rows) {
        Ok(v) => v,
        Err(e) => {
            return Err(e);
        },
    };
    if rows % 2 != 0 {
        return Err(RecipeError::OddCourses { rows });
    }
    Ok(rows)
}

/// The position of the first of `keys` that is not among `known`.
pub open spec fn first_unknown(keys: Seq<Seq<char>>, known: Seq<Seq<char>>) -> Option<int>
    decreases keys.len(),
{
    if keys.len() == 0 {
        None
    } else {
        match first_unknown(keys.drop_last(), known) {
            Some(k) => Some(k),
            None => if known.contains(keys.last()) {
                None
            } else {
                Some(keys.len() - 1)
            },
        }
    }
}

/// Refuse the first field of a section, in the order given, that this build
/// does not know, naming the section and the field.
pub fn reject_unknown(keys: &Vec<String>, known: &Vec<&str>, section: &str) -> (r: Result<
    (),
    RecipeError,
>)
    ensures
        ({
            let ks = keys@.map_values(|k: String| k@);
            let kn = known@.map_values(|k: &str| k@);
            match first_unknown(ks, kn) {
                None => r is Ok,
                Some(i) => (r matches Err(RecipeError::UnknownField { section: s, field: f }) && s@
                    == section@ && f@ == ks[i]),
            }
        }),
{
    let ghost ks = keys@.map_values(|k: String| k@);
    let ghost kn = known@.map_values(|k: &str| k@);
    let mut i: usize = 0;
    while i < keys.len()
        invariant
            ks == keys@.map_values(|k: String| k@),
            kn == known@.map_values(|k: &str| k@),
            i <= keys@.len(),
            first_unknown(ks.take(i as int), kn) is None,
        decreases keys.len() - i,
    {
        let mut found = false;
        let mut j: usize = 0;
        while j < known.len() && !found
            invariant
                kn == known@.map_values(|k: &str| k@),
                i < keys@.len(),
                j <= known@.len(),
                found ==> kn.contains(keys@[i as int]@),
                !found ==> forall|q: int| 0 <= q < j ==> kn[q] != keys@[i as int]@,
            decreases known.len() - j + if found { 0int } else { 1int },
        {
            let candidate = known[j].to_owned();
            if candidate == keys[i] {
                proof {
                    assert(kn[j as int] == keys@[i as int]@);
                }
                found = true;
            } else {
                j += 1;
            }
        }
        proof {
            assert(ks.take(i + 1).drop_last() =~= ks.take(i as int));
            assert(ks.take(i + 1).last() == keys@[i as int]@);
        }
        if !found {
            proof {
                assert(!kn.contains(keys@[i as int]@));
                assert(first_unknown(ks.take(i + 1), kn) == Some(i as int));
                lemma_first_unknown_prefix(ks, kn, i as int + 1);
            }
            return Err(RecipeError::UnknownField { section: section.to_owned(), field: keys[i].clone() });
        }
        i += 1;
    }
    proof {
        assert(ks.take(i as int) =~= ks);
    }
    Ok(())
}

/// A field found unknown among the first keys stays the first unknown of
/// all of them.
proof fn lemma_first_unknown_prefix(ks: Seq<Seq<char>>, kn: Seq<Seq<char>>, i: int)
    requires
        0 <= i <= ks.len(),
        first_unknown(ks.take(i), kn) is Some,
    ensures
        first_unknown(ks, kn) == first_unknown(ks.take(i), kn),
    decreases ks.len() - i,
{
    if i < ks.len() {
        assert(ks.take(i + 1).drop_last() =~= ks.take(i));
        lemma_first_unknown_prefix(ks, kn, i + 1);
    } else {
        assert(ks.take(i) =~= ks);
    }
}

} // verus!
