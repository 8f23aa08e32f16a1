//! Batch bookkeeping: how the entries of a batch ended, and how a manifest
//! writes its seed.

use vstd::prelude::*;

use crate::cli::{SeedError, parse_radix, u64_from_radix};
use crate::error::join;
use crate::forge::{Outcome, WriteStatus, status_name};
use crate::ident::Identifier;
use crate::layout::{split_segments, split_slash, views};
use crate::region::{decimal_digits, decimal_nat};
use crate::texture::MapRole;

verus! {

/// How many entries of a batch ended each way.
#[derive(Debug, Clone, Copy, Default, PartialEq, Eq, Structural)]
pub struct Tally {
    /// Not there before, written now.
    pub written: usize,
    /// There and identical; nothing rewritten.
    pub unchanged: usize,
    /// There and different; replaced at a new revision.
    pub replaced: usize,
    /// There and different, and not forced.
    pub refused: usize,
    /// Generation, validation or the filesystem failed.
    pub failed: usize,
}

impl Tally {
    /// Every entry counted.
    pub fn total(&self) -> (n: usize)
        requires
            self.written + self.unchanged + self.replaced + self.refused + self.failed
                <= usize::MAX,
        ensures
            n == self.written + self.unchanged + self.replaced + self.refused + self.failed,
    {
        self.written + self.unchanged + self.replaced + self.refused + self.failed
    }
}

/// The seed a manifest writes: `0x` and one to sixteen hexadecimal
/// characters, as a generation trace writes it. A `u64` does not fit a JSON
/// integer that anything else can read safely, so it travels as text.
pub open spec fn manifest_seed_spec(s: Seq<char>) -> Option<u64> {
    if s.len() >= 2 && s[0] == '0' && s[1] == 'x' && 1 <= s.len() - 2 <= 16 {
        u64_from_radix(s.skip(2), 16)
    } else {
        None
    }
}

/// Read a manifest's seed.
pub fn parse_seed(raw: &str) -> (r: Result<u64, SeedError>)
    ensures
        match manifest_seed_spec(raw@) {
            Some(v) => r == Ok::<u64, SeedError>(v),
            None => r == Err::<u64, SeedError>(SeedError::NotASeed),
        },
{
    let n = raw.unicode_len();
    if n >= 2 && raw.get_char(0) == '0' && raw.get_char(1) == 'x' && n - 2 >= 1 && n - 2 <= 16 {
        match parse_radix(raw, 2, 16) {
            Some(v) => Ok(v),
            None => Err(SeedError::NotASeed),
        }
    } else {
        Err(SeedError::NotASeed)
    }
}


/// Why an entry's path was refused.
#[derive(Debug, Clone, Copy, PartialEq, Eq, Structural)]
pub enum EntryPathError {
    /// The entry names no definition file.
    Empty,
    /// The path starts at the root or climbs out through `..`.
    Escapes,
}

/// A written path leaves the directory it is resolved against: it starts at
/// the root, or one of the pieces between its slashes is `..`.
pub open spec fn escapes(s: Seq<char>) -> bool {
    ||| s.len() > 0 && s[0] == '/'
    ||| exists|j: int|
        0 <= j < split_slash(s).len() && #[trigger] split_slash(s)[j] =~= seq!['.', '.']
}

/// A relative path that stays inside the directory it is resolved against,
/// as written.
pub fn contained(written: &str) -> (r: Result<String, EntryPathError>)
    ensures
        written@.len() == 0 ==> r == Err::<String, EntryPathError>(EntryPathError::Empty),
        written@.len() > 0 && escapes(written@) ==> r == Err::<String, EntryPathError>(
            EntryPathError::Escapes,
        ),
        written@.len() > 0 && !escapes(written@) ==> (r matches Ok(path) && path@ == written@),
{
    let n = written.unicode_len();
    if n == 0 {
        return Err(EntryPathError::Empty);
    }
    if written.get_char(0) == '/' {
        return Err(EntryPathError::Escapes);
    }
    let segs = split_segments(written);
    let ghost all = views(segs@);
    let mut i: usize = 0;
    while i < segs.len()
        invariant
            all == views(segs@),
            all == split_slash(written@),
            written@.len() > 0,
            i <= segs.len(),
            forall|j: int| 0 <= j < i ==> !(#[trigger] all[j] =~= seq!['.', '.']),
        decreases segs.len() - i,
    {
        let seg = segs[i];
        proof {
            assert(all[i as int] == seg@);
        }
        if seg.unicode_len() == 2 && seg.get_char(0) == '.' && seg.get_char(1) == '.' {
            proof {
                assert(all[i as int] =~= seq!['.', '.']);
            }
            return Err(EntryPathError::Escapes);
        }
        i += 1;
    }
    Ok(written.to_owned())
}


/// What happened to one entry of a batch.
#[derive(Debug)]
pub struct EntryReport {
    /// The material.
    pub id: Identifier,
    /// The definition file it came from.
    pub source: String,
    /// What the forge did, or, in words, why it could not.
    pub result: Result<Outcome, String>,
}

/// How an entry ended: the status of its outcome, or `None` when the forge
/// could not produce one.
pub open spec fn ended(e: EntryReport) -> Option<WriteStatus> {
    match e.result {
        Ok(o) => Some(o.status),
        Err(_) => None,
    }
}

impl EntryReport {
    /// A stable one-word description: a status name, or `failed`.
    pub fn status(&self) -> (r: &'static str)
        ensures
            r@ == match ended(*self) {
                Some(s) => status_name(s),
                None => "failed"@,
            },
    {
        match &self.result {
            Ok(outcome) => outcome.status.as_str(),
            Err(_) => "failed",
        }
    }
}

/// How many of `ends` are `end`.
pub open spec fn count_ended(ends: Seq<Option<WriteStatus>>, end: Option<WriteStatus>) -> nat
    decreases ends.len(),
{
    if ends.len() == 0 {
        0
    } else {
        count_ended(ends.drop_last(), end) + if ends.last() == end {
            1nat
        } else {
            0nat
        }
    }
}

/// What a batch did, entry by entry.
#[derive(Debug, Default)]
pub struct BatchReport {
    /// Every entry, in manifest order.
    pub entries: Vec<EntryReport>,
}

impl BatchReport {
    /// How each entry ended, in manifest order.
    pub open spec fn ends(&self) -> Seq<Option<WriteStatus>> {
        self.entries@.map_values(|e: EntryReport| ended(e))
    }

    /// How many entries ended each way.
    pub fn tally(&self) -> (t: Tally)
        ensures
            t.written == count_ended(self.ends(), Some(WriteStatus::Written)),
            t.unchanged == count_ended(self.ends(), Some(WriteStatus::Unchanged)),
            t.replaced == count_ended(self.ends(), Some(WriteStatus::Replaced)),
            t.refused == count_ended(self.ends(), Some(WriteStatus::Refused)),
            t.failed == count_ended(self.ends(), None),
            t.written + t.unchanged + t.replaced + t.refused + t.failed == self.entries@.len(),
    {
        let ghost ends = self.ends();
        let mut tally = Tally { written: 0, unchanged: 0, replaced: 0, refused: 0, failed: 0 };
        let mut i: usize = 0;
        while i < self.entries.len()
            invariant
                ends == self.ends(),
                i <= self.entries@.len(),
                tally.written == count_ended(ends.take(i as int), Some(WriteStatus::Written)),
                tally.unchanged == count_ended(ends.take(i as int), Some(WriteStatus::Unchanged)),
                tally.replaced == count_ended(ends.take(i as int), Some(WriteStatus::Replaced)),
                tally.refused == count_ended(ends.take(i as int), Some(WriteStatus::Refused)),
                tally.failed == count_ended(ends.take(i as int), None),
                tally.written + tally.unchanged + tally.replaced + tally.refused + tally.failed == i,
            decreases self.entries.len() - i,
        {
            proof {
                assert(ends.take(i + 1).drop_last() =~= ends.take(i as int));
                assert(ends.take(i + 1).last() == ended(self.entries@[i as int]));
            }
            match &self.entries[i].result {
                Ok(outcome) => match outcome.status {
                    WriteStatus::Written => tally.written = tally.written + 1,
                    WriteStatus::Unchanged => tally.unchanged = tally.unchanged + 1,
                    WriteStatus::Replaced => tally.replaced = tally.replaced + 1,
                    WriteStatus::Refused => tally.refused = tally.refused + 1,
                },
                Err(_) => tally.failed = tally.failed + 1,
            }
            i += 1;
        }
        proof {
            assert(ends.take(i as int) =~= ends);
        }
        tally
    }

    /// Whether every entry now stands as its definition describes. A
    /// refusal counts against it: the material on disk is not the one the
    /// manifest describes.
    pub fn succeeded(&self) -> (r: bool)
        ensures
            r == (count_ended(self.ends(), Some(WriteStatus::Refused)) == 0 && count_ended(
                self.ends(),
                None,
            ) == 0),
    {
        let tally = self.tally();
        tally.refused == 0 && tally.failed == 0
    }
}

impl Tally {
    /// The one-line summary a batch prints, such as `3 materials: 2 written,
    /// 1 unchanged, 0 replaced, 0 refused, 0 failed`.
    pub fn summary(&self) -> (r: String)
        requires
            self.written + self.unchanged + self.replaced + self.refused + self.failed
                <= usize::MAX,
        ensures
            r@ == decimal_digits(self.total_spec()) + " materials: "@ + decimal_digits(
                self.written as nat,
            ) + " written, "@ + decimal_digits(self.unchanged as nat) + " unchanged, "@
                + decimal_digits(self.replaced as nat) + " replaced, "@ + decimal_digits(
                self.refused as nat,
            ) + " refused, "@ + decimal_digits(self.failed as nat) + " failed"@,
    {
        let total = self.total();
        let text = join(decimal_nat(total as u64).as_str(), " materials: ");
        let text = join(text.as_str(), decimal_nat(self.written as u64).as_str());
        let text = join(text.as_str(), " written, ");
        let text = join(text.as_str(), decimal_nat(self.unchanged as u64).as_str());
        let text = join(text.as_str(), " unchanged, ");
        let text = join(text.as_str(), decimal_nat(self.replaced as u64).as_str());
        let text = join(text.as_str(), " replaced, ");
        let text = join(text.as_str(), decimal_nat(self.refused as u64).as_str());
        let text = join(text.as_str(), " refused, ");
        let text = join(text.as_str(), decimal_nat(self.failed as u64).as_str());
        let r = join(text.as_str(), " failed");
        proof {
            assert(r@ =~= decimal_digits(self.total_spec()) + " materials: "@ + decimal_digits(
                self.written as nat,
            ) + " written, "@ + decimal_digits(self.unchanged as nat) + " unchanged, "@
                + decimal_digits(self.replaced as nat) + " replaced, "@ + decimal_digits(
                self.refused as nat,
            ) + " refused, "@ + decimal_digits(self.failed as nat) + " failed"@);
        }
        r
    }

    /// Every entry counted.
    pub open spec fn total_spec(&self) -> nat {
        (self.written + self.unchanged + self.replaced + self.refused + self.failed) as nat
    }
}


/// The newest manifest schema this build reads.
pub const MANIFEST_SCHEMA: u32 = 1;

/// Most entries a manifest may list: far past anything legitimate, and the
/// bound that keeps a hostile manifest from exhausting memory.
pub const MAX_ENTRIES: usize = 65_536;

/// Why a manifest as a whole was refused.
#[derive(Debug, Clone, Copy, PartialEq, Eq, Structural)]
pub enum ManifestError {
    /// The schema is zero or newer than this build reads.
    Schema { schema: u32 },
    /// It lists no materials; an empty batch is a mistake.
    NoEntries,
    /// It lists more entries than a batch accepts.
    TooManyEntries { entries: usize },
}

/// Check a manifest's schema, then how many entries it lists.
pub fn check_manifest(schema: u32, entries: usize) -> (r: Result<(), ManifestError>)
    ensures
        !(1 <= schema <= MANIFEST_SCHEMA) ==> r == Err::<(), ManifestError>(
            ManifestError::Schema { schema },
        ),
        1 <= schema <= MANIFEST_SCHEMA && entries == 0 ==> r == Err::<(), ManifestError>(
            ManifestError::NoEntries,
        ),
        1 <= schema <= MANIFEST_SCHEMA && entries > MAX_ENTRIES ==> r == Err::<(), ManifestError>(
            ManifestError::TooManyEntries { entries },
        ),
        1 <= schema <= MANIFEST_SCHEMA && 1 <= entries <= MAX_ENTRIES ==> r is Ok,
{
    if schema == 0 || schema > MANIFEST_SCHEMA {
        return Err(ManifestError::Schema { schema });
    }
    if entries == 0 {
        return Err(ManifestError::NoEntries);
    }
    if entries > MAX_ENTRIES {
        return Err(ManifestError::TooManyEntries { entries });
    }
    Ok(())
}

/// One way a definition breaks a manifest's policy.
#[derive(Debug, Clone, Copy, PartialEq, Eq, Structural)]
pub enum Violation {
    /// It declares one extent where the manifest pins every material to
    /// another.
    Resolution { width: u32, height: u32, pinned_width: u32, pinned_height: u32 },
    /// It wants an optional map the manifest does not allow.
    UnallowedMap(MapRole),
}

/// What every definition in a manifest must satisfy.
#[derive(Debug, Clone, Default, PartialEq, Eq)]
pub struct Policy {
    /// The exact size (width, height) every definition must declare, when
    /// pinned.
    pub resolution: Option<(u32, u32)>,
    /// The only optional maps a definition may want, when restricted.
    /// Albedo is required of every material and is never listed here.
    pub maps: Option<Vec<MapRole>>,
}

/// Whether a policy allowing `allowed` refuses a wanted map: an optional
/// map missing from a restricted list.
pub open spec fn refuses(allowed: Option<Seq<MapRole>>, role: MapRole) -> bool {
    match allowed {
        Some(a) => role != MapRole::Albedo && !a.contains(role),
        None => false,
    }
}

/// The refused maps among the first `n` wanted, in the order wanted.
pub open spec fn map_violations(allowed: Option<Seq<MapRole>>, wanted: Seq<MapRole>, n: int) -> Seq<
    Violation,
>
    decreases n,
{
    if n <= 0 {
        Seq::empty()
    } else {
        map_violations(allowed, wanted, n - 1) + if refuses(allowed, wanted[n - 1]) {
            seq![Violation::UnallowedMap(wanted[n - 1])]
        } else {
            Seq::empty()
        }
    }
}

/// Every way a definition of extent `resolution` wanting `wanted` breaks a
/// policy: the size first, then each refused map in the order wanted.
pub open spec fn violations_spec(
    pinned: Option<(u32, u32)>,
    allowed: Option<Seq<MapRole>>,
    resolution: (u32, u32),
    wanted: Seq<MapRole>,
) -> Seq<Violation> {
    (if pinned matches Some(p) && p != resolution {
        seq![
            Violation::Resolution {
                width: resolution.0,
                height: resolution.1,
                pinned_width: pinned.unwrap().0,
                pinned_height: pinned.unwrap().1,
            },
        ]
    } else {
        Seq::empty()
    }) + map_violations(allowed, wanted, wanted.len() as int)
}

/// The seed an entry generates with: its own when it names one, else the
/// manifest's.
pub open spec fn entry_seed_spec(own: Option<u64>, plan: u64) -> u64 {
    match own {
        Some(v) => v,
        None => plan,
    }
}

impl Policy {
    /// The restricted list of optional maps, as a sequence.
    pub open spec fn allowed(&self) -> Option<Seq<MapRole>> {
        match self.maps {
            Some(v) => Some(v@),
            None => None,
        }
    }

    /// The first visual generation: 16x16, albedo alone.
    pub fn first_generation() -> (p: Self)
        ensures
            p.resolution == Some((16u32, 16u32)),
            p.allowed() == Some(Seq::<MapRole>::empty()),
    {
        Policy { resolution: Some((16, 16)), maps: Some(Vec::new()) }
    }

    /// Whether the policy lets a definition want `role`.
    fn allows(&self, role: MapRole) -> (r: bool)
        ensures
            r == !refuses(self.allowed(), role),
    {
        match &self.maps {
            None => true,
            Some(list) => {
                if role.is_required() {
                    return true;
                }
                let mut i: usize = 0;
                while i < list.len()
                    invariant
                        i <= list@.len(),
                        self.allowed() == Some(list@),
                        role != MapRole::Albedo,
                        forall|k: int| 0 <= k < i ==> list@[k] != role,
                    decreases list.len() - i,
                {
                    if list[i] == role {
                        proof {
                            assert(list@[i as int] == role);
                            assert(list@.contains(role));
                        }
                        return true;
                    }
                    i += 1;
                }
                false
            },
        }
    }

    /// Every way a definition declaring `resolution` (width, height) and
    /// wanting `wanted` breaks this policy: a size other than the pinned one,
    /// then each optional map wanted that a restricted list leaves out, in
    /// the order wanted.
    pub fn violations(&self, resolution: (u32, u32), wanted: &Vec<MapRole>) -> (r: Vec<Violation>)
        ensures
            r@ == violations_spec(self.resolution, self.allowed(), resolution, wanted@),
    {
        let mut found: Vec<Violation> = Vec::new();
        match self.resolution {
            Some(pinned) => {
                if pinned.0 != resolution.0 || pinned.1 != resolution.1 {
                    found.push(
                        Violation::Resolution {
                            width: resolution.0,
                            height: resolution.1,
                            pinned_width: pinned.0,
                            pinned_height: pinned.1,
                        },
                    );
                }
            },
            None => {},
        }
        let ghost head = found@;
        let mut i: usize = 0;
        while i < wanted.len()
            invariant
                i <= wanted@.len(),
                found@ == head + map_violations(self.allowed(), wanted@, i as int),
            decreases wanted.len() - i,
        {
            let role = wanted[i];
            let ghost before = found@;
            if !self.allows(role) {
                found.push(Violation::UnallowedMap(role));
            }
            proof {
                assert(found@ =~= head + map_violations(self.allowed(), wanted@, i + 1));
            }
            i += 1;
        }
        proof {
            assert(found@ =~= violations_spec(self.resolution, self.allowed(), resolution, wanted@));
        }
        found
    }
}

/// The seed an entry generates with: its own when it names one, else the
/// manifest's.
pub fn entry_seed(own: Option<u64>, plan: u64) -> (s: u64)
    ensures
        s == entry_seed_spec(own, plan),
{
    match own {
        Some(v) => v,
        None => plan,
    }
}

/// Settle an entry whose definition read back: refused with every way it
/// breaks the policy, in order, when it breaks it; otherwise accepted, to
/// generate with its own seed or else the manifest's.
pub fn settle_entry(
    policy: &Policy,
    own_seed: Option<u64>,
    plan_seed: u64,
    resolution: (u32, u32),
    wanted: &Vec<MapRole>,
) -> (r: Result<u64, Vec<Violation>>)
    ensures
        violations_spec(policy.resolution, policy.allowed(), resolution, wanted@).len() == 0
            ==> r == Ok::<u64, Vec<Violation>>(entry_seed_spec(own_seed, plan_seed)),
        violations_spec(policy.resolution, policy.allowed(), resolution, wanted@).len() > 0
            ==> (r matches Err(v) && v@ == violations_spec(
            policy.resolution,
            policy.allowed(),
            resolution,
            wanted@,
        )),
{
    let found = policy.violations(resolution, wanted);
    if found.len() > 0 {
        Err(found)
    } else {
        Ok(entry_seed(own_seed, plan_seed))
    }
}

/// What reading one manifest entry came to.
#[derive(Debug)]
pub enum EntryRead {
    /// Its definition read back and passed every check; it defines this
    /// material.
    Read { material: Identifier },
    /// It did not, for this reason.
    Failed { reason: String },
}

/// What is wrong with one entry.
#[derive(Debug, PartialEq, Eq)]
pub enum ProblemKind {
    /// Its definition could not be read or checked.
    Unreadable { reason: String },
    /// An earlier entry already defines the same material.
    Duplicate { material: String, first: usize },
}

/// Something wrong with one entry of a manifest.
#[derive(Debug, PartialEq, Eq)]
pub struct Problem {
    /// Which entry, by its position in the list, from zero.
    pub index: usize,
    /// The path the entry names, as written.
    pub definition: String,
    /// What is wrong.
    pub kind: ProblemKind,
}

/// The material each entry defines, or `None` where it failed.
pub open spec fn claims(reads: Seq<(String, EntryRead)>) -> Seq<Option<Seq<char>>> {
    reads.map_values(
        |r: (String, EntryRead)|
            match r.1 {
                EntryRead::Read { material } => Some(material@),
                EntryRead::Failed { .. } => None,
            },
    )
}

/// The first entry that claims `id`.
pub open spec fn first_claim(c: Seq<Option<Seq<char>>>, id: Seq<char>) -> Option<int>
    decreases c.len(),
{
    if c.len() == 0 {
        None
    } else {
        match first_claim(c.drop_last(), id) {
            Some(j) => Some(j),
            None => if c.last() == Some(id) {
                Some(c.len() - 1)
            } else {
                None
            },
        }
    }
}

/// How entry `i` fares: `Some(None)` when it is accepted, `Some(Some(j))`
/// when entry `j` claimed its material first, `None` when it failed.
pub open spec fn fate(c: Seq<Option<Seq<char>>>, i: int) -> Option<Option<int>> {
    match c[i] {
        None => None,
        Some(id) => Some(first_claim(c.take(i), id)),
    }
}

/// The entries among the first `n` that are accepted, in order.
pub open spec fn accepted_of(c: Seq<Option<Seq<char>>>, n: int) -> Seq<usize>
    decreases n,
{
    if n <= 0 {
        Seq::empty()
    } else if fate(c, n - 1) == Some(None::<int>) {
        accepted_of(c, n - 1).push((n - 1) as usize)
    } else {
        accepted_of(c, n - 1)
    }
}

/// The entries among the first `n` that are problems, in order.
pub open spec fn problems_of(c: Seq<Option<Seq<char>>>, n: int) -> Seq<usize>
    decreases n,
{
    if n <= 0 {
        Seq::empty()
    } else if fate(c, n - 1) == Some(None::<int>) {
        problems_of(c, n - 1)
    } else {
        problems_of(c, n - 1).push((n - 1) as usize)
    }
}

/// Problem `p` is what entry `i` of `reads` comes to.
pub open spec fn problem_is(reads: Seq<(String, EntryRead)>, i: int, p: Problem) -> bool {
    &&& p.index == i
    &&& p.definition@ == reads[i].0@
    &&& match reads[i].1 {
        EntryRead::Failed { reason } => p.kind == ProblemKind::Unreadable { reason },
        EntryRead::Read { material } => (p.kind matches ProblemKind::Duplicate { material: m, first }
            && m@ == material@ && Some(first as int) == first_claim(
            claims(reads).take(i),
            material@,
        )),
    }
}

/// Sort a manifest's entries, in manifest order, into those accepted and
/// the problems: an entry whose definition failed, or one defining a
/// material an earlier accepted entry already defines, which names that
/// first entry rather than only itself.
pub fn triage(reads: Vec<(String, EntryRead)>) -> (r: (Vec<usize>, Vec<Problem>))
    ensures
        r.0@ == accepted_of(claims(reads@), reads@.len() as int),
        r.1@.len() == problems_of(claims(reads@), reads@.len() as int).len(),
        forall|k: int|
            0 <= k < r.1@.len() ==> problem_is(
                reads@,
                problems_of(claims(reads@), reads@.len() as int)[k] as int,
                #[trigger] r.1@[k],
            ),
{
    let ghost c = claims(reads@);
    let ghost all = reads@;
    let mut accepted: Vec<usize> = Vec::new();
    let mut problems: Vec<Problem> = Vec::new();
    let mut i: usize = 0;
    while i < reads.len()
        invariant
            c == claims(reads@),
            all == reads@,
            i <= reads@.len(),
            accepted@ == accepted_of(c, i as int),
            problems@.len() == problems_of(c, i as int).len(),
            forall|k: int|
                0 <= k < problems@.len() ==> problem_is(
                    all,
                    problems_of(c, i as int)[k] as int,
                    #[trigger] problems@[k],
                ),
        decreases reads.len() - i,
    {
        let written = reads[i].0.clone();
        match &reads[i].1 {
            EntryRead::Failed { reason } => {
                proof {
                    assert(c[i as int] is None);
                }
                problems.push(
                    Problem { index: i, definition: written, kind: ProblemKind::Unreadable { reason: reason.clone() } },
                );
            },
            EntryRead::Read { material } => {
                let mut j: usize = 0;
                let mut first: Option<usize> = None;
                while j < i && first.is_none()
                    invariant
                        c == claims(reads@),
                        i < reads@.len(),
                        j <= i,
                        c[i as int] == Some(material@),
                        first is None ==> first_claim(c.take(j as int), material@) is None,
                        first matches Some(f) ==> first_claim(c.take(i as int), material@) == Some(
                            f as int,
                        ),
                    decreases i - j + if first is None { 1int } else { 0int },
                {
                    proof {
                        assert(c.take(j + 1).drop_last() =~= c.take(j as int));
                        assert(c.take(j + 1).last() == c[j as int]);
                    }
                    let same = match &reads[j].1 {
                        EntryRead::Read { material: other } => other.same(material),
                        EntryRead::Failed { .. } => false,
                    };
                    if same {
                        proof {
                            assert(first_claim(c.take(j + 1), material@) == Some(j as int));
                            lemma_first_claim_prefix(c.take(i as int), material@, j + 1);
                            assert(c.take(i as int).take(j + 1) =~= c.take(j + 1));
                        }
                        first = Some(j);
                    } else {
                        j += 1;
                    }
                }
                proof {
                    if first is None {
                        assert(j == i);
                    }
                }
                match first {
                    Some(f) => {
                        problems.push(
                            Problem {
                                index: i,
                                definition: written,
                                kind: ProblemKind::Duplicate { material: material.as_str().to_owned(), first: f },
                            },
                        );
                    },
                    None => {
                        accepted.push(i);
                    },
                }
            },
        }
        proof {
            assert forall|k: int| 0 <= k < problems@.len() implies problem_is(
                all,
                problems_of(c, i + 1)[k] as int,
                #[trigger] problems@[k],
            ) by {
                if k < problems_of(c, i as int).len() {
                    assert(problems_of(c, i + 1)[k] == problems_of(c, i as int)[k]);
                }
            }
        }
        i += 1;
    }
    (accepted, problems)
}

/// The first claim found within a prefix is the first claim of any longer
/// prefix.
proof fn lemma_first_claim_prefix(c: Seq<Option<Seq<char>>>, id: Seq<char>, n: int)
    requires
        0 <= n <= c.len(),
        first_claim(c.take(n), id) is Some,
    ensures
        first_claim(c, id) == first_claim(c.take(n), id),
    decreases c.len() - n,
{
    if n < c.len() {
        assert(c.take(n + 1).drop_last() =~= c.take(n));
        lemma_first_claim_prefix(c, id, n + 1);
    } else {
        assert(c.take(n) =~= c);
    }
}

} // verus!
