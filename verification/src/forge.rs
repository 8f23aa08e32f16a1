//! What happened to a material the forge was asked to generate.

use vstd::prelude::*;

use crate::ident::Identifier;

verus! {

/// How deep a listing walks looking for materials.
///
/// An identifier's path may nest, but not without limit, and a walk with no
/// bound is a walk a symlink can send anywhere.
pub const MAX_LIST_DEPTH: usize = 8;

/// What happened to a material that was asked to be generated.
#[derive(Debug, Clone, Copy, PartialEq, Eq, Structural)]
pub enum WriteStatus {
    /// It was not there, and now it is.
    Written,
    /// It was there, identical, and nothing was rewritten.
    Unchanged,
    /// It was there and different, and `--force` was not given.
    Refused,
    /// It was there and different, and it was replaced at a new revision.
    Replaced,
}

/// The stable lowercase name of a status.
pub open spec fn status_name(s: WriteStatus) -> Seq<char> {
    match s {
        WriteStatus::Written => "written"@,
        WriteStatus::Unchanged => "unchanged"@,
        WriteStatus::Refused => "refused"@,
        WriteStatus::Replaced => "replaced"@,
    }
}

impl WriteStatus {
    /// Stable lowercase name.
    pub fn as_str(self) -> (r: &'static str)
        ensures
            r@ == status_name(self),
    {
        match self {
            WriteStatus::Written => "written",
            WriteStatus::Unchanged => "unchanged",
            WriteStatus::Refused => "refused",
            WriteStatus::Replaced => "replaced",
        }
    }

    /// Whether anything reached the filesystem.
    pub fn wrote_files(self) -> (r: bool)
        ensures
            r == (self == WriteStatus::Written || self == WriteStatus::Replaced),
    {
        match self {
            WriteStatus::Written | WriteStatus::Replaced => true,
            _ => false,
        }
    }
}


/// The total of the sizes in a list of written files.
pub open spec fn total_size(files: Seq<(Seq<char>, usize)>) -> int
    decreases files.len(),
{
    if files.len() == 0 {
        0
    } else {
        total_size(files.drop_last()) + files.last().1
    }
}

/// What one generation run produced, as a batch and its report read it:
/// what happened, the files written and how large each is, and why it was
/// refused when it was.
#[derive(Debug)]
pub struct Outcome {
    /// What happened.
    pub status: WriteStatus,
    /// The material generated, by identifier.
    pub material: Identifier,
    /// The files written, and how large each is.
    pub files: Vec<(String, usize)>,
    /// Why it was refused, when it was.
    pub refusal: Option<String>,
}

impl Outcome {
    /// The files written, as plain values.
    pub open spec fn spec_files(&self) -> Seq<(Seq<char>, usize)> {
        self.files@.map_values(|f: (String, usize)| (f.0@, f.1))
    }

    /// Total bytes written.
    pub fn byte_len(&self) -> (n: usize)
        requires
            total_size(self.spec_files()) <= usize::MAX,
        ensures
            n == total_size(self.spec_files()),
    {
        let ghost files = self.spec_files();
        let mut total: usize = 0;
        let mut i: usize = 0;
        while i < self.files.len()
            invariant
                files == self.spec_files(),
                total_size(files) <= usize::MAX,
                i <= self.files@.len(),
                total == total_size(files.take(i as int)),
            decreases self.files.len() - i,
        {
            proof {
                assert(files.take(i + 1).drop_last() =~= files.take(i as int));
                assert(files.take(i + 1).last() == files[i as int]);
                lemma_total_size_prefix(files, i + 1);
            }
            total = total + self.files[i].1;
            i += 1;
        }
        proof {
            assert(files.take(i as int) =~= files);
        }
        total
    }
}

/// Sizes are never negative, so a prefix totals no more than the whole.
proof fn lemma_total_size_prefix(files: Seq<(Seq<char>, usize)>, k: int)
    requires
        0 <= k <= files.len(),
    ensures
        0 <= total_size(files.take(k)) <= total_size(files),
    decreases files.len(),
{
    if k < files.len() {
        lemma_total_size_prefix(files.drop_last(), k);
        assert(files.drop_last().take(k) =~= files.take(k));
    } else {
        assert(files.take(k) =~= files);
        lemma_total_size_nonneg(files);
    }
}

/// A total of sizes is never negative.
proof fn lemma_total_size_nonneg(files: Seq<(Seq<char>, usize)>)
    ensures
        total_size(files) >= 0,
    decreases files.len(),
{
    if files.len() > 0 {
        lemma_total_size_nonneg(files.drop_last());
    }
}

/// What is on disk for a material already written, as far as the decision
/// to write it again reads it.
#[derive(Debug, Clone, Copy, PartialEq, Eq, Structural)]
pub struct Existing {
    /// The appearance hash of the definition on disk.
    pub appearance_hash: u64,
    /// The recipe fingerprint its generation record holds, if one reads back.
    pub fingerprint: Option<u64>,
    /// Its revision.
    pub revision: u32,
    /// Whether every map it should have is on disk.
    pub maps_present: bool,
}

/// What the forge does with a material it is asked to generate.
#[derive(Debug, Clone, Copy, PartialEq, Eq, Structural)]
pub enum WriteDecision {
    /// The same surface is already written in full: nothing is rewritten.
    Unchanged,
    /// A different surface is written at this revision, and replacing it was
    /// not forced.
    Refused { revision: u32 },
    /// Generate and write: new, or replacing the revision named, so the
    /// result is numbered above it.
    Generate { replaces: Option<u32> },
}

/// The decision, from what is on disk, the definition's appearance hash, the
/// fingerprint of the recipe it resolves to, and whether replacing is forced.
pub open spec fn decide_write_spec(existing: Option<Existing>, appearance_hash: u64, fingerprint: u64, force: bool) -> WriteDecision {
    match existing {
        None => WriteDecision::Generate { replaces: None },
        Some(e) => if e.appearance_hash == appearance_hash && e.fingerprint == Some(fingerprint)
            && e.maps_present {
            WriteDecision::Unchanged
        } else if !force {
            WriteDecision::Refused { revision: e.revision }
        } else {
            WriteDecision::Generate { replaces: Some(e.revision) }
        },
    }
}

/// Decide what to do with a material asked to be generated: nothing when
/// the same appearance, generated by the same recipe, is written with every
/// map; a refusal when something different is written and replacing it is
/// not forced; otherwise generate, replacing what is there.
pub fn decide_write(existing: Option<Existing>, appearance_hash: u64, fingerprint: u64, force: bool) -> (d: WriteDecision)
    ensures
        d == decide_write_spec(existing, appearance_hash, fingerprint, force),
{
    match existing {
        None => WriteDecision::Generate { replaces: None },
        Some(e) => {
            let same_recipe = match e.fingerprint {
                Some(f) => f == fingerprint,
                None => false,
            };
            if e.appearance_hash == appearance_hash && same_recipe && e.maps_present {
                WriteDecision::Unchanged
            } else if !force {
                WriteDecision::Refused { revision: e.revision }
            } else {
                WriteDecision::Generate { replaces: Some(e.revision) }
            }
        },
    }
}

impl WriteDecision {
    /// The status an outcome reports for this decision, once a generation
    /// it asks for has been written.
    pub fn status(self) -> (s: WriteStatus)
        ensures
            s == match self {
                WriteDecision::Unchanged => WriteStatus::Unchanged,
                WriteDecision::Refused { .. } => WriteStatus::Refused,
                WriteDecision::Generate { replaces: None } => WriteStatus::Written,
                WriteDecision::Generate { replaces: Some(_) } => WriteStatus::Replaced,
            },
    {
        match self {
            WriteDecision::Unchanged => WriteStatus::Unchanged,
            WriteDecision::Refused { .. } => WriteStatus::Refused,
            WriteDecision::Generate { replaces: None } => WriteStatus::Written,
            WriteDecision::Generate { replaces: Some(_) } => WriteStatus::Replaced,
        }
    }
}

} // verus!
