//! How the forge reads its command line: the verb, its options and the
//! seed and index values they carry.

use vstd::prelude::*;

use crate::error::join;
use crate::ident::{Identifier, valid_identifier};

verus! {

/// Why a seed argument was refused.
#[derive(Debug, Clone, Copy, PartialEq, Eq, Structural)]
pub enum SeedError {
    /// Not a decimal number, nor `0x` followed by a hexadecimal one, that
    /// fits in 64 bits.
    NotASeed,
}

/// The value of one digit in a radix, if it is one.
pub open spec fn digit_value(c: char, radix: int) -> Option<int> {
    let v = if '0' <= c && c <= '9' {
        c as int - '0' as int
    } else if 'a' <= c && c <= 'z' {
        c as int - 'a' as int + 10
    } else if 'A' <= c && c <= 'Z' {
        c as int - 'A' as int + 10
    } else {
        radix
    };
    if v < radix {
        Some(v)
    } else {
        None
    }
}

/// The number a string of digits spells, if every character is a digit.
pub open spec fn digits_value(s: Seq<char>, radix: int) -> Option<int>
    decreases s.len(),
{
    if s.len() == 0 {
        Some(0)
    } else {
        match (digits_value(s.drop_last(), radix), digit_value(s.last(), radix)) {
            (Some(high), Some(low)) => Some(high * radix + low),
            _ => None,
        }
    }
}

/// What `u64::from_str_radix` reads: an optional `+`, then at least one
/// digit, for a value that fits in 64 bits.
pub open spec fn u64_from_radix(s: Seq<char>, radix: int) -> Option<u64> {
    let digits = if s.len() > 0 && s[0] == '+' {
        s.drop_first()
    } else {
        s
    };
    if digits.len() == 0 {
        None
    } else {
        match digits_value(digits, radix) {
            Some(v) => if v <= u64::MAX {
                Some(v as u64)
            } else {
                None
            },
            None => None,
        }
    }
}

/// The seed a command-line argument names: `0x` and hexadecimal, or decimal.
pub open spec fn seed_spec(s: Seq<char>) -> Option<u64> {
    if s.len() >= 2 && s[0] == '0' && s[1] == 'x' {
        u64_from_radix(s.skip(2), 16)
    } else {
        u64_from_radix(s, 10)
    }
}

fn digit(c: char, radix: u32) -> (r: Option<u32>)
    requires
        radix == 10 || radix == 16,
    ensures
        r matches Some(v) ==> digit_value(c, radix as int) == Some(v as int),
        r is None ==> digit_value(c, radix as int) is None,
{
    let v: u32 = if '0' <= c && c <= '9' {
        (c as u32) - ('0' as u32)
    } else if 'a' <= c && c <= 'z' {
        (c as u32) - ('a' as u32) + 10
    } else if 'A' <= c && c <= 'Z' {
        (c as u32) - ('A' as u32) + 10
    } else {
        radix
    };
    if v < radix {
        Some(v)
    } else {
        None
    }
}

pub(crate) proof fn lemma_digits_monotone(s: Seq<char>, radix: int, k: int)
    requires
        radix >= 2,
        0 <= k <= s.len(),
        digits_value(s, radix) is Some,
    ensures
        digits_value(s.take(k), radix) is Some,
        digits_value(s.take(k), radix)->0 <= digits_value(s, radix)->0,
        digits_value(s.take(k), radix)->0 >= 0,
    decreases s.len() - k,
{
    if k < s.len() {
        lemma_digits_monotone(s, radix, k + 1);
        let longer = s.take(k + 1);
        assert(longer.drop_last() =~= s.take(k));
        let h = digits_value(s.take(k), radix);
        let l = digit_value(longer.last(), radix);
        assert(h is Some && l is Some);
        lemma_digits_nonneg(s.take(k), radix);
        let hv = h->0;
        let lv = l->0;
        assert(hv * radix + lv >= hv) by (nonlinear_arith)
            requires
                hv >= 0,
                lv >= 0,
                radix >= 2,
        ;
    } else {
        assert(s.take(k) =~= s);
        lemma_digits_nonneg(s, radix);
    }
}

pub(crate) proof fn lemma_digits_nonneg(s: Seq<char>, radix: int)
    requires
        radix >= 2,
        digits_value(s, radix) is Some,
    ensures
        digits_value(s, radix)->0 >= 0,
    decreases s.len(),
{
    if s.len() > 0 {
        lemma_digits_nonneg(s.drop_last(), radix);
        let h = digits_value(s.drop_last(), radix)->0;
        let l = digit_value(s.last(), radix)->0;
        assert(h * radix + l >= 0) by (nonlinear_arith)
            requires
                h >= 0,
                l >= 0,
                radix >= 2,
        ;
    }
}

/// Read digits in a radix from `from` onward, as `u64::from_str_radix` does.
pub(crate) fn parse_radix(text: &str, from: usize, radix: u32) -> (r: Option<u64>)
    requires
        from <= text@.len(),
        radix == 10 || radix == 16,
    ensures
        r == u64_from_radix(text@.skip(from as int), radix as int),
{
    let n = text.unicode_len();
    let ghost s = text@.skip(from as int);
    let mut start = from;
    if start < n && text.get_char(start) == '+' {
        start = start + 1;
    }
    let ghost digits = text@.skip(start as int);
    proof {
        if s.len() > 0 && s[0] == '+' {
            assert(digits =~= s.drop_first());
        } else {
            assert(digits =~= s);
        }
    }
    if start == n {
        return None;
    }
    proof {
        assert(u64_from_radix(s, radix as int) == match digits_value(digits, radix as int) {
            Some(v) => if v <= u64::MAX {
                Some(v as u64)
            } else {
                None
            },
            None => None,
        });
    }
    let mut value: u64 = 0;
    let mut i = start;
    while i < n
        invariant
            n == text@.len(),
            s == text@.skip(from as int),
            u64_from_radix(s, radix as int) == match digits_value(digits, radix as int) {
                Some(v) => if v <= u64::MAX {
                    Some(v as u64)
                } else {
                    None
                },
                None => None,
            },
            start < n,
            start <= i <= n,
            radix == 10 || radix == 16,
            digits == text@.skip(start as int),
            digits_value(digits.take(i - start), radix as int) == Some(value as int),
        decreases n - i,
    {
        let ghost prefix = digits.take(i - start);
        proof {
            assert(digits.take(i - start + 1).drop_last() =~= prefix);
            assert(digits.take(i - start + 1).last() == text@[i as int]);
        }
        let c = text.get_char(i);
        let d = match digit(c, radix) {
            Some(d) => d,
            None => {
                proof {
                    let t = digits.take(i - start + 1);
                    assert(t.drop_last() =~= prefix);
                    assert(digit_value(t.last(), radix as int) is None);
                    assert(digits_value(t, radix as int) is None);
                    if digits_value(digits, radix as int) is Some {
                        lemma_digits_monotone(digits, radix as int, i - start + 1);
                        assert(false);
                    }
                    assert(digits_value(digits, radix as int) is None);
                    assert(u64_from_radix(s, radix as int) is None);
                }
                return None;
            },
        };
        let next = match value.checked_mul(radix as u64) {
            Some(m) => m.checked_add(d as u64),
            None => None,
        };
        match next {
            Some(v) => {
                value = v;
            },
            None => {
                proof {
                    assert(digits_value(digits.take(i - start + 1), radix as int) == Some(
                        value * radix + d,
                    ));
                    assert(value * radix + d > u64::MAX) by (nonlinear_arith)
                        requires
                            value * radix > u64::MAX || value * radix + d > u64::MAX,
                    ;
                    if digits_value(digits, radix as int) is Some {
                        lemma_digits_monotone(digits, radix as int, i - start + 1);
                    }
                }
                return None;
            },
        }
        i += 1;
    }
    proof {
        assert(digits.take(n - start) =~= digits);
    }
    Some(value)
}

/// Read a seed: `0x` and hexadecimal, or decimal, each with an optional
/// leading `+`, as the standard library's integer parsing reads them.
pub fn parse_seed(raw: &str) -> (r: Result<u64, SeedError>)
    ensures
        match seed_spec(raw@) {
            Some(v) => r == Ok::<u64, SeedError>(v),
            None => r == Err::<u64, SeedError>(SeedError::NotASeed),
        },
{
    let n = raw.unicode_len();
    let parsed = if n >= 2 && raw.get_char(0) == '0' && raw.get_char(1) == 'x' {
        parse_radix(raw, 2, 16)
    } else {
        proof {
            assert(raw@.skip(0) =~= raw@);
        }
        parse_radix(raw, 0, 10)
    };
    match parsed {
        Some(v) => Ok(v),
        None => Err(SeedError::NotASeed),
    }
}

/// Where materials are written when `--out` is not given.
pub const DEFAULT_ROOT: &'static str = "assets/materials";

/// Where named recipes are read from when `--recipes` is not given.
pub const DEFAULT_RECIPES: &'static str = "content/recipes";

/// Which generator realises a material.
#[derive(Debug, Clone, Copy, PartialEq, Eq, Structural)]
pub enum Backend {
    /// Noise and layered recipes.
    Procedural,
    /// A learned model.
    Ai,
    /// A model guided by procedural structure.
    Hybrid,
}

/// The name a backend is given on the command line.
pub open spec fn backend_name(b: Backend) -> Seq<char> {
    match b {
        Backend::Procedural => "procedural"@,
        Backend::Ai => "ai"@,
        Backend::Hybrid => "hybrid"@,
    }
}

/// The backend a command-line name selects, if any.
pub open spec fn backend_named(s: Seq<char>) -> Option<Backend> {
    if s == "procedural"@ {
        Some(Backend::Procedural)
    } else if s == "ai"@ {
        Some(Backend::Ai)
    } else if s == "hybrid"@ {
        Some(Backend::Hybrid)
    } else {
        None
    }
}

/// Whether two texts are the same.
fn same_text(a: &str, b: &str) -> (r: bool)
    ensures
        r == (a@ == b@),
{
    let n = a.unicode_len();
    if n != b.unicode_len() {
        return false;
    }
    let mut i: usize = 0;
    while i < n
        invariant
            n == a@.len(),
            n == b@.len(),
            i <= n,
            forall|k: int| 0 <= k < i ==> a@[k] == b@[k],
        decreases n - i,
    {
        if a.get_char(i) != b.get_char(i) {
            return false;
        }
        i += 1;
    }
    proof {
        assert(a@ =~= b@);
    }
    true
}

impl Backend {
    /// The backend's command-line name.
    pub fn as_str(self) -> (r: &'static str)
        ensures
            r@ == backend_name(self),
    {
        match self {
            Backend::Procedural => "procedural",
            Backend::Ai => "ai",
            Backend::Hybrid => "hybrid",
        }
    }

    /// The backend a command-line name selects.
    pub fn parse(raw: &str) -> (r: Option<Backend>)
        ensures
            r == backend_named(raw@),
    {
        if same_text(raw, "procedural") {
            Some(Backend::Procedural)
        } else if same_text(raw, "ai") {
            Some(Backend::Ai)
        } else if same_text(raw, "hybrid") {
            Some(Backend::Hybrid)
        } else {
            None
        }
    }
}

/// The variant index a command-line argument names: a decimal that fits in
/// 32 bits, with an optional leading `+`.
pub open spec fn index_spec(s: Seq<char>) -> Option<u32> {
    match u64_from_radix(s, 10) {
        Some(v) => if v <= u32::MAX {
            Some(v as u32)
        } else {
            None
        },
        None => None,
    }
}

/// Why a command line was refused.
#[derive(Debug, Clone, PartialEq, Eq)]
pub enum ArgError {
    /// An option was given without the value it takes.
    NeedsValue { option: String, what: String },
    /// A seed that is neither decimal nor `0x` and hexadecimal.
    NotASeed { raw: String },
    /// A backend name that is not one of the three.
    NotABackend { raw: String },
    /// A variant index that is not a 32-bit decimal.
    NotAnIndex { raw: String },
    /// An option this tool does not have.
    UnknownOption { option: String },
    /// A second positional argument.
    OneArgument { verb: String },
    /// A verb without the argument it needs.
    NeedsArgument { verb: String, what: String },
    /// `variant` without `--of`.
    VariantNeedsOf,
    /// A material id that is not an identifier.
    NotAMaterialId { raw: String },
    /// `build` given a seed.
    BuildTakesNoSeed,
    /// `index` or `list` given an argument.
    TakesNoArgument { verb: String },
    /// A verb this tool does not have.
    UnknownCommand { verb: String },
}

/// The content of an [`ArgError`].
pub enum ArgErrorView {
    NeedsValue { option: Seq<char>, what: Seq<char> },
    NotASeed { raw: Seq<char> },
    NotABackend { raw: Seq<char> },
    NotAnIndex { raw: Seq<char> },
    UnknownOption { option: Seq<char> },
    OneArgument { verb: Seq<char> },
    NeedsArgument { verb: Seq<char>, what: Seq<char> },
    VariantNeedsOf,
    NotAMaterialId { raw: Seq<char> },
    BuildTakesNoSeed,
    TakesNoArgument { verb: Seq<char> },
    UnknownCommand { verb: Seq<char> },
}

impl View for ArgError {
    type V = ArgErrorView;

    open spec fn view(&self) -> ArgErrorView {
        match self {
            ArgError::NeedsValue { option, what } => ArgErrorView::NeedsValue { option: option@, what: what@ },
            ArgError::NotASeed { raw } => ArgErrorView::NotASeed { raw: raw@ },
            ArgError::NotABackend { raw } => ArgErrorView::NotABackend { raw: raw@ },
            ArgError::NotAnIndex { raw } => ArgErrorView::NotAnIndex { raw: raw@ },
            ArgError::UnknownOption { option } => ArgErrorView::UnknownOption { option: option@ },
            ArgError::OneArgument { verb } => ArgErrorView::OneArgument { verb: verb@ },
            ArgError::NeedsArgument { verb, what } => ArgErrorView::NeedsArgument { verb: verb@, what: what@ },
            ArgError::VariantNeedsOf => ArgErrorView::VariantNeedsOf,
            ArgError::NotAMaterialId { raw } => ArgErrorView::NotAMaterialId { raw: raw@ },
            ArgError::BuildTakesNoSeed => ArgErrorView::BuildTakesNoSeed,
            ArgError::TakesNoArgument { verb } => ArgErrorView::TakesNoArgument { verb: verb@ },
            ArgError::UnknownCommand { verb } => ArgErrorView::UnknownCommand { verb: verb@ },
        }
    }
}

/// The text of a refused command line.
pub open spec fn arg_error_text(e: ArgErrorView) -> Seq<char> {
    match e {
        ArgErrorView::NeedsValue { option, what } => option + " needs "@ + what,
        ArgErrorView::NotASeed { raw } => "`"@ + raw + "` is not a seed; use a decimal or 0x-prefixed number"@,
        ArgErrorView::NotABackend { raw } => "`"@ + raw + "` is not a backend; use procedural, ai, hybrid"@,
        ArgErrorView::NotAnIndex { raw } => "`"@ + raw + "` is not a variant index"@,
        ArgErrorView::UnknownOption { option } => "unknown option `"@ + option + "`"@,
        ArgErrorView::OneArgument { verb } => "`"@ + verb + "` takes one argument"@,
        ArgErrorView::NeedsArgument { verb, what } => "`"@ + verb + "` needs "@ + what,
        ArgErrorView::VariantNeedsOf => "`variant` needs --of <material-id>"@,
        ArgErrorView::NotAMaterialId { raw } => "`"@ + raw + "` is not a material id: it is not namespace:path"@,
        ArgErrorView::BuildTakesNoSeed => "`build` takes its seeds from the plan, not --seed"@,
        ArgErrorView::TakesNoArgument { verb } => "`"@ + verb + "` takes no argument"@,
        ArgErrorView::UnknownCommand { verb } => "unknown command `"@ + verb + "`"@,
    }
}

/// Text quoted between backticks, then more text.
fn quoted(raw: &str, rest: &str) -> (r: String)
    ensures
        r@ == "`"@ + raw@ + rest@,
{
    let head = join("`", raw);
    join(head.as_str(), rest)
}

impl ArgError {
    /// A description of the mistake, naming what was given.
    pub fn message(&self) -> (r: String)
        ensures
            r@ == arg_error_text(self@),
    {
        match self {
            ArgError::NeedsValue { option, what } => {
                let head = join(option.as_str(), " needs ");
                join(head.as_str(), what.as_str())
            },
            ArgError::NotASeed { raw } => quoted(raw.as_str(), "` is not a seed; use a decimal or 0x-prefixed number"),
            ArgError::NotABackend { raw } => quoted(raw.as_str(), "` is not a backend; use procedural, ai, hybrid"),
            ArgError::NotAnIndex { raw } => quoted(raw.as_str(), "` is not a variant index"),
            ArgError::UnknownOption { option } => {
                let head = join("unknown option `", option.as_str());
                join(head.as_str(), "`")
            },
            ArgError::OneArgument { verb } => quoted(verb.as_str(), "` takes one argument"),
            ArgError::NeedsArgument { verb, what } => {
                let head = quoted(verb.as_str(), "` needs ");
                join(head.as_str(), what.as_str())
            },
            ArgError::VariantNeedsOf => "`variant` needs --of <material-id>".to_owned(),
            ArgError::NotAMaterialId { raw } => quoted(raw.as_str(), "` is not a material id: it is not namespace:path"),
            ArgError::BuildTakesNoSeed => "`build` takes its seeds from the plan, not --seed".to_owned(),
            ArgError::TakesNoArgument { verb } => quoted(verb.as_str(), "` takes no argument"),
            ArgError::UnknownCommand { verb } => {
                let head = join("unknown command `", verb.as_str());
                join(head.as_str(), "`")
            },
        }
    }
}

/// The options read so far.
pub struct Flags {
    pub positional: Option<Seq<char>>,
    pub root: Seq<char>,
    pub seed: u64,
    pub seed_given: bool,
    pub recipes: Seq<char>,
    pub force: bool,
    pub of: Option<Seq<char>>,
    pub index: u32,
    pub preview: bool,
    pub backend: Backend,
}

/// The options before any are read.
pub open spec fn initial_flags() -> Flags {
    Flags {
        positional: None,
        root: DEFAULT_ROOT@,
        seed: 0,
        seed_given: false,
        recipes: DEFAULT_RECIPES@,
        force: false,
        of: None,
        index: 1,
        preview: true,
        backend: Backend::Procedural,
    }
}

/// Where reading the options ends: a request for help, a refusal, or the
/// options read.
pub enum Scan {
    Help,
    Failed(ArgErrorView),
    Done(Flags),
}

/// Read the options from `pos` on. An option that takes a value consumes
/// the argument after it; a second positional argument is refused.
pub open spec fn scan(args: Seq<Seq<char>>, pos: int, f: Flags) -> Scan
    decreases args.len() - pos,
{
    if pos < 0 || pos >= args.len() {
        Scan::Done(f)
    } else {
        let a = args[pos];
        let has_next = pos + 1 < args.len();
        if a == "--help"@ || a == "-h"@ {
            Scan::Help
        } else if a == "--out"@ {
            if !has_next {
                Scan::Failed(ArgErrorView::NeedsValue { option: "--out"@, what: "a path"@ })
            } else {
                scan(args, pos + 2, Flags { root: args[pos + 1], ..f })
            }
        } else if a == "--seed"@ {
            if !has_next {
                Scan::Failed(ArgErrorView::NeedsValue { option: "--seed"@, what: "a value"@ })
            } else {
                match seed_spec(args[pos + 1]) {
                    None => Scan::Failed(ArgErrorView::NotASeed { raw: args[pos + 1] }),
                    Some(v) => scan(args, pos + 2, Flags { seed: v, seed_given: true, ..f }),
                }
            }
        } else if a == "--recipes"@ {
            if !has_next {
                Scan::Failed(ArgErrorView::NeedsValue { option: "--recipes"@, what: "a path"@ })
            } else {
                scan(args, pos + 2, Flags { recipes: args[pos + 1], ..f })
            }
        } else if a == "--force"@ {
            scan(args, pos + 1, Flags { force: true, ..f })
        } else if a == "--no-preview"@ {
            scan(args, pos + 1, Flags { preview: false, ..f })
        } else if a == "--backend"@ {
            if !has_next {
                Scan::Failed(ArgErrorView::NeedsValue { option: "--backend"@, what: "a name"@ })
            } else {
                match backend_named(args[pos + 1]) {
                    None => Scan::Failed(ArgErrorView::NotABackend { raw: args[pos + 1] }),
                    Some(b) => scan(args, pos + 2, Flags { backend: b, ..f }),
                }
            }
        } else if a == "--of"@ {
            if !has_next {
                Scan::Failed(ArgErrorView::NeedsValue { option: "--of"@, what: "a material id"@ })
            } else {
                scan(args, pos + 2, Flags { of: Some(args[pos + 1]), ..f })
            }
        } else if a == "--index"@ {
            if !has_next {
                Scan::Failed(ArgErrorView::NeedsValue { option: "--index"@, what: "a number"@ })
            } else {
                match index_spec(args[pos + 1]) {
                    None => Scan::Failed(ArgErrorView::NotAnIndex { raw: args[pos + 1] }),
                    Some(n) => scan(args, pos + 2, Flags { index: n, ..f }),
                }
            }
        } else if a.len() > 0 && a[0] == '-' {
            Scan::Failed(ArgErrorView::UnknownOption { option: a })
        } else if f.positional is Some {
            Scan::Failed(ArgErrorView::OneArgument { verb: args[0] })
        } else {
            scan(args, pos + 1, Flags { positional: Some(a), ..f })
        }
    }
}

/// The paths, switches and generator that travel together into a forge.
#[derive(Debug, Clone, PartialEq, Eq)]
pub struct Setup {
    /// Where materials live.
    pub root: String,
    /// Where named recipes live.
    pub recipes: String,
    /// Whether to render the lit preview.
    pub preview: bool,
    /// Which generator runs.
    pub backend: Backend,
}

/// The content of a [`Setup`].
pub struct SetupView {
    pub root: Seq<char>,
    pub recipes: Seq<char>,
    pub preview: bool,
    pub backend: Backend,
}

impl View for Setup {
    type V = SetupView;

    open spec fn view(&self) -> SetupView {
        SetupView {
            root: self.root@,
            recipes: self.recipes@,
            preview: self.preview,
            backend: self.backend,
        }
    }
}

/// What the command line asks for.
#[derive(Debug, PartialEq, Eq)]
pub enum Command {
    /// Another material like one already written.
    Variant { definition: String, of: Identifier, index: u32, setup: Setup, seed: u64, force: bool },
    /// Restore maps that are lost or corrupt.
    Repair { id: Identifier, setup: Setup },
    /// Realise every material a manifest declares.
    Batch { manifest: String, setup: Setup, force: bool },
    /// Realise a build plan, then index.
    Build { plan: String, setup: Setup, force: bool },
    /// Write the runtime's index.
    Index { root: String },
    /// Realise one material.
    Generate { definition: String, setup: Setup, seed: u64, force: bool },
    /// Check what is on disk for a material.
    Validate { id: Identifier, root: String },
    /// Print a material's definition and origin.
    Inspect { id: Identifier, root: String },
    /// Every material written under the root.
    List { root: String },
}

/// The content of a [`Command`].
pub enum CommandView {
    Variant { definition: Seq<char>, of: Seq<char>, index: u32, setup: SetupView, seed: u64, force: bool },
    Repair { id: Seq<char>, setup: SetupView },
    Batch { manifest: Seq<char>, setup: SetupView, force: bool },
    Build { plan: Seq<char>, setup: SetupView, force: bool },
    Index { root: Seq<char> },
    Generate { definition: Seq<char>, setup: SetupView, seed: u64, force: bool },
    Validate { id: Seq<char>, root: Seq<char> },
    Inspect { id: Seq<char>, root: Seq<char> },
    List { root: Seq<char> },
}

impl View for Command {
    type V = CommandView;

    open spec fn view(&self) -> CommandView {
        match self {
            Command::Variant { definition, of, index, setup, seed, force } => CommandView::Variant {
                definition: definition@,
                of: of@,
                index: *index,
                setup: setup@,
                seed: *seed,
                force: *force,
            },
            Command::Repair { id, setup } => CommandView::Repair { id: id@, setup: setup@ },
            Command::Batch { manifest, setup, force } => CommandView::Batch {
                manifest: manifest@,
                setup: setup@,
                force: *force,
            },
            Command::Build { plan, setup, force } => CommandView::Build { plan: plan@, setup: setup@, force: *force },
            Command::Index { root } => CommandView::Index { root: root@ },
            Command::Generate { definition, setup, seed, force } => CommandView::Generate {
                definition: definition@,
                setup: setup@,
                seed: *seed,
                force: *force,
            },
            Command::Validate { id, root } => CommandView::Validate { id: id@, root: root@ },
            Command::Inspect { id, root } => CommandView::Inspect { id: id@, root: root@ },
            Command::List { root } => CommandView::List { root: root@ },
        }
    }
}

/// The positional argument a verb needs, or the refusal that names it.
pub open spec fn needed(verb: Seq<char>, f: Flags, what: Seq<char>) -> Result<Seq<char>, ArgErrorView> {
    match f.positional {
        Some(p) => Ok(p),
        None => Err(ArgErrorView::NeedsArgument { verb, what }),
    }
}

/// A material id, or the refusal that quotes it.
pub open spec fn material_id(raw: Seq<char>) -> Result<Seq<char>, ArgErrorView> {
    if valid_identifier(raw) {
        Ok(raw)
    } else {
        Err(ArgErrorView::NotAMaterialId { raw })
    }
}

/// The command a verb and its options make.
pub open spec fn command_for(verb: Seq<char>, f: Flags) -> Result<CommandView, ArgErrorView> {
    let setup = SetupView { root: f.root, recipes: f.recipes, preview: f.preview, backend: f.backend };
    if verb == "variant"@ {
        match needed(verb, f, "a definition file"@) {
            Err(e) => Err(e),
            Ok(definition) => match f.of {
                None => Err(ArgErrorView::VariantNeedsOf),
                Some(of) => match material_id(of) {
                    Err(e) => Err(e),
                    Ok(of) => Ok(CommandView::Variant { definition, of, index: f.index, setup, seed: f.seed, force: f.force }),
                },
            },
        }
    } else if verb == "repair"@ {
        match needed(verb, f, "a material id"@) {
            Err(e) => Err(e),
            Ok(raw) => match material_id(raw) {
                Err(e) => Err(e),
                Ok(id) => Ok(CommandView::Repair { id, setup }),
            },
        }
    } else if verb == "batch"@ {
        match needed(verb, f, "a manifest file"@) {
            Err(e) => Err(e),
            Ok(manifest) => Ok(CommandView::Batch { manifest, setup, force: f.force }),
        }
    } else if verb == "build"@ {
        if f.seed_given {
            Err(ArgErrorView::BuildTakesNoSeed)
        } else {
            match needed(verb, f, "a build plan"@) {
                Err(e) => Err(e),
                Ok(plan) => Ok(CommandView::Build { plan, setup, force: f.force }),
            }
        }
    } else if verb == "index"@ {
        if f.positional is Some {
            Err(ArgErrorView::TakesNoArgument { verb })
        } else {
            Ok(CommandView::Index { root: f.root })
        }
    } else if verb == "generate"@ {
        match needed(verb, f, "a definition file"@) {
            Err(e) => Err(e),
            Ok(definition) => Ok(CommandView::Generate { definition, setup, seed: f.seed, force: f.force }),
        }
    } else if verb == "validate"@ {
        match needed(verb, f, "a material id"@) {
            Err(e) => Err(e),
            Ok(raw) => match material_id(raw) {
                Err(e) => Err(e),
                Ok(id) => Ok(CommandView::Validate { id, root: f.root }),
            },
        }
    } else if verb == "inspect"@ {
        match needed(verb, f, "a material id"@) {
            Err(e) => Err(e),
            Ok(raw) => match material_id(raw) {
                Err(e) => Err(e),
                Ok(id) => Ok(CommandView::Inspect { id, root: f.root }),
            },
        }
    } else if verb == "list"@ {
        if f.positional is Some {
            Err(ArgErrorView::TakesNoArgument { verb })
        } else {
            Ok(CommandView::List { root: f.root })
        }
    } else {
        Err(ArgErrorView::UnknownCommand { verb })
    }
}

/// What a command line asks for: nothing but help when it is empty or asks
/// for help anywhere before a refusal; otherwise the verb with its options,
/// or the first thing wrong with them.
pub open spec fn parse_spec(args: Seq<Seq<char>>) -> Result<Option<CommandView>, ArgErrorView> {
    if args.len() == 0 || args[0] == "--help"@ || args[0] == "-h"@ {
        Ok(None)
    } else {
        match scan(args, 1, initial_flags()) {
            Scan::Help => Ok(None),
            Scan::Failed(e) => Err(e),
            Scan::Done(f) => match command_for(args[0], f) {
                Err(e) => Err(e),
                Ok(c) => Ok(Some(c)),
            },
        }
    }
}

/// The content of an optional text.
pub open spec fn opt_view(o: Option<String>) -> Option<Seq<char>> {
    match o {
        Some(s) => Some(s@),
        None => None,
    }
}

/// Parse a material id, or refuse it, quoting it.
fn material_identifier(raw: &str) -> (r: Result<Identifier, ArgError>)
    ensures
        match material_id(raw@) {
            Ok(id) => r matches Ok(i) && i@ == id,
            Err(e) => r matches Err(err) && err@ == e,
        },
{
    match Identifier::parse(raw) {
        Ok(id) => Ok(id),
        Err(_) => Err(ArgError::NotAMaterialId { raw: raw.to_owned() }),
    }
}

/// The positional argument, or the refusal that names what the verb needs.
fn needed_arg(verb: &str, positional: &Option<String>, what: &str) -> (r: Result<String, ArgError>)
    ensures
        match positional {
            Some(p) => r matches Ok(s) && s@ == p@,
            None => r matches Err(err) && err@ == (ArgErrorView::NeedsArgument { verb: verb@, what: what@ }),
        },
{
    match positional {
        Some(p) => Ok(p.clone()),
        None => Err(ArgError::NeedsArgument { verb: verb.to_owned(), what: what.to_owned() }),
    }
}

/// Read the forge's command line: the arguments after the program's name.
///
/// Gives nothing when the line is empty or asks for help, so the caller
/// prints the usage; otherwise the command, or the first mistake in the
/// line.
pub fn parse_args(args: &[String]) -> (r: Result<Option<Command>, ArgError>)
    ensures
        match parse_spec(args@.map_values(|s: String| s@)) {
            Ok(None) => r matches Ok(None),
            Ok(Some(c)) => r matches Ok(Some(cmd)) && cmd@ == c,
            Err(e) => r matches Err(err) && err@ == e,
        },
{
    let ghost names = args@.map_values(|s: String| s@);
    let n = args.len();
    if n == 0 {
        return Ok(None);
    }
    let verb = args[0].as_str();
    assert(names[0] == verb@);
    if same_text(verb, "--help") || same_text(verb, "-h") {
        return Ok(None);
    }
    let mut positional: Option<String> = None;
    let mut root: String = DEFAULT_ROOT.to_owned();
    let mut seed: u64 = 0;
    let mut seed_given = false;
    let mut recipes: String = DEFAULT_RECIPES.to_owned();
    let mut force = false;
    let mut of: Option<String> = None;
    let mut index: u32 = 1;
    let mut preview = true;
    let mut backend = Backend::Procedural;
    let mut pos: usize = 1;
    assert(parse_spec(names) == match scan(names, 1, initial_flags()) {
        Scan::Help => Ok(None),
        Scan::Failed(e) => Err(e),
        Scan::Done(f) => match command_for(names[0], f) {
            Err(e) => Err(e),
            Ok(c) => Ok(Some(c)),
        },
    });
    while pos < n
        invariant
            parse_spec(names) == match scan(names, 1, initial_flags()) {
                Scan::Help => Ok(None),
                Scan::Failed(e) => Err(e),
                Scan::Done(f) => match command_for(names[0], f) {
                    Err(e) => Err(e),
                    Ok(c) => Ok(Some(c)),
                },
            },
            n == args@.len(),
            names == args@.map_values(|s: String| s@),
            names[0] == verb@,
            1 <= pos <= n,
            scan(names, 1, initial_flags()) == scan(
                names,
                pos as int,
                Flags {
                    positional: opt_view(positional),
                    root: root@,
                    seed,
                    seed_given,
                    recipes: recipes@,
                    force,
                    of: opt_view(of),
                    index,
                    preview,
                    backend,
                },
            ),
        decreases n - pos,
    {
        let a = args[pos].as_str();
        proof {
            assert(names[pos as int] == a@);
            if pos + 1 < n {
                assert(names[pos + 1] == args@[pos + 1]@);
            }
        }
        let has_next = pos + 1 < n;
        if same_text(a, "--help") || same_text(a, "-h") {
            return Ok(None);
        } else if same_text(a, "--out") {
            if !has_next {
                return Err(ArgError::NeedsValue { option: "--out".to_owned(), what: "a path".to_owned() });
            }
            root = args[pos + 1].as_str().to_owned();
            pos = pos + 2;
        } else if same_text(a, "--seed") {
            if !has_next {
                return Err(ArgError::NeedsValue { option: "--seed".to_owned(), what: "a value".to_owned() });
            }
            let raw = args[pos + 1].as_str();
            match parse_seed(raw) {
                Ok(v) => {
                    seed = v;
                    seed_given = true;
                },
                Err(_) => {
                    return Err(ArgError::NotASeed { raw: raw.to_owned() });
                },
            }
            pos = pos + 2;
        } else if same_text(a, "--recipes") {
            if !has_next {
                return Err(ArgError::NeedsValue { option: "--recipes".to_owned(), what: "a path".to_owned() });
            }
            recipes = args[pos + 1].as_str().to_owned();
            pos = pos + 2;
        } else if same_text(a, "--force") {
            force = true;
            pos = pos + 1;
        } else if same_text(a, "--no-preview") {
            preview = false;
            pos = pos + 1;
        } else if same_text(a, "--backend") {
            if !has_next {
                return Err(ArgError::NeedsValue { option: "--backend".to_owned(), what: "a name".to_owned() });
            }
            let raw = args[pos + 1].as_str();
            match Backend::parse(raw) {
                Some(b) => {
                    backend = b;
                },
                None => {
                    return Err(ArgError::NotABackend { raw: raw.to_owned() });
                },
            }
            pos = pos + 2;
        } else if same_text(a, "--of") {
            if !has_next {
                return Err(ArgError::NeedsValue { option: "--of".to_owned(), what: "a material id".to_owned() });
            }
            of = Some(args[pos + 1].as_str().to_owned());
            pos = pos + 2;
        } else if same_text(a, "--index") {
            if !has_next {
                return Err(ArgError::NeedsValue { option: "--index".to_owned(), what: "a number".to_owned() });
            }
            let raw = args[pos + 1].as_str();
            proof {
                assert(raw@.skip(0) =~= raw@);
            }
            match parse_radix(raw, 0, 10) {
                Some(v) => {
                    if v > 4294967295u64 {
                        return Err(ArgError::NotAnIndex { raw: raw.to_owned() });
                    }
                    index = v as u32;
                },
                None => {
                    return Err(ArgError::NotAnIndex { raw: raw.to_owned() });
                },
            }
            pos = pos + 2;
        } else if a.unicode_len() > 0 && a.get_char(0) == '-' {
            return Err(ArgError::UnknownOption { option: a.to_owned() });
        } else if positional.is_some() {
            return Err(ArgError::OneArgument { verb: verb.to_owned() });
        } else {
            positional = Some(a.to_owned());
            pos = pos + 1;
        }
    }
    let ghost f = Flags {
        positional: opt_view(positional),
        root: root@,
        seed,
        seed_given,
        recipes: recipes@,
        force,
        of: opt_view(of),
        index,
        preview,
        backend,
    };
    assert(parse_spec(names) == match command_for(verb@, f) {
        Err(e) => Err(e),
        Ok(c) => Ok(Some(c)),
    });
    let setup = Setup { root: root.clone(), recipes: recipes.clone(), preview, backend };
    let command = if same_text(verb, "variant") {
        let definition = match needed_arg(verb, &positional, "a definition file") {
            Ok(p) => p,
            Err(e) => {
                return Err(e);
            },
        };
        let raw = match &of {
            Some(o) => o.as_str(),
            None => {
                return Err(ArgError::VariantNeedsOf);
            },
        };
        let id = match material_identifier(raw) {
            Ok(id) => id,
            Err(e) => {
                return Err(e);
            },
        };
        Command::Variant { definition, of: id, index, setup, seed, force }
    } else if same_text(verb, "repair") {
        let raw = match needed_arg(verb, &positional, "a material id") {
            Ok(p) => p,
            Err(e) => {
                return Err(e);
            },
        };
        let id = match material_identifier(raw.as_str()) {
            Ok(id) => id,
            Err(e) => {
                return Err(e);
            },
        };
        Command::Repair { id, setup }
    } else if same_text(verb, "batch") {
        let manifest = match needed_arg(verb, &positional, "a manifest file") {
            Ok(p) => p,
            Err(e) => {
                return Err(e);
            },
        };
        Command::Batch { manifest, setup, force }
    } else if same_text(verb, "build") {
        if seed_given {
            return Err(ArgError::BuildTakesNoSeed);
        }
        let plan = match needed_arg(verb, &positional, "a build plan") {
            Ok(p) => p,
            Err(e) => {
                return Err(e);
            },
        };
        Command::Build { plan, setup, force }
    } else if same_text(verb, "index") {
        if positional.is_some() {
            return Err(ArgError::TakesNoArgument { verb: verb.to_owned() });
        }
        Command::Index { root }
    } else if same_text(verb, "generate") {
        let definition = match needed_arg(verb, &positional, "a definition file") {
            Ok(p) => p,
            Err(e) => {
                return Err(e);
            },
        };
        Command::Generate { definition, setup, seed, force }
    } else if same_text(verb, "validate") {
        let raw = match needed_arg(verb, &positional, "a material id") {
            Ok(p) => p,
            Err(e) => {
                return Err(e);
            },
        };
        let id = match material_identifier(raw.as_str()) {
            Ok(id) => id,
            Err(e) => {
                return Err(e);
            },
        };
        Command::Validate { id, root }
    } else if same_text(verb, "inspect") {
        let raw = match needed_arg(verb, &positional, "a material id") {
            Ok(p) => p,
            Err(e) => {
                return Err(e);
            },
        };
        let id = match material_identifier(raw.as_str()) {
            Ok(id) => id,
            Err(e) => {
                return Err(e);
            },
        };
        Command::Inspect { id, root }
    } else if same_text(verb, "list") {
        if positional.is_some() {
            return Err(ArgError::TakesNoArgument { verb: verb.to_owned() });
        }
        Command::List { root }
    } else {
        return Err(ArgError::UnknownCommand { verb: verb.to_owned() });
    };
    Ok(Some(command))
}

/// The forge's usage text.
pub const USAGE: &'static str = "usage: nexora-texture-forge <command> [options]\n\
    \n\
    commands:\n\
    \x20 generate <definition.json>   realise a material and write it\n\
    \x20 batch    <manifest>          realise every material a manifest declares\n\
    \x20 build    <plan.json>         realise the definitions a build plan lists,\n\
    \x20                              under its policy, then index\n\
    \x20 index                        write resources.json for the runtime\n\
    \x20 variant  <definition.json>   another material like one already written\n\
    \x20 repair   <material-id>       restore maps that are lost or corrupt\n\
    \x20 validate <material-id>       check what is on disk for a material\n\
    \x20 inspect  <material-id>       print a material's definition and origin\n\
    \x20 list                         every material written under the root\n\
    \n\
    options:\n\
    \x20 --out <dir>     where materials live (default: assets/materials)\n\
    \x20 --recipes <dir> where named recipes live (default: content/recipes)\n\
    \x20 --seed <value>  generation seed, decimal or 0x-prefixed (default: 0;\n\
    \x20                 `batch` takes the manifest's seed instead, and\n\
    \x20                 `build` refuses it: the plan owns its seeds)\n\
    \x20 --force         replace a material that is already written\n\
    \x20 --of <material-id>  the material a variant is varied from (required)\n\
    \x20 --index <n>     which variant, counted from one (default: 1)\n\
    \x20 --no-preview    skip the lit preview image\n\
    \x20 --backend <name>  procedural | ai | hybrid (default: procedural;\n\
    \x20                   ai and hybrid have no generator installed)\n\
    \x20 --help          show this message\n\
    \n\
    exit codes:\n\
    \x20 0  the command succeeded\n\
    \x20 1  the command ran and the answer was no\n\
    \x20 2  the command line was wrong";

/// The forge's usage text, to print with a refused command line or when
/// help is asked for.
pub fn usage() -> (r: String)
    ensures
        r@ == USAGE@,
{
    USAGE.to_owned()
}

} // verus!
