//! Where a material's files go on disk.
//!
//! The file name is a consequence of the identifier, never the other way
//! round: this module derives paths and never accepts them, and the
//! derivation is the only one in the project.
//!
//! ```text
//! <root>/<namespace>/<material path>/material.json
//!                                   /albedo.png
//!                                   /normal.png
//!                                   /…
//!                                   /preview.png
//! ```
//!
//! A mod owns its namespace, so each namespace is a directory of its own:
//! two mods that both call something `stone` cannot collide on disk any more
//! than they can collide in the registry.
//!
//! Paths are text here. Joining follows the rule a Unix path buffer follows
//! when a part is pushed onto it: a separator goes between the two unless
//! the path so far is empty or already ends in one, and a part that starts
//! at the root replaces what was there.

use vstd::prelude::*;
use vstd::string::*;

use crate::error::{Recovery, join};
use crate::ident::{
    Identifier, colon_index, lemma_colon_unique, namespace_char, namespace_of, path_of,
    split_at_colon, valid_identifier,
};

verus! {

/// The file a material's definition is written to.
pub const DEFINITION_FILE: &'static str = "material.json";

/// The file a material's preview is written to.
pub const PREVIEW_FILE: &'static str = "preview.png";

/// The path prefix every material identifier carries, which the directory
/// layout leaves out.
pub const MATERIAL_PATH_PREFIX: &'static str = "material/";

/// The path prefix every recipe identifier carries, which the directory
/// layout leaves out.
pub const RECIPE_PATH_PREFIX: &'static str = "recipe/";

/// `s` with `prefix` taken off its front, or `s` itself where it does not
/// start with `prefix`.
pub open spec fn strip_or_keep(s: Seq<char>, prefix: Seq<char>) -> Seq<char> {
    if prefix.is_prefix_of(s) {
        s.skip(prefix.len() as int)
    } else {
        s
    }
}

/// `cur` with the part `seg` pushed onto it.
pub open spec fn push_segment(cur: Seq<char>, seg: Seq<char>) -> Seq<char> {
    if seg.len() > 0 && seg[0] == '/' {
        seg
    } else if cur.len() > 0 && cur.last() != '/' {
        cur + seq!['/'] + seg
    } else {
        cur + seg
    }
}

/// The pieces of `s` between its slashes, in order; there is always at
/// least one, and two slashes side by side have an empty piece between
/// them.
pub open spec fn split_slash(s: Seq<char>) -> Seq<Seq<char>>
    decreases s.len(),
{
    if s.len() == 0 {
        seq![Seq::empty()]
    } else {
        let front = split_slash(s.drop_last());
        if s.last() == '/' {
            front.push(Seq::empty())
        } else {
            front.update(front.len() - 1, front.last().push(s.last()))
        }
    }
}

/// `cur` with each of `segs` pushed onto it in turn.
pub open spec fn push_segments(cur: Seq<char>, segs: Seq<Seq<char>>) -> Seq<char>
    decreases segs.len(),
{
    if segs.len() == 0 {
        cur
    } else {
        push_segment(push_segments(cur, segs.drop_last()), segs.last())
    }
}

/// The views of a list of strings.
pub open spec fn views(v: Seq<&str>) -> Seq<Seq<char>> {
    v.map_values(|s: &str| s@)
}

/// The directory of the material `id` under `root`: the namespace, then each
/// piece of the path past the material prefix.
pub open spec fn material_dir_spec(root: Seq<char>, id: Seq<char>) -> Seq<char> {
    push_segments(
        push_segment(root, namespace_of(id)),
        split_slash(strip_or_keep(path_of(id), MATERIAL_PATH_PREFIX@)),
    )
}

/// A piece of a path that a filesystem reads as a direction rather than a
/// name: `.` or `..`; where `empty_too` is set, the empty piece as well.
pub open spec fn unusable_segment(seg: Seq<char>, empty_too: bool) -> bool {
    ||| seg =~= seq!['.']
    ||| seg =~= seq!['.', '.']
    ||| (empty_too && seg.len() == 0)
}

/// The position of the first of `segs` that cannot name a directory.
pub open spec fn first_unusable(segs: Seq<Seq<char>>, empty_too: bool) -> Option<int>
    decreases segs.len(),
{
    if segs.len() == 0 {
        None
    } else {
        match first_unusable(segs.drop_last(), empty_too) {
            Some(k) => Some(k),
            None => if unusable_segment(segs.last(), empty_too) {
                Some(segs.len() - 1)
            } else {
                None
            },
        }
    }
}

/// The first unusable position found is unusable, and none before it is.
pub proof fn lemma_first_unusable(segs: Seq<Seq<char>>, empty_too: bool)
    ensures
        first_unusable(segs, empty_too) matches Some(k) ==> {
            &&& 0 <= k < segs.len()
            &&& unusable_segment(segs[k], empty_too)
            &&& forall|j: int| 0 <= j < k ==> !unusable_segment(#[trigger] segs[j], empty_too)
        },
        first_unusable(segs, empty_too) is None ==> forall|j: int|
            0 <= j < segs.len() ==> !unusable_segment(#[trigger] segs[j], empty_too),
    decreases segs.len(),
{
    if segs.len() > 0 {
        let front = segs.drop_last();
        lemma_first_unusable(front, empty_too);
        assert forall|j: int| 0 <= j < front.len() implies front[j] == segs[j] by {}
    }
}

/// The pieces of a path always number at least one.
pub proof fn lemma_split_nonempty(s: Seq<char>)
    ensures
        split_slash(s).len() >= 1,
    decreases s.len(),
{
    if s.len() > 0 {
        lemma_split_nonempty(s.drop_last());
    }
}

/// Why an identifier cannot name a place on disk.
#[derive(Debug, Clone, PartialEq, Eq)]
pub enum NamingError {
    /// Nothing is left of the path once its prefix is taken off.
    NoPath,
    /// A piece of the path would mean something to the filesystem.
    Reserved { segment: String },
}

impl NamingError {
    /// Such a name is refused; asking again will not change it.
    pub fn recovery(&self) -> (r: Recovery)
        ensures
            r == Recovery::Reject,
    {
        Recovery::Reject
    }

    /// What went wrong, in words; a refused piece is quoted.
    pub fn message(&self) -> (r: String)
        ensures
            self matches NamingError::Reserved { segment } ==> exists|pre: Seq<char>, post: Seq<
                char,
            >| r@ == pre + segment@ + post,
    {
        match self {
            NamingError::NoPath => "an identifier needs a path beyond its prefix".to_owned(),
            NamingError::Reserved { segment } => {
                let head = join(
                    "a path segment means something to the filesystem: `",
                    segment.as_str(),
                );
                let r = join(head.as_str(), "`");
                proof {
                    let pre = "a path segment means something to the filesystem: `"@;
                    assert(r@ == pre + segment@ + "`"@);
                }
                r
            },
        }
    }
}

/// Push one part onto a path.
pub(crate) fn push_part(cur: String, part: &str) -> (r: String)
    ensures
        r@ == push_segment(cur@, part@),
{
    proof {
        reveal_strlit("/");
    }
    let p = part.unicode_len();
    if p > 0 && part.get_char(0) == '/' {
        return part.to_owned();
    }
    let n = cur.as_str().unicode_len();
    if n > 0 && cur.as_str().get_char(n - 1) != '/' {
        let with_sep = join(cur.as_str(), "/");
        let r = join(with_sep.as_str(), part);
        proof {
            assert(r@ =~= cur@ + seq!['/'] + part@);
        }
        r
    } else {
        join(cur.as_str(), part)
    }
}

/// Each piece of `text` between its slashes, in order.
pub fn split_segments<'a>(text: &'a str) -> (r: Vec<&'a str>)
    ensures
        views(r@) == split_slash(text@),
{
    let n = text.unicode_len();
    let mut r: Vec<&'a str> = Vec::new();
    let mut start: usize = 0;
    let mut i: usize = 0;
    proof {
        assert(text@.take(0) =~= Seq::<char>::empty());
        assert(views(r@).push(text@.subrange(0, 0)) =~= seq![Seq::<char>::empty()]);
    }
    while i < n
        invariant
            n == text@.len(),
            start <= i <= n,
            split_slash(text@.take(i as int)) == views(r@).push(
                text@.subrange(start as int, i as int),
            ),
        decreases n - i,
    {
        let c = text.get_char(i);
        let ghost before = text@.take(i as int);
        let ghost after = text@.take(i + 1);
        proof {
            assert(after.drop_last() =~= before);
            assert(after.last() == c);
        }
        if c == '/' {
            let seg = text.substring_char(start, i);
            let ghost old_views = views(r@);
            r.push(seg);
            proof {
                assert(views(r@) =~= old_views.push(seg@));
                assert(text@.subrange((i + 1) as int, (i + 1) as int) =~= Seq::<char>::empty());
            }
            start = i + 1;
        } else {
            proof {
                let front = views(r@).push(text@.subrange(start as int, i as int));
                assert(text@.subrange(start as int, i as int).push(c) =~= text@.subrange(
                    start as int,
                    i + 1,
                ));
                assert(front.update(front.len() - 1, front.last().push(c)) =~= views(r@).push(
                    text@.subrange(start as int, i + 1),
                ));
            }
        }
        i += 1;
    }
    let last = text.substring_char(start, n);
    let ghost old_views = views(r@);
    r.push(last);
    proof {
        assert(views(r@) =~= old_views.push(last@));
        assert(text@.take(n as int) =~= text@);
    }
    r
}

/// `base` with the first `count` of `segs` pushed onto it in turn.
pub(crate) fn push_all(base: String, segs: &Vec<&str>, count: usize) -> (r: String)
    requires
        count <= segs.len(),
    ensures
        r@ == push_segments(base@, views(segs@).take(count as int)),
{
    let mut out = base;
    let mut i: usize = 0;
    while i < count
        invariant
            count <= segs.len(),
            i <= count,
            out@ == push_segments(base@, views(segs@).take(i as int)),
        decreases count - i,
    {
        let ghost before = views(segs@).take(i as int);
        out = push_part(out, segs[i]);
        proof {
            let after = views(segs@).take(i + 1);
            assert(after.drop_last() =~= before);
        }
        i += 1;
    }
    out
}

/// `s` with `prefix` taken off its front, or `s` itself where it does not
/// start with `prefix`.
pub(crate) fn strip_prefix_or_keep<'a>(s: &'a str, prefix: &str) -> (r: &'a str)
    ensures
        r@ == strip_or_keep(s@, prefix@),
{
    let n = s.unicode_len();
    let m = prefix.unicode_len();
    if m > n {
        return s;
    }
    let mut i: usize = 0;
    while i < m
        invariant
            n == s@.len(),
            m == prefix@.len(),
            m <= n,
            i <= m,
            forall|j: int| 0 <= j < i ==> s@[j] == prefix@[j],
        decreases m - i,
    {
        if s.get_char(i) != prefix.get_char(i) {
            proof {
                if prefix@.is_prefix_of(s@) {
                    assert(s@.subrange(0, m as int)[i as int] == s@[i as int]);
                }
            }
            return s;
        }
        i += 1;
    }
    proof {
        assert(prefix@ =~= s@.subrange(0, m as int));
    }
    let r = s.substring_char(m, n);
    proof {
        assert(r@ =~= s@.skip(m as int));
    }
    r
}

/// Where one material's files live, under `root`.
pub fn material_dir(root: &str, id: &Identifier) -> (r: String)
    ensures
        r@ == material_dir_spec(root@, id@),
{
    let base = push_part(root.to_owned(), id.namespace());
    let stem = strip_prefix_or_keep(id.path(), MATERIAL_PATH_PREFIX);
    let segs = split_segments(stem);
    let r = push_all(base, &segs, segs.len());
    proof {
        assert(views(segs@).take(segs.len() as int) =~= views(segs@));
    }
    r
}

/// The file one of a material's maps is written to: the map role's name
/// with `.png` after it, in the material's directory.
pub fn map_file(root: &str, id: &Identifier, role: &str) -> (r: String)
    ensures
        r@ == push_segment(material_dir_spec(root@, id@), role@ + ".png"@),
{
    let dir = material_dir(root, id);
    let name = join(role, ".png");
    push_part(dir, name.as_str())
}

/// The file a material's definition is written to.
pub fn definition_file(root: &str, id: &Identifier) -> (r: String)
    ensures
        r@ == push_segment(material_dir_spec(root@, id@), DEFINITION_FILE@),
{
    push_part(material_dir(root, id), DEFINITION_FILE)
}

/// The file a material's preview is written to.
pub fn preview_file(root: &str, id: &Identifier) -> (r: String)
    ensures
        r@ == push_segment(material_dir_spec(root@, id@), PREVIEW_FILE@),
{
    push_part(material_dir(root, id), PREVIEW_FILE)
}


/// Whether a piece cannot name a directory.
fn is_unusable(seg: &str, empty_too: bool) -> (r: bool)
    ensures
        r == unusable_segment(seg@, empty_too),
{
    let n = seg.unicode_len();
    if n == 0 {
        return empty_too;
    }
    if n > 2 {
        return false;
    }
    let dots = if n == 1 {
        seg.get_char(0) == '.'
    } else {
        seg.get_char(0) == '.' && seg.get_char(1) == '.'
    };
    proof {
        if n == 1 && seg@[0] == '.' {
            assert(seg@ =~= seq!['.']);
        }
        if n == 2 && seg@[0] == '.' && seg@[1] == '.' {
            assert(seg@ =~= seq!['.', '.']);
        }
    }
    dots
}

/// The position of the first piece that cannot name a directory.
pub(crate) fn find_unusable(segs: &Vec<&str>, empty_too: bool) -> (r: Option<usize>)
    ensures
        r matches Some(k) ==> first_unusable(views(segs@), empty_too) == Some(k as int),
        r is None ==> first_unusable(views(segs@), empty_too) is None,
{
    let ghost all = views(segs@);
    let mut i: usize = 0;
    while i < segs.len()
        invariant
            all == views(segs@),
            i <= segs.len(),
            forall|j: int| 0 <= j < i ==> !unusable_segment(#[trigger] all[j], empty_too),
        decreases segs.len() - i,
    {
        proof {
            assert(all[i as int] == segs@[i as int]@);
        }
        if is_unusable(segs[i], empty_too) {
            proof {
                assert(all[i as int] == segs@[i as int]@);
                assert(unusable_segment(all[i as int], empty_too));
                lemma_first_unusable(all, empty_too);
                if let Some(k) = first_unusable(all, empty_too) {
                    if k < i {
                        assert(!unusable_segment(all[k], empty_too));
                    } else if k > i {
                        assert(!unusable_segment(all[i as int], empty_too));
                    }
                }
            }
            return Some(i);
        }
        i += 1;
    }
    proof {
        lemma_first_unusable(all, empty_too);
        if let Some(k) = first_unusable(all, empty_too) {
            assert(!unusable_segment(all[k], empty_too));
        }
    }
    None
}

/// Check that a material's identifier yields names a filesystem accepts.
///
/// An identifier's path may hold `.` and `-`, which rules out separators,
/// spaces and case collisions but not a piece that means something to a
/// filesystem. The first such piece is named in the error.
pub fn check_naming(id: &Identifier) -> (r: Result<(), NamingError>)
    ensures
        ({
            let stem = strip_or_keep(path_of(id@), MATERIAL_PATH_PREFIX@);
            let segs = split_slash(stem);
            &&& stem.len() == 0 ==> (r matches Err(NamingError::NoPath))
            &&& stem.len() > 0 ==> match first_unusable(segs, false) {
                Some(k) => (r matches Err(NamingError::Reserved { segment }) && segment@ == segs[k]),
                None => r is Ok,
            }
        }),
{
    let stem = strip_prefix_or_keep(id.path(), MATERIAL_PATH_PREFIX);
    if stem.unicode_len() == 0 {
        return Err(NamingError::NoPath);
    }
    let segs = split_segments(stem);
    let found = find_unusable(&segs, false);
    proof {
        lemma_first_unusable(views(segs@), false);
    }
    match found {
        Some(k) => {
            proof {
                assert(views(segs@)[k as int] == segs@[k as int]@);
            }
            Err(NamingError::Reserved { segment: segs[k].to_owned() })
        },
        None => Ok(()),
    }
}


/// No piece between the slashes of a text holds a slash.
pub proof fn lemma_split_no_slash(s: Seq<char>)
    ensures
        forall|j: int, i: int|
            0 <= j < split_slash(s).len() && 0 <= i < split_slash(s)[j].len() ==> #[trigger] split_slash(
                s,
            )[j][i] != '/',
    decreases s.len(),
{
    if s.len() > 0 {
        let front = split_slash(s.drop_last());
        lemma_split_no_slash(s.drop_last());
        lemma_split_nonempty(s.drop_last());
        if s.last() != '/' {
            let r = split_slash(s);
            assert forall|j: int, i: int|
                0 <= j < r.len() && 0 <= i < r[j].len() implies #[trigger] r[j][i] != '/' by {
                if j < front.len() - 1 {
                    assert(r[j] == front[j]);
                } else {
                    assert(r[j] == front.last().push(s.last()));
                    if i < front.last().len() {
                        assert(front[front.len() - 1][i] != '/');
                    }
                }
            }
        } else {
            let r = split_slash(s);
            assert forall|j: int, i: int|
                0 <= j < r.len() && 0 <= i < r[j].len() implies #[trigger] r[j][i] != '/' by {
                assert(r[j] == front[j]);
            }
        }
    }
}

/// Pushing pieces that hold no slash onto a path that does not end in one
/// keeps the path as a prefix and puts a slash right after it.
pub proof fn lemma_push_segments_prefix(cur: Seq<char>, segs: Seq<Seq<char>>)
    requires
        cur.len() > 0,
        cur.last() != '/',
        segs.len() >= 1,
        forall|j: int, i: int|
            0 <= j < segs.len() && 0 <= i < segs[j].len() ==> #[trigger] segs[j][i] != '/',
    ensures
        push_segments(cur, segs).len() > cur.len(),
        push_segments(cur, segs).take(cur.len() as int) == cur,
        push_segments(cur, segs)[cur.len() as int] == '/',
    decreases segs.len(),
{
    let last = segs.last();
    assert(last.len() > 0 ==> last[0] != '/') by {
        if last.len() > 0 {
            assert(segs[segs.len() - 1][0] != '/');
        }
    }
    let front = segs.drop_last();
    if front.len() == 0 {
        assert(push_segments(cur, front) == cur);
        assert(push_segments(cur, segs) == cur + seq!['/'] + last);
        assert((cur + seq!['/'] + last).take(cur.len() as int) =~= cur);
    } else {
        assert forall|j: int, i: int|
            0 <= j < front.len() && 0 <= i < front[j].len() implies #[trigger] front[j][i] != '/' by {
            assert(front[j] == segs[j]);
        }
        lemma_push_segments_prefix(cur, front);
        let x = push_segments(cur, front);
        let r = push_segments(cur, segs);
        assert(r == push_segment(x, last));
        assert(r.take(x.len() as int) =~= x);
        assert(r.take(cur.len() as int) =~= x.take(cur.len() as int));
        assert(r[cur.len() as int] == x[cur.len() as int]);
    }
}

/// A material directory is the root part, the namespace and then a slash.
proof fn lemma_dir_shape(root: Seq<char>, id: Seq<char>)
    requires
        valid_identifier(id),
    ensures
        ({
            let lead = if root.len() > 0 && root.last() != '/' {
                root + seq!['/']
            } else {
                root
            };
            let ns = namespace_of(id);
            let dir = material_dir_spec(root, id);
            &&& ns.len() > 0
            &&& forall|i: int| 0 <= i < ns.len() ==> #[trigger] namespace_char(ns[i])
            &&& dir.len() > lead.len() + ns.len()
            &&& dir.take((lead.len() + ns.len()) as int) == lead + ns
            &&& dir[(lead.len() + ns.len()) as int] == '/'
        }),
{
    let k = colon_index(id);
    assert(split_at_colon(id, k));
    let ns = namespace_of(id);
    assert forall|i: int| 0 <= i < ns.len() implies #[trigger] namespace_char(ns[i]) by {
        assert(ns[i] == id[i]);
    }
    assert(ns[0] != '/') by {
        assert(namespace_char(ns[0]));
    }
    assert(ns.last() != '/') by {
        assert(namespace_char(ns[ns.len() - 1]));
    }
    let lead = if root.len() > 0 && root.last() != '/' {
        root + seq!['/']
    } else {
        root
    };
    let base = push_segment(root, ns);
    assert(base =~= lead + ns);
    let segs = split_slash(strip_or_keep(path_of(id), MATERIAL_PATH_PREFIX@));
    lemma_split_nonempty(strip_or_keep(path_of(id), MATERIAL_PATH_PREFIX@));
    lemma_split_no_slash(strip_or_keep(path_of(id), MATERIAL_PATH_PREFIX@));
    lemma_push_segments_prefix(base, segs);
}

/// Two namespaces cannot collide on disk: materials of different
/// namespaces get different directories under the same root, whatever
/// their paths.
pub proof fn lemma_namespaces_apart(root: Seq<char>, a: Seq<char>, b: Seq<char>)
    requires
        valid_identifier(a),
        valid_identifier(b),
        namespace_of(a) != namespace_of(b),
    ensures
        material_dir_spec(root, a) != material_dir_spec(root, b),
{
    lemma_dir_shape(root, a);
    lemma_dir_shape(root, b);
    let lead = if root.len() > 0 && root.last() != '/' {
        root + seq!['/']
    } else {
        root
    };
    let na = namespace_of(a);
    let nb = namespace_of(b);
    let da = material_dir_spec(root, a);
    let db = material_dir_spec(root, b);
    if da == db {
        let l = lead.len() as int;
        assert forall|i: int| 0 <= i < na.len() && i < nb.len() implies na[i] == nb[i] by {
            assert(da.take(l + na.len())[l + i] == na[i]);
            assert(db.take(l + nb.len())[l + i] == nb[i]);
        }
        if na.len() == nb.len() {
            assert(na =~= nb);
        } else if na.len() < nb.len() {
            assert(db.take(l + nb.len())[l + na.len()] == nb[na.len() as int]);
            assert(namespace_char(nb[na.len() as int]));
        } else {
            assert(da.take(l + na.len())[l + nb.len()] == na[nb.len() as int]);
            assert(namespace_char(na[nb.len() as int]));
        }
    }
}

/// Where the last `.` of a file name stands.
pub open spec fn last_dot(name: Seq<char>) -> Option<int>
    decreases name.len(),
{
    if name.len() == 0 {
        None
    } else if name.last() == '.' {
        Some(name.len() - 1)
    } else {
        last_dot(name.drop_last())
    }
}

/// The last `.` of a name stands inside it.
pub proof fn lemma_last_dot(name: Seq<char>)
    ensures
        last_dot(name) matches Some(d) ==> 0 <= d < name.len() && name[d] == '.',
    decreases name.len(),
{
    if name.len() > 0 && name.last() != '.' {
        lemma_last_dot(name.drop_last());
    }
}

/// The last `.` of a file name.
pub(crate) fn find_last_dot(name: &str) -> (r: Option<usize>)
    ensures
        match r {
            Some(d) => last_dot(name@) == Some(d as int),
            None => last_dot(name@) is None,
        },
{
    let n = name.unicode_len();
    let mut i: usize = n;
    proof {
        assert(name@.take(n as int) =~= name@);
    }
    while i > 0
        invariant
            n == name@.len(),
            i <= n,
            last_dot(name@) == last_dot(name@.take(i as int)),
        decreases i,
    {
        let ghost here = name@.take(i as int);
        proof {
            assert(here.drop_last() =~= name@.take(i - 1));
        }
        if name.get_char(i - 1) == '.' {
            return Some(i - 1);
        }
        i -= 1;
    }
    proof {
        assert(name@.take(0) =~= Seq::<char>::empty());
    }
    None
}

} // verus!
