//! Namespaced identifiers, such as `nexora:block/stone`.
//!
//! An identifier is a namespace and a path joined by one colon. The namespace
//! is lower-case letters, digits, `_`, `.` and `-`; the path may also hold
//! `/`. Both halves are non-empty. Content is addressed by identifier because
//! runtime ids are session-local: a save that stored runtime ids would break
//! the moment a registry was rebuilt in another order.

use vstd::prelude::*;
use vstd::string::*;

verus! {

/// A character allowed in a namespace.
pub open spec fn namespace_char(c: char) -> bool {
    ('a' <= c && c <= 'z') || ('0' <= c && c <= '9') || c == '_' || c == '.' || c == '-'
}

/// A character allowed in a path.
pub open spec fn path_char(c: char) -> bool {
    namespace_char(c) || c == '/'
}

/// `s` is `namespace:path` with the colon at `k`.
pub open spec fn split_at_colon(s: Seq<char>, k: int) -> bool {
    &&& 0 < k
    &&& k + 1 < s.len()
    &&& s[k] == ':'
    &&& forall|i: int| 0 <= i < k ==> #[trigger] namespace_char(s[i])
    &&& forall|i: int| k < i < s.len() ==> #[trigger] path_char(s[i])
}

/// The text of a well-formed identifier.
pub open spec fn valid_identifier(s: Seq<char>) -> bool {
    exists|k: int| split_at_colon(s, k)
}

/// Every character of `s[from..to]` is from the namespace alphabet, or from
/// the path alphabet when `slash` is set.
pub open spec fn chars_all(s: Seq<char>, from: int, to: int, slash: bool) -> bool
    decreases to - from,
{
    if from >= to {
        true
    } else {
        (if slash {
            path_char(s[from])
        } else {
            namespace_char(s[from])
        }) && chars_all(s, from + 1, to, slash)
    }
}

/// The recursive character check covers every character of its range.
pub proof fn lemma_chars_all(s: Seq<char>, from: int, to: int, slash: bool)
    requires
        chars_all(s, from, to, slash),
    ensures
        forall|i: int|
            from <= i < to ==> (if slash {
                path_char(s[i])
            } else {
                namespace_char(s[i])
            }),
    decreases to - from,
{
    if from < to {
        lemma_chars_all(s, from + 1, to, slash);
    }
}

/// A text whose halves check out character by character is an identifier.
pub proof fn lemma_valid_by_parts(s: Seq<char>, k: int)
    requires
        0 < k,
        k + 1 < s.len(),
        s[k] == ':',
        chars_all(s, 0, k, false),
        chars_all(s, k + 1, s.len() as int, true),
    ensures
        valid_identifier(s),
{
    lemma_chars_all(s, 0, k, false);
    lemma_chars_all(s, k + 1, s.len() as int, true);
    assert(split_at_colon(s, k));
}

/// Where the colon of identifier text stands.
pub open spec fn colon_index(s: Seq<char>) -> int {
    choose|k: int| split_at_colon(s, k)
}

/// The namespace of identifier text: what stands before the colon.
pub open spec fn namespace_of(s: Seq<char>) -> Seq<char> {
    s.take(colon_index(s))
}

/// The path of identifier text: what stands after the colon.
pub open spec fn path_of(s: Seq<char>) -> Seq<char> {
    s.skip(colon_index(s) + 1)
}

/// Neither half of an identifier holds a colon, so the colon that splits it
/// is the only one.
pub proof fn lemma_colon_unique(s: Seq<char>, k: int)
    requires
        split_at_colon(s, k),
    ensures
        colon_index(s) == k,
{
    let c = colon_index(s);
    assert(split_at_colon(s, c));
    if c < k {
        assert(namespace_char(s[c]));
    } else if c > k {
        assert(namespace_char(s[k]));
    }
}

/// Identifier text is ASCII, so its UTF-8 encoding has one byte per
/// character.
pub proof fn lemma_identifier_ascii(s: Seq<char>)
    requires
        valid_identifier(s),
    ensures
        vstd::utf8::is_ascii_chars(s),
        vstd::utf8::encode_utf8(s).len() == s.len(),
{
    let k = choose|k: int| split_at_colon(s, k);
    assert forall|i: int| 0 <= i < s.len() implies '\0' <= #[trigger] s[i] <= '\u{7f}' by {
        if i < k {
            assert(namespace_char(s[i]));
        } else if i > k {
            assert(path_char(s[i]));
        }
    }
    vstd::utf8::is_ascii_chars_encode_utf8(s);
}

/// Why a string is not an identifier.
#[derive(Debug, Clone, Copy, PartialEq, Eq, Structural)]
pub enum IdentError {
    /// The text is not `namespace:path` with both halves non-empty and every
    /// character from its half's alphabet.
    Malformed,
}

/// A validated namespaced identifier.
#[derive(Debug, PartialEq, Eq, Hash)]
pub struct Identifier {
    text: String,
}

impl View for Identifier {
    type V = Seq<char>;

    closed spec fn view(&self) -> Seq<char> {
        self.text@
    }
}

/// The byte of an ASCII character is the character.
pub(crate) proof fn lemma_ascii_byte(c: char, b: u8)
    requires
        c as nat <= 0x7f,
        c as u8 == b,
    ensures
        b as int == c as int,
{
}

/// Whether one byte of ASCII text is allowed in a namespace.
fn namespace_byte(b: u8) -> (r: bool)
    ensures
        r == namespace_char(b as char),
{
    // a-z, 0-9, '_', '.', '-'
    (97 <= b && b <= 122) || (48 <= b && b <= 57) || b == 95 || b == 46 || b == 45
}

impl Identifier {
    /// Every identifier's text is well formed.
    #[verifier::type_invariant]
    spec fn well_formed(&self) -> bool {
        valid_identifier(self.text@)
    }

    /// Parse `namespace:path`.
    pub fn parse(raw: &str) -> (r: Result<Identifier, IdentError>)
        ensures
            r is Ok <==> valid_identifier(raw@),
            r matches Ok(id) ==> id@ == raw@,
            r matches Err(e) ==> e == IdentError::Malformed,
    {
        broadcast use vstd::string::group_string_axioms;
        if !raw.is_ascii() {
            proof {
                if valid_identifier(raw@) {
                    let k = choose|k: int| split_at_colon(raw@, k);
                    assert forall|i: int| 0 <= i < raw@.len() implies '\0' <= #[trigger] raw@[i]
                        <= '\u{7f}' by {
                        if i < k {
                            assert(namespace_char(raw@[i]));
                        } else if i > k {
                            assert(path_char(raw@[i]));
                        }
                    }
                }
            }
            return Err(IdentError::Malformed);
        }
        let n = raw.unicode_len();
        let mut colon: usize = n;
        let mut i: usize = 0;
        // Find the first colon; everything before it must be namespace text.
        while i < n && colon == n
            invariant
                raw.is_ascii(),
                n == raw@.len(),
                i <= n,
                colon == n || (colon == i && i < n && raw@[i as int] == ':'),
                forall|j: int| 0 <= j < i ==> #[trigger] namespace_char(raw@[j]),
            decreases n - i + if colon == n { 1int } else { 0int },
        {
            let b = raw.get_ascii(i);
            proof {
                lemma_ascii_byte(raw@[i as int], b);
            }
            if b == 58 {
                colon = i;
            } else if !namespace_byte(b) {
                proof {
                    assert forall|k: int| !split_at_colon(raw@, k) by {
                        if split_at_colon(raw@, k) {
                            if k < i {
                                assert(namespace_char(raw@[k]));
                            } else if k > i {
                                assert(namespace_char(raw@[i as int]));
                            }
                        }
                    }
                }
                return Err(IdentError::Malformed);
            } else {
                i += 1;
            }
        }
        if colon == n || colon == 0 || colon + 1 >= n {
            proof {
                assert forall|k: int| !split_at_colon(raw@, k) by {
                    if split_at_colon(raw@, k) {
                        if colon == n {
                            assert(namespace_char(raw@[k]));
                        } else if k < colon {
                            assert(namespace_char(raw@[k]));
                        } else if k > colon {
                            assert(namespace_char(raw@[colon as int]));
                        }
                    }
                }
            }
            return Err(IdentError::Malformed);
        }
        let mut j: usize = colon + 1;
        while j < n
            invariant
                raw.is_ascii(),
                n == raw@.len(),
                0 < colon,
                colon + 1 < n,
                colon < j <= n,
                raw@[colon as int] == ':',
                forall|x: int| 0 <= x < colon ==> #[trigger] namespace_char(raw@[x]),
                forall|x: int| colon < x < j ==> #[trigger] path_char(raw@[x]),
            decreases n - j,
        {
            let b = raw.get_ascii(j);
            proof {
                lemma_ascii_byte(raw@[j as int], b);
            }
            if !(namespace_byte(b) || b == 47) {
                proof {
                    assert forall|k: int| !split_at_colon(raw@, k) by {
                        if split_at_colon(raw@, k) {
                            if k < colon {
                                assert(namespace_char(raw@[k]));
                            } else if k > colon {
                                assert(namespace_char(raw@[colon as int]));
                            } else {
                                assert(path_char(raw@[j as int]));
                            }
                        }
                    }
                }
                return Err(IdentError::Malformed);
            }
            j += 1;
        }
        proof {
            assert(split_at_colon(raw@, colon as int));
        }
        Ok(Identifier { text: raw.to_owned() })
    }

    /// The identifier's text.
    pub fn as_str(&self) -> (r: &str)
        ensures
            r@ == self@,
            valid_identifier(r@),
    {
        proof {
            use_type_invariant(self);
        }
        self.text.as_str()
    }

    /// Where the colon stands in this identifier's text.
    fn colon(&self) -> (k: usize)
        ensures
            k == colon_index(self@),
            split_at_colon(self@, k as int),
    {
        proof {
            use_type_invariant(self);
            lemma_identifier_ascii(self@);
        }
        let s = self.text.as_str();
        let n = s.unicode_len();
        let mut i: usize = 0;
        while i < n
            invariant
                s@ == self@,
                n == s@.len(),
                valid_identifier(s@),
                vstd::utf8::is_ascii_chars(s@),
                i <= n,
                forall|j: int| 0 <= j < i ==> s@[j] != ':',
            decreases n - i,
        {
            let b = s.get_ascii(i);
            proof {
                lemma_ascii_byte(s@[i as int], b);
            }
            if b == 58 {
                proof {
                    let k = choose|k: int| split_at_colon(s@, k);
                    if k < i {
                        assert(s@[k] != ':');
                    } else if k > i {
                        assert(namespace_char(s@[i as int]));
                    }
                    lemma_colon_unique(s@, i as int);
                }
                return i;
            }
            i += 1;
        }
        proof {
            let k = choose|k: int| split_at_colon(s@, k);
            assert(s@[k] == ':');
        }
        0
    }

    /// The namespace: the text before the colon.
    pub fn namespace(&self) -> (r: &str)
        ensures
            r@ == namespace_of(self@),
            vstd::utf8::is_ascii_chars(r@),
    {
        let k = self.colon();
        proof {
            use_type_invariant(self);
            lemma_identifier_ascii(self@);
        }
        let r = self.text.as_str().substring_ascii(0, k);
        proof {
            assert(r@ =~= namespace_of(self@));
        }
        r
    }

    /// The path: the text after the colon.
    pub fn path(&self) -> (r: &str)
        ensures
            r@ == path_of(self@),
            vstd::utf8::is_ascii_chars(r@),
    {
        let k = self.colon();
        proof {
            use_type_invariant(self);
            lemma_identifier_ascii(self@);
        }
        let s = self.text.as_str();
        let n = s.unicode_len();
        let r = s.substring_ascii(k + 1, n);
        proof {
            assert(r@ =~= path_of(self@));
        }
        r
    }

    /// Whether two identifiers name the same thing.
    pub fn same(&self, other: &Identifier) -> (r: bool)
        ensures
            r == (self@ == other@),
    {
        self.text == other.text
    }

    /// A copy of this identifier.
    pub fn duplicate(&self) -> (r: Identifier)
        ensures
            r@ == self@,
    {
        proof {
            use_type_invariant(self);
        }
        Identifier { text: self.text.clone() }
    }
}

} // verus!
