//! The save container: named byte sections, stored together as one file.
//!
//! A container is a list of sections, each named by an identifier and each
//! holding opaque bytes. Putting a section under a name that is already
//! present replaces its bytes in place; names never repeat. On disk a
//! container is a mark, a format version, the section count, and each
//! section's name and length-prefixed bytes.

use vstd::prelude::*;
use vstd::utf8::{encode_utf8, valid_utf8};

use crate::codec::{
    CodecError,
    Reader,
    Writer,
    le_bytes_u32,
    lemma_rd_block,
    lemma_rd_string,
    lemma_rd_u32,
    lemma_split,
    rd_block,
    rd_string,
    rd_u32,
    string_bytes,
};
use crate::ident::{IdentError, Identifier, valid_identifier};
use crate::persist::PersistError;

verus! {

/// The first four bytes of every save, read as a little-endian `u32`.
pub const SAVE_MAGIC: u32 = 0x5653_584e;

/// The container layout this build reads and writes.
pub const FORMAT_VERSION: u32 = 1;

/// No name occurs twice.
pub open spec fn names_distinct(v: Seq<(Seq<char>, Seq<u8>)>) -> bool {
    forall|i: int, j: int| 0 <= i < j < v.len() ==> v[i].0 != v[j].0
}

/// Every name is an identifier.
pub open spec fn names_valid(v: Seq<(Seq<char>, Seq<u8>)>) -> bool {
    forall|i: int| 0 <= i < v.len() ==> valid_identifier(#[trigger] v[i].0)
}

/// The bytes stored under `name`, if any.
pub open spec fn section_of(v: Seq<(Seq<char>, Seq<u8>)>, name: Seq<char>) -> Option<Seq<u8>> {
    if exists|i: int| 0 <= i < v.len() && v[i].0 == name {
        Some(v[choose|i: int| 0 <= i < v.len() && v[i].0 == name].1)
    } else {
        None
    }
}

/// The sections after storing `data` under `name`: in place of an existing
/// section of that name, else at the end.
pub open spec fn put_spec(v: Seq<(Seq<char>, Seq<u8>)>, name: Seq<char>, data: Seq<u8>) -> Seq<
    (Seq<char>, Seq<u8>),
> {
    if exists|i: int| 0 <= i < v.len() && v[i].0 == name {
        v.update(choose|i: int| 0 <= i < v.len() && v[i].0 == name, (name, data))
    } else {
        v.push((name, data))
    }
}

/// Sections stored one after another, later ones replacing earlier ones of
/// the same name.
pub open spec fn collect_sections(entries: Seq<(Seq<char>, Seq<u8>)>) -> Seq<(Seq<char>, Seq<u8>)>
    decreases entries.len(),
{
    if entries.len() == 0 {
        Seq::empty()
    } else {
        put_spec(collect_sections(entries.drop_last()), entries.last().0, entries.last().1)
    }
}

/// Sections as written: each name, then its length-prefixed bytes.
pub open spec fn sections_bytes(v: Seq<(Seq<char>, Seq<u8>)>) -> Seq<u8>
    decreases v.len(),
{
    if v.len() == 0 {
        Seq::empty()
    } else {
        sections_bytes(v.drop_last()) + string_bytes(v.last().0) + le_bytes_u32(
            v.last().1.len() as u32,
        ) + v.last().1
    }
}

/// A container as written: the mark, the format version, the section count
/// and the sections.
pub open spec fn container_bytes(v: Seq<(Seq<char>, Seq<u8>)>) -> Seq<u8> {
    le_bytes_u32(SAVE_MAGIC) + le_bytes_u32(FORMAT_VERSION) + le_bytes_u32(v.len() as u32)
        + sections_bytes(v)
}

/// What reading `n` sections at `p` gives, in the order they were written.
pub open spec fn rd_sections_raw(s: Seq<u8>, p: int, n: nat) -> Result<
    (Seq<(Seq<char>, Seq<u8>)>, int),
    PersistError,
>
    decreases n,
{
    if n == 0 {
        Ok((Seq::empty(), p))
    } else {
        match rd_sections_raw(s, p, (n - 1) as nat) {
            Err(e) => Err(e),
            Ok((v, q)) => match rd_string(s, q) {
                Err(e) => Err(PersistError::Codec(e)),
                Ok((name, q1)) => if !valid_identifier(name) {
                    Err(PersistError::Ident(IdentError::Malformed))
                } else {
                    match rd_block(s, q1) {
                        Err(e) => Err(PersistError::Codec(e)),
                        Ok((data, q2)) => Ok((v.push((name, data)), q2)),
                    }
                },
            },
        }
    }
}

/// What decoding a container gives: bytes that do not begin with the mark
/// are not a save; a version other than this build's is refused; then the
/// sections, and nothing after them.
pub open spec fn rd_container(s: Seq<u8>) -> Result<Seq<(Seq<char>, Seq<u8>)>, PersistError> {
    match rd_u32(s, 0) {
        Err(_) => Err(PersistError::NotASave),
        Ok((mark, q0)) => if mark != SAVE_MAGIC {
            Err(PersistError::NotASave)
        } else {
            match rd_u32(s, q0) {
                Err(e) => Err(PersistError::Codec(e)),
                Ok((version, q1)) => if version != FORMAT_VERSION {
                    Err(PersistError::UnsupportedFormat { version })
                } else {
                    match rd_u32(s, q1) {
                        Err(e) => Err(PersistError::Codec(e)),
                        Ok((n, q2)) => match rd_sections_raw(s, q2, n as nat) {
                            Err(e) => Err(e),
                            Ok((entries, end)) => if end == s.len() {
                                Ok(collect_sections(entries))
                            } else {
                                Err(
                                    PersistError::Codec(
                                        CodecError::TrailingBytes { count: (s.len() - end) as usize },
                                    ),
                                )
                            },
                        },
                    }
                },
            }
        },
    }
}

/// Named byte sections.
#[derive(Debug)]
pub struct SaveContainer {
    sections: Vec<(Identifier, Vec<u8>)>,
}

impl View for SaveContainer {
    type V = Seq<(Seq<char>, Seq<u8>)>;

    /// Each section's name and bytes, in order.
    closed spec fn view(&self) -> Seq<(Seq<char>, Seq<u8>)> {
        self.sections@.map_values(|e: (Identifier, Vec<u8>)| (e.0@, e.1@))
    }
}

/// With distinct names, the entry at `i` is what its name finds.
pub proof fn lemma_section_at(v: Seq<(Seq<char>, Seq<u8>)>, i: int)
    requires
        names_distinct(v),
        0 <= i < v.len(),
    ensures
        section_of(v, v[i].0) == Some(v[i].1),
        (choose|k: int| 0 <= k < v.len() && v[k].0 == v[i].0) == i,
{
    let c = choose|k: int| 0 <= k < v.len() && v[k].0 == v[i].0;
    assert(0 <= c < v.len() && v[c].0 == v[i].0);
    if c < i {
        assert(v[c].0 != v[i].0);
    } else if c > i {
        assert(v[i].0 != v[c].0);
    }
}

/// Storing a section keeps the names distinct and valid, gives back the
/// stored bytes under its name and leaves every other name alone.
pub proof fn lemma_put_spec(v: Seq<(Seq<char>, Seq<u8>)>, name: Seq<char>, data: Seq<u8>)
    requires
        names_distinct(v),
        names_valid(v),
        valid_identifier(name),
    ensures
        names_distinct(put_spec(v, name, data)),
        names_valid(put_spec(v, name, data)),
        section_of(put_spec(v, name, data), name) == Some(data),
        forall|other: Seq<char>|
            other != name ==> #[trigger] section_of(put_spec(v, name, data), other) == section_of(
                v,
                other,
            ),
{
    let w = put_spec(v, name, data);
    if exists|i: int| 0 <= i < v.len() && v[i].0 == name {
        let i = choose|i: int| 0 <= i < v.len() && v[i].0 == name;
        assert(w == v.update(i, (name, data)));
        assert(w[i] == (name, data));
        assert forall|a: int, b: int| 0 <= a < b < w.len() implies w[a].0 != w[b].0 by {
            assert(w[a].0 == v[a].0);
            assert(w[b].0 == v[b].0);
        }
        lemma_section_at(w, i);
        assert forall|other: Seq<char>| other != name implies #[trigger] section_of(w, other)
            == section_of(v, other) by {
            if exists|k: int| 0 <= k < v.len() && v[k].0 == other {
                let k = choose|k: int| 0 <= k < v.len() && v[k].0 == other;
                lemma_section_at(v, k);
                assert(w[k] == v[k]);
                lemma_section_at(w, k);
            } else {
                assert forall|k: int| 0 <= k < w.len() implies w[k].0 != other by {
                    if k != i {
                        assert(w[k] == v[k]);
                    }
                }
            }
        }
    } else {
        assert(w == v.push((name, data)));
        assert forall|a: int, b: int| 0 <= a < b < w.len() implies w[a].0 != w[b].0 by {
            if b == v.len() {
                assert(w[a] == v[a]);
            } else {
                assert(w[a] == v[a] && w[b] == v[b]);
            }
        }
        assert forall|k: int| 0 <= k < w.len() implies valid_identifier(#[trigger] w[k].0) by {
            if k < v.len() {
                assert(w[k] == v[k]);
            }
        }
        lemma_section_at(w, v.len() as int);
        assert forall|other: Seq<char>| other != name implies #[trigger] section_of(w, other)
            == section_of(v, other) by {
            if exists|k: int| 0 <= k < v.len() && v[k].0 == other {
                let k = choose|k: int| 0 <= k < v.len() && v[k].0 == other;
                lemma_section_at(v, k);
                assert(w[k] == v[k]);
                lemma_section_at(w, k);
            } else {
                assert forall|k: int| 0 <= k < w.len() implies w[k].0 != other by {
                    if k < v.len() {
                        assert(w[k] == v[k]);
                    }
                }
            }
        }
    }
}

impl SaveContainer {
    /// Names are distinct identifiers.
    #[verifier::type_invariant]
    spec fn well_formed(&self) -> bool {
        names_distinct(self@) && names_valid(self@)
    }

    /// An empty container.
    pub fn new() -> (c: Self)
        ensures
            c@ == Seq::<(Seq<char>, Seq<u8>)>::empty(),
    {
        let c = SaveContainer { sections: Vec::new() };
        proof {
            assert(c@ =~= Seq::<(Seq<char>, Seq<u8>)>::empty());
        }
        c
    }

    /// Store `bytes` under `name`, replacing any section of that name in
    /// place.
    pub fn put(&mut self, name: Identifier, bytes: Vec<u8>)
        ensures
            final(self)@ == put_spec(old(self)@, name@, bytes@),
            section_of(final(self)@, name@) == Some(bytes@),
            forall|other: Seq<char>|
                other != name@ ==> #[trigger] section_of(final(self)@, other) == section_of(
                    old(self)@,
                    other,
                ),
    {
        proof {
            use_type_invariant(&*self);
        }
        // An identifier's text is always well formed; reading it says so.
        let _ = name.as_str();
        let ghost before = self@;
        let ghost target = put_spec(before, name@, bytes@);
        proof {
            lemma_put_spec(before, name@, bytes@);
        }
        let mut i: usize = 0;
        while i < self.sections.len()
            invariant
                i <= self.sections@.len(),
                self@ == before,
                before == old(self)@,
                names_valid(before),
                valid_identifier(name@),
                names_distinct(before),
                target == put_spec(before, name@, bytes@),
                names_distinct(target),
                names_valid(target),
                forall|k: int| 0 <= k < i ==> before[k].0 != name@,
            decreases self.sections.len() - i,
        {
            if self.sections[i].0.same(&name) {
                proof {
                    assert(before[i as int].0 == name@);
                    lemma_section_at(before, i as int);
                    assert(target == before.update(i as int, (name@, bytes@)));
                }
                let mut sections: Vec<(Identifier, Vec<u8>)> = Vec::new();
                std::mem::swap(&mut sections, &mut self.sections);
                sections.set(i, (name, bytes));
                proof {
                    assert(sections@.map_values(|e: (Identifier, Vec<u8>)| (e.0@, e.1@)) =~= target);
                }
                self.sections = sections;
                proof {
                    lemma_put_spec(before, name@, bytes@);
                }
                return;
            }
            i += 1;
        }
        proof {
            assert(!exists|k: int| 0 <= k < before.len() && before[k].0 == name@);
        }
        let mut sections: Vec<(Identifier, Vec<u8>)> = Vec::new();
                std::mem::swap(&mut sections, &mut self.sections);
        sections.push((name, bytes));
        proof {
            assert(sections@.map_values(|e: (Identifier, Vec<u8>)| (e.0@, e.1@)) =~= target);
        }
        self.sections = sections;
    }

    /// The bytes stored under `name`, if any.
    pub fn get(&self, name: &Identifier) -> (r: Option<&[u8]>)
        ensures
            r is None <==> section_of(self@, name@) is None,
            r matches Some(b) ==> section_of(self@, name@) == Some(b@),
    {
        proof {
            use_type_invariant(self);
        }
        let mut i: usize = 0;
        while i < self.sections.len()
            invariant
                i <= self.sections@.len(),
                names_distinct(self@),
                forall|k: int| 0 <= k < i ==> self@[k].0 != name@,
            decreases self.sections.len() - i,
        {
            if self.sections[i].0.same(name) {
                proof {
                    assert(self@[i as int].0 == name@);
                    lemma_section_at(self@, i as int);
                }
                return Some(self.sections[i].1.as_slice());
            }
            i += 1;
        }
        None
    }

    /// The bytes stored under `name`; a missing section is refused, naming
    /// it.
    pub fn require(&self, name: &Identifier) -> (r: Result<&[u8], PersistError>)
        ensures
            r is Ok <==> section_of(self@, name@) is Some,
            r matches Ok(b) ==> section_of(self@, name@) == Some(b@),
            r matches Err(e) ==> e matches PersistError::MissingSection { name: n } && n@ == name@,
    {
        match self.get(name) {
            Some(b) => Ok(b),
            None => Err(PersistError::MissingSection { name: name.as_str().to_owned() }),
        }
    }

    /// The name of every section, in order.
    pub fn section_names(&self) -> (r: Vec<Identifier>)
        ensures
            r@.len() == self@.len(),
            forall|i: int| 0 <= i < r@.len() ==> (#[trigger] r@[i])@ == self@[i].0,
    {
        let mut names: Vec<Identifier> = Vec::new();
        let mut i: usize = 0;
        while i < self.sections.len()
            invariant
                i <= self.sections@.len(),
                names@.len() == i,
                forall|k: int| 0 <= k < i ==> (#[trigger] names@[k])@ == self@[k].0,
            decreases self.sections.len() - i,
        {
            names.push(self.sections[i].0.duplicate());
            i += 1;
        }
        names
    }

    /// The container as bytes: the mark, the format version, the section
    /// count, then each section's name and length-prefixed bytes.
    pub fn encode(&self) -> (r: Vec<u8>)
        ensures
            r@ == container_bytes(self@),
    {
        let mut out = Writer::new();
        out.u32(SAVE_MAGIC);
        out.u32(FORMAT_VERSION);
        out.u32(self.sections.len() as u32);
        let ghost head = out@;
        let mut i: usize = 0;
        while i < self.sections.len()
            invariant
                i <= self.sections@.len(),
                out@ == head + sections_bytes(self@.take(i as int)),
            decreases self.sections.len() - i,
        {
            let entry = &self.sections[i];
            out.string(entry.0.as_str());
            out.block(entry.1.as_slice());
            proof {
                assert(self@.take(i + 1).drop_last() =~= self@.take(i as int));
                assert(self@.take(i + 1).last() == self@[i as int]);
            }
            i += 1;
            proof {
                assert(out@ =~= head + sections_bytes(self@.take(i as int)));
            }
        }
        proof {
            assert(self@.take(i as int) =~= self@);
            assert(out@ =~= container_bytes(self@));
        }
        out.finish()
    }

    /// Read a container back from its bytes.
    pub fn decode(bytes: &[u8]) -> (r: Result<SaveContainer, PersistError>)
        ensures
            match rd_container(bytes@) {
                Ok(v) => r matches Ok(c) && c@ == v,
                Err(e) => r == Err::<SaveContainer, PersistError>(e),
            },
    {
        let mut reader = Reader::new(bytes);
        let mark = match reader.u32() {
            Ok(v) => v,
            Err(_) => {
                return Err(PersistError::NotASave);
            },
        };
        if mark != SAVE_MAGIC {
            return Err(PersistError::NotASave);
        }
        let version = match reader.u32() {
            Ok(v) => v,
            Err(e) => {
                return Err(PersistError::Codec(e));
            },
        };
        if version != FORMAT_VERSION {
            return Err(PersistError::UnsupportedFormat { version });
        }
        let n = match reader.u32() {
            Ok(v) => v,
            Err(e) => {
                return Err(PersistError::Codec(e));
            },
        };
        let ghost start = reader.spec_pos();
        assert(rd_container(bytes@) == match rd_sections_raw(bytes@, start, n as nat) {
            Err(e) => Err(e),
            Ok((entries, end)) => if end == bytes@.len() {
                Ok(collect_sections(entries))
            } else {
                Err(PersistError::Codec(CodecError::TrailingBytes { count: (bytes@.len() - end) as usize }))
            },
        });
        let ghost mut entries: Seq<(Seq<char>, Seq<u8>)> = Seq::empty();
        let mut container = SaveContainer::new();
        let mut i: u32 = 0;
        while i < n
            invariant
                reader.wf(),
                reader.spec_bytes() == bytes@,
                rd_container(bytes@) == match rd_sections_raw(bytes@, start, n as nat) {
                    Err(e) => Err(e),
                    Ok((entries, end)) => if end == bytes@.len() {
                        Ok(collect_sections(entries))
                    } else {
                        Err(PersistError::Codec(CodecError::TrailingBytes { count: (bytes@.len() - end) as usize }))
                    },
                },
                i <= n,
                rd_sections_raw(bytes@, start, i as nat) == Ok::<(Seq<(Seq<char>, Seq<u8>)>, int), PersistError>(
                    (entries, reader.spec_pos()),
                ),
                container@ == collect_sections(entries),
            decreases n - i,
        {
            let text = match reader.string() {
                Ok(t) => t,
                Err(e) => {
                    proof {
                        lemma_rd_sections_raw_stops(bytes@, start, (i + 1) as nat, n as nat);
                    }
                    return Err(PersistError::Codec(e));
                },
            };
            let name = match Identifier::parse(text.as_str()) {
                Ok(id) => id,
                Err(e) => {
                    proof {
                        lemma_rd_sections_raw_stops(bytes@, start, (i + 1) as nat, n as nat);
                    }
                    return Err(PersistError::Ident(e));
                },
            };
            let data = match reader.block() {
                Ok(d) => d,
                Err(e) => {
                    proof {
                        lemma_rd_sections_raw_stops(bytes@, start, (i + 1) as nat, n as nat);
                    }
                    return Err(PersistError::Codec(e));
                },
            };
            proof {
                let prior = entries;
                entries = entries.push((name@, data@));
                assert(entries.drop_last() =~= prior);
            }
            container.put(name, data);
            i += 1;
        }
        match reader.expect_exhausted() {
            Ok(()) => Ok(container),
            Err(e) => Err(PersistError::Codec(e)),
        }
    }
}

/// A section list read that fails partway fails as a whole.
proof fn lemma_rd_sections_raw_stops(s: Seq<u8>, p: int, k: nat, n: nat)
    requires
        k <= n,
        rd_sections_raw(s, p, k) is Err,
    ensures
        rd_sections_raw(s, p, n) == rd_sections_raw(s, p, k),
    decreases n - k,
{
    if k < n {
        lemma_rd_sections_raw_stops(s, p, k, (n - 1) as nat);
    }
}


/// Sections written at `p` read back there, in order.
proof fn lemma_rd_sections_raw_written(s: Seq<u8>, p: int, v: Seq<(Seq<char>, Seq<u8>)>)
    requires
        names_valid(v),
        forall|i: int|
            0 <= i < v.len() ==> (#[trigger] v[i]).1.len() <= u32::MAX && encode_utf8(v[i].0).len()
                <= u32::MAX,
        0 <= p,
        p + sections_bytes(v).len() <= s.len(),
        s.subrange(p, p + sections_bytes(v).len()) == sections_bytes(v),
    ensures
        rd_sections_raw(s, p, v.len()) == Ok::<(Seq<(Seq<char>, Seq<u8>)>, int), PersistError>(
            (v, p + sections_bytes(v).len()),
        ),
    decreases v.len(),
{
    if v.len() > 0 {
        let init = v.drop_last();
        let last = v.last();
        assert(v[v.len() - 1] == last);
        let a = sections_bytes(init);
        let b = string_bytes(last.0);
        let c = le_bytes_u32(last.1.len() as u32) + last.1;
        assert(sections_bytes(v) =~= a + b + c);
        lemma_split(s, p, a + b, c);
        lemma_split(s, p, a, b);
        assert forall|i: int| 0 <= i < init.len() implies valid_identifier(#[trigger] init[i].0) by {
            assert(init[i] == v[i]);
        }
        assert forall|i: int| 0 <= i < init.len() implies (#[trigger] init[i]).1.len() <= u32::MAX
            && encode_utf8(init[i].0).len() <= u32::MAX by {
            assert(init[i] == v[i]);
        }
        lemma_rd_sections_raw_written(s, p, init);
        lemma_rd_string(s, p + a.len(), last.0);
        lemma_rd_block(s, p + a.len() + b.len(), last.1);
        assert(init.push((last.0, last.1)) =~= v);
        assert((v.len() - 1) as nat == init.len());
    } else {
        assert(v =~= Seq::<(Seq<char>, Seq<u8>)>::empty());
    }
}

/// Collecting sections whose names are distinct keeps them as they are.
proof fn lemma_collect_distinct(v: Seq<(Seq<char>, Seq<u8>)>)
    requires
        names_distinct(v),
    ensures
        collect_sections(v) == v,
    decreases v.len(),
{
    if v.len() > 0 {
        let init = v.drop_last();
        assert forall|i: int, j: int| 0 <= i < j < init.len() implies init[i].0 != init[j].0 by {
            assert(init[i] == v[i] && init[j] == v[j]);
        }
        lemma_collect_distinct(init);
        assert forall|k: int| 0 <= k < init.len() implies init[k].0 != v.last().0 by {
            assert(init[k] == v[k]);
            assert(v[v.len() - 1] == v.last());
        }
        assert(init.push(v.last()) =~= v);
    } else {
        assert(v =~= Seq::<(Seq<char>, Seq<u8>)>::empty());
    }
}

/// A container reads back from its own bytes: decoding what
/// [`SaveContainer::encode`] wrote gives back the same sections, in the same
/// order, whenever the counts and lengths fit their fields.
#[verifier::rlimit(30)]
pub proof fn lemma_container_round_trip(v: Seq<(Seq<char>, Seq<u8>)>)
    requires
        names_distinct(v),
        names_valid(v),
        v.len() <= u32::MAX,
        forall|i: int|
            0 <= i < v.len() ==> (#[trigger] v[i]).1.len() <= u32::MAX && encode_utf8(v[i].0).len()
                <= u32::MAX,
    ensures
        rd_container(container_bytes(v)) == Ok::<Seq<(Seq<char>, Seq<u8>)>, PersistError>(v),
{
    let s = container_bytes(v);
    let h0 = le_bytes_u32(SAVE_MAGIC);
    let h1 = le_bytes_u32(FORMAT_VERSION);
    let h2 = le_bytes_u32(v.len() as u32);
    let body = sections_bytes(v);
    assert(s.subrange(0, s.len() as int) =~= h0 + h1 + h2 + body);
    lemma_split(s, 0, h0 + h1 + h2, body);
    lemma_split(s, 0, h0 + h1, h2);
    lemma_split(s, 0, h0, h1);
    lemma_rd_u32(s, 0, SAVE_MAGIC);
    lemma_rd_u32(s, 4, FORMAT_VERSION);
    lemma_rd_u32(s, 8, v.len() as u32);
    lemma_rd_sections_raw_written(s, 12, v);
    lemma_collect_distinct(v);
    assert(rd_u32(s, 0) == Ok::<(u32, int), CodecError>((SAVE_MAGIC, 4)));
    assert(rd_u32(s, 4) == Ok::<(u32, int), CodecError>((FORMAT_VERSION, 8)));
    assert(rd_u32(s, 8) == Ok::<(u32, int), CodecError>((v.len() as u32, 12)));
    assert(rd_sections_raw(s, 12, (v.len() as u32) as nat) == Ok::<
        (Seq<(Seq<char>, Seq<u8>)>, int),
        PersistError,
    >((v, s.len() as int)));
}

} // verus!
