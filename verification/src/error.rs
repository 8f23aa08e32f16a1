//! How a caller should react to a refusal.
//!
//! Every error in this crate names its own cause as an enum variant, so a
//! contract can say exactly which inputs produce which refusal. What they
//! share is the advice below: whether trying again can help.

use vstd::prelude::*;
use vstd::string::*;

verus! {

/// What a caller can do about an error.
#[derive(Debug, Clone, Copy, PartialEq, Eq, Structural, Hash)]
pub enum Recovery {
    /// The same request may succeed later, once something else has happened.
    Retry,
    /// The request itself is wrong and will never succeed as made.
    Reject,
    /// The data is damaged or foreign and must be set aside, not repaired.
    Quarantine,
    /// A person has to look.
    Manual,
    /// The program broke an invariant of its own.
    Fatal,
}

} // verus!

verus! {

/// Join two strings: the first's text, then the second's.
pub(crate) fn join(a: &str, b: &str) -> (r: String)
    ensures
        r@ == a@ + b@,
{
    let mut r = a.to_owned();
    r.append(b);
    r
}

} // verus!
