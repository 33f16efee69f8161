//! Calls into outside crates and into std functions that vstd leaves
//! unspecified. Each function here is trusted: its contract is believed.
use rand::seq::SliceRandom;
use rand::Rng;
use vstd::prelude::*;

verus! {

/// Relies on uuid::Uuid::new_v4 (and Uuid::as_u128): a fresh random identifier.
/// Nothing is promised of its value.
#[verifier::external_body]
pub(crate) fn new_id() -> (r: u128) {
    uuid::Uuid::new_v4().as_u128()
}

/// Relies on rand::Rng::gen::<u32> from the thread-local generator: a random
/// value. Nothing is promised of its value.
#[verifier::external_body]
pub(crate) fn random_u32() -> (r: u32) {
    rand::thread_rng().gen::<u32>()
}

/// Relies on rand::seq::SliceRandom::shuffle (Fisher-Yates by swaps): the
/// elements are reordered, none added or lost.
#[verifier::external_body]
pub(crate) fn shuffle<T>(v: &mut Vec<T>)
    ensures
        final(v)@.len() == old(v)@.len(),
        final(v)@.to_multiset() == old(v)@.to_multiset(),
{
    v.shuffle(&mut rand::thread_rng());
}

/// What `str::trim` leaves of a string: it depends on the characters alone.
pub uninterp spec fn trimmed(s: Seq<char>) -> Seq<char>;

/// ASCII lower-casing of one character, by code point: 'A'..='Z' map to
/// 'a'..='z', every other character is kept.
pub open spec fn ascii_lower(c: char) -> int {
    if 65 <= (c as u32) && (c as u32) <= 90 {
        (c as u32) + 32
    } else {
        c as u32 as int
    }
}

/// Two strings that are equal once ASCII letters are lower-cased.
pub open spec fn same_name(a: Seq<char>, b: Seq<char>) -> bool {
    &&& a.len() == b.len()
    &&& forall|i: int| 0 <= i < a.len() ==> ascii_lower(#[trigger] a[i]) == ascii_lower(b[i])
}

/// An ASCII letter or digit, never white space.
pub open spec fn ascii_alnum(c: char) -> bool {
    ('0' <= c && c <= '9') || ('A' <= c && c <= 'Z') || ('a' <= c && c <= 'z')
}

/// Relies on str::trim: leading and trailing white space removed, so the
/// result is no longer than the input, and is the whole input when that
/// starts and ends with an ASCII letter or digit.
#[verifier::external_body]
pub(crate) fn trim_name(s: &str) -> (r: String)
    ensures
        r@ == trimmed(s@),
        r@.len() <= s@.len(),
        s@.len() > 0 && ascii_alnum(s@[0]) && ascii_alnum(s@.last()) ==> r@ == s@,
{
    s.trim().to_string()
}

/// Relies on str::eq_ignore_ascii_case: equal after lower-casing ASCII letters.
#[verifier::external_body]
pub(crate) fn eq_ignore_case(a: &str, b: &str) -> (r: bool)
    ensures
        r == same_name(a@, b@),
{
    a.eq_ignore_ascii_case(b)
}

} // verus!
