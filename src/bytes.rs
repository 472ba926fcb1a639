//! Searching a byte slice for the first occurrence of a byte.
use vstd::prelude::*;

verus! {

/// Whether `i` is the position of the first occurrence of `needle` in `s`.
pub open spec fn is_first_index(s: Seq<u8>, needle: u8, i: int) -> bool {
    &&& 0 <= i < s.len()
    &&& s[i] == needle
    &&& forall|j: int| 0 <= j < i ==> s[j] != needle
}

/// Whether `needle` does not occur in `s`.
pub open spec fn absent(s: Seq<u8>, needle: u8) -> bool {
    forall|j: int| 0 <= j < s.len() ==> s[j] != needle
}

/// Whether `s` holds `needle` at `i` and nowhere else.
pub open spec fn sole_occurrence(s: Seq<u8>, needle: u8, i: int) -> bool {
    &&& 0 <= i < s.len()
    &&& s[i] == needle
    &&& forall|j: int| 0 <= j < s.len() && j != i ==> s[j] != needle
}

/// Relies on `memchr::memchr`: the index of the first occurrence of `needle`
/// in `haystack`, or `None` when there is none.
#[verifier::external_body]
fn memchr_first(haystack: &[u8], needle: u8) -> (r: Option<usize>)
    ensures
        match r {
            Some(i) => is_first_index(haystack@, needle, i as int),
            None => absent(haystack@, needle),
        },
{
    memchr::memchr(needle, haystack)
}

/// Finds the index of the first occurrence of `needle` in `haystack`.
pub fn index(haystack: &[u8], needle: u8) -> (r: Option<usize>)
    ensures
        match r {
            Some(i) => is_first_index(haystack@, needle, i as int),
            None => absent(haystack@, needle),
        },
        forall|i: int| #[trigger] sole_occurrence(haystack@, needle, i) ==> r == Some(i as usize),
{
    memchr_first(haystack, needle)
}

} // verus!
