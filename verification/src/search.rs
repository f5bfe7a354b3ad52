//! Substring and byte search, backed by the `memchr` crate.

use vstd::prelude::*;

verus! {

/// `needle` occurs in `hay` starting at index `i`.
pub open spec fn occurs_at(hay: Seq<u8>, needle: Seq<u8>, i: int) -> bool {
    0 <= i && i + needle.len() <= hay.len() && hay.subrange(i, i + needle.len()) == needle
}

/// `i` is the first index at which `needle` occurs in `hay`.
pub open spec fn is_first_match(hay: Seq<u8>, needle: Seq<u8>, i: int) -> bool {
    occurs_at(hay, needle, i) && forall|j: int| 0 <= j < i ==> !occurs_at(hay, needle, j)
}

/// `needle` occurs somewhere in `hay`.
pub open spec fn contains(hay: Seq<u8>, needle: Seq<u8>) -> bool {
    exists|i: int| occurs_at(hay, needle, i)
}

/// The index of the first occurrence of `needle` in `hay`, if any.
pub open spec fn first_match(hay: Seq<u8>, needle: Seq<u8>) -> Option<int> {
    if exists|i: int| is_first_match(hay, needle, i) {
        Some(choose|i: int| is_first_match(hay, needle, i))
    } else {
        None
    }
}

/// Any occurrence bounds a first occurrence at or before it.
pub proof fn lemma_first_match_exists(hay: Seq<u8>, needle: Seq<u8>, i: int)
    requires
        occurs_at(hay, needle, i),
    ensures
        exists|k: int| 0 <= k <= i && is_first_match(hay, needle, k),
    decreases i,
{
    if forall|j: int| 0 <= j < i ==> !occurs_at(hay, needle, j) {
        assert(is_first_match(hay, needle, i));
    } else {
        let j = choose|j: int| 0 <= j < i && occurs_at(hay, needle, j);
        lemma_first_match_exists(hay, needle, j);
    }
}

/// `first_match` is the unique first occurrence, and is absent exactly when
/// the needle does not occur.
pub proof fn lemma_first_match(hay: Seq<u8>, needle: Seq<u8>)
    ensures
        first_match(hay, needle) matches Some(i) ==> is_first_match(hay, needle, i),
        first_match(hay, needle) is None <==> !contains(hay, needle),
        forall|i: int| is_first_match(hay, needle, i) ==> first_match(hay, needle) == Some(i),
{
    if contains(hay, needle) {
        let i = choose|i: int| occurs_at(hay, needle, i);
        lemma_first_match_exists(hay, needle, i);
    }
    assert forall|i: int| is_first_match(hay, needle, i) implies first_match(hay, needle) == Some(
        i,
    ) by {
        let k = choose|k: int| is_first_match(hay, needle, k);
        if k < i {
            assert(!occurs_at(hay, needle, k));
        } else if i < k {
            assert(!occurs_at(hay, needle, i));
        }
    }
}

/// A substring searcher for one fixed needle.
///
/// It keeps the needle and a prebuilt `memchr::memmem::Finder` for it; both
/// are set together by the constructor and never changed afterwards.
#[derive(Debug)]
pub struct SubstringFinder {
    needle: Vec<u8>,
    searcher: memchr::memmem::Finder<'static>,
}

#[verifier::external_type_specification]
#[verifier::external_body]
pub struct ExMemmemFinder<'n>(memchr::memmem::Finder<'n>);

impl View for SubstringFinder {
    type V = Seq<u8>;

    closed spec fn view(&self) -> Seq<u8> {
        self.needle@
    }
}

/// Builds a searcher for `needle` (`memchr::memmem::Finder::new`, then
/// `into_owned`). Trusted: the searcher records exactly `needle`.
#[verifier::external_body]
fn build_finder(needle: &[u8]) -> (f: SubstringFinder)
    ensures
        f@ == needle@,
{
    SubstringFinder { needle: needle.to_vec(), searcher: memchr::memmem::Finder::new(needle).into_owned() }
}

/// Runs `memchr::memmem::Finder::find` on the prebuilt searcher. Trusted, as
/// its documentation states: the index of the first occurrence of the needle,
/// or `None` when it does not occur.
#[verifier::external_body]
fn finder_find(f: &SubstringFinder, hay: &[u8]) -> (r: Option<usize>)
    ensures
        match r {
            Some(i) => is_first_match(hay@, f@, i as int),
            None => !contains(hay@, f@),
        },
{
    f.searcher.find(hay)
}

impl SubstringFinder {
    /// Creates a searcher for the given needle.
    pub fn new(needle: &[u8]) -> (f: SubstringFinder)
        ensures
            f@ == needle@,
    {
        build_finder(needle)
    }

    /// The needle this searcher looks for.
    pub fn needle_len(&self) -> (n: usize)
        ensures
            n == self@.len(),
    {
        self.needle.len()
    }

    /// Index of the first occurrence of the needle in `haystack`.
    pub fn find(&self, haystack: &[u8]) -> (r: Option<usize>)
        ensures
            r matches Some(i) ==> first_match(haystack@, self@) == Some(i as int),
            r is None ==> first_match(haystack@, self@) is None,
    {
        let r = finder_find(self, haystack);
        proof {
            lemma_first_match(haystack@, self@);
        }
        r
    }
}

/// Index of the first byte of `hay` equal to `b1` or `b2` (`memchr::memchr2`).
/// Trusted, as its documentation states: the first such index, or `None`
/// when neither byte occurs.
#[verifier::external_body]
pub(crate) fn memchr2(b1: u8, b2: u8, hay: &[u8]) -> (r: Option<usize>)
    ensures
        match r {
            Some(i) => i < hay@.len() && (hay@[i as int] == b1 || hay@[i as int] == b2) && forall|
                j: int,
            |
                0 <= j < i ==> hay@[j] != b1 && hay@[j] != b2,
            None => forall|j: int| 0 <= j < hay@.len() ==> hay@[j] != b1 && hay@[j] != b2,
        },
{
    memchr::memchr2(b1, b2, hay)
}

} // verus!
