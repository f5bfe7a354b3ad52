//! Byte-string comparisons, exact and ignoring ASCII case.

use vstd::prelude::*;

verus! {

/// The ASCII lowercase of a byte; other bytes are unchanged.
pub open spec fn ascii_lower(b: u8) -> u8 {
    if 65 <= b <= 90 {
        (b + 32) as u8
    } else {
        b
    }
}

/// The two byte strings are equal when ASCII letters are compared without case.
pub open spec fn eq_ignore_case(a: Seq<u8>, b: Seq<u8>) -> bool {
    a.len() == b.len() && forall|i: int| 0 <= i < a.len() ==> ascii_lower(a[i]) == ascii_lower(b[i])
}

/// Some window of `hay` equals `needle` ignoring ASCII case.
pub open spec fn icontains_spec(hay: Seq<u8>, needle: Seq<u8>) -> bool {
    exists|i: int|
        0 <= i && i + needle.len() <= hay.len() && #[trigger] eq_ignore_case(
            hay.subrange(i, i + needle.len()),
            needle,
        )
}

/// Bytes `x` and `y` are the same, or the same ASCII letter in two cases.
pub open spec fn same_ignoring_case(x: u8, y: u8) -> bool {
    x == y || (65 <= x <= 90 && y == x + 32) || (65 <= y <= 90 && x == y + 32)
}

/// Comparing without ASCII case: two byte strings compare equal exactly when
/// they have the same length and each pair of bytes is the same byte or the
/// same ASCII letter in upper and lower case.
pub proof fn lemma_eq_ignore_case_meaning(a: Seq<u8>, b: Seq<u8>)
    ensures
        eq_ignore_case(a, b) == (a.len() == b.len() && forall|i: int|
            0 <= i < a.len() ==> #[trigger] same_ignoring_case(a[i], b[i])),
{
    if a.len() == b.len() {
        if eq_ignore_case(a, b) {
            assert forall|i: int| 0 <= i < a.len() implies #[trigger] same_ignoring_case(a[i], b[i]) by {
                assert(ascii_lower(a[i]) == ascii_lower(b[i]));
            }
        }
        if forall|i: int| 0 <= i < a.len() ==> #[trigger] same_ignoring_case(a[i], b[i]) {
            assert forall|i: int| 0 <= i < a.len() implies ascii_lower(a[i]) == ascii_lower(b[i]) by {
                assert(same_ignoring_case(a[i], b[i]));
            }
        }
    }
}

/// ASCII lowercase of one byte.
pub fn to_ascii_lower(b: u8) -> (r: u8)
    ensures
        r == ascii_lower(b),
{
    if 65 <= b && b <= 90 {
        b + 32
    } else {
        b
    }
}

/// Whether two byte strings are equal.
pub fn bytes_eq(a: &[u8], b: &[u8]) -> (r: bool)
    ensures
        r == (a@ == b@),
{
    if a.len() != b.len() {
        return false;
    }
    let mut i: usize = 0;
    while i < a.len()
        invariant
            a@.len() == b@.len(),
            i <= a@.len(),
            forall|j: int| 0 <= j < i ==> a@[j] == b@[j],
        decreases a@.len() - i,
    {
        if a[i] != b[i] {
            return false;
        }
        i += 1;
    }
    assert(a@ =~= b@);
    true
}

/// Whether `hay` begins with `prefix`.
pub fn bytes_starts_with(hay: &[u8], prefix: &[u8]) -> (r: bool)
    ensures
        r == (prefix@.len() <= hay@.len() && hay@.subrange(0, prefix@.len() as int) == prefix@),
{
    if prefix.len() > hay.len() {
        return false;
    }
    let mut i: usize = 0;
    while i < prefix.len()
        invariant
            prefix@.len() <= hay@.len(),
            i <= prefix@.len(),
            forall|j: int| 0 <= j < i ==> hay@[j] == prefix@[j],
        decreases prefix@.len() - i,
    {
        if hay[i] != prefix[i] {
            assert(hay@.subrange(0, prefix@.len() as int)[i as int] != prefix@[i as int]);
            return false;
        }
        i += 1;
    }
    assert(hay@.subrange(0, prefix@.len() as int) =~= prefix@);
    true
}

/// Whether `hay` ends with `suffix`.
pub fn bytes_ends_with(hay: &[u8], suffix: &[u8]) -> (r: bool)
    ensures
        r == (suffix@.len() <= hay@.len() && hay@.subrange(
            hay@.len() - suffix@.len(),
            hay@.len() as int,
        ) == suffix@),
{
    if suffix.len() > hay.len() {
        return false;
    }
    let off = hay.len() - suffix.len();
    let mut i: usize = 0;
    while i < suffix.len()
        invariant
            off + suffix@.len() == hay@.len(),
            hay@.len() <= usize::MAX,
            i <= suffix@.len(),
            forall|j: int| 0 <= j < i ==> hay@[off + j] == suffix@[j],
        decreases suffix@.len() - i,
    {
        assert(off + i < hay@.len());
        if hay[off + i] != suffix[i] {
            assert(hay@.subrange(off as int, hay@.len() as int)[i as int] != suffix@[i as int]);
            return false;
        }
        i += 1;
    }
    assert(hay@.subrange(off as int, hay@.len() as int) =~= suffix@);
    true
}

/// Whether two byte strings are equal ignoring ASCII case.
pub fn eq_ignore_ascii_case(a: &[u8], b: &[u8]) -> (r: bool)
    ensures
        r == eq_ignore_case(a@, b@),
{
    if a.len() != b.len() {
        return false;
    }
    let mut i: usize = 0;
    while i < a.len()
        invariant
            a@.len() == b@.len(),
            i <= a@.len(),
            forall|j: int| 0 <= j < i ==> ascii_lower(a@[j]) == ascii_lower(b@[j]),
        decreases a@.len() - i,
    {
        if to_ascii_lower(a[i]) != to_ascii_lower(b[i]) {
            return false;
        }
        i += 1;
    }
    true
}

/// Whether `hay[start..start + needle.len()]` equals `needle` ignoring ASCII case.
fn window_eq_ignore_case(hay: &[u8], start: usize, needle: &[u8]) -> (r: bool)
    requires
        start + needle@.len() <= hay@.len(),
    ensures
        r == eq_ignore_case(hay@.subrange(start as int, start + needle@.len()), needle@),
{
    let mut i: usize = 0;
    assert(hay@.len() == hay.len());
    let ghost w = hay@.subrange(start as int, start + needle@.len());
    while i < needle.len()
        invariant
            start + needle@.len() <= hay@.len(),
            hay@.len() <= usize::MAX,
            w == hay@.subrange(start as int, start + needle@.len()),
            i <= needle@.len(),
            forall|j: int| 0 <= j < i ==> ascii_lower(w[j]) == ascii_lower(needle@[j]),
        decreases needle@.len() - i,
    {
        assert(start + i < hay@.len());
        if to_ascii_lower(hay[start + i]) != to_ascii_lower(needle[i]) {
            assert(w[i as int] == hay@[start + i]);
            return false;
        }
        assert(w[i as int] == hay@[start + i]);
        i += 1;
    }
    true
}

/// Case-insensitive substring check: some window of `haystack` equals
/// `needle` ignoring ASCII case. An empty needle is always found.
pub fn icontains(haystack: &[u8], needle: &[u8]) -> (r: bool)
    ensures
        r == icontains_spec(haystack@, needle@),
{
    if needle.len() == 0 {
        assert(eq_ignore_case(haystack@.subrange(0, 0 + needle@.len() as int), needle@));
        return true;
    }
    if haystack.len() < needle.len() {
        return false;
    }
    let last = haystack.len() - needle.len();
    let mut i: usize = 0;
    while i <= last
        invariant
            last + needle@.len() == haystack@.len(),
            needle@.len() > 0,
            haystack@.len() <= usize::MAX,
            i <= last + 1,
            forall|j: int|
                0 <= j < i ==> !#[trigger] eq_ignore_case(
                    haystack@.subrange(j, j + needle@.len()),
                    needle@,
                ),
        decreases last + 1 - i,
    {
        if window_eq_ignore_case(haystack, i, needle) {
            return true;
        }
        i += 1;
    }
    false
}

} // verus!
