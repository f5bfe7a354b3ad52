//! Regular expressions over bytes, backed by the `regex` crate.

use vstd::prelude::*;

verus! {

#[verifier::external_type_specification]
#[verifier::external_body]
pub struct ExRegex(regex::bytes::Regex);

/// What `regex::bytes::Regex::new(pattern)` reports: `None` when the pattern
/// builds, or the text of the error it returns.
pub uninterp spec fn regex_build_error(pattern: Seq<char>) -> Option<Seq<char>>;

/// Whether the regex built from `pattern` matches somewhere in `haystack`
/// (`regex::bytes::Regex::is_match`).
pub uninterp spec fn regex_is_match(pattern: Seq<char>, haystack: Seq<u8>) -> bool;

/// A compiled regular expression together with the pattern it was built from.
///
/// Both fields are set together by the constructor and never changed
/// afterwards.
#[derive(Debug)]
pub struct CompiledRegex {
    pattern: String,
    regex: regex::bytes::Regex,
}

impl View for CompiledRegex {
    type V = Seq<char>;

    closed spec fn view(&self) -> Seq<char> {
        self.pattern@
    }
}

/// Builds a regex (`regex::bytes::Regex::new`), turning its error into text
/// (`to_string`). Trusted: success and the error text are what
/// `regex_build_error` names for this pattern, and a built regex keeps it.
#[verifier::external_body]
fn build_regex(pattern: &str) -> (r: Result<CompiledRegex, String>)
    ensures
        match r {
            Ok(re) => regex_build_error(pattern@) is None && re@ == pattern@,
            Err(msg) => regex_build_error(pattern@) == Some(msg@),
        },
{
    match regex::bytes::Regex::new(pattern) {
        Ok(regex) => Ok(CompiledRegex { pattern: pattern.to_string(), regex }),
        Err(e) => Err(e.to_string()),
    }
}

/// Runs `regex::bytes::Regex::is_match`. Trusted: the answer is what
/// `regex_is_match` names for the regex's pattern and this haystack.
#[verifier::external_body]
fn run_is_match(re: &CompiledRegex, haystack: &[u8]) -> (b: bool)
    ensures
        b == regex_is_match(re@, haystack@),
{
    re.regex.is_match(haystack)
}

impl CompiledRegex {
    /// Compiles `pattern`; on failure returns the regex crate's error text.
    pub fn new(pattern: &str) -> (r: Result<CompiledRegex, String>)
        ensures
            match r {
                Ok(re) => regex_build_error(pattern@) is None && re@ == pattern@,
                Err(msg) => regex_build_error(pattern@) == Some(msg@),
            },
    {
        build_regex(pattern)
    }

    /// Whether the regex matches somewhere in `haystack`.
    pub fn is_match(&self, haystack: &[u8]) -> (b: bool)
        ensures
            b == regex_is_match(self@, haystack@),
    {
        run_is_match(self, haystack)
    }

    /// The pattern this regex was built from.
    pub fn as_str(&self) -> (s: &str)
        ensures
            s@ == self@,
    {
        self.pattern.as_str()
    }
}

} // verus!
