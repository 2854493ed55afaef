//! Compiled selection patterns.
//!
//! Selections match a regular expression against every unified key.
//! The regex engine is outside code; what the library relies on is that
//! compilation and matching are deterministic functions of the pattern
//! text and the haystack, named here and trusted.

use vstd::prelude::*;
use crate::Error;

verus! {

#[verifier::external_type_specification]
#[verifier::external_body]
pub struct ExRegex(regex::Regex);

/// Whether the regex engine's default configuration accepts `pattern`.
pub uninterp spec fn regex_valid(pattern: Seq<char>) -> bool;

/// Whether the regex compiled from `pattern` matches anywhere in `text`.
pub uninterp spec fn regex_match(pattern: Seq<char>, text: Seq<char>) -> bool;

/// A compiled pattern, keeping the text it was compiled from. The
/// private `re` field is always `regex::Regex::new` applied to the
/// private `pattern` field, so a match result is a function of the
/// pattern text and the haystack.
pub struct Matcher {
    re: regex::Regex,
    pattern: String,
}

impl Matcher {
    /// The pattern text this matcher was compiled from.
    pub closed spec fn pat(&self) -> Seq<char> {
        self.pattern@
    }

    /// Relies on `regex::Regex::new`: compilation succeeds or fails as
    /// a deterministic function of the pattern text alone, and never
    /// panics.
    #[verifier::external_body]
    pub fn new(pattern: &str) -> (r: Result<Matcher, Error>)
        ensures
            r is Ok <==> regex_valid(pattern@),
            r is Ok ==> r->Ok_0.pat() == pattern@,
            r is Err ==> r->Err_0 == Error::InvalidPattern,
    {
        match regex::Regex::new(pattern) {
            Ok(re) => Ok(Matcher { re, pattern: pattern.to_owned() }),
            Err(_) => Err(Error::InvalidPattern),
        }
    }

    /// Relies on `regex::Regex::is_match`: whether there is a match
    /// anywhere in `text`, a deterministic function of the compiled
    /// pattern and the text, and never a panic.
    #[verifier::external_body]
    pub fn is_match(&self, text: &str) -> (r: bool)
        ensures
            r == regex_match(self.pat(), text@),
    {
        self.re.is_match(text)
    }
}

} // verus!
