//! Regular expressions, compiled and run by the `regex` crate.
use vstd::prelude::*;

verus! {

#[verifier::external_type_specification]
#[verifier::external_body]
pub struct ExRegex(regex::Regex);

/// What `regex::Regex::new(pattern)` answers: `None` when the pattern
/// compiles, else the text of its error.
pub uninterp spec fn regex_compile_error(pattern: Seq<char>) -> Option<Seq<char>>;

/// What `regex::Regex::is_match(text)` answers for the expression compiled
/// from `pattern`: whether it matches somewhere in `text`.
pub uninterp spec fn regex_finds(pattern: Seq<char>, text: Seq<char>) -> bool;

/// A compiled regular expression together with the pattern it was compiled
/// from.
pub struct Pattern {
    re: regex::Regex,
    source: Ghost<Seq<char>>,
}

impl View for Pattern {
    type V = Seq<char>;

    closed spec fn view(&self) -> Seq<char> {
        self.source@
    }
}

impl Pattern {
    /// Calls `regex::Regex::new`. Claimed: the call succeeds exactly when the
    /// pattern compiles, and then holds that pattern; otherwise the error's
    /// `Display` text is returned. Which patterns compile, and with which
    /// message, is left to the crate and only named here.
    #[verifier::external_body]
    pub(crate) fn compile(pattern: &str) -> (r: Result<Pattern, String>)
        ensures
            match r {
                Ok(p) => p@ == pattern@ && regex_compile_error(pattern@) is None,
                Err(m) => regex_compile_error(pattern@) == Some(m@),
            },
    {
        match regex::Regex::new(pattern) {
            Ok(re) => Ok(Pattern { re, source: Ghost(pattern@) }),
            Err(e) => Err(e.to_string()),
        }
    }

    /// Calls `regex::Regex::is_match`. Claimed: the answer depends only on
    /// the compiled pattern and the text; the matching rules themselves are
    /// only named.
    #[verifier::external_body]
    pub(crate) fn is_match(&self, text: &str) -> (r: bool)
        ensures
            r == regex_finds(self@, text@),
    {
        self.re.is_match(text)
    }
}

} // verus!
