//! Regular-expression patterns, compiled once by the `regex` crate and then
//! matched against many lines.

use vstd::prelude::*;

verus! {

/// `regex::Regex`, carried as an opaque value.
#[verifier::external_type_specification]
#[verifier::external_body]
pub struct ExRegex(regex::Regex);

/// Whether `regex::Regex::new` accepts `pattern`.
pub uninterp spec fn regex_compiles(pattern: Seq<char>) -> bool;

/// Whether the regex compiled from `pattern` matches somewhere in `haystack`
/// (`regex::Regex::is_match`).
pub uninterp spec fn regex_finds(pattern: Seq<char>, haystack: Seq<char>) -> bool;

/// A compiled regular expression together with its source text; its view is
/// the source text. Only `compile` builds one, so `regex` is always the regex
/// compiled from `source`.
pub struct Pattern {
    source: String,
    regex: regex::Regex,
}

impl View for Pattern {
    type V = Seq<char>;

    closed spec fn view(&self) -> Seq<char> {
        self.source@
    }
}

impl Pattern {
    /// Compiles `source` with `regex::Regex::new`. Trusted: the result is
    /// `Some` exactly when `Regex::new` returns `Ok`, and then carries
    /// `source` as its source text.
    #[verifier::external_body]
    pub(crate) fn compile(source: &str) -> (r: Option<Pattern>)
        ensures
            r is Some <==> regex_compiles(source@),
            r matches Some(p) ==> p@ == source@,
    {
        match regex::Regex::new(source) {
            Ok(regex) => Some(Pattern { source: source.to_string(), regex }),
            Err(_) => None,
        }
    }

    /// Calls `regex::Regex::is_match` on the compiled regex. Trusted: the
    /// answer is the one `regex_finds` names for this pattern's source text and
    /// `haystack`.
    #[verifier::external_body]
    pub(crate) fn is_match(&self, haystack: &str) -> (r: bool)
        ensures
            r == regex_finds(self@, haystack@),
    {
        self.regex.is_match(haystack)
    }
}

/// Why a filter could not run.
#[derive(Debug, Clone, Copy, PartialEq, Eq, Structural)]
pub enum FilterError {
    /// One of the filter's patterns is not a regular expression that
    /// `regex::Regex::new` accepts.
    InvalidPattern,
}

} // verus!
