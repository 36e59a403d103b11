//! Regular expressions over field paths, matched with the `regex` crate.

use vstd::prelude::*;

verus! {

#[verifier::external_type_specification]
#[verifier::external_body]
pub struct ExRegex(regex::Regex);

#[verifier::external_type_specification]
#[verifier::external_body]
pub struct ExRegexError(regex::Error);

/// Whether `regex::Regex::new` accepts the pattern.
pub uninterp spec fn regex_compiles(pattern: Seq<char>) -> bool;

/// Whether the compiled pattern matches somewhere in `text`, as
/// `regex::Regex::is_match` answers.
pub uninterp spec fn regex_match(pattern: Seq<char>, text: Seq<char>) -> bool;

/// `regex::Regex::new`: compiles the pattern, or gives an error for an
/// invalid pattern or one over the size limit. The contract ties success to
/// the named predicate; what is matched is stated by `Pattern::is_match`.
#[verifier::external_body]
fn compile_regex(pattern: &str) -> (r: Result<regex::Regex, regex::Error>)
    ensures
        r is Ok <==> regex_compiles(pattern@),
{
    regex::Regex::new(pattern)
}

/// A compiled regular expression together with its source text.
pub struct Pattern {
    source: String,
    compiled: regex::Regex,
}

impl Pattern {
    /// The source text of the pattern.
    pub closed spec fn source(&self) -> Seq<char> {
        self.source@
    }

    /// Compiles `source`; nothing when it is not a valid pattern.
    pub fn new(source: &str) -> (r: Option<Pattern>)
        ensures
            r is Some <==> regex_compiles(source@),
            r matches Some(p) ==> p.source() == source@,
    {
        match compile_regex(source) {
            Ok(compiled) => Some(Pattern { source: crate::text::owned(source), compiled }),
            Err(_) => None,
        }
    }

    /// `regex::Regex::is_match`: whether the pattern matches anywhere in
    /// `text`. A `Pattern` is only ever built by `Pattern::new`, so the
    /// compiled regex is the one of `source`; the contract names the answer.
    #[verifier::external_body]
    pub fn is_match(&self, text: &str) -> (b: bool)
        ensures
            b == regex_match(self.source(), text@),
    {
        self.compiled.is_match(text)
    }
}

/// Whether `pattern` matches somewhere in `text`; nothing when the pattern
/// does not compile.
pub fn regex_matches(pattern: &str, text: &str) -> (r: Option<bool>)
    ensures
        r is Some <==> regex_compiles(pattern@),
        r matches Some(b) ==> b == regex_match(pattern@, text@),
{
    match Pattern::new(pattern) {
        Some(p) => Some(p.is_match(text)),
        None => None,
    }
}

} // verus!
