//! Regular expressions that titles are matched against.

use vstd::prelude::*;

verus! {

/// The compiled form of a regular expression.
#[verifier::external_type_specification]
#[verifier::external_body]
pub struct ExRegex(regex::Regex);

/// Whether a regular expression matches anywhere in a text.
pub uninterp spec fn regex_matches(pattern: Seq<char>, text: Seq<char>) -> bool;

/// A regular expression, compiled, along with the text it was compiled from. The only way to make one
/// is to compile it, so the two always go together.
#[derive(Debug)]
pub struct Pattern {
    re: regex::Regex,
    text: String,
}

impl View for Pattern {
    type V = Seq<char>;

    /// The text the pattern was compiled from.
    closed spec fn view(&self) -> Seq<char> {
        self.text@
    }
}

/// Calls `Regex::new`, and keeps the text alongside what comes of it. It may turn a pattern down for
/// the size it compiles to on this machine, so nothing is said of when that is, nor of the message
/// that then comes back.
#[verifier::external_body]
fn compile(text: &str) -> (r: Result<Pattern, String>)
    ensures
        r is Ok ==> r->Ok_0@ == text@,
{
    match regex::Regex::new(text) {
        Ok(re) => Ok(Pattern { re, text: text.to_string() }),
        Err(e) => Err(e.to_string()),
    }
}

/// Calls `Regex::is_match`. Whether the pattern matches anywhere in the title depends on the text it
/// was compiled from and the title alone.
#[verifier::external_body]
fn matches_title(pattern: &Pattern, title: &str) -> (r: bool)
    ensures
        r == regex_matches(pattern@, title@),
{
    pattern.re.is_match(title)
}

impl Pattern {
    /// Compiles a pattern, or says what's wrong with it.
    pub fn new(text: &str) -> (r: Result<Self, String>)
        ensures
            r is Ok ==> r->Ok_0@ == text@,
    {
        compile(text)
    }

    /// Returns true if the pattern matches anywhere in a title.
    pub fn is_match(&self, title: &str) -> (r: bool)
        ensures
            r == regex_matches(self@, title@),
    {
        matches_title(self, title)
    }
}

} // verus!
