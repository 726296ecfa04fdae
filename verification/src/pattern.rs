//! Matching a line of text against a pattern.
//!
//! A pattern is compiled once and then searched for in as many texts as there
//! are. Compiling and searching are the work of the `regex` crate; what they
//! come to is given a name here and not proved.

use vstd::prelude::*;

verus! {

/// The compiled patterns of the `regex` crate.
#[verifier::external_type_specification]
#[verifier::external_body]
pub struct ExRegex(regex::Regex);

/// The errors of the `regex` crate.
#[verifier::external_type_specification]
#[verifier::external_body]
pub struct ExRegexError(regex::Error);

/// Whether the text `pattern` is a pattern that can be compiled.
pub uninterp spec fn regex_accepts(pattern: Seq<char>) -> bool;

/// What the first capture group of the pattern `pattern` holds in the
/// leftmost match of the pattern in `text`; nothing where the pattern does
/// not match or the group takes no part in the match.
pub uninterp spec fn regex_first_group(pattern: Seq<char>, text: Seq<char>) -> Option<Seq<char>>;

/// The view of a string that may be absent.
pub open spec fn text_of(s: Option<String>) -> Option<Seq<char>> {
    match s {
        Some(s) => Some(s@),
        None => None,
    }
}

/// A pattern in compiled form, with the text it was compiled from. A value
/// is made by [`Pattern::compile`] alone, so the two always belong together.
#[derive(Debug)]
pub struct Pattern {
    regex: regex::Regex,
    source: String,
}

impl View for Pattern {
    type V = Seq<char>;

    closed spec fn view(&self) -> Seq<char> {
        self.source@
    }
}

impl Pattern {
    /// Compiles `source` with `regex::Regex::new` and keeps the text beside
    /// the compiled form.
    ///
    /// Believed, not proved: whether `Regex::new` accepts a text depends on
    /// the text alone, and the value returned is the pattern of that text.
    #[verifier::external_body]
    pub(crate) fn compile(source: &str) -> (r: Result<Pattern, regex::Error>)
        ensures
            r is Ok <==> regex_accepts(source@),
            r matches Ok(pattern) ==> pattern@ == source@,
    {
        match regex::Regex::new(source) {
            Ok(regex) => Ok(Pattern { regex, source: source.to_string() }),
            Err(e) => Err(e),
        }
    }

    /// Searches `text` with `Regex::captures`; of the match found,
    /// `Captures::get(1)` gives the first group and `Match::as_str` its text.
    ///
    /// Believed, not proved: the result is the text of the first group in the
    /// leftmost match, which depends on the pattern and the text alone.
    #[verifier::external_body]
    pub(crate) fn first_group(&self, text: &str) -> (r: Option<String>)
        ensures
            text_of(r) == regex_first_group(self@, text@),
    {
        match self.regex.captures(text) {
            Some(captures) => match captures.get(1) {
                Some(m) => Some(m.as_str().to_string()),
                None => None,
            },
            None => None,
        }
    }
}

} // verus!
