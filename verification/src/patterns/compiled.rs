//! A regex that can only be had from `regex::Regex::new` on the very text it
//! is kept with.

use vstd::prelude::*;
use crate::patterns::{captures_view, regex_first_captures, regex_refusal, RegexFailure};
use crate::text::has_substring;

verus! {

/// A regex together with the pattern text it was built from. Its fields are
/// private to this module, and the one place that makes a value of it is
/// `regex_new`, from the text it hands to `regex::Regex::new`; so the regex is
/// always the one the crate builds from `source`.
pub struct CompiledPattern {
    source: String,
    regex: regex::Regex,
}

impl View for CompiledPattern {
    type V = Seq<char>;

    closed spec fn view(&self) -> Seq<char> {
        self.source@
    }
}

impl CompiledPattern {
    /// The pattern text this regex was built from.
    pub fn source(&self) -> (res: &str)
        ensures
            res@ == self@,
    {
        self.source.as_str()
    }
}

/// `regex::Regex::new` on `source`, kept together with `source`; its error read
/// out variant by variant (`regex::Error` is non-exhaustive: a later variant
/// would be reported as a syntax error with its display text; version 1.13 has
/// exactly the two). Claimed: the outcome and the reason are what
/// `regex_refusal` names for the text, and an accepted pattern keeps that very
/// text; the regex itself is opaque.
#[verifier::external_body]
pub(crate) fn regex_new(source: String) -> (res: Result<CompiledPattern, RegexFailure>)
    ensures
        res is Ok <==> regex_refusal(source@) is None,
        res matches Ok(p) ==> p@ == source@,
        res matches Err(f) ==> regex_refusal(source@) == Some(f.reason_view()),
{
    match regex::Regex::new(source.as_str()) {
        Ok(regex) => Ok(CompiledPattern { source, regex }),
        Err(regex::Error::Syntax(msg)) => Err(RegexFailure::Syntax(msg)),
        Err(regex::Error::CompiledTooBig(limit)) => Err(RegexFailure::CompiledTooBig(limit)),
        Err(other) => Err(RegexFailure::Syntax(other.to_string())),
    }
}

/// `regex::Regex::captures` on `text`, read out as plain values: the number of
/// groups (`Captures::len`), group 1 (`Captures::get(1)`) and the whole match
/// (`Captures::get_match`). Claimed: the triple is what `regex_first_captures`
/// names for the pattern the regex was built from, the group count is at
/// least one (group 0 is always present, as the crate documents), and the
/// whole match and group 1 are pieces of `text` (`Match::as_str` slices the
/// haystack).
#[verifier::external_body]
pub(crate) fn regex_captures(pattern: &CompiledPattern, text: &str) -> (res: Option<
    (usize, Option<String>, String),
>)
    ensures
        captures_view(res) == regex_first_captures(pattern@, text@),
        res matches Some(c) ==> c.0 >= 1 && has_substring(text@, c.2@) && (c.1 matches Some(g)
            ==> has_substring(text@, g@)),
{
    match pattern.regex.captures(text) {
        Some(caps) => Some(
            (
                caps.len(),
                match caps.get(1) {
                    Some(m) => Some(m.as_str().to_string()),
                    None => None,
                },
                caps.get_match().as_str().to_string(),
            ),
        ),
        None => None,
    }
}

} // verus!
