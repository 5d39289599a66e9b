//! Compiled file-name patterns and the key each pattern extracts from a name.

use vstd::prelude::*;
use crate::patterns::compiled::{regex_captures, regex_new};
use crate::text::has_substring;

pub mod compiled;

pub use crate::patterns::compiled::CompiledPattern;

verus! {

#[verifier::external_type_specification]
#[verifier::external_body]
pub struct ExRegex(regex::Regex);

#[verifier::external_type_specification]
#[verifier::external_body]
pub struct ExRegexError(regex::Error);

/// What `regex::Regex::new` decides on `pattern` (default limits): `None` when
/// it builds the regex; otherwise the reason as `(too_big, message, limit)`:
/// `(false, m, 0)` for a syntax error with message `m`, `(true, empty, l)` when
/// the compiled program would exceed the size limit `l`.
pub uninterp spec fn regex_refusal(pattern: Seq<char>) -> Option<(bool, Seq<char>, nat)>;

/// Whether `regex::Regex::new` accepts `pattern` (valid syntax, within the
/// default size limit).
pub open spec fn regex_accepts(pattern: Seq<char>) -> bool {
    regex_refusal(pattern) is None
}

/// What `Regex::captures` reports for the first match of the regex built from
/// `pattern` in `text`: `None` when there is no match, otherwise the number of
/// capture groups of the regex (group 0 included), the text of group 1 if it
/// took part in the match, and the text of the whole match.
pub uninterp spec fn regex_first_captures(pattern: Seq<char>, text: Seq<char>) -> Option<
    (nat, Option<Seq<char>>, Seq<char>),
>;

/// Why a pattern was refused.
pub enum RegexFailure {
    /// The pattern is not valid regex syntax; the parser's message.
    Syntax(String),
    /// The compiled regex would exceed the size limit (in bytes).
    CompiledTooBig(usize),
}

/// A pattern that was refused, with the reason.
pub struct PatternError {
    pub pattern: String,
    pub reason: RegexFailure,
}

impl RegexFailure {
    /// The reason as plain values, in the layout of `regex_refusal`.
    pub open spec fn reason_view(&self) -> (bool, Seq<char>, nat) {
        match self {
            RegexFailure::Syntax(m) => (false, m@, 0),
            RegexFailure::CompiledTooBig(l) => (true, Seq::empty(), *l as nat),
        }
    }
}

/// The plain-value reading of a captures result.
pub open spec fn captures_view(c: Option<(usize, Option<String>, String)>) -> Option<
    (nat, Option<Seq<char>>, Seq<char>),
> {
    match c {
        Some(t) => Some(
            (
                t.0 as nat,
                match t.1 {
                    Some(g) => Some(g@),
                    None => None,
                },
                t.2@,
            ),
        ),
        None => None,
    }
}

/// The key a pattern with capture groups takes from `name`: `Some(Some(k))`
/// with `k` the text of group 1, `Some(None)` when the regex matches but group
/// 1 stays out of the match (a case the cleaner cannot handle), `None` when
/// the regex does not match or has no capture group.
pub open spec fn key_for(pattern: Seq<char>, name: Seq<char>) -> Option<Option<Seq<char>>> {
    match regex_first_captures(pattern, name) {
        Some(c) => if c.0 > 1 {
            Some(c.1)
        } else {
            None
        },
        None => None,
    }
}

/// A pattern without capture groups matches `name`: such a pattern puts every
/// name it matches into one group.
pub open spec fn whole_match(pattern: Seq<char>, name: Seq<char>) -> bool {
    regex_first_captures(pattern, name) matches Some(c) && c.0 <= 1
}

/// What a pattern makes of a name.
pub enum Probe {
    /// The regex does not match.
    NoMatch,
    /// The regex has no capture group and matches.
    Whole,
    /// The regex has capture groups and matches; the text of group 1.
    Key(String),
    /// The regex has capture groups and matches, but group 1 stays out of the
    /// match.
    MissingGroup,
}

impl CompiledPattern {
    /// Builds the regex for `source`; refused exactly when the regex crate
    /// refuses the pattern.
    pub fn compile(source: String) -> (res: Result<CompiledPattern, PatternError>)
        ensures
            res is Ok <==> regex_accepts(source@),
            res matches Ok(p) ==> p@ == source@,
            res matches Err(e) ==> e.pattern@ == source@ && regex_refusal(source@) == Some(
                e.reason.reason_view(),
            ),
    {
        let pattern = source.clone();
        match regex_new(source) {
            Ok(compiled) => Ok(compiled),
            Err(reason) => Err(PatternError { pattern, reason }),
        }
    }

    /// What this pattern makes of `name`.
    pub fn probe(&self, name: &str) -> (res: Probe)
        ensures
            match res {
                Probe::NoMatch => regex_first_captures(self@, name@) is None,
                Probe::Whole => regex_first_captures(self@, name@) matches Some(c) && c.0 <= 1,
                Probe::Key(k) => regex_first_captures(self@, name@) matches Some(c) && c.0 > 1
                    && c.1 == Some(k@) && has_substring(name@, k@),
                Probe::MissingGroup => regex_first_captures(self@, name@) matches Some(c) && c.0
                    > 1 && c.1 is None,
            },
    {
        match regex_captures(self, name) {
            Some(c) => {
                let (groups, first, _whole) = c;
                if groups > 1 {
                    match first {
                        Some(g) => Probe::Key(g),
                        None => Probe::MissingGroup,
                    }
                } else {
                    Probe::Whole
                }
            },
            None => Probe::NoMatch,
        }
    }
}

/// Compiles every pattern, keeping the accepted ones in order and reporting
/// each refused one.
pub fn compile_patterns(patterns: &Vec<String>) -> (res: (Vec<CompiledPattern>, Vec<PatternError>))
    ensures
        res.0@.map_values(|p: CompiledPattern| p@) == patterns@.map_values(|s: String| s@).filter(
            |s: Seq<char>| regex_accepts(s),
        ),
        res.1@.map_values(|e: PatternError| e.pattern@) == patterns@.map_values(
            |s: String| s@,
        ).filter(|s: Seq<char>| !regex_accepts(s)),
        forall|k: int|
            0 <= k < res.1@.len() ==> regex_refusal(#[trigger] res.1@[k].pattern@) == Some(
                res.1@[k].reason.reason_view(),
            ),
{
    let mut ok: Vec<CompiledPattern> = Vec::new();
    let mut bad: Vec<PatternError> = Vec::new();
    let ghost srcs = patterns@.map_values(|s: String| s@);
    let ghost acc = |s: Seq<char>| regex_accepts(s);
    let ghost rej = |s: Seq<char>| !regex_accepts(s);
    for i in 0..patterns.len()
        invariant
            srcs == patterns@.map_values(|s: String| s@),
            acc == (|s: Seq<char>| regex_accepts(s)),
            rej == (|s: Seq<char>| !regex_accepts(s)),
            ok@.map_values(|p: CompiledPattern| p@) == srcs.take(i as int).filter(acc),
            bad@.map_values(|e: PatternError| e.pattern@) == srcs.take(i as int).filter(rej),
            forall|k: int|
                0 <= k < bad@.len() ==> regex_refusal(#[trigger] bad@[k].pattern@) == Some(
                    bad@[k].reason.reason_view(),
                ),
    {
        let ghost prev_ok = ok@.map_values(|p: CompiledPattern| p@);
        let ghost prev_bad = bad@.map_values(|e: PatternError| e.pattern@);
        match CompiledPattern::compile(patterns[i].clone()) {
            Ok(p) => ok.push(p),
            Err(e) => bad.push(e),
        }
        proof {
            reveal(Seq::filter);
            assert(srcs.take(i + 1).drop_last() =~= srcs.take(i as int));
            assert(srcs.take(i + 1).last() == srcs[i as int]);
            assert(ok@.map_values(|p: CompiledPattern| p@) =~= srcs.take(i + 1).filter(acc));
            assert(bad@.map_values(|e: PatternError| e.pattern@) =~= srcs.take(i + 1).filter(rej));
        }
    }
    proof {
        assert(srcs.take(patterns@.len() as int) =~= srcs);
    }
    (ok, bad)
}

} // verus!
