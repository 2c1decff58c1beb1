//! The boundary to the `regex` crate: compiling a configured chapter pattern
//! and matching a filename against it. Everything the rest of the crate
//! learns from a match comes through the two named results below; all
//! decisions taken on a match are verified code outside this module.

use vstd::prelude::*;

verus! {

#[verifier::external_type_specification]
#[verifier::external_body]
pub struct ExRegex(regex::Regex);

/// Whether `regex::Regex::new` accepts the pattern; a function of the
/// pattern text alone.
pub uninterp spec fn regex_is_valid(pattern: Seq<char>) -> bool;

/// What matching a pattern against a text yields: `None` when the pattern
/// does not match, otherwise the text after the end of the leftmost match,
/// the text captured by the group named `c`, and the text captured by the
/// group named `v`. The regex crate documents matching as a function of the
/// pattern and the haystack alone.
pub uninterp spec fn regex_captures(pattern: Seq<char>, text: Seq<char>) -> Option<
    (Seq<char>, Option<Seq<char>>, Option<Seq<char>>),
>;

/// A compiled chapter pattern, remembering the text it was compiled from.
pub struct CompiledPattern {
    regex: regex::Regex,
    pattern: String,
}

impl CompiledPattern {
    /// The pattern text this value was compiled from.
    pub closed spec fn pattern_view(&self) -> Seq<char> {
        self.pattern@
    }

    /// Relies on `regex::Regex::new`: it returns `Ok` exactly on the
    /// patterns it accepts, and the compiled value matches as the pattern
    /// text prescribes. The error is reduced to its message.
    #[verifier::external_body]
    pub fn compile(pattern: &String) -> (r: Result<CompiledPattern, String>)
        ensures
            r is Ok <==> regex_is_valid(pattern@),
            r matches Ok(p) ==> p.pattern_view() == pattern@,
    {
        match regex::Regex::new(pattern.as_str()) {
            Ok(regex) => Ok(CompiledPattern { regex, pattern: pattern.clone() }),
            Err(e) => Err(e.to_string()),
        }
    }

    /// Relies on `regex::Regex::captures` (the leftmost match and its named
    /// groups), `regex::Captures::get`/`name`, and `regex::Match::end`/
    /// `as_str`: the outcome is a function of the pattern and the text.
    #[verifier::external_body]
    pub(crate) fn captures(&self, text: &String) -> (r: Option<RawCaptures>)
        ensures
            match r {
                Some(rc) => regex_captures(self.pattern_view(), text@) == Some(
                    (rc.after@, crate::text::view_opt(rc.c), crate::text::view_opt(rc.v)),
                ),
                None => regex_captures(self.pattern_view(), text@) is None,
            },
    {
        match self.regex.captures(text.as_str()) {
            None => None,
            Some(caps) => {
                let end = caps.get(0).unwrap().end();
                Some(RawCaptures {
                    after: text.as_str()[end..].to_string(),
                    c: caps.name("c").map(|m| m.as_str().to_string()),
                    v: caps.name("v").map(|m| m.as_str().to_string()),
                })
            },
        }
    }
}

/// What one match hands back: the text after the match and the two optional
/// named captures.
pub struct RawCaptures {
    pub after: String,
    pub c: Option<String>,
    pub v: Option<String>,
}

} // verus!
