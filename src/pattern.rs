//! The regex engine, as this library uses it: compiling a pattern, and the
//! capture spans of every match in a document.

use crate::replace::{capture_lists, captures_ok, Span};
use crate::types::Error;
use vstd::prelude::*;

verus! {

#[verifier::external_type_specification]
#[verifier::external_body]
pub struct ExRegex(regex::bytes::Regex);

/// Whether the regex engine accepts `pattern`.
pub uninterp spec fn compiles(pattern: Seq<char>) -> bool;

/// The capture spans of every match of `pattern` in `haystack`, leftmost
/// first, as the regex engine finds them.
pub uninterp spec fn matches_of(pattern: Seq<char>, haystack: Seq<u8>) -> Seq<Seq<Span>>;

/// A compiled pattern together with the text it was compiled from. Built only
/// by [`compile_pattern`], so `regex` is always the compilation of `source`.
pub struct Pattern {
    regex: regex::bytes::Regex,
    source: String,
}

impl View for Pattern {
    type V = Seq<char>;

    /// The pattern text.
    closed spec fn view(&self) -> Seq<char> {
        self.source@
    }
}

/// Relies on `regex::bytes::Regex::new`: compiles `pattern`, or gives the
/// engine's message for why it cannot. The verdict depends on the pattern
/// text alone.
#[verifier::external_body]
fn compile(pattern: &str) -> (r: Result<regex::bytes::Regex, String>)
    ensures
        r is Ok <==> compiles(pattern@),
{
    regex::bytes::Regex::new(pattern).map_err(|e| e.to_string())
}

/// Compiles a pattern; a pattern the engine refuses is a configuration error.
pub fn compile_pattern(pattern: &str) -> (r: Result<Pattern, Error>)
    ensures
        r is Ok <==> compiles(pattern@),
        r is Ok ==> r->Ok_0@ == pattern@,
        r is Err ==> r->Err_0 is InvalidPattern,
{
    match compile(pattern) {
        Ok(regex) => {
            let source = pattern.to_owned();
            let p = Pattern { regex, source };
            assert(p@ == pattern@);
            Ok(p)
        },
        Err(msg) => Err(Error::InvalidPattern(msg)),
    }
}

/// Relies on `regex::bytes::Regex::captures_iter`: the successive
/// non-overlapping matches of the pattern in `haystack`, leftmost first. Each
/// match gives the span of every group, `None` for a group that did not take
/// part; group 0 is the whole match and holds the others. The result depends
/// on the pattern text and the haystack alone.
#[verifier::external_body]
pub(crate) fn captures_all(p: &Pattern, haystack: &[u8]) -> (r: Vec<Vec<Span>>)
    ensures
        capture_lists(r@) == matches_of(p@, haystack@),
        captures_ok(capture_lists(r@), haystack@.len() as int),
{
    p.regex.captures_iter(haystack).map(
        |caps| caps.iter().map(|m| m.map(|m| (m.start(), m.end()))).collect(),
    ).collect()
}

} // verus!
