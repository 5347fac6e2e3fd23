//! The regular-expression engine that the tokenizer's patterns run on.
//!
//! Nothing in this module is proved: each function hands one call to the
//! `regex` crate, and its contract records what that crate documents. What a
//! search finds is not modelled; it is named, as a function of the pattern
//! and the text searched, so that the tokenizer can state exactly what it
//! does with the answer.

use regex::Regex;
use vstd::prelude::*;
use vstd::utf8::*;

verus! {

/// A compiled expression of the `regex` crate. Nothing inside it is visible
/// here; what it stands for is named by [`regex_pattern`].
#[verifier::external_type_specification]
#[verifier::external_body]
pub struct ExRegex(regex::Regex);

/// The reason for which the `regex` crate turns a pattern down.
#[verifier::external_type_specification]
#[verifier::external_body]
pub struct ExRegexError(regex::Error);

/// The pattern text that `re` was compiled from: what `Regex::as_str` returns.
pub uninterp spec fn regex_pattern(re: Regex) -> Seq<char>;

/// Whether `Regex::new` accepts `pattern`.
pub uninterp spec fn regex_compiles(pattern: Seq<char>) -> bool;

/// What `Regex::captures` finds when an expression compiled from `pattern`
/// by `Regex::new` searches `text`: nothing, or the byte offsets at which the
/// leftmost match starts and ends, and the text of its first capture group
/// if the pattern has one and it took part in the match.
pub uninterp spec fn regex_captures(pattern: Seq<char>, text: Seq<char>) -> Option<
    (nat, nat, Option<Seq<char>>),
>;

/// One match of a pattern in a text.
pub struct Found {
    /// Byte offset at which the match starts.
    pub start: usize,
    /// Byte offset just behind the match.
    pub end: usize,
    /// Text of the first capture group, if it took part in the match.
    pub group: Option<String>,
}

impl Found {
    pub open spec fn view(&self) -> (nat, nat, Option<Seq<char>>) {
        (
            self.start as nat,
            self.end as nat,
            match self.group {
                Some(g) => Some(g@),
                None => None,
            },
        )
    }
}

/// The view of an optional match.
pub open spec fn found_view(found: Option<Found>) -> Option<(nat, nat, Option<Seq<char>>)> {
    match found {
        Some(f) => Some(f@),
        None => None,
    }
}

/// Calls `Regex::new`. The contract claims that success depends on the
/// pattern alone, and that the compiled expression remembers the pattern it
/// was given.
#[verifier::external_body]
pub(crate) fn compile(pattern: &str) -> (r: Result<Regex, regex::Error>)
    ensures
        r is Ok == regex_compiles(pattern@),
        r matches Ok(re) ==> regex_pattern(re) == pattern@,
{
    Regex::new(pattern)
}

/// Calls `Regex::clone`. The contract claims that the copy stands for the
/// same pattern.
#[verifier::external_body]
pub(crate) fn duplicate(re: &Regex) -> (r: Regex)
    ensures
        regex_pattern(r) == regex_pattern(*re),
{
    re.clone()
}

/// Calls `Regex::captures` and reads the overall match and the first capture
/// group off the answer. The contract claims that the answer depends on the
/// pattern and the text alone (every expression of this library is built by
/// `compile`, with the crate's default options), that a match ends inside the
/// text, and that its end does not fall inside a character.
#[verifier::external_body]
pub(crate) fn captures(re: &Regex, text: &str) -> (r: Option<Found>)
    ensures
        found_view(r) == regex_captures(regex_pattern(*re), text@),
        r matches Some(f) ==> f.end <= encode_utf8(text@).len() && is_char_boundary(
            encode_utf8(text@),
            f.end as int,
        ),
{
    match re.captures(text) {
        Some(c) => Some(
            Found {
                start: c.get_match().start(),
                end: c.get_match().end(),
                group: c.get(1).map(|g| g.as_str().to_string()),
            },
        ),
        None => None,
    }
}

} // verus!
