//! Compiled patterns. Matching is done by the `regex` crate and, for patterns
//! with back-references, by `fancy_regex`; a pattern keeps its source text so
//! that contracts can speak of what it matches.

use vstd::prelude::*;

verus! {

#[verifier::external_type_specification]
#[verifier::external_body]
pub struct ExRegex(regex::Regex);

#[verifier::external_type_specification]
#[verifier::external_body]
pub struct ExFancyRegex(fancy_regex::Regex);

#[verifier::external_type_specification]
#[verifier::external_body]
pub struct ExFancyError(fancy_regex::Error);

/// Byte ranges of the capture groups of a match; group 0 is the whole match
/// and a group that took no part is `None`.
pub type Groups = Seq<Option<(usize, usize)>>;

/// The `regex` crate accepts the pattern.
pub uninterp spec fn regex_compiles(pattern: Seq<char>) -> bool;

/// The groups of the leftmost match of the pattern in the text, if any.
pub uninterp spec fn regex_captures(pattern: Seq<char>, text: Seq<char>) -> Option<Groups>;

/// The pattern matches somewhere in the text.
pub uninterp spec fn regex_is_match(pattern: Seq<char>, text: Seq<char>) -> bool;

/// `fancy_regex` accepts the pattern.
pub uninterp spec fn fancy_compiles(pattern: Seq<char>) -> bool;

/// The search of `fancy_regex` for the pattern in the text: `None` when the
/// search fails (its backtracking limit is reached), else the groups of the
/// leftmost match, if any.
pub uninterp spec fn fancy_captures(pattern: Seq<char>, text: Seq<char>) -> Option<Option<Groups>>;

/// The groups as sequences.
pub open spec fn groups_of(o: Option<Vec<Option<(usize, usize)>>>) -> Option<Groups> {
    match o {
        Some(g) => Some(g@),
        None => None,
    }
}

/// Relies on `regex::Regex::new`: whether the pattern compiles depends on the
/// pattern alone.
#[verifier::external_body]
fn regex_new(src: &str) -> (r: Option<regex::Regex>)
    ensures
        r is Some <==> regex_compiles(src@),
{
    regex::Regex::new(src).ok()
}

/// Relies on `fancy_regex::Regex::new`: whether the pattern compiles depends
/// on the pattern alone.
#[verifier::external_body]
fn fancy_new(src: &str) -> (r: Option<fancy_regex::Regex>)
    ensures
        r is Some <==> fancy_compiles(src@),
{
    fancy_regex::Regex::new(src).ok()
}

/// A regular expression of the `regex` crate with its source text.
pub struct Pattern {
    re: regex::Regex,
    src: String,
}

impl Pattern {
    /// The source text the pattern was compiled from.
    pub closed spec fn source(&self) -> Seq<char> {
        self.src@
    }

    /// Compiles `src`; `None` when the `regex` crate rejects it.
    pub fn new(src: &str) -> (r: Option<Self>)
        ensures
            r is Some <==> regex_compiles(src@),
            r matches Some(p) ==> p.source() == src@,
    {
        match regex_new(src) {
            Some(re) => Some(Pattern { re, src: src.to_owned() }),
            None => None,
        }
    }

    pub fn as_str(&self) -> (r: &str)
        ensures
            r@ == self.source(),
    {
        self.src.as_str()
    }

    /// Relies on `regex::Regex::captures`: the groups of the leftmost match as
    /// byte ranges. The regex was compiled from `self.src`, as `new` is the
    /// only constructor.
    #[verifier::external_body]
    pub(crate) fn captures(&self, text: &str) -> (r: Option<Vec<Option<(usize, usize)>>>)
        ensures
            groups_of(r) == regex_captures(self.source(), text@),
    {
        match self.re.captures(text) {
            Some(caps) => Some(caps.iter().map(|m| m.map(|m| (m.start(), m.end()))).collect()),
            None => None,
        }
    }

    /// Relies on `regex::Regex::is_match`: the regex, compiled from
    /// `self.src`, matches somewhere in the text.
    #[verifier::external_body]
    pub(crate) fn is_match(&self, text: &str) -> (r: bool)
        ensures
            r == regex_is_match(self.source(), text@),
    {
        self.re.is_match(text)
    }
}

/// A regular expression of `fancy_regex` with its source text.
pub struct FancyPattern {
    re: fancy_regex::Regex,
    src: String,
}

impl FancyPattern {
    /// The source text the pattern was compiled from.
    pub closed spec fn source(&self) -> Seq<char> {
        self.src@
    }

    /// Compiles `src`; `None` when `fancy_regex` rejects it.
    pub fn new(src: &str) -> (r: Option<Self>)
        ensures
            r is Some <==> fancy_compiles(src@),
            r matches Some(p) ==> p.source() == src@,
    {
        match fancy_new(src) {
            Some(re) => Some(FancyPattern { re, src: src.to_owned() }),
            None => None,
        }
    }

    /// Relies on `fancy_regex::Regex::captures`: the groups of the leftmost
    /// match as byte ranges, or the error of a failed search. The regex was
    /// compiled from `self.src`, as `new` is the only constructor.
    #[verifier::external_body]
    pub(crate) fn captures(&self, text: &str) -> (r: Result<
        Option<Vec<Option<(usize, usize)>>>,
        fancy_regex::Error,
    >)
        ensures
            match r {
                Ok(o) => fancy_captures(self.source(), text@) == Some(groups_of(o)),
                Err(_) => fancy_captures(self.source(), text@) is None,
            },
    {
        match self.re.captures(text) {
            Ok(Some(caps)) => Ok(Some(caps.iter().map(|m| m.map(|m| (m.start(), m.end()))).collect())),
            Ok(None) => Ok(None),
            Err(e) => Err(e),
        }
    }
}

} // verus!
