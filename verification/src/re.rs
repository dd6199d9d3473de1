//! Regular expressions, through the `regex` crate: the search filter and a few fixed patterns.
use crate::text::views;
use regex::{Regex, RegexBuilder, RegexSet, RegexSetBuilder};
use vstd::prelude::*;

verus! {

#[verifier::external_type_specification]
#[verifier::external_body]
pub struct ExRegex(regex::Regex);

#[verifier::external_type_specification]
#[verifier::external_body]
pub struct ExRegexSet(regex::RegexSet);

#[verifier::external_type_specification]
#[verifier::external_body]
pub struct ExRegexError(regex::Error);

/// Whether `RegexBuilder::new(pattern).case_insensitive(true).build()` succeeds.
pub uninterp spec fn ci_regex_compiles(pattern: Seq<char>) -> bool;

/// Whether the case-insensitive regex `pattern` matches somewhere in `text` (`Regex::is_match`).
pub uninterp spec fn ci_regex_matches(pattern: Seq<char>, text: Seq<char>) -> bool;

/// Whether `RegexSetBuilder::new(patterns).case_insensitive(true).build()` succeeds.
pub uninterp spec fn ci_regex_set_compiles(patterns: Seq<Seq<char>>) -> bool;

/// Whether `Regex::new(pattern)` succeeds.
pub uninterp spec fn regex_compiles(pattern: Seq<char>) -> bool;

/// A regex, with the pattern it was built from.
pub struct PlainRegex {
    pub(crate) re: Regex,
    pattern: Ghost<Seq<char>>,
}

impl PlainRegex {
    /// The pattern this regex was built from.
    pub closed spec fn pattern(&self) -> Seq<char> {
        self.pattern@
    }
}

/// Builds a regex (`Regex::new`); the error is the crate's.
#[verifier::external_body]
pub(crate) fn regex_new(pattern: &str) -> (r: Result<PlainRegex, regex::Error>)
    ensures
        r is Ok <==> regex_compiles(pattern@),
        r matches Ok(c) ==> c.pattern() == pattern@,
{
    let re = Regex::new(pattern)?;
    Ok(PlainRegex { re, pattern: Ghost(pattern@) })
}

/// A case-insensitive regex, with the pattern it was built from.
pub struct CiRegex {
    re: Regex,
    pattern: Ghost<Seq<char>>,
}

impl CiRegex {
    /// The pattern this regex was built from.
    pub closed spec fn pattern(&self) -> Seq<char> {
        self.pattern@
    }
}

/// A set of case-insensitive regexes, with the patterns it was built from.
pub struct CiRegexSet {
    set: RegexSet,
    patterns: Ghost<Seq<Seq<char>>>,
}

impl CiRegexSet {
    /// The patterns this set was built from.
    pub closed spec fn patterns(&self) -> Seq<Seq<char>> {
        self.patterns@
    }
}

/// Builds a case-insensitive regex (`RegexBuilder::build`); the error is the crate's.
#[verifier::external_body]
pub(crate) fn ci_regex_new(pattern: &str) -> (r: Result<CiRegex, regex::Error>)
    ensures
        r is Ok <==> ci_regex_compiles(pattern@),
        r matches Ok(c) ==> c.pattern() == pattern@,
{
    let re = RegexBuilder::new(pattern).case_insensitive(true).build()?;
    Ok(CiRegex { re, pattern: Ghost(pattern@) })
}

/// Whether the regex matches anywhere in `text` (`Regex::is_match`).
#[verifier::external_body]
pub(crate) fn ci_regex_is_match(r: &CiRegex, text: &str) -> (b: bool)
    ensures
        b == ci_regex_matches(r.pattern(), text@),
{
    r.re.is_match(text)
}

/// Builds a set of case-insensitive regexes (`RegexSetBuilder::build`).
#[verifier::external_body]
pub(crate) fn ci_regex_set_new(patterns: &Vec<String>) -> (r: Result<CiRegexSet, regex::Error>)
    ensures
        r is Ok <==> ci_regex_set_compiles(views(patterns@)),
        r matches Ok(c) ==> c.patterns() == views(patterns@),
{
    let set = RegexSetBuilder::new(patterns).case_insensitive(true).build()?;
    Ok(CiRegexSet { set, patterns: Ghost(views(patterns@)) })
}

/// Whether one of the regexes of the set matches anywhere in `text` (`RegexSet::is_match`).
#[verifier::external_body]
pub(crate) fn ci_regex_set_is_match(r: &CiRegexSet, text: &str) -> (b: bool)
    ensures
        b == (exists|i: int|
            0 <= i < r.patterns().len() && ci_regex_matches(r.patterns()[i], text@)),
{
    r.set.is_match(text)
}

} // verus!
