//! Name patterns: ASCII case-insensitive substrings, or regular expressions
//! compiled by the `regex` crate.
use vstd::prelude::*;
use crate::text::{contains, lower, str_contains, string_of, to_ascii_lowercase};

verus! {

#[verifier::external_type_specification]
#[verifier::external_body]
pub struct ExRegex(regex::Regex);

#[verifier::external_type_specification]
#[verifier::external_body]
pub struct ExRegexError(regex::Error);

/// Whether `regex::Regex::new` accepts a pattern.
pub uninterp spec fn regex_accepts(pattern: Seq<char>) -> bool;

/// Whether the regular expression `pattern` (compiled by `regex::Regex::new`)
/// matches somewhere in `hay`.
pub uninterp spec fn regex_matches(pattern: Seq<char>, hay: Seq<char>) -> bool;

/// A regular expression together with the pattern it was compiled from.
/// Only `compile_regex` builds one, so `re` is always `pattern` compiled.
#[derive(Debug)]
pub struct CompiledRegex {
    pattern: String,
    re: regex::Regex,
}

impl View for CompiledRegex {
    type V = Seq<char>;

    /// The pattern the expression was compiled from.
    closed spec fn view(&self) -> Seq<char> {
        self.pattern@
    }
}

/// `regex::Regex::new`: compiles a pattern with the default settings; it
/// fails exactly on the patterns that the crate does not accept, which
/// depends on the pattern alone. What the error holds is not stated.
#[verifier::external_body]
fn regex_new(pattern: &str) -> (r: Result<regex::Regex, regex::Error>)
    ensures
        r.is_ok() == regex_accepts(pattern@),
{
    regex::Regex::new(pattern)
}

/// `regex::Regex::is_match`: whether the expression matches somewhere in
/// the haystack, a function of the pattern and the haystack alone.
#[verifier::external_body]
fn regex_is_match(re: &CompiledRegex, hay: &str) -> (r: bool)
    ensures
        r == regex_matches(re@, hay@),
{
    re.re.is_match(hay)
}

/// The text of a `regex::Error` (its `Display`). Nothing is stated of it.
#[verifier::external_body]
pub(crate) fn regex_error_text(e: &regex::Error) -> String {
    e.to_string()
}

impl CompiledRegex {
    /// Compiles `pattern`; fails exactly when the regex crate rejects it.
    pub fn compile(pattern: &str) -> (r: Result<CompiledRegex, regex::Error>)
        ensures
            r.is_ok() == regex_accepts(pattern@),
            r matches Ok(c) ==> c@ == pattern@,
    {
        match regex_new(pattern) {
            Ok(re) => Ok(CompiledRegex { pattern: string_of(pattern), re }),
            Err(e) => Err(e),
        }
    }

    pub fn is_match(&self, hay: &str) -> (r: bool)
        ensures
            r == regex_matches(self@, hay@),
    {
        regex_is_match(self, hay)
    }

    /// The pattern this expression was compiled from.
    pub fn as_str(&self) -> (r: &str)
        ensures
            r@ == self@,
    {
        self.pattern.as_str()
    }
}

/// A name filter (`--thread`, `--include`, `--exclude`).
#[derive(Debug)]
pub enum FilterPat {
    /// An ASCII lower-cased substring, matched case-insensitively.
    Substr(String),
    Regex(CompiledRegex),
}

pub enum FilterPatModel {
    Substr(Seq<char>),
    Regex(Seq<char>),
}

impl View for FilterPat {
    type V = FilterPatModel;

    open spec fn view(&self) -> FilterPatModel {
        match self {
            FilterPat::Substr(s) => FilterPatModel::Substr(s@),
            FilterPat::Regex(r) => FilterPatModel::Regex(r@),
        }
    }
}

/// Whether a pattern matches a text: a substring pattern occurs in the
/// ASCII lower-cased text; a regular expression matches somewhere in it.
pub open spec fn pat_matches(p: FilterPatModel, hay: Seq<char>) -> bool {
    match p {
        FilterPatModel::Substr(s) => contains(lower(hay), s),
        FilterPatModel::Regex(r) => regex_matches(r, hay),
    }
}

/// The pattern that `compile_pat` makes of a text: the text as a regular
/// expression, or else the text ASCII lower-cased as a substring.
pub open spec fn compiled_pat(s: Seq<char>, regex: bool) -> FilterPatModel {
    if regex {
        FilterPatModel::Regex(s)
    } else {
        FilterPatModel::Substr(lower(s))
    }
}

impl FilterPat {
    pub fn is_match(&self, hay: &str) -> (r: bool)
        ensures
            r == pat_matches(self@, hay@),
    {
        match self {
            FilterPat::Substr(s) => {
                let h = to_ascii_lowercase(hay);
                str_contains(h.as_str(), s.as_str())
            },
            FilterPat::Regex(r) => r.is_match(hay),
        }
    }
}

/// Makes a pattern of a text: a regular expression when `regex` is set
/// (failing exactly when the regex crate rejects it), else a
/// case-insensitive substring.
pub fn compile_pat(s: &str, regex: bool) -> (r: Result<FilterPat, regex::Error>)
    ensures
        r.is_err() <==> regex && !regex_accepts(s@),
        r matches Ok(p) ==> p@ == compiled_pat(s@, regex),
{
    if regex {
        match CompiledRegex::compile(s) {
            Ok(c) => Ok(FilterPat::Regex(c)),
            Err(e) => Err(e),
        }
    } else {
        Ok(FilterPat::Substr(to_ascii_lowercase(s)))
    }
}

} // verus!
