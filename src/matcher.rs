//! Matching of a single entry's base name against a search term, either by
//! exact, case-sensitive equality or by a regular-expression search.

use vstd::prelude::*;

verus! {

/// Whether `pattern` is accepted by the regular-expression compiler.
pub uninterp spec fn regex_compiles(pattern: Seq<char>) -> bool;

/// Whether the regular expression `pattern` finds a match anywhere in `text`.
pub uninterp spec fn regex_finds(pattern: Seq<char>, text: Seq<char>) -> bool;

#[verifier::external_type_specification]
#[verifier::external_body]
pub struct ExRegexError(regex::Error);

#[verifier::external_type_specification]
#[verifier::external_body]
pub struct ExRegex(regex::Regex);

/// A compiled regular expression together with the source it was compiled
/// from. Only `compile` builds one, so the two always agree.
pub struct Pattern {
    source: String,
    compiled: regex::Regex,
}

impl View for Pattern {
    type V = Seq<char>;

    closed spec fn view(&self) -> Seq<char> {
        self.source@
    }
}

/// Relies on `regex::Regex::new`: it succeeds exactly on the patterns that
/// compile, and the result searches by the pattern it was given.
#[verifier::external_body]
fn compile(term: &str) -> (r: Result<Pattern, regex::Error>)
    ensures
        r is Ok <==> regex_compiles(term@),
        r matches Ok(p) ==> p@ == term@,
{
    match regex::Regex::new(term) {
        Ok(compiled) => Ok(Pattern { source: term.to_string(), compiled }),
        Err(e) => Err(e),
    }
}

/// Relies on `regex::Regex::is_match`: true iff the pattern matches somewhere
/// in `text`, not necessarily the whole of it.
#[verifier::external_body]
fn pattern_is_match(p: &Pattern, text: &str) -> (r: bool)
    ensures
        r == regex_finds(p@, text@),
{
    p.compiled.is_match(text)
}

/// How a search term is read.
#[derive(Clone, Copy, Debug, PartialEq, Eq)]
pub enum MatchMode {
    Exact,
    Pattern,
}

/// The abstract meaning of a matcher: the term and how it is read.
pub ghost enum MatcherModel {
    Exact(Seq<char>),
    Pattern(Seq<char>),
}

/// Whether a base name is matched under a matcher's meaning.
pub open spec fn model_matches(m: MatcherModel, name: Seq<char>) -> bool {
    match m {
        MatcherModel::Exact(term) => name == term,
        MatcherModel::Pattern(pattern) => regex_finds(pattern, name),
    }
}

/// Whether an entry, which may lack a base name readable as text, is matched.
pub open spec fn entry_name_matches(m: MatcherModel, name: Option<Seq<char>>) -> bool {
    match name {
        Some(n) => model_matches(m, n),
        None => false,
    }
}

/// The model of a matcher built from `term` under `mode`.
pub open spec fn model_of(term: Seq<char>, mode: MatchMode) -> MatcherModel {
    match mode {
        MatchMode::Exact => MatcherModel::Exact(term),
        MatchMode::Pattern => MatcherModel::Pattern(term),
    }
}

/// Whether a matcher can be built from `term` under `mode`.
pub open spec fn term_accepted(term: Seq<char>, mode: MatchMode) -> bool {
    match mode {
        MatchMode::Exact => true,
        MatchMode::Pattern => regex_compiles(term),
    }
}

/// The term given for a pattern search is not a valid regular expression.
#[derive(Clone, Debug, PartialEq, Eq)]
pub struct InvalidPattern {
    pub term: String,
}

/// A search term in compiled form, built once and shared by every level and
/// every start directory of a search.
pub enum Matcher {
    Exact(String),
    Pattern(Pattern),
}

impl View for Matcher {
    type V = MatcherModel;

    open spec fn view(&self) -> MatcherModel {
        match self {
            Matcher::Exact(term) => MatcherModel::Exact(term@),
            Matcher::Pattern(p) => MatcherModel::Pattern(p@),
        }
    }
}

impl Matcher {
    /// Builds the matcher for `term`; fails only for a pattern that does not
    /// compile.
    pub fn new(term: &str, mode: MatchMode) -> (r: Result<Matcher, InvalidPattern>)
        ensures
            r is Ok <==> term_accepted(term@, mode),
            r matches Ok(m) ==> m@ == model_of(term@, mode),
            r matches Err(e) ==> e.term@ == term@,
    {
        match mode {
            MatchMode::Exact => Ok(Matcher::Exact(term.to_string())),
            MatchMode::Pattern => match compile(term) {
                Ok(p) => Ok(Matcher::Pattern(p)),
                Err(_) => Err(InvalidPattern { term: term.to_string() }),
            },
        }
    }

    /// Whether the base name `name` is matched.
    pub fn matches(&self, name: &str) -> (r: bool)
        ensures
            r == model_matches(self@, name@),
    {
        match self {
            Matcher::Exact(term) => {
                let n = name.to_string();
                n == *term
            },
            Matcher::Pattern(p) => pattern_is_match(p, name),
        }
    }

    /// Whether an entry is matched; one without a base name never is.
    pub fn matches_entry(&self, name: Option<&String>) -> (r: bool)
        ensures
            r == entry_name_matches(self@, match name {
                Some(n) => Some(n@),
                None => None,
            }),
    {
        match name {
            Some(n) => self.matches(n.as_str()),
            None => false,
        }
    }
}

} // verus!
