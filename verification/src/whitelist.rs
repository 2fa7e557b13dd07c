//! URL patterns that protect a tab from termination.
use regex::Regex;
use vstd::prelude::*;

verus! {

/// What searching `haystack` for the regular expression `pattern` gives:
/// `None` where `pattern` does not compile, else whether some part of
/// `haystack` matches it.
pub uninterp spec fn regex_search(pattern: Seq<char>, haystack: Seq<char>) -> Option<bool>;

/// Compiles `pattern` with `regex::Regex::new` and searches `haystack` with
/// `regex::Regex::is_match`. Not proved, but taken from the crate: a pattern
/// either compiles or does not, and a compiled pattern either matches a text
/// or does not, whenever and wherever asked. So the outcome has a name, and
/// the contract claims no more than that the call returns what the name
/// stands for.
#[verifier::external_body]
fn search(pattern: &str, haystack: &str) -> (found: Option<bool>)
    ensures
        found == regex_search(pattern@, haystack@),
{
    match Regex::new(pattern) {
        Ok(compiled) => Some(compiled.is_match(haystack)),
        Err(_) => None,
    }
}

/// `pattern` is a regular expression that compiles.
pub open spec fn is_valid_pattern(pattern: Seq<char>) -> bool {
    regex_search(pattern, Seq::<char>::empty()) is Some
}

/// Some part of `url` matches `pattern`.
pub open spec fn pattern_matches(pattern: Seq<char>, url: Seq<char>) -> bool {
    regex_search(pattern, url) == Some(true)
}

/// Some pattern of `patterns` matches `url`.
pub open spec fn any_pattern_matches(patterns: Seq<UrlPattern>, url: Seq<char>) -> bool {
    exists|i: int| 0 <= i < patterns.len() && pattern_matches(#[trigger] patterns[i]@, url)
}

/// A regular expression over URLs.
#[derive(Debug)]
pub struct UrlPattern {
    source: String,
}

impl View for UrlPattern {
    type V = Seq<char>;

    closed spec fn view(&self) -> Seq<char> {
        self.source@
    }
}

impl UrlPattern {
    /// The pattern written as `source`, if `source` is a regular expression
    /// that compiles.
    pub fn new(source: &str) -> (pattern: Option<UrlPattern>)
        ensures
            pattern is Some <==> is_valid_pattern(source@),
            pattern is Some ==> pattern->0@ == source@,
    {
        proof {
            reveal_strlit("");
        }
        assert(""@ =~= Seq::<char>::empty());
        match search(source, "") {
            Some(_) => Some(UrlPattern { source: source.to_owned() }),
            None => None,
        }
    }

    /// The text of the pattern.
    pub fn as_str(&self) -> (source: &str)
        ensures
            source@ == self@,
    {
        self.source.as_str()
    }

    /// Whether some part of `url` matches the pattern.
    pub fn is_match(&self, url: &str) -> (matched: bool)
        ensures
            matched == pattern_matches(self@, url@),
    {
        match search(self.source.as_str(), url) {
            Some(found) => found,
            None => false,
        }
    }
}

/// Whether some pattern of `patterns` matches `url`.
pub fn is_whitelisted(patterns: &Vec<UrlPattern>, url: &str) -> (listed: bool)
    ensures
        listed == any_pattern_matches(patterns@, url@),
{
    let mut i: usize = 0;
    while i < patterns.len()
        invariant
            i <= patterns.len(),
            forall|j: int| 0 <= j < i ==> !pattern_matches(#[trigger] patterns@[j]@, url@),
        decreases patterns.len() - i,
    {
        if patterns[i].is_match(url) {
            return true;
        }
        i += 1;
    }
    false
}

} // verus!
