//! Template expressions of the form `{{ path | filter }}` in strings,
//! recognised with regular expressions.

use crate::graph::names;
use crate::traits::ReferenceExtractor;
use vstd::prelude::*;

verus! {

/// An expression with a dotted path of identifiers at its start, which is
/// the first group, and an optional pipeline of filters behind it.
pub const REFERENCE_PATTERN: &'static str =
    r"\{\{\s*([a-zA-Z_][a-zA-Z0-9_]*(?:\.[a-zA-Z_][a-zA-Z0-9_]*)*)(?:\s*\|[^}]*)?\s*\}\}";

/// Anything between an opening and a closing pair of braces, line breaks
/// included.
pub const TEMPLATE_PATTERN: &'static str = r"(?s)\{\{.*?\}\}";

/// Whether the regular expression `pattern` matches somewhere in `text`;
/// `None` for a pattern that is no regular expression.
pub uninterp spec fn regex_is_match(pattern: Seq<char>, text: Seq<char>) -> Option<bool>;

/// What the first group of the regular expression `pattern` holds in each
/// of its successive matches in `text`, where it took part in the match;
/// `None` for a pattern that is no regular expression.
pub uninterp spec fn regex_first_groups(pattern: Seq<char>, text: Seq<char>) -> Option<
    Seq<Option<Seq<char>>>,
>;

/// The views of a list of optional strings.
pub open spec fn group_texts(groups: Seq<Option<String>>) -> Seq<Option<Seq<char>>> {
    groups.map_values(
        |g: Option<String>|
            match g {
                Some(s) => Some(s@),
                None => None,
            },
    )
}

/// The view of what a search for groups returns.
pub open spec fn found_groups(r: Option<Vec<Option<String>>>) -> Option<Seq<Option<Seq<char>>>> {
    match r {
        Some(groups) => Some(group_texts(groups@)),
        None => None,
    }
}

/// `Regex::new` and `Regex::is_match`: compiles the pattern and searches
/// the text for a match; `None` where the pattern does not compile.
#[verifier::external_body]
fn pattern_is_match(pattern: &str, text: &str) -> (r: Option<bool>)
    ensures
        r == regex_is_match(pattern@, text@),
{
    regex::Regex::new(pattern).ok().map(|re| re.is_match(text))
}

/// `Regex::new` and `Regex::captures_iter`: compiles the pattern and
/// collects the text of the first group of every match; `None` where the
/// pattern does not compile.
#[verifier::external_body]
fn pattern_first_groups(pattern: &str, text: &str) -> (r: Option<Vec<Option<String>>>)
    ensures
        found_groups(r) == regex_first_groups(pattern@, text@),
{
    regex::Regex::new(pattern).ok().map(
        |re| re.captures_iter(text).map(|c| c.get(1).map(|m| m.as_str().to_string())).collect(),
    )
}

/// The groups that took part in their match, in order.
pub open spec fn captured(groups: Seq<Option<Seq<char>>>) -> Seq<Seq<char>>
    decreases groups.len(),
{
    if groups.len() == 0 {
        Seq::empty()
    } else {
        match groups.last() {
            Some(s) => captured(groups.drop_last()).push(s),
            None => captured(groups.drop_last()),
        }
    }
}

/// The references that a search for expressions found: the first group of
/// each match.
pub fn references_of(groups: Vec<Option<String>>) -> (r: Vec<String>)
    ensures
        names(r@) == captured(group_texts(groups@)),
{
    let ghost all = group_texts(groups@);
    let mut pending = groups;
    let mut r: Vec<String> = Vec::new();
    let n = pending.len();
    let mut i: usize = 0;
    assert(all.take(0) =~= Seq::<Option<Seq<char>>>::empty());
    while i < n
        invariant
            i <= n,
            n == groups@.len(),
            pending@.len() == n,
            all == group_texts(groups@),
            forall|k: int| i <= k < n ==> pending@[k] == groups@[k],
            names(r@) == captured(all.take(i as int)),
        decreases n - i,
    {
        let mut group: Option<String> = None;
        core::mem::swap(&mut pending[i], &mut group);
        proof {
            assert(all.take(i + 1).drop_last() =~= all.take(i as int));
            assert(all.take(i + 1).last() == all[i as int]);
        }
        match group {
            Some(s) => {
                assert(names(r@.push(s)) =~= names(r@).push(s@));
                r.push(s);
            },
            None => {},
        }
        i += 1;
    }
    assert(all.take(n as int) =~= all);
    r
}

/// The extractor for expressions in double braces.
#[derive(Debug, Clone, Copy, PartialEq, Eq)]
pub struct MiniJinjaReferenceExtractor;

impl MiniJinjaReferenceExtractor {
    pub fn new() -> (r: Self)
        ensures
            r == MiniJinjaReferenceExtractor,
            r.specified(),
    {
        MiniJinjaReferenceExtractor
    }
}

impl Default for MiniJinjaReferenceExtractor {
    fn default() -> (r: Self)
        ensures
            r == MiniJinjaReferenceExtractor,
    {
        Self::new()
    }
}

impl ReferenceExtractor for MiniJinjaReferenceExtractor {
    /// The first groups of the matches of the reference pattern.
    open spec fn references(&self, template: Seq<char>) -> Seq<Seq<char>> {
        match regex_first_groups(REFERENCE_PATTERN@, template) {
            Some(groups) => captured(groups),
            None => Seq::empty(),
        }
    }

    /// Whether the template pattern matches.
    open spec fn detects(&self, s: Seq<char>) -> bool {
        regex_is_match(TEMPLATE_PATTERN@, s) == Some(true)
    }

    open spec fn specified(&self) -> bool {
        true
    }

    fn extract_references(&self, template_str: &str) -> (r: Vec<String>) {
        match pattern_first_groups(REFERENCE_PATTERN, template_str) {
            Some(groups) => references_of(groups),
            None => {
                let r: Vec<String> = Vec::new();
                assert(names(r@) =~= Seq::<Seq<char>>::empty());
                r
            },
        }
    }

    fn contains_template(&self, s: &str) -> (r: bool) {
        match pattern_is_match(TEMPLATE_PATTERN, s) {
            Some(found) => found,
            None => false,
        }
    }
}

} // verus!
