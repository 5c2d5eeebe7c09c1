//! Glob filters over file paths.
//!
//! A selector keeps a file iff the file's path matches any of the selector's
//! glob patterns.  Pattern compilation and matching are done by the `globset`
//! crate; this module wraps them and gives the rest of the library an exact
//! any-of-the-filters predicate.

use crate::errors::Error;
use vstd::prelude::*;

verus! {

#[verifier::external_type_specification]
#[verifier::external_body]
pub struct ExGlobSet(globset::GlobSet);

/// Whether `globset::Glob::new` parses the pattern and
/// `globset::GlobSetBuilder::build` compiles it (the compiled automaton has a
/// size limit, so both steps can refuse); a function of the pattern text
/// alone.
pub uninterp spec fn glob_pattern_ok(pattern: Seq<char>) -> bool;

/// Whether the path matches the pattern, as `globset::GlobSet::is_match`
/// decides it for a one-pattern set; a function of the pattern and the path
/// alone.
pub uninterp spec fn glob_match(pattern: Seq<char>, path: Seq<char>) -> bool;

/// A single compiled glob pattern, remembering its source text.
pub struct CompiledFilter {
    pattern: String,
    matcher: globset::GlobSet,
}

impl View for CompiledFilter {
    type V = Seq<char>;

    closed spec fn view(&self) -> Seq<char> {
        self.pattern@
    }
}

impl DeepView for CompiledFilter {
    type V = Seq<char>;

    open spec fn deep_view(&self) -> Seq<char> {
        self@
    }
}

/// Relies on `globset::Glob::new`, which accepts or rejects the pattern
/// syntax, and `globset::GlobSetBuilder::build`, which compiles the accepted
/// pattern into a one-pattern matcher; both steps are fallible, and either
/// refusal is a `None` here.
#[verifier::external_body]
pub fn compile_filter(pattern: &str) -> (r: Option<CompiledFilter>)
    ensures
        r is Some <==> glob_pattern_ok(pattern@),
        r matches Some(f) ==> f@ == pattern@,
{
    let glob = match globset::Glob::new(pattern) {
        Ok(g) => g,
        Err(_) => return None,
    };
    let mut builder = globset::GlobSetBuilder::new();
    builder.add(glob);
    match builder.build() {
        Ok(set) => Some(CompiledFilter { pattern: pattern.to_owned(), matcher: set }),
        Err(_) => None,
    }
}

/// Relies on `globset::GlobSet::is_match` over the one-pattern set: whether
/// the path matches the pattern; a pure function of pattern text and path.
#[verifier::external_body]
pub fn filter_matches(f: &CompiledFilter, path: &str) -> (r: bool)
    ensures
        r == glob_match(f@, path@),
{
    f.matcher.is_match(path)
}

/// Whether every pattern in the list is an acceptable glob.
pub open spec fn spec_filters_ok(patterns: Seq<Seq<char>>) -> bool {
    forall|j: int| 0 <= j < patterns.len() ==> glob_pattern_ok(#[trigger] patterns[j])
}

/// Whether a path matches at least one of the patterns: the selection rule
/// of a selector's filter list.
pub open spec fn spec_matches_any(patterns: Seq<Seq<char>>, path: Seq<char>) -> bool {
    exists|j: int| 0 <= j < patterns.len() && glob_match(#[trigger] patterns[j], path)
}

/// Compiles every filter of a selector; fails on the first pattern the glob
/// syntax rejects.
pub fn compile_filters(filters: &Vec<String>) -> (r: Result<Vec<CompiledFilter>, Error>)
    ensures
        r is Ok <==> spec_filters_ok(filters.deep_view()),
        r matches Ok(v) ==> v.deep_view() == filters.deep_view(),
        r matches Err(e) ==> (exists|j: int|
            0 <= j < filters.len() && !glob_pattern_ok(#[trigger] filters.deep_view()[j]) && e
                == Error::ConfigParseError(filters[j])),
{
    let mut v: Vec<CompiledFilter> = Vec::new();
    let mut i: usize = 0;
    while i < filters.len()
        invariant
            i <= filters.len(),
            v.len() == i,
            forall|j: int| 0 <= j < i ==> v.deep_view()[j] == filters.deep_view()[j],
            forall|j: int| 0 <= j < i ==> glob_pattern_ok(#[trigger] filters.deep_view()[j]),
        decreases filters.len() - i,
    {
        match compile_filter(filters[i].as_str()) {
            Some(f) => {
                v.push(f);
            },
            None => {
                let bad = filters[i].clone();
                proof {
                    assert(!glob_pattern_ok(filters.deep_view()[i as int]));
                }
                return Err(Error::ConfigParseError(bad));
            },
        }
        i += 1;
    }
    proof {
        assert(v.deep_view() =~= filters.deep_view());
    }
    Ok(v)
}

/// Whether the path matches any of the compiled filters.
pub fn matches_any(filters: &Vec<CompiledFilter>, path: &str) -> (r: bool)
    ensures
        r == spec_matches_any(filters.deep_view(), path@),
{
    let mut i: usize = 0;
    while i < filters.len()
        invariant
            i <= filters.len(),
            forall|j: int| 0 <= j < i ==> !glob_match(#[trigger] filters.deep_view()[j], path@),
        decreases filters.len() - i,
    {
        if filter_matches(&filters[i], path) {
            proof {
                assert(glob_match(filters.deep_view()[i as int], path@));
            }
            return true;
        }
        i += 1;
    }
    false
}

} // verus!
