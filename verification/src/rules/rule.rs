use vstd::prelude::*;

use crate::matching::{regex_is_match, regex_matches, regex_pattern_valid, regex_valid};
use crate::rule_map::{problem_wf, Problem, ProblemV};

verus! {

/// Every pattern of the list compiles.
pub open spec fn patterns_valid(ps: Seq<Seq<char>>) -> bool {
    forall|i: int| 0 <= i < ps.len() ==> regex_valid(#[trigger] ps[i])
}

/// Every pattern of the optional list compiles.
pub open spec fn opt_patterns_valid(ps: Option<Seq<Seq<char>>>) -> bool {
    match ps {
        Some(ps) => patterns_valid(ps),
        None => true,
    }
}

/// Some pattern of the list matches `text`.
pub open spec fn some_pattern_matches(ps: Seq<Seq<char>>, text: Seq<char>) -> bool {
    exists|i: int| 0 <= i < ps.len() && regex_matches(#[trigger] ps[i], text)
}

/// Whether a rule with these includes and exclude pattern lists analyzes
/// the file at `path`: with an includes list configured the path must
/// match at least one of its patterns, and with an exclude list
/// configured the path must match none. The two checks are independent.
pub open spec fn applies_spec(
    includes: Option<Seq<Seq<char>>>,
    exclude: Option<Seq<Seq<char>>>,
    path: Seq<char>,
) -> bool {
    (match includes {
        Some(ps) => some_pattern_matches(ps, path),
        None => true,
    }) && (match exclude {
        Some(ps) => !some_pattern_matches(ps, path),
        None => true,
    })
}

/// Whether any pattern of `patterns` matches `path`.
pub fn any_pattern_matches(patterns: &Vec<String>, path: &str) -> (r: bool)
    requires
        patterns_valid(patterns.deep_view()),
    ensures
        r == some_pattern_matches(patterns.deep_view(), path@),
{
    let n: usize = patterns.len();
    let mut i: usize = 0;
    while i < n
        invariant
            n == patterns@.len(),
            i <= n,
            patterns_valid(patterns.deep_view()),
            forall|t: int|
                0 <= t < i ==> !regex_matches(#[trigger] patterns.deep_view()[t], path@),
        decreases n - i,
    {
        let p = &patterns[i];
        proof {
            assert(patterns.deep_view()[i as int] == p@);
        }
        if regex_is_match(p.as_str(), path).unwrap() {
            proof {
                assert(regex_matches(patterns.deep_view()[i as int], path@));
            }
            return true;
        }
        i = i + 1;
    }
    false
}

/// Whether every pattern of `patterns` compiles.
pub fn patterns_valid_exec(patterns: &Vec<String>) -> (r: bool)
    ensures
        r == patterns_valid(patterns.deep_view()),
{
    let n: usize = patterns.len();
    let mut i: usize = 0;
    while i < n
        invariant
            n == patterns@.len(),
            i <= n,
            forall|t: int| 0 <= t < i ==> regex_valid(#[trigger] patterns.deep_view()[t]),
        decreases n - i,
    {
        let p = &patterns[i];
        proof {
            assert(patterns.deep_view()[i as int] == p@);
        }
        if !regex_pattern_valid(p.as_str()) {
            return false;
        }
        i = i + 1;
    }
    true
}

/// Whether every pattern of the optional list compiles.
pub fn opt_patterns_valid_exec(patterns: &Option<Vec<String>>) -> (r: bool)
    ensures
        r == opt_patterns_valid(patterns.deep_view()),
{
    match patterns {
        Some(ps) => patterns_valid_exec(ps),
        None => true,
    }
}

/// The capability contract of one rule: whether a file should be
/// analyzed at all, and what problems its content holds.
pub trait Rule {
    /// Every pattern the rule names compiles.
    spec fn wf(&self) -> bool;

    /// The includes path patterns, as character sequences.
    spec fn includes_spec(&self) -> Option<Seq<Seq<char>>>;

    /// The exclude path patterns, as character sequences.
    spec fn exclude_spec(&self) -> Option<Seq<Seq<char>>>;

    /// The problems the rule finds in `content` under `path`.
    spec fn check_spec(&self, path: Seq<char>, content: Seq<char>) -> Seq<ProblemV>;

    /// A well-formed rule's includes and exclude patterns all compile.
    proof fn wf_implies_patterns_valid(&self)
        requires
            self.wf(),
        ensures
            opt_patterns_valid(self.includes_spec()),
            opt_patterns_valid(self.exclude_spec()),
    ;

    /// The includes path patterns, if configured.
    fn includes(&self) -> (r: Option<&Vec<String>>)
        ensures
            r.deep_view() == self.includes_spec(),
    ;

    /// The exclude path patterns, if configured.
    fn exclude(&self) -> (r: Option<&Vec<String>>)
        ensures
            r.deep_view() == self.exclude_spec(),
    ;

    /// Check is the main function called to determine what problems a
    /// file has; every kind of rule brings its own implementation.
    fn check(&self, path: &str, content: &str) -> (r: Vec<Problem>)
        requires
            self.wf(),
        ensures
            r.deep_view() == self.check_spec(path@, content@),
            forall|k: int|
                0 <= k < r.deep_view().len() ==> problem_wf(#[trigger] r.deep_view()[k]),
    ;

    /// Default algorithm to determine whether a file should be analyzed:
    /// with an includes list configured the path must match at least one
    /// includes pattern, and a path matching any exclude pattern is
    /// rejected.
    fn analyze_file(&self, path: &str) -> (r: bool)
        requires
            self.wf(),
        ensures
            r == applies_spec(self.includes_spec(), self.exclude_spec(), path@),
    {
        proof {
            self.wf_implies_patterns_valid();
        }
        if let Some(includes) = self.includes() {
            if !any_pattern_matches(includes, path) {
                return false;
            }
        }
        if let Some(exclude) = self.exclude() {
            if any_pattern_matches(exclude, path) {
                return false;
            }
        }
        true
    }
}

} // verus!
