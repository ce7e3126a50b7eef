pub mod regex;
pub mod rule;
pub mod todo;

use vstd::prelude::*;

use crate::rule_map::{Problem, ProblemV};
use crate::rules::regex::RegexRule;
use crate::rules::rule::{opt_patterns_valid_exec, Rule};
use crate::rules::todo::TodoRule;

verus! {

/// The closed set of rule kinds a configuration can name.
pub enum RatchetRule {
    Regex(RegexRule),
    Todo(TodoRule),
}

impl RatchetRule {
    /// Checks that every pattern this rule names compiles; a rule that
    /// fails this check is a configuration error.
    pub fn validate(&self) -> (r: bool)
        ensures
            r == self.wf(),
    {
        match self {
            RatchetRule::Regex(rule) => {
                crate::matching::regex_pattern_valid(rule.regex.as_str())
                    && opt_patterns_valid_exec(&rule.includes) && opt_patterns_valid_exec(
                    &rule.exclude,
                )
            },
            RatchetRule::Todo(rule) => {
                opt_patterns_valid_exec(&rule.includes) && opt_patterns_valid_exec(&rule.exclude)
            },
        }
    }
}

impl Rule for RatchetRule {
    open spec fn wf(&self) -> bool {
        match self {
            RatchetRule::Regex(rule) => rule.wf(),
            RatchetRule::Todo(rule) => rule.wf(),
        }
    }

    open spec fn includes_spec(&self) -> Option<Seq<Seq<char>>> {
        match self {
            RatchetRule::Regex(rule) => rule.includes.deep_view(),
            RatchetRule::Todo(rule) => rule.includes.deep_view(),
        }
    }

    open spec fn exclude_spec(&self) -> Option<Seq<Seq<char>>> {
        match self {
            RatchetRule::Regex(rule) => rule.exclude.deep_view(),
            RatchetRule::Todo(rule) => rule.exclude.deep_view(),
        }
    }

    open spec fn check_spec(&self, path: Seq<char>, content: Seq<char>) -> Seq<ProblemV> {
        match self {
            RatchetRule::Regex(rule) => rule.check_spec(content),
            RatchetRule::Todo(rule) => rule.check_spec(content),
        }
    }

    proof fn wf_implies_patterns_valid(&self) {
    }

    fn includes(&self) -> (r: Option<&Vec<String>>) {
        match self {
            RatchetRule::Regex(rule) => rule.includes(),
            RatchetRule::Todo(rule) => rule.includes(),
        }
    }

    fn exclude(&self) -> (r: Option<&Vec<String>>) {
        match self {
            RatchetRule::Regex(rule) => rule.exclude(),
            RatchetRule::Todo(rule) => rule.exclude(),
        }
    }

    fn check(&self, path: &str, content: &str) -> (r: Vec<Problem>) {
        match self {
            RatchetRule::Regex(rule) => rule.check(path, content),
            RatchetRule::Todo(rule) => rule.check(path, content),
        }
    }
}

} // verus!
