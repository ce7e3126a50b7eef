use vstd::prelude::*;
use vstd::utf8::encode_utf8;

use crate::fingerprint::{seahash_of, seahash_str};
use crate::matching::{regex_find_spans, regex_spans, regex_valid};
use crate::rule_map::{problem_wf, Problem, ProblemV};
use crate::rules::rule::opt_patterns_valid;
use crate::utils::{decimal_chars, u64_to_decimal};

verus! {

/// The stable identifier shared by all problems of one rule: the decimal
/// rendering of the SeaHash fingerprint of the pattern's UTF-8 bytes.
pub open spec fn message_id_chars(pattern: Seq<char>) -> Seq<char> {
    decimal_chars(seahash_of(encode_utf8(pattern)) as nat)
}

/// One problem per span, each carrying the rule's message and stable
/// identifier.
pub open spec fn problems_from_spans(
    spans: Seq<(usize, usize)>,
    message: Seq<char>,
    message_id: Seq<char>,
) -> Seq<ProblemV> {
    spans.map_values(
        |s: (usize, usize)|
            ProblemV { start: s.0 as int, end: s.1 as int, message: message, message_id: message_id },
    )
}

/// A rule that flags every match of a configured regular expression,
/// optionally restricted to or away from certain paths.
pub struct RegexRule {
    pub regex: String,
    pub includes: Option<Vec<String>>,
    pub exclude: Option<Vec<String>>,
}

impl RegexRule {
    /// The pattern and every includes and exclude pattern compile.
    pub open spec fn wf(&self) -> bool {
        regex_valid(self.regex@) && opt_patterns_valid(self.includes.deep_view())
            && opt_patterns_valid(self.exclude.deep_view())
    }

    /// The problems this rule finds in `content`: one per match of the
    /// pattern, spanning the match's bytes, with the pattern's text as
    /// its message.
    pub open spec fn check_spec(&self, content: Seq<char>) -> Seq<ProblemV> {
        problems_from_spans(
            regex_spans(self.regex@, content),
            self.regex@,
            message_id_chars(self.regex@),
        )
    }

    /// Scans `content` for all non-overlapping matches of the pattern
    /// and reports each as a problem.
    #[allow(unused_variables)]
    pub fn check(&self, path: &str, content: &str) -> (r: Vec<Problem>)
        requires
            self.wf(),
        ensures
            r.deep_view() == self.check_spec(content@),
            forall|k: int|
                0 <= k < r.deep_view().len() ==> problem_wf(#[trigger] r.deep_view()[k]),
    {
        let spans = regex_find_spans(self.regex.as_str(), content).unwrap();
        let message_id = u64_to_decimal(seahash_str(self.regex.as_str()));
        let ghost target = self.check_spec(content@);
        let mut problems: Vec<Problem> = Vec::new();
        let n: usize = spans.len();
        let mut i: usize = 0;
        proof {
            assert(problems.deep_view() =~= target.subrange(0, 0));
        }
        while i < n
            invariant
                n == spans@.len(),
                i <= n,
                spans@ == regex_spans(self.regex@, content@),
                message_id@ == message_id_chars(self.regex@),
                target == self.check_spec(content@),
                target.len() == n,
                problems.deep_view() == target.subrange(0, i as int),
            decreases n - i,
        {
            let sp = spans[i];
            let ghost d0 = problems.deep_view();
            let ghost pre = problems@;
            proof {
                assert(d0.len() == pre.len());
                assert(forall|t: int| 0 <= t < pre.len() ==> d0[t] == (#[trigger] pre[t]).deep_view());
            }
            let p = Problem {
                start: sp.0,
                end: sp.1,
                message: self.regex.clone(),
                message_id: message_id.clone(),
            };
            proof {
                assert(p.deep_view() == target[i as int]);
            }
            problems.push(p);
            proof {
                assert forall|t: int| 0 <= t < problems.deep_view().len() implies problems.deep_view()[t]
                    == target.subrange(0, i + 1)[t] by {
                    assert(problems.deep_view()[t] == problems@[t].deep_view());
                    if t < i as int {
                        assert(problems@[t].deep_view() == d0[t]);
                    }
                }
                assert(problems.deep_view() =~= target.subrange(0, i + 1));
            }
            i = i + 1;
        }
        proof {
            assert(target.subrange(0, n as int) =~= target);
            assert forall|k: int| 0 <= k < problems.deep_view().len() implies problem_wf(
                #[trigger] problems.deep_view()[k],
            ) by {
                assert(problems.deep_view()[k] == target[k]);
                assert(spans@[k].0 <= spans@[k].1);
            }
        }
        problems
    }

    /// The includes path patterns, if configured.
    pub fn includes(&self) -> (r: Option<&Vec<String>>)
        ensures
            r.deep_view() == self.includes.deep_view(),
    {
        match &self.includes {
            Some(v) => Some(v),
            None => None,
        }
    }

    /// The exclude path patterns, if configured.
    pub fn exclude(&self) -> (r: Option<&Vec<String>>)
        ensures
            r.deep_view() == self.exclude.deep_view(),
    {
        match &self.exclude {
            Some(v) => Some(v),
            None => None,
        }
    }
}

} // verus!
