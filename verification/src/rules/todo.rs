use vstd::prelude::*;
use vstd::string::StringExecFns;
use vstd::utf8::{encode_scalar, encode_utf8};

use crate::fingerprint::{seahash_bytes, seahash_of};
use crate::rule_map::{problem_wf, Problem, ProblemV};
use crate::rules::rule::opt_patterns_valid;
use crate::utils::{decimal_chars, find_literal_spans, literal_spans, u64_to_decimal};

verus! {

/// The fixed pattern that a TODO rule scans for.
pub open spec fn todo_chars() -> Seq<char> {
    seq!['T', 'O', 'D', 'O']
}

/// Its UTF-8 bytes.
pub open spec fn todo_bytes() -> Seq<u8> {
    encode_utf8(todo_chars())
}

proof fn lemma_todo_bytes_len()
    ensures
        todo_bytes().len() == 4,
{
    let c = todo_chars();
    let c1 = c.drop_first();
    let c2 = c1.drop_first();
    let c3 = c2.drop_first();
    let c4 = c3.drop_first();
    assert(c4.len() == 0);
    assert(encode_utf8(c4) =~= Seq::<u8>::empty());
    assert(encode_scalar('T' as u32).len() == 1);
    assert(encode_scalar('O' as u32).len() == 1);
    assert(encode_scalar('D' as u32).len() == 1);
    assert(c1[0] == 'O' && c2[0] == 'D' && c3[0] == 'O');
    assert(encode_utf8(c) == encode_scalar('T' as u32) + encode_utf8(c1));
    assert(encode_utf8(c1) == encode_scalar('O' as u32) + encode_utf8(c2));
    assert(encode_utf8(c2) == encode_scalar('D' as u32) + encode_utf8(c3));
    assert(encode_utf8(c3) == encode_scalar('O' as u32) + encode_utf8(c4));
}

/// A rule that flags every occurrence of the literal TODO, optionally
/// restricted to or away from certain paths.
pub struct TodoRule {
    pub includes: Option<Vec<String>>,
    pub exclude: Option<Vec<String>>,
}

impl TodoRule {
    /// Every includes and exclude pattern compiles.
    pub open spec fn wf(&self) -> bool {
        opt_patterns_valid(self.includes.deep_view()) && opt_patterns_valid(
            self.exclude.deep_view(),
        )
    }

    /// The problems this rule finds in `content`: one per non-overlapping
    /// occurrence of TODO, spanning the occurrence's bytes.
    pub open spec fn check_spec(&self, content: Seq<char>) -> Seq<ProblemV> {
        literal_spans(encode_utf8(content), todo_bytes()).map_values(
            |s: (int, int)|
                ProblemV {
                    start: s.0,
                    end: s.1,
                    message: todo_chars(),
                    message_id: decimal_chars(seahash_of(todo_bytes()) as nat),
                },
        )
    }

    /// Scans `content` for every occurrence of TODO and reports each as
    /// a problem.
    #[allow(unused_variables)]
    pub fn check(&self, path: &str, content: &str) -> (r: Vec<Problem>)
        ensures
            r.deep_view() == self.check_spec(content@),
            forall|k: int|
                0 <= k < r.deep_view().len() ==> problem_wf(#[trigger] r.deep_view()[k]),
    {
        let needle = "TODO".as_bytes();
        proof {
            reveal_strlit("TODO");
            assert("TODO"@ =~= todo_chars());
            lemma_todo_bytes_len();
        }
        let spans = find_literal_spans(content.as_bytes(), needle);
        let message = String::from_str("TODO");
        let message_id = u64_to_decimal(seahash_bytes(needle));
        let ghost target = self.check_spec(content@);
        let mut problems: Vec<Problem> = Vec::new();
        let n: usize = spans.len();
        let mut i: usize = 0;
        proof {
            assert(problems.deep_view() =~= target.subrange(0, 0));
        }
        while i < n
            invariant
                n == spans@.len(),
                i <= n,
                target.len() == n,
                forall|k: int|
                    0 <= k < n ==> (#[trigger] spans@[k]).0 == literal_spans(
                        encode_utf8(content@),
                        todo_bytes(),
                    )[k].0 && spans@[k].1 == literal_spans(encode_utf8(content@), todo_bytes())[k].1,
                target == self.check_spec(content@),
                message@ == todo_chars(),
                message_id@ == decimal_chars(seahash_of(todo_bytes()) as nat),
                problems.deep_view() == target.subrange(0, i as int),
            decreases n - i,
        {
            let sp = spans[i];
            let ghost d0 = problems.deep_view();
            let ghost pre = problems@;
            proof {
                assert(d0.len() == pre.len());
                assert(forall|t: int|
                    0 <= t < pre.len() ==> d0[t] == (#[trigger] pre[t]).deep_view());
            }
            let p = Problem {
                start: sp.0,
                end: sp.1,
                message: message.clone(),
                message_id: message_id.clone(),
            };
            proof {
                assert(p.deep_view() == target[i as int]);
            }
            problems.push(p);
            proof {
                assert forall|t: int|
                    0 <= t < problems.deep_view().len() implies problems.deep_view()[t]
                    == target.subrange(0, i + 1)[t] by {
                    assert(problems.deep_view()[t] == problems@[t].deep_view());
                    if t < i as int {
                        assert(problems@[t].deep_view() == d0[t]);
                    }
                }
                assert(problems.deep_view() =~= target.subrange(0, i + 1));
            }
            i = i + 1;
        }
        proof {
            assert(target.subrange(0, n as int) =~= target);
            assert forall|k: int| 0 <= k < problems.deep_view().len() implies problem_wf(
                #[trigger] problems.deep_view()[k],
            ) by {
                assert(problems.deep_view()[k] == target[k]);
                let s = literal_spans(encode_utf8(content@), todo_bytes())[k];
                assert(s.0 <= s.1);
            }
        }
        problems
    }

    /// The includes path patterns, if configured.
    pub fn includes(&self) -> (r: Option<&Vec<String>>)
        ensures
            r.deep_view() == self.includes.deep_view(),
    {
        match &self.includes {
            Some(v) => Some(v),
            None => None,
        }
    }

    /// The exclude path patterns, if configured.
    pub fn exclude(&self) -> (r: Option<&Vec<String>>)
        ensures
            r.deep_view() == self.exclude.deep_view(),
    {
        match &self.exclude {
            Some(v) => Some(v),
            None => None,
        }
    }
}

} // verus!
