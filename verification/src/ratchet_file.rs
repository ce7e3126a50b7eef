use vstd::prelude::*;
use vstd::pervasive::VecAdditionalExecFns;

use crate::rule_map::{
    lemma_rm_drop_last_facts, lemma_rm_index_of, lemma_rm_new_total_partition,
    lemma_rm_only_prefix_le, lemma_rm_remove_facts, lemma_rm_shared_prefix_le,
    lemma_rm_total_prefix_le, lemma_rm_total_remove, rm_contains, rm_count, rm_index_of,
    rm_only_new_total, rm_problems, rm_shared_new_total, rm_total, rm_wf, ProblemV, RuleMap,
    RuleMapV,
};

verus! {

/// Current version of the persisted snapshot format; past versions may
/// not be compatible.
pub const RATCHET_FILE_VERSION: u8 = 1;

/// The mathematical value of a `RuleMaps`: per-rule maps keyed by rule
/// name, in iteration order.
pub type RuleMapsV = Seq<(Seq<char>, RuleMapV)>;

/// The rule names of `s` are pairwise distinct.
pub open spec fn nm_wf(s: RuleMapsV) -> bool {
    forall|i: int, j: int| 0 <= i < j < s.len() ==> (#[trigger] s[i]).0 != (#[trigger] s[j]).0
}

/// Every per-rule map of `s` has pairwise distinct keys.
pub open spec fn nm_maps_wf(s: RuleMapsV) -> bool {
    forall|i: int| 0 <= i < s.len() ==> rm_wf((#[trigger] s[i]).1)
}

/// Some entry of `s` carries the rule name `name`.
pub open spec fn nm_contains(s: RuleMapsV, name: Seq<char>) -> bool {
    exists|i: int| 0 <= i < s.len() && (#[trigger] s[i]).0 == name
}

/// The position of the entry of `s` that carries the rule name `name`.
pub open spec fn nm_index_of(s: RuleMapsV, name: Seq<char>) -> int {
    choose|i: int| 0 <= i < s.len() && (#[trigger] s[i]).0 == name
}

/// The per-rule map that `s` records under `name`.
pub open spec fn nm_get(s: RuleMapsV, name: Seq<char>) -> RuleMapV {
    s[nm_index_of(s, name)].1
}

/// The entries of `s` after `m` is recorded under `name`: the entry
/// already carrying `name` is replaced, or a new entry is appended.
pub open spec fn nm_insert(s: RuleMapsV, name: Seq<char>, m: RuleMapV) -> RuleMapsV {
    if nm_contains(s, name) {
        s.update(nm_index_of(s, name), (name, m))
    } else {
        s.push((name, m))
    }
}

/// In a well-formed sequence, any entry carrying `name` stands where
/// `nm_index_of` points.
pub(crate) proof fn lemma_nm_index_of(s: RuleMapsV, i: int)
    requires
        nm_wf(s),
        0 <= i < s.len(),
    ensures
        nm_contains(s, s[i].0),
        nm_index_of(s, s[i].0) == i,
        nm_get(s, s[i].0) == s[i].1,
{
    assert(nm_contains(s, s[i].0));
    let j = nm_index_of(s, s[i].0);
    assert(0 <= j < s.len() && s[j].0 == s[i].0);
    if i != j {
        assert(false);
    }
}

/// The per-rule results of one snapshot, keyed by rule name. Entries keep
/// their insertion order and names stay pairwise distinct.
pub struct RuleMaps {
    entries: Vec<(String, RuleMap)>,
}

impl View for RuleMaps {
    type V = RuleMapsV;

    closed spec fn view(&self) -> RuleMapsV {
        self.entries.deep_view()
    }
}

impl DeepView for RuleMaps {
    type V = RuleMapsV;

    open spec fn deep_view(&self) -> RuleMapsV {
        self.view()
    }
}

impl RuleMaps {
    /// Rule names are pairwise distinct and every per-rule map is itself
    /// well formed; `new` establishes this and every method preserves it.
    pub open spec fn wf(&self) -> bool {
        nm_wf(self@) && nm_maps_wf(self@)
    }

    /// An empty collection of rule results.
    pub fn new() -> (r: RuleMaps)
        ensures
            r@ == Seq::<(Seq<char>, RuleMapV)>::empty(),
            r.wf(),
    {
        let r = RuleMaps { entries: Vec::new() };
        proof {
            assert(r@ =~= Seq::<(Seq<char>, RuleMapV)>::empty());
        }
        r
    }

    /// How many rules this snapshot holds results for.
    pub fn len(&self) -> (r: usize)
        ensures
            r == self@.len(),
    {
        self.entries.len()
    }

    /// The entry at position `i`, in iteration order.
    pub fn entry_at(&self, i: usize) -> (r: &(String, RuleMap))
        requires
            i < self@.len(),
        ensures
            r.deep_view() == self@[i as int],
            r.0@ == self@[i as int].0,
            r.1@ == self@[i as int].1,
    {
        &self.entries[i]
    }

    /// The per-rule map recorded under `name`, if any.
    pub fn get(&self, name: &String) -> (r: Option<&RuleMap>)
        requires
            self.wf(),
        ensures
            match r {
                Some(m) => nm_contains(self@, name@) && m@ == nm_get(self@, name@) && m.wf(),
                None => !nm_contains(self@, name@),
            },
    {
        let n: usize = self.entries.len();
        let mut i: usize = 0;
        while i < n
            invariant
                n == self@.len(),
                i <= n,
                self.wf(),
                forall|t: int| 0 <= t < i ==> (#[trigger] self@[t]).0 != name@,
            decreases n - i,
        {
            let e = &self.entries[i];
            if e.0 == *name {
                proof {
                    assert(self@[i as int].0 == name@);
                    lemma_nm_index_of(self@, i as int);
                }
                return Some(&e.1);
            }
            i = i + 1;
        }
        proof {
            if nm_contains(self@, name@) {
                let t = nm_index_of(self@, name@);
                assert(self@[t].0 == name@);
            }
        }
        None
    }

    /// Records `m` under `name`, replacing what was recorded under that
    /// name before.
    pub fn insert(&mut self, name: String, m: RuleMap)
        requires
            old(self).wf(),
            m.wf(),
        ensures
            final(self)@ == nm_insert(old(self)@, name@, m@),
            final(self).wf(),
    {
        let ghost s0 = self@;
        let ghost nv = name@;
        let ghost mv = m@;
        let n: usize = self.entries.len();
        let mut i: usize = 0;
        while i < n
            invariant
                n == self@.len(),
                i <= n,
                self@ == s0,
                s0 == old(self)@,
                nm_wf(s0),
                nm_maps_wf(s0),
                nv == name@,
                mv == m@,
                rm_wf(mv),
                forall|t: int| 0 <= t < i ==> (#[trigger] s0[t]).0 != nv,
            decreases n - i,
        {
            let e = &self.entries[i];
            if e.0 == name {
                proof {
                    assert(s0[i as int].0 == nv);
                    lemma_nm_index_of(s0, i as int);
                }
                let ghost e0 = self.entries@;
                let pair = (name, m);
                proof {
                    assert(pair.deep_view() == (nv, mv));
                }
                self.entries.set(i, pair);
                proof {
                    let su = s0.update(i as int, (nv, mv));
                    assert forall|t: int| 0 <= t < self@.len() implies self@[t] == su[t] by {
                        assert(self@[t] == self.entries@[t].deep_view());
                        if t != i as int {
                            assert(self.entries@[t] == e0[t]);
                            assert(s0[t] == e0[t].deep_view());
                        }
                    }
                    assert(self@ =~= su);
                    assert(nm_wf(self@)) by {
                        assert(forall|t: int|
                            0 <= t < self@.len() ==> (#[trigger] self@[t]).0 == if t == i as int {
                                nv
                            } else {
                                s0[t].0
                            });
                    }
                    assert(nm_maps_wf(self@)) by {
                        assert(forall|t: int|
                            0 <= t < self@.len() ==> (#[trigger] self@[t]).1 == if t == i as int {
                                mv
                            } else {
                                s0[t].1
                            });
                    }
                }
                return ;
            }
            i = i + 1;
        }
        proof {
            if nm_contains(s0, nv) {
                let t = nm_index_of(s0, nv);
                assert(s0[t].0 == nv);
            }
            assert(!nm_contains(s0, nv));
        }
        let ghost e0 = self.entries@;
        let pair = (name, m);
        proof {
            assert(pair.deep_view() == (nv, mv));
        }
        self.entries.push(pair);
        proof {
            assert forall|t: int| 0 <= t < self@.len() implies self@[t] == s0.push((nv, mv))[t] by {
                assert(self@[t] == self.entries@[t].deep_view());
                if t < s0.len() {
                    assert(self.entries@[t] == e0[t]);
                    assert(s0[t] == e0[t].deep_view());
                }
            }
            assert(self@ =~= s0.push((nv, mv)));
            assert(nm_wf(self@)) by {
                assert(forall|t: int| 0 <= t < s0.len() ==> (#[trigger] self@[t]) == s0[t]);
                assert(self@[s0.len() as int].0 == nv);
                assert forall|a: int, b: int| 0 <= a < b < self@.len() implies (
                #[trigger] self@[a]).0 != (#[trigger] self@[b]).0 by {
                    if b == s0.len() as int {
                        if self@[a].0 == nv {
                            assert(s0[a].0 == nv);
                            assert(nm_contains(s0, nv));
                        }
                    }
                }
            }
            assert(nm_maps_wf(self@)) by {
                assert(forall|t: int| 0 <= t < s0.len() ==> (#[trigger] self@[t]) == s0[t]);
                assert(self@[s0.len() as int].1 == mv);
            }
        }
    }
}

/// Every per-rule total of `s` fits in a machine word.
pub open spec fn rules_bounded(s: RuleMapsV) -> bool {
    forall|i: int| 0 <= i < s.len() ==> rm_total((#[trigger] s[i]).1) <= usize::MAX
}

/// Totals the problems of the two maps recorded for one rule. A key
/// present in both maps contributes its problem counts to both sides; a
/// key present in only one map counts only on that side. Together the two
/// walks total each map in full: the result is (new total, old total).
pub fn compare_rule_maps(old_map: &RuleMap, new_map: &RuleMap) -> (r: (usize, usize))
    requires
        old_map.wf(),
        new_map.wf(),
        rm_total(old_map@) <= usize::MAX,
        rm_total(new_map@) <= usize::MAX,
    ensures
        r.0 == rm_total(new_map@),
        r.1 == rm_total(old_map@),
{
    let mut total_old_issues: usize = 0;
    let mut total_new_issues: usize = 0;

    proof {
        assert(old_map@.subrange(0, 0) =~= Seq::<((Seq<char>, u64), Seq<ProblemV>)>::empty());
    }
    // Walk the old map: count every old entry, and the matching new
    // counts for the keys the new map also carries.
    let n_old: usize = old_map.len();
    let mut i: usize = 0;
    while i < n_old
        invariant
            old_map.wf(),
            new_map.wf(),
            rm_total(old_map@) <= usize::MAX,
            rm_total(new_map@) <= usize::MAX,
            n_old == old_map@.len(),
            i <= n_old,
            total_old_issues == rm_total(old_map@.subrange(0, i as int)),
            total_new_issues == rm_shared_new_total(old_map@.subrange(0, i as int), new_map@),
        decreases n_old - i,
    {
        proof {
            assert(old_map@.subrange(0, i + 1).drop_last() =~= old_map@.subrange(0, i as int));
            assert(old_map@.subrange(0, i + 1).last() == old_map@[i as int]);
            lemma_rm_total_prefix_le(old_map@, i + 1);
            lemma_rm_shared_prefix_le(old_map@, new_map@, i + 1);
            lemma_rm_new_total_partition(old_map@, new_map@);
        }
        let e = old_map.entry_at(i);
        match new_map.get(&e.0) {
            Some(new_problems) => {
                // Key exists in both maps, count issues from both
                total_old_issues = total_old_issues + e.1.len();
                total_new_issues = total_new_issues + new_problems.len();
            },
            None => {
                // Key exists only in the old map
                total_old_issues = total_old_issues + e.1.len();
            },
        }
        i = i + 1;
    }
    proof {
        assert(old_map@.subrange(0, n_old as int) =~= old_map@);
        assert(new_map@.subrange(0, 0) =~= Seq::<((Seq<char>, u64), Seq<ProblemV>)>::empty());
    }

    // Walk the new map: count the entries whose key the old map lacks.
    let n_new: usize = new_map.len();
    let mut j: usize = 0;
    while j < n_new
        invariant
            old_map.wf(),
            new_map.wf(),
            rm_total(old_map@) <= usize::MAX,
            rm_total(new_map@) <= usize::MAX,
            n_new == new_map@.len(),
            j <= n_new,
            total_old_issues == rm_total(old_map@),
            total_new_issues == rm_shared_new_total(old_map@, new_map@) + rm_only_new_total(
                old_map@,
                new_map@.subrange(0, j as int),
            ),
        decreases n_new - j,
    {
        proof {
            assert(new_map@.subrange(0, j + 1).drop_last() =~= new_map@.subrange(0, j as int));
            assert(new_map@.subrange(0, j + 1).last() == new_map@[j as int]);
            lemma_rm_only_prefix_le(old_map@, new_map@, j + 1);
            lemma_rm_new_total_partition(old_map@, new_map@);
        }
        let e = new_map.entry_at(j);
        match old_map.get(&e.0) {
            Some(_) => {},
            None => {
                // Key exists only in the new map
                total_new_issues = total_new_issues + e.1.len();
            },
        }
        j = j + 1;
    }
    proof {
        assert(new_map@.subrange(0, n_new as int) =~= new_map@);
        lemma_rm_new_total_partition(old_map@, new_map@);
    }

    (total_new_issues, total_old_issues)
}

/// The baseline regressed into the new snapshot: at least one rule named
/// in both snapshots records strictly more problems in the new one. A
/// rule present only in the new snapshot is not compared; it merely
/// establishes its own baseline.
pub open spec fn snap_regressed(old_rules: RuleMapsV, new_rules: RuleMapsV) -> bool {
    exists|i: int|
        0 <= i < old_rules.len() && nm_contains(new_rules, (#[trigger] old_rules[i]).0)
            && rm_total(nm_get(new_rules, old_rules[i].0)) > rm_total(old_rules[i].1)
}

/// The new-side total reported for the rule at position `i` of the old
/// snapshot: the full total of the same-named new map, or zero when the
/// new snapshot lacks the rule.
pub open spec fn report_new_total(old_rules: RuleMapsV, new_rules: RuleMapsV, i: int) -> nat {
    if nm_contains(new_rules, old_rules[i].0) {
        rm_total(nm_get(new_rules, old_rules[i].0))
    } else {
        0
    }
}

/// The old-side total reported for the rule at position `i` of the old
/// snapshot; zero when the new snapshot lacks the rule, as nothing is
/// compared then.
pub open spec fn report_old_total(old_rules: RuleMapsV, new_rules: RuleMapsV, i: int) -> nat {
    if nm_contains(new_rules, old_rules[i].0) {
        rm_total(old_rules[i].1)
    } else {
        0
    }
}

/// The total number of problems recorded in a snapshot, over all rules.
pub open spec fn snapshot_total(rules: RuleMapsV) -> nat
    decreases rules.len(),
{
    if rules.len() == 0 {
        0
    } else {
        snapshot_total(rules.drop_last()) + rm_total(rules.last().1)
    }
}

/// What the aggregate comparison counts on the new side from rules the
/// baseline knows: for each baseline rule also in the new snapshot, the
/// new problems under the file keys the baseline map also carries.
pub open spec fn cn_shared_rules_total(old_rules: RuleMapsV, new_rules: RuleMapsV) -> nat
    decreases old_rules.len(),
{
    if old_rules.len() == 0 {
        0
    } else {
        cn_shared_rules_total(old_rules.drop_last(), new_rules) + if nm_contains(
            new_rules,
            old_rules.last().0,
        ) {
            rm_shared_new_total(old_rules.last().1, nm_get(new_rules, old_rules.last().0))
        } else {
            0
        }
    }
}

/// What the aggregate comparison counts on the new side from rules the
/// baseline does not know: the full totals of the new snapshot's rules
/// whose names the baseline lacks.
pub open spec fn cn_new_rules_total(old_rules: RuleMapsV, new_rules: RuleMapsV) -> nat
    decreases new_rules.len(),
{
    if new_rules.len() == 0 {
        0
    } else {
        cn_new_rules_total(old_rules, new_rules.drop_last()) + if nm_contains(
            old_rules,
            new_rules.last().0,
        ) {
            0
        } else {
            rm_total(new_rules.last().1)
        }
    }
}

/// No single rule of a snapshot records more problems than the whole
/// snapshot.
pub(crate) proof fn lemma_snapshot_entry_le(s: RuleMapsV, i: int)
    requires
        0 <= i < s.len(),
    ensures
        rm_total(s[i].1) <= snapshot_total(s),
    decreases s.len(),
{
    if i == s.len() - 1 {
    } else {
        lemma_snapshot_entry_le(s.drop_last(), i);
        assert(s.drop_last()[i] == s[i]);
    }
}

/// A prefix of a snapshot's rules never totals more than the whole
/// snapshot.
pub(crate) proof fn lemma_snapshot_total_prefix_le(s: RuleMapsV, i: int)
    requires
        0 <= i <= s.len(),
    ensures
        snapshot_total(s.subrange(0, i)) <= snapshot_total(s),
    decreases s.len() - i,
{
    if i == s.len() {
        assert(s.subrange(0, i) =~= s);
    } else {
        assert(s.subrange(0, i + 1).drop_last() =~= s.subrange(0, i));
        lemma_snapshot_total_prefix_le(s, i + 1);
    }
}

pub(crate) proof fn lemma_cn_shared_prefix_le(old_rules: RuleMapsV, new_rules: RuleMapsV, i: int)
    requires
        0 <= i <= old_rules.len(),
    ensures
        cn_shared_rules_total(old_rules.subrange(0, i), new_rules) <= cn_shared_rules_total(
            old_rules,
            new_rules,
        ),
    decreases old_rules.len() - i,
{
    if i == old_rules.len() {
        assert(old_rules.subrange(0, i) =~= old_rules);
    } else {
        assert(old_rules.subrange(0, i + 1).drop_last() =~= old_rules.subrange(0, i));
        lemma_cn_shared_prefix_le(old_rules, new_rules, i + 1);
    }
}

pub(crate) proof fn lemma_cn_new_rules_prefix_le(old_rules: RuleMapsV, new_rules: RuleMapsV, j: int)
    requires
        0 <= j <= new_rules.len(),
    ensures
        cn_new_rules_total(old_rules, new_rules.subrange(0, j)) <= cn_new_rules_total(
            old_rules,
            new_rules,
        ),
    decreases new_rules.len() - j,
{
    if j == new_rules.len() {
        assert(new_rules.subrange(0, j) =~= new_rules);
    } else {
        assert(new_rules.subrange(0, j + 1).drop_last() =~= new_rules.subrange(0, j));
        lemma_cn_new_rules_prefix_le(old_rules, new_rules, j + 1);
    }
}

pub(crate) proof fn lemma_cn_shared_empty(old_rules: RuleMapsV)
    ensures
        cn_shared_rules_total(old_rules, Seq::empty()) == 0,
    decreases old_rules.len(),
{
    if old_rules.len() > 0 {
        lemma_cn_shared_empty(old_rules.drop_last());
    }
}

/// Facts about appending a fresh-named rule to a well-formed sequence.
pub(crate) proof fn lemma_nm_push_facts(s: RuleMapsV, e: (Seq<char>, RuleMapV))
    requires
        nm_wf(s),
        !nm_contains(s, e.0),
    ensures
        nm_wf(s.push(e)),
        nm_contains(s.push(e), e.0),
        nm_get(s.push(e), e.0) == e.1,
        forall|x: Seq<char>|
            x != e.0 ==> (#[trigger] nm_contains(s.push(e), x)) == nm_contains(s, x),
        forall|x: Seq<char>|
            x != e.0 && nm_contains(s, x) ==> #[trigger] nm_get(s.push(e), x) == nm_get(s, x),
{
    let p = s.push(e);
    assert(forall|i: int| 0 <= i < s.len() ==> (#[trigger] p[i]) == s[i]);
    assert(p[s.len() as int] == e);
    assert(nm_wf(p)) by {
        assert forall|a: int, b: int| 0 <= a < b < p.len() implies (#[trigger] p[a]).0 != (
        #[trigger] p[b]).0 by {
            if b == s.len() as int {
                if p[a].0 == e.0 {
                    assert(s[a].0 == e.0);
                    assert(nm_contains(s, e.0));
                }
            }
        }
    }
    lemma_nm_index_of(p, s.len() as int);
    assert forall|x: Seq<char>| x != e.0 implies (#[trigger] nm_contains(p, x)) == nm_contains(
        s,
        x,
    ) by {
        if nm_contains(p, x) {
            let i = nm_index_of(p, x);
            assert(0 <= i < p.len() && p[i].0 == x);
            assert(i < s.len());
            assert(s[i].0 == x);
        } else if nm_contains(s, x) {
            let i = nm_index_of(s, x);
            assert(p[i].0 == x);
        }
    }
    assert forall|x: Seq<char>| x != e.0 && nm_contains(s, x) implies #[trigger] nm_get(p, x)
        == nm_get(s, x) by {
        let i = nm_index_of(s, x);
        assert(0 <= i < s.len() && s[i].0 == x);
        lemma_nm_index_of(s, i);
        assert(p[i].0 == x);
        lemma_nm_index_of(p, i);
    }
}

/// Appending a fresh-named rule to the new snapshot raises the shared
/// side of the aggregate comparison by at most that rule's full total,
/// and only when the baseline names the rule.
pub(crate) proof fn lemma_cn_shared_push_le(
    old_rules: RuleMapsV,
    new_rules: RuleMapsV,
    e: (Seq<char>, RuleMapV),
)
    requires
        nm_wf(old_rules),
        nm_maps_wf(old_rules),
        nm_wf(new_rules),
        !nm_contains(new_rules, e.0),
        rm_wf(e.1),
    ensures
        cn_shared_rules_total(old_rules, new_rules.push(e)) <= cn_shared_rules_total(
            old_rules,
            new_rules,
        ) + if nm_contains(old_rules, e.0) {
            rm_total(e.1)
        } else {
            0
        },
    decreases old_rules.len(),
{
    let newp = new_rules.push(e);
    lemma_nm_push_facts(new_rules, e);
    if old_rules.len() == 0 {
    } else {
        let old_d = old_rules.drop_last();
        assert(nm_wf(old_d) && nm_maps_wf(old_d)) by {
            assert(forall|i: int| 0 <= i < old_d.len() ==> (#[trigger] old_d[i]) == old_rules[i]);
        }
        lemma_cn_shared_push_le(old_d, new_rules, e);
        let name = old_rules.last().0;
        let old_m = old_rules.last().1;
        assert(rm_wf(old_m)) by {
            assert(old_rules[old_rules.len() - 1].1 == old_m);
        }
        if name == e.0 {
            assert(nm_get(newp, name) == e.1);
            assert(rm_shared_new_total(old_m, e.1) <= rm_total(e.1)) by {
                lemma_rm_new_total_partition(old_m, e.1);
            }
            assert(nm_contains(old_rules, e.0)) by {
                assert(old_rules[old_rules.len() - 1].0 == e.0);
            }
            assert(!nm_contains(old_d, e.0)) by {
                if nm_contains(old_d, e.0) {
                    let i = nm_index_of(old_d, e.0);
                    assert(0 <= i < old_d.len() && old_d[i].0 == e.0);
                    assert(old_rules[i].0 == e.0);
                    assert(old_rules[old_rules.len() - 1].0 == e.0);
                }
            }
        } else {
            assert(nm_contains(old_d, e.0) == nm_contains(old_rules, e.0)) by {
                if nm_contains(old_d, e.0) {
                    let i = nm_index_of(old_d, e.0);
                    assert(old_rules[i].0 == e.0);
                } else if nm_contains(old_rules, e.0) {
                    let i = nm_index_of(old_rules, e.0);
                    assert(0 <= i < old_rules.len() && old_rules[i].0 == e.0);
                    assert(i < old_rules.len() - 1);
                    assert(old_d[i].0 == e.0);
                }
            }
        }
    }
}

/// The aggregate comparison's new side never counts more than the new
/// snapshot holds in full.
pub(crate) proof fn lemma_cn_totals_le(old_rules: RuleMapsV, new_rules: RuleMapsV)
    requires
        nm_wf(old_rules),
        nm_maps_wf(old_rules),
        nm_wf(new_rules),
        nm_maps_wf(new_rules),
    ensures
        cn_shared_rules_total(old_rules, new_rules) + cn_new_rules_total(old_rules, new_rules)
            <= snapshot_total(new_rules),
    decreases new_rules.len(),
{
    if new_rules.len() == 0 {
        lemma_cn_shared_empty(old_rules);
        assert(new_rules =~= Seq::empty());
    } else {
        let new_d = new_rules.drop_last();
        let e = new_rules.last();
        assert(nm_wf(new_d) && nm_maps_wf(new_d)) by {
            assert(forall|i: int| 0 <= i < new_d.len() ==> (#[trigger] new_d[i]) == new_rules[i]);
        }
        assert(!nm_contains(new_d, e.0)) by {
            if nm_contains(new_d, e.0) {
                let i = nm_index_of(new_d, e.0);
                assert(new_rules[i].0 == e.0);
                assert(new_rules[new_rules.len() - 1].0 == e.0);
            }
        }
        assert(rm_wf(e.1)) by {
            assert(new_rules[new_rules.len() - 1].1 == e.1);
        }
        lemma_cn_totals_le(old_rules, new_d);
        assert(new_d.push(e) =~= new_rules);
        lemma_cn_shared_push_le(old_rules, new_d, e);
    }
}

/// Sums the problems of one rule map.
fn rule_map_total(m: &RuleMap) -> (r: usize)
    requires
        rm_total(m@) <= usize::MAX,
    ensures
        r == rm_total(m@),
{
    let n: usize = m.len();
    let mut total: usize = 0;
    let mut i: usize = 0;
    proof {
        assert(m@.subrange(0, 0) =~= Seq::<((Seq<char>, u64), Seq<ProblemV>)>::empty());
    }
    while i < n
        invariant
            n == m@.len(),
            i <= n,
            rm_total(m@) <= usize::MAX,
            total == rm_total(m@.subrange(0, i as int)),
        decreases n - i,
    {
        proof {
            assert(m@.subrange(0, i + 1).drop_last() =~= m@.subrange(0, i as int));
            assert(m@.subrange(0, i + 1).last() == m@[i as int]);
            lemma_rm_total_prefix_le(m@, i + 1);
        }
        let e = m.entry_at(i);
        total = total + e.1.len();
        i = i + 1;
    }
    proof {
        assert(m@.subrange(0, n as int) =~= m@);
    }
    total
}

/// Sums the problems of one rule map, unless the sum leaves the machine
/// word.
fn rule_map_total_checked(m: &RuleMap) -> (r: Option<usize>)
    ensures
        match r {
            Some(t) => t == rm_total(m@),
            None => rm_total(m@) > usize::MAX,
        },
{
    let n: usize = m.len();
    let mut total: usize = 0;
    let mut i: usize = 0;
    proof {
        assert(m@.subrange(0, 0) =~= Seq::<((Seq<char>, u64), Seq<ProblemV>)>::empty());
    }
    while i < n
        invariant
            n == m@.len(),
            i <= n,
            total == rm_total(m@.subrange(0, i as int)),
        decreases n - i,
    {
        proof {
            assert(m@.subrange(0, i + 1).drop_last() =~= m@.subrange(0, i as int));
            assert(m@.subrange(0, i + 1).last() == m@[i as int]);
        }
        let e = m.entry_at(i);
        let l: usize = e.1.len();
        if total > usize::MAX - l {
            proof {
                lemma_rm_total_prefix_le(m@, i + 1);
            }
            return None;
        }
        total = total + l;
        i = i + 1;
    }
    proof {
        assert(m@.subrange(0, n as int) =~= m@);
    }
    Some(total)
}

/// Counts one rule's problems the way the aggregate comparison does: the
/// old map in full, and of the new map the problems under keys the old
/// map also carries. Returns (new side, old side).
fn count_rule_pair(old_m: &RuleMap, new_m: &RuleMap) -> (r: (usize, usize))
    requires
        old_m.wf(),
        new_m.wf(),
        rm_total(old_m@) <= usize::MAX,
        rm_total(new_m@) <= usize::MAX,
    ensures
        r.0 == rm_shared_new_total(old_m@, new_m@),
        r.1 == rm_total(old_m@),
{
    let n: usize = old_m.len();
    let mut rule_old_count: usize = 0;
    let mut rule_new_count: usize = 0;
    let mut i: usize = 0;
    proof {
        assert(old_m@.subrange(0, 0) =~= Seq::<((Seq<char>, u64), Seq<ProblemV>)>::empty());
    }
    while i < n
        invariant
            old_m.wf(),
            new_m.wf(),
            rm_total(old_m@) <= usize::MAX,
            rm_total(new_m@) <= usize::MAX,
            n == old_m@.len(),
            i <= n,
            rule_old_count == rm_total(old_m@.subrange(0, i as int)),
            rule_new_count == rm_shared_new_total(old_m@.subrange(0, i as int), new_m@),
        decreases n - i,
    {
        proof {
            assert(old_m@.subrange(0, i + 1).drop_last() =~= old_m@.subrange(0, i as int));
            assert(old_m@.subrange(0, i + 1).last() == old_m@[i as int]);
            lemma_rm_total_prefix_le(old_m@, i + 1);
            lemma_rm_shared_prefix_le(old_m@, new_m@, i + 1);
            lemma_rm_new_total_partition(old_m@, new_m@);
        }
        let e = old_m.entry_at(i);
        rule_old_count = rule_old_count + e.1.len();
        match new_m.get(&e.0) {
            Some(new_problems) => {
                rule_new_count = rule_new_count + new_problems.len();
            },
            None => {},
        }
        i = i + 1;
    }
    proof {
        assert(old_m@.subrange(0, n as int) =~= old_m@);
    }
    (rule_new_count, rule_old_count)
}

/// The persisted snapshot (the "ratchet file"): a format version and the
/// per-rule results of one scan.
pub struct RatchetFile {
    pub version: u8,
    pub rules: RuleMaps,
}

impl RatchetFile {
    /// The rule names and every per-rule map are well formed.
    pub open spec fn wf(&self) -> bool {
        self.rules.wf()
    }

    /// An empty snapshot at the current format version.
    pub fn new() -> (r: RatchetFile)
        ensures
            r.version == RATCHET_FILE_VERSION,
            r.rules@.len() == 0,
            r.wf(),
    {
        RatchetFile { version: RATCHET_FILE_VERSION, rules: RuleMaps::new() }
    }

    /// Compares this snapshot, the baseline, against a new one. Returns
    /// true exactly when the new snapshot is worse: some rule of the
    /// baseline also named in the new snapshot totals strictly more
    /// problems there. Rules that improved or stayed equal never mask a
    /// regression in another rule.
    pub fn compare(&self, new_ratchet: &RatchetFile) -> (r: bool)
        requires
            self.wf(),
            new_ratchet.wf(),
            rules_bounded(self.rules@),
            rules_bounded(new_ratchet.rules@),
        ensures
            r == snap_regressed(self.rules@, new_ratchet.rules@),
    {
        let ghost olds = self.rules@;
        let ghost news = new_ratchet.rules@;
        let mut got_worse: bool = false;
        let n: usize = self.rules.len();
        let mut i: usize = 0;
        proof {
            assert(!snap_regressed(olds.subrange(0, 0), news)) by {
                if snap_regressed(olds.subrange(0, 0), news) {
                    let t = choose|t: int|
                        0 <= t < olds.subrange(0, 0).len() && nm_contains(
                            news,
                            olds.subrange(0, 0)[t].0,
                        ) && rm_total(nm_get(news, olds.subrange(0, 0)[t].0)) > rm_total(
                            olds.subrange(0, 0)[t].1,
                        );
                }
            }
        }
        while i < n
            invariant
                olds == self.rules@,
                news == new_ratchet.rules@,
                self.wf(),
                new_ratchet.wf(),
                rules_bounded(olds),
                rules_bounded(news),
                n == olds.len(),
                i <= n,
                got_worse == snap_regressed(olds.subrange(0, i as int), news),
            decreases n - i,
        {
            let e = self.rules.entry_at(i);
            let mut previous_rule_count: usize = 0;
            let mut new_rule_count: usize = 0;
            match new_ratchet.rules.get(&e.0) {
                Some(new_map) => {
                    proof {
                        let idx = nm_index_of(news, e.0@);
                        assert(rm_total(news[idx].1) <= usize::MAX);
                    }
                    let counts = compare_rule_maps(&e.1, new_map);
                    new_rule_count = counts.0;
                    previous_rule_count = counts.1;
                },
                None => {},
            }
            let worse_here = new_rule_count > previous_rule_count;
            proof {
                assert(worse_here == (nm_contains(news, olds[i as int].0) && rm_total(
                    nm_get(news, olds[i as int].0),
                ) > rm_total(olds[i as int].1)));
            }
            got_worse = got_worse || worse_here;
            proof {
                let sub0 = olds.subrange(0, i as int);
                let sub1 = olds.subrange(0, i + 1);
                assert(forall|t: int| 0 <= t < sub1.len() ==> (#[trigger] sub1[t]) == olds[t]);
                assert(forall|t: int| 0 <= t < sub0.len() ==> (#[trigger] sub0[t]) == olds[t]);
                if got_worse {
                    if snap_regressed(sub0, news) {
                        let t = choose|t: int|
                            0 <= t < sub0.len() && nm_contains(news, (#[trigger] sub0[t]).0)
                                && rm_total(nm_get(news, sub0[t].0)) > rm_total(sub0[t].1);
                        assert(sub1[t] == sub0[t]);
                        assert(snap_regressed(sub1, news));
                    } else {
                        assert(sub1[i as int] == olds[i as int]);
                        assert(snap_regressed(sub1, news));
                    }
                } else {
                    assert(!snap_regressed(sub1, news)) by {
                        if snap_regressed(sub1, news) {
                            let t = choose|t: int|
                                0 <= t < sub1.len() && nm_contains(news, (#[trigger] sub1[t]).0)
                                    && rm_total(nm_get(news, sub1[t].0)) > rm_total(sub1[t].1);
                            if t < i as int {
                                assert(sub0[t] == sub1[t]);
                                assert(snap_regressed(sub0, news));
                            }
                        }
                    }
                }
            }
            i = i + 1;
        }
        proof {
            assert(olds.subrange(0, n as int) =~= olds);
        }
        got_worse
    }

    /// The per-rule report behind `compare`: for each rule of the
    /// baseline, in order, its name with the new and old totals that the
    /// comparison used. An entry with a larger new total than old total
    /// is a rule that got worse; smaller, one that improved; equal, one
    /// that did not change.
    pub fn compare_report(&self, new_ratchet: &RatchetFile) -> (r: Vec<(String, usize, usize)>)
        requires
            self.wf(),
            new_ratchet.wf(),
            rules_bounded(self.rules@),
            rules_bounded(new_ratchet.rules@),
        ensures
            r@.len() == self.rules@.len(),
            forall|i: int|
                0 <= i < r@.len() ==> (#[trigger] r@[i]).0@ == self.rules@[i].0 && r@[i].1
                    == report_new_total(self.rules@, new_ratchet.rules@, i) && r@[i].2
                    == report_old_total(self.rules@, new_ratchet.rules@, i),
    {
        let ghost olds = self.rules@;
        let ghost news = new_ratchet.rules@;
        let mut report: Vec<(String, usize, usize)> = Vec::new();
        let n: usize = self.rules.len();
        let mut i: usize = 0;
        while i < n
            invariant
                olds == self.rules@,
                news == new_ratchet.rules@,
                self.wf(),
                new_ratchet.wf(),
                rules_bounded(olds),
                rules_bounded(news),
                n == olds.len(),
                i <= n,
                report@.len() == i,
                forall|t: int|
                    0 <= t < i ==> (#[trigger] report@[t]).0@ == olds[t].0 && report@[t].1
                        == report_new_total(olds, news, t) && report@[t].2 == report_old_total(
                        olds,
                        news,
                        t,
                    ),
            decreases n - i,
        {
            let e = self.rules.entry_at(i);
            let mut previous_rule_count: usize = 0;
            let mut new_rule_count: usize = 0;
            match new_ratchet.rules.get(&e.0) {
                Some(new_map) => {
                    proof {
                        let idx = nm_index_of(news, e.0@);
                        assert(rm_total(news[idx].1) <= usize::MAX);
                    }
                    let counts = compare_rule_maps(&e.1, new_map);
                    new_rule_count = counts.0;
                    previous_rule_count = counts.1;
                },
                None => {},
            }
            report.push((e.0.clone(), new_rule_count, previous_rule_count));
            i = i + 1;
        }
        report
    }
}

impl RatchetFile {
    /// Compares this snapshot, the baseline, against a new one in the
    /// aggregate: one grand total per side over all rules, rather than a
    /// per-rule verdict. The old side totals the baseline in full. The
    /// new side totals, for rules named in both snapshots, the new
    /// problems under file keys the baseline also carries, and for rules
    /// the baseline does not name, the new rule's full total. Returns
    /// true exactly when the new side exceeds the old.
    pub fn compare_new(&self, new_ratchet: &RatchetFile) -> (r: bool)
        requires
            self.wf(),
            new_ratchet.wf(),
            snapshot_total(self.rules@) <= usize::MAX,
            snapshot_total(new_ratchet.rules@) <= usize::MAX,
        ensures
            r == (cn_shared_rules_total(self.rules@, new_ratchet.rules@) + cn_new_rules_total(
                self.rules@,
                new_ratchet.rules@,
            ) > snapshot_total(self.rules@)),
    {
        let ghost olds = self.rules@;
        let ghost news = new_ratchet.rules@;
        let mut total_old_issues: usize = 0;
        let mut total_new_issues: usize = 0;

        // Walk the baseline's rules.
        let n: usize = self.rules.len();
        let mut i: usize = 0;
        while i < n
            invariant
                olds == self.rules@,
                news == new_ratchet.rules@,
                self.wf(),
                new_ratchet.wf(),
                snapshot_total(olds) <= usize::MAX,
                snapshot_total(news) <= usize::MAX,
                n == olds.len(),
                i <= n,
                total_old_issues == snapshot_total(olds.subrange(0, i as int)),
                total_new_issues == cn_shared_rules_total(olds.subrange(0, i as int), news),
            decreases n - i,
        {
            proof {
                assert(olds.subrange(0, i + 1).drop_last() =~= olds.subrange(0, i as int));
                assert(olds.subrange(0, i + 1).last() == olds[i as int]);
                lemma_snapshot_total_prefix_le(olds, i + 1);
                lemma_cn_shared_prefix_le(olds, news, i + 1);
                lemma_cn_totals_le(olds, news);
                lemma_snapshot_entry_le(olds, i as int);
            }
            let e = self.rules.entry_at(i);
            match new_ratchet.rules.get(&e.0) {
                Some(new_rule) => {
                    proof {
                        let idx = nm_index_of(news, e.0@);
                        lemma_snapshot_entry_le(news, idx);
                    }
                    let counts = count_rule_pair(&e.1, new_rule);
                    total_new_issues = total_new_issues + counts.0;
                    total_old_issues = total_old_issues + counts.1;
                },
                None => {
                    // Rule does not exist in the new snapshot; count all
                    // issues from the old side.
                    let rule_old_count = rule_map_total(&e.1);
                    total_old_issues = total_old_issues + rule_old_count;
                },
            }
            i = i + 1;
        }
        proof {
            assert(olds.subrange(0, n as int) =~= olds);
            assert(news.subrange(0, 0) =~= Seq::<(Seq<char>, RuleMapV)>::empty());
        }

        // Walk the new snapshot's rules that the baseline does not name.
        let n_new: usize = new_ratchet.rules.len();
        let mut j: usize = 0;
        while j < n_new
            invariant
                olds == self.rules@,
                news == new_ratchet.rules@,
                self.wf(),
                new_ratchet.wf(),
                snapshot_total(olds) <= usize::MAX,
                snapshot_total(news) <= usize::MAX,
                n_new == news.len(),
                j <= n_new,
                total_old_issues == snapshot_total(olds),
                total_new_issues == cn_shared_rules_total(olds, news) + cn_new_rules_total(
                    olds,
                    news.subrange(0, j as int),
                ),
            decreases n_new - j,
        {
            proof {
                assert(news.subrange(0, j + 1).drop_last() =~= news.subrange(0, j as int));
                assert(news.subrange(0, j + 1).last() == news[j as int]);
                lemma_cn_new_rules_prefix_le(olds, news, j + 1);
                lemma_cn_totals_le(olds, news);
                lemma_snapshot_entry_le(news, j as int);
            }
            let e = new_ratchet.rules.entry_at(j);
            match self.rules.get(&e.0) {
                Some(_) => {},
                None => {
                    // This is a rule the baseline does not know; count
                    // its issues on the new side.
                    let rule_new_count = rule_map_total(&e.1);
                    total_new_issues = total_new_issues + rule_new_count;
                },
            }
            j = j + 1;
        }
        proof {
            assert(news.subrange(0, n_new as int) =~= news);
        }

        total_new_issues > total_old_issues
    }

    /// Whether every per-rule problem total of this snapshot fits in a
    /// machine word, as `compare` and `compare_report` require.
    pub fn totals_fit(&self) -> (r: bool)
        ensures
            r == rules_bounded(self.rules@),
    {
        let n: usize = self.rules.len();
        let mut i: usize = 0;
        while i < n
            invariant
                n == self.rules@.len(),
                i <= n,
                forall|t: int| 0 <= t < i ==> rm_total((#[trigger] self.rules@[t]).1) <= usize::MAX,
            decreases n - i,
        {
            let e = self.rules.entry_at(i);
            match rule_map_total_checked(&e.1) {
                Some(_) => {},
                None => {
                    return false;
                },
            }
            i = i + 1;
        }
        true
    }

    /// Whether the grand problem total of this snapshot fits in a
    /// machine word, as `compare_new` requires.
    pub fn snapshot_total_fits(&self) -> (r: bool)
        ensures
            r == (snapshot_total(self.rules@) <= usize::MAX),
    {
        let ghost s = self.rules@;
        let n: usize = self.rules.len();
        let mut total: usize = 0;
        let mut i: usize = 0;
        proof {
            assert(s.subrange(0, 0) =~= Seq::<(Seq<char>, RuleMapV)>::empty());
        }
        while i < n
            invariant
                s == self.rules@,
                n == s.len(),
                i <= n,
                total == snapshot_total(s.subrange(0, i as int)),
            decreases n - i,
        {
            proof {
                assert(s.subrange(0, i + 1).drop_last() =~= s.subrange(0, i as int));
                assert(s.subrange(0, i + 1).last() == s[i as int]);
            }
            let e = self.rules.entry_at(i);
            match rule_map_total_checked(&e.1) {
                Some(t) => {
                    if total > usize::MAX - t {
                        proof {
                            lemma_snapshot_total_prefix_le(s, i + 1);
                        }
                        return false;
                    }
                    total = total + t;
                },
                None => {
                    proof {
                        lemma_snapshot_entry_le(s, i as int);
                    }
                    return false;
                },
            }
            i = i + 1;
        }
        proof {
            assert(s.subrange(0, n as int) =~= s);
        }
        true
    }
}

/// Two rule maps with identical keys and identical problem counts per
/// key total the same on both sides, so `compare_rule_maps` reports
/// equal totals and the rule is not regressed.
pub proof fn lemma_equal_maps_equal_totals(a: RuleMapV, b: RuleMapV)
    requires
        rm_wf(a),
        rm_wf(b),
        forall|k: (Seq<char>, u64)| (#[trigger] rm_contains(a, k)) == rm_contains(b, k),
        forall|k: (Seq<char>, u64)|
            rm_contains(a, k) ==> (#[trigger] rm_count(a, k)) == rm_count(b, k),
    ensures
        rm_total(a) == rm_total(b),
    decreases a.len(),
{
    if a.len() == 0 {
        if b.len() > 0 {
            assert(rm_contains(b, b[0].0));
            assert(!rm_contains(a, b[0].0)) by {
                if rm_contains(a, b[0].0) {
                    let t = rm_index_of(a, b[0].0);
                }
            }
            assert(false);
        }
    } else {
        let e = a.last();
        let k = e.0;
        let a1 = a.drop_last();
        lemma_rm_drop_last_facts(a);
        assert(rm_contains(a, k)) by {
            assert(a[a.len() - 1].0 == k);
        }
        lemma_rm_index_of(a, a.len() - 1);
        assert(rm_count(a, k) == e.1.len());
        assert(rm_contains(b, k));
        let bi = rm_index_of(b, k);
        assert(0 <= bi < b.len() && b[bi].0 == k);
        lemma_rm_index_of(b, bi);
        let b1 = b.remove(bi);
        lemma_rm_remove_facts(b, bi);
        lemma_rm_total_remove(b, bi);
        assert forall|k2: (Seq<char>, u64)| (#[trigger] rm_contains(a1, k2)) == rm_contains(
            b1,
            k2,
        ) by {
            if k2 == k {
                assert(!rm_contains(a1, k2));
                assert(!rm_contains(b1, k2));
            } else {
                assert(rm_contains(a1, k2) == rm_contains(a, k2));
                assert(rm_contains(a, k2) == rm_contains(b, k2));
                assert(rm_contains(b1, k2) == rm_contains(b, k2));
            }
        }
        assert forall|k2: (Seq<char>, u64)| rm_contains(a1, k2) implies (#[trigger] rm_count(
            a1,
            k2,
        )) == rm_count(b1, k2) by {
            assert(k2 != k);
            assert(rm_contains(a, k2));
            assert(rm_problems(a1, k2) == rm_problems(a, k2));
            assert(rm_count(a, k2) == rm_count(b, k2));
            assert(rm_contains(b, k2));
            assert(rm_problems(b1, k2) == rm_problems(b, k2));
        }
        lemma_equal_maps_equal_totals(a1, b1);
        assert(rm_count(b, k) == rm_count(a, k));
        assert(rm_count(b, k) == b[bi].1.len());
    }
}

/// Holding everything else fixed, adding one problem to a file present
/// unchanged in both maps makes the new total strictly larger than the
/// old one, so the rule regresses.
pub proof fn lemma_added_problem_regresses(old_m: RuleMapV, new_m: RuleMapV, k: (Seq<char>, u64))
    requires
        rm_wf(old_m),
        rm_wf(new_m),
        rm_contains(old_m, k),
        rm_contains(new_m, k),
        forall|k2: (Seq<char>, u64)| (#[trigger] rm_contains(old_m, k2)) == rm_contains(new_m, k2),
        forall|k2: (Seq<char>, u64)|
            rm_contains(old_m, k2) && k2 != k ==> (#[trigger] rm_count(old_m, k2)) == rm_count(
                new_m,
                k2,
            ),
        rm_count(new_m, k) == rm_count(old_m, k) + 1,
    ensures
        rm_total(new_m) == rm_total(old_m) + 1,
        rm_total(new_m) > rm_total(old_m),
{
    let i = rm_index_of(old_m, k);
    let j = rm_index_of(new_m, k);
    assert(0 <= i < old_m.len() && old_m[i].0 == k);
    assert(0 <= j < new_m.len() && new_m[j].0 == k);
    lemma_rm_index_of(old_m, i);
    lemma_rm_index_of(new_m, j);
    let a1 = old_m.remove(i);
    let b1 = new_m.remove(j);
    lemma_rm_remove_facts(old_m, i);
    lemma_rm_remove_facts(new_m, j);
    lemma_rm_total_remove(old_m, i);
    lemma_rm_total_remove(new_m, j);
    assert forall|k2: (Seq<char>, u64)| (#[trigger] rm_contains(a1, k2)) == rm_contains(
        b1,
        k2,
    ) by {
        if k2 == k {
            assert(!rm_contains(a1, k2));
            assert(!rm_contains(b1, k2));
        } else {
            assert(rm_contains(a1, k2) == rm_contains(old_m, k2));
            assert(rm_contains(old_m, k2) == rm_contains(new_m, k2));
            assert(rm_contains(b1, k2) == rm_contains(new_m, k2));
        }
    }
    assert forall|k2: (Seq<char>, u64)| rm_contains(a1, k2) implies (#[trigger] rm_count(a1, k2))
        == rm_count(b1, k2) by {
        assert(k2 != k);
        assert(rm_contains(old_m, k2));
        assert(rm_problems(a1, k2) == rm_problems(old_m, k2));
        assert(rm_count(old_m, k2) == rm_count(new_m, k2));
        assert(rm_contains(new_m, k2));
        assert(rm_problems(b1, k2) == rm_problems(new_m, k2));
    }
    lemma_equal_maps_equal_totals(a1, b1);
}

/// Removing every problem of one flagged file, so that its key vanishes
/// from the new map, lowers the new total by that file's problem count
/// and never raises it.
pub proof fn lemma_removed_file_improves(old_m: RuleMapV, new_m: RuleMapV, k: (Seq<char>, u64))
    requires
        rm_wf(old_m),
        rm_wf(new_m),
        rm_contains(old_m, k),
        !rm_contains(new_m, k),
        forall|k2: (Seq<char>, u64)|
            k2 != k ==> (#[trigger] rm_contains(old_m, k2)) == rm_contains(new_m, k2),
        forall|k2: (Seq<char>, u64)|
            rm_contains(new_m, k2) ==> (#[trigger] rm_count(new_m, k2)) == rm_count(old_m, k2),
    ensures
        rm_total(new_m) + rm_count(old_m, k) == rm_total(old_m),
        rm_total(new_m) <= rm_total(old_m),
        rm_count(old_m, k) > 0 ==> rm_total(new_m) < rm_total(old_m),
{
    let i = rm_index_of(old_m, k);
    assert(0 <= i < old_m.len() && old_m[i].0 == k);
    lemma_rm_index_of(old_m, i);
    let a1 = old_m.remove(i);
    lemma_rm_remove_facts(old_m, i);
    lemma_rm_total_remove(old_m, i);
    assert forall|k2: (Seq<char>, u64)| (#[trigger] rm_contains(a1, k2)) == rm_contains(
        new_m,
        k2,
    ) by {
        if k2 == k {
            assert(!rm_contains(a1, k2));
        } else {
            assert(rm_contains(a1, k2) == rm_contains(old_m, k2));
            assert(rm_contains(old_m, k2) == rm_contains(new_m, k2));
        }
    }
    assert forall|k2: (Seq<char>, u64)| rm_contains(a1, k2) implies (#[trigger] rm_count(a1, k2))
        == rm_count(new_m, k2) by {
        assert(k2 != k);
        assert(rm_contains(old_m, k2));
        assert(rm_problems(a1, k2) == rm_problems(old_m, k2));
        assert(rm_contains(new_m, k2));
        assert(rm_count(new_m, k2) == rm_count(old_m, k2));
    }
    lemma_equal_maps_equal_totals(a1, new_m);
}

/// Editing a file's content changes its fingerprint and so its key, yet
/// as long as its problem count stays the same the totals of the two
/// maps agree: the change alone cannot flip the verdict to regressed.
pub proof fn lemma_fingerprint_change_same_totals(
    old_m: RuleMapV,
    new_m: RuleMapV,
    k1: (Seq<char>, u64),
    k2: (Seq<char>, u64),
)
    requires
        rm_wf(old_m),
        rm_wf(new_m),
        rm_contains(old_m, k1),
        !rm_contains(new_m, k1),
        rm_contains(new_m, k2),
        !rm_contains(old_m, k2),
        forall|k3: (Seq<char>, u64)|
            k3 != k1 && k3 != k2 ==> (#[trigger] rm_contains(old_m, k3)) == rm_contains(new_m, k3),
        forall|k3: (Seq<char>, u64)|
            rm_contains(new_m, k3) && k3 != k2 ==> (#[trigger] rm_count(new_m, k3)) == rm_count(
                old_m,
                k3,
            ),
        rm_count(new_m, k2) == rm_count(old_m, k1),
    ensures
        rm_total(new_m) == rm_total(old_m),
{
    let i = rm_index_of(old_m, k1);
    let j = rm_index_of(new_m, k2);
    assert(0 <= i < old_m.len() && old_m[i].0 == k1);
    assert(0 <= j < new_m.len() && new_m[j].0 == k2);
    lemma_rm_index_of(old_m, i);
    lemma_rm_index_of(new_m, j);
    let a1 = old_m.remove(i);
    let b1 = new_m.remove(j);
    lemma_rm_remove_facts(old_m, i);
    lemma_rm_remove_facts(new_m, j);
    lemma_rm_total_remove(old_m, i);
    lemma_rm_total_remove(new_m, j);
    assert forall|k3: (Seq<char>, u64)| (#[trigger] rm_contains(a1, k3)) == rm_contains(
        b1,
        k3,
    ) by {
        if k3 == k1 {
            assert(!rm_contains(a1, k3));
            assert(rm_contains(b1, k3) == rm_contains(new_m, k3));
        } else if k3 == k2 {
            assert(!rm_contains(b1, k3));
            assert(rm_contains(a1, k3) == rm_contains(old_m, k3));
        } else {
            assert(rm_contains(a1, k3) == rm_contains(old_m, k3));
            assert(rm_contains(old_m, k3) == rm_contains(new_m, k3));
            assert(rm_contains(b1, k3) == rm_contains(new_m, k3));
        }
    }
    assert forall|k3: (Seq<char>, u64)| rm_contains(a1, k3) implies (#[trigger] rm_count(a1, k3))
        == rm_count(b1, k3) by {
        assert(k3 != k1);
        assert(rm_contains(old_m, k3));
        assert(k3 != k2);
        assert(rm_problems(a1, k3) == rm_problems(old_m, k3));
        assert(rm_contains(new_m, k3));
        assert(rm_count(new_m, k3) == rm_count(old_m, k3));
        assert(rm_problems(b1, k3) == rm_problems(new_m, k3));
    }
    lemma_equal_maps_equal_totals(a1, b1);
}

/// Facts about recording a map under a name in a well-formed sequence:
/// that name then carries the map, and every other name is untouched.
pub(crate) proof fn lemma_nm_insert_facts(s: RuleMapsV, name: Seq<char>, m: RuleMapV)
    requires
        nm_wf(s),
    ensures
        nm_wf(nm_insert(s, name, m)),
        nm_contains(nm_insert(s, name, m), name),
        nm_get(nm_insert(s, name, m), name) == m,
        forall|x: Seq<char>|
            x != name ==> (#[trigger] nm_contains(nm_insert(s, name, m), x)) == nm_contains(s, x),
        forall|x: Seq<char>|
            x != name && nm_contains(s, x) ==> (#[trigger] nm_get(nm_insert(s, name, m), x))
                == nm_get(s, x),
{
    let p = nm_insert(s, name, m);
    if nm_contains(s, name) {
        let i = nm_index_of(s, name);
        assert(0 <= i < s.len() && s[i].0 == name);
        assert(forall|t: int|
            0 <= t < p.len() ==> (#[trigger] p[t]) == if t == i {
                (name, m)
            } else {
                s[t]
            });
        assert(nm_wf(p));
        lemma_nm_index_of(p, i);
        assert forall|x: Seq<char>| x != name implies (#[trigger] nm_contains(p, x))
            == nm_contains(s, x) by {
            if nm_contains(p, x) {
                let t = nm_index_of(p, x);
                assert(0 <= t < p.len() && p[t].0 == x);
                assert(t != i);
                assert(s[t].0 == x);
            } else if nm_contains(s, x) {
                let t = nm_index_of(s, x);
                assert(0 <= t < s.len() && s[t].0 == x);
                assert(t != i);
                assert(p[t].0 == x);
            }
        }
        assert forall|x: Seq<char>| x != name && nm_contains(s, x) implies (#[trigger] nm_get(
            p,
            x,
        )) == nm_get(s, x) by {
            let t = nm_index_of(s, x);
            assert(0 <= t < s.len() && s[t].0 == x);
            lemma_nm_index_of(s, t);
            assert(t != i);
            assert(p[t].0 == x);
            lemma_nm_index_of(p, t);
        }
    } else {
        lemma_nm_push_facts(s, (name, m));
    }
}

/// A rule absent from the baseline never contributes to the verdict on
/// its own: recording it in the new snapshot, under any map whatsoever,
/// leaves the result of the comparison unchanged.
pub proof fn lemma_new_rule_never_regresses(
    old_rules: RuleMapsV,
    new_rules: RuleMapsV,
    name: Seq<char>,
    m: RuleMapV,
)
    requires
        nm_wf(new_rules),
        !nm_contains(old_rules, name),
    ensures
        snap_regressed(old_rules, nm_insert(new_rules, name, m)) == snap_regressed(
            old_rules,
            new_rules,
        ),
{
    let p = nm_insert(new_rules, name, m);
    lemma_nm_insert_facts(new_rules, name, m);
    assert(forall|i: int|
        0 <= i < old_rules.len() ==> (#[trigger] old_rules[i]).0 != name) by {
        assert forall|i: int| 0 <= i < old_rules.len() implies (#[trigger] old_rules[i]).0
            != name by {
            if old_rules[i].0 == name {
                assert(nm_contains(old_rules, name));
            }
        }
    }
    if snap_regressed(old_rules, p) {
        let i = choose|i: int|
            0 <= i < old_rules.len() && nm_contains(p, (#[trigger] old_rules[i]).0) && rm_total(
                nm_get(p, old_rules[i].0),
            ) > rm_total(old_rules[i].1);
        assert(old_rules[i].0 != name);
        assert(nm_contains(new_rules, old_rules[i].0));
        assert(nm_get(p, old_rules[i].0) == nm_get(new_rules, old_rules[i].0));
        assert(snap_regressed(old_rules, new_rules));
    }
    if snap_regressed(old_rules, new_rules) {
        let i = choose|i: int|
            0 <= i < old_rules.len() && nm_contains(new_rules, (#[trigger] old_rules[i]).0)
                && rm_total(nm_get(new_rules, old_rules[i].0)) > rm_total(old_rules[i].1);
        assert(old_rules[i].0 != name);
        assert(nm_contains(p, old_rules[i].0));
        assert(nm_get(p, old_rules[i].0) == nm_get(new_rules, old_rules[i].0));
        assert(snap_regressed(old_rules, p));
    }
}

/// An empty baseline can never regress: with no prior rule results there
/// is no floor to fall below, whatever the current scan found.
pub proof fn lemma_empty_baseline_not_regressed(old_rules: RuleMapsV, new_rules: RuleMapsV)
    requires
        old_rules.len() == 0,
    ensures
        !snap_regressed(old_rules, new_rules),
{
    if snap_regressed(old_rules, new_rules) {
        let i = choose|i: int|
            0 <= i < old_rules.len() && nm_contains(new_rules, (#[trigger] old_rules[i]).0)
                && rm_total(nm_get(new_rules, old_rules[i].0)) > rm_total(old_rules[i].1);
        assert(false);
    }
}

} // verus!
