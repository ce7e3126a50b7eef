use vstd::prelude::*;
use vstd::pervasive::VecAdditionalExecFns;

verus! {

/// One located violation: a byte span into the normalized content of the
/// scanned file, the rule's display message, and a stable identifier
/// derived from the rule's pattern text.
pub struct Problem {
    pub start: usize,
    pub end: usize,
    pub message: String,
    pub message_id: String,
}

/// The mathematical value of a `Problem`.
pub struct ProblemV {
    pub start: int,
    pub end: int,
    pub message: Seq<char>,
    pub message_id: Seq<char>,
}

impl View for Problem {
    type V = ProblemV;

    open spec fn view(&self) -> ProblemV {
        ProblemV {
            start: self.start as int,
            end: self.end as int,
            message: self.message@,
            message_id: self.message_id@,
        }
    }
}

impl DeepView for Problem {
    type V = ProblemV;

    open spec fn deep_view(&self) -> ProblemV {
        self.view()
    }
}

/// A problem's span is a well-formed range.
pub open spec fn problem_wf(p: ProblemV) -> bool {
    p.start <= p.end
}

/// The identity of a scanned file within one rule's results: its
/// normalized path together with the fingerprint of its normalized
/// content. Two scans of one path with different content carry different
/// keys on purpose.
pub struct FileKey {
    pub path: String,
    pub hash: u64,
}

impl View for FileKey {
    type V = (Seq<char>, u64);

    open spec fn view(&self) -> (Seq<char>, u64) {
        (self.path@, self.hash)
    }
}

impl DeepView for FileKey {
    type V = (Seq<char>, u64);

    open spec fn deep_view(&self) -> (Seq<char>, u64) {
        self.view()
    }
}

/// The mathematical value of a `RuleMap`: the key/problems entries in
/// their iteration order.
pub type RuleMapV = Seq<((Seq<char>, u64), Seq<ProblemV>)>;

/// The keys of `m` are pairwise distinct.
pub open spec fn rm_wf(m: RuleMapV) -> bool {
    forall|i: int, j: int| 0 <= i < j < m.len() ==> (#[trigger] m[i]).0 != (#[trigger] m[j]).0
}

/// Some entry of `m` carries the key `k`.
pub open spec fn rm_contains(m: RuleMapV, k: (Seq<char>, u64)) -> bool {
    exists|i: int| 0 <= i < m.len() && (#[trigger] m[i]).0 == k
}

/// The position of the entry of `m` that carries the key `k`.
pub open spec fn rm_index_of(m: RuleMapV, k: (Seq<char>, u64)) -> int {
    choose|i: int| 0 <= i < m.len() && (#[trigger] m[i]).0 == k
}

/// The problems that `m` records under the key `k`.
pub open spec fn rm_problems(m: RuleMapV, k: (Seq<char>, u64)) -> Seq<ProblemV> {
    m[rm_index_of(m, k)].1
}

/// How many problems `m` records under the key `k`.
pub open spec fn rm_count(m: RuleMapV, k: (Seq<char>, u64)) -> nat {
    rm_problems(m, k).len()
}

/// The total number of problems recorded in `m`, over all keys.
pub open spec fn rm_total(m: RuleMapV) -> nat
    decreases m.len(),
{
    if m.len() == 0 {
        0
    } else {
        rm_total(m.drop_last()) + m.last().1.len()
    }
}

/// The entries of `m` after `ps` is recorded under `k`: the entry already
/// carrying `k` is replaced, or a new entry is appended.
pub open spec fn rm_insert(m: RuleMapV, k: (Seq<char>, u64), ps: Seq<ProblemV>) -> RuleMapV {
    if rm_contains(m, k) {
        m.update(rm_index_of(m, k), (k, ps))
    } else {
        m.push((k, ps))
    }
}

/// In a map with distinct keys, any entry carrying `k` stands where
/// `rm_index_of` points.
pub(crate) proof fn lemma_rm_index_of(m: RuleMapV, i: int)
    requires
        rm_wf(m),
        0 <= i < m.len(),
    ensures
        rm_contains(m, m[i].0),
        rm_index_of(m, m[i].0) == i,
        rm_problems(m, m[i].0) == m[i].1,
        rm_count(m, m[i].0) == m[i].1.len(),
{
    assert(rm_contains(m, m[i].0));
    let j = rm_index_of(m, m[i].0);
    assert(0 <= j < m.len() && m[j].0 == m[i].0);
    if i != j {
        assert(false);
    }
}

/// Appending one entry adds its problem count to the total.
pub(crate) proof fn lemma_rm_total_push(m: RuleMapV, e: ((Seq<char>, u64), Seq<ProblemV>))
    ensures
        rm_total(m.push(e)) == rm_total(m) + e.1.len(),
{
    assert(m.push(e).drop_last() =~= m);
    assert(m.push(e).last() == e);
}

/// Replacing one entry shifts the total by the difference of the problem
/// counts.
pub(crate) proof fn lemma_rm_total_update(
    m: RuleMapV,
    i: int,
    e: ((Seq<char>, u64), Seq<ProblemV>),
)
    requires
        0 <= i < m.len(),
    ensures
        rm_total(m.update(i, e)) + m[i].1.len() == rm_total(m) + e.1.len(),
    decreases m.len(),
{
    let u = m.update(i, e);
    if i == m.len() - 1 {
        assert(u.drop_last() =~= m.drop_last());
        assert(u.last() == e);
    } else {
        assert(u.drop_last() =~= m.drop_last().update(i, e));
        assert(u.last() == m.last());
        lemma_rm_total_update(m.drop_last(), i, e);
    }
}

/// A prefix never records more problems than the whole map.
pub(crate) proof fn lemma_rm_total_prefix_le(m: RuleMapV, i: int)
    requires
        0 <= i <= m.len(),
    ensures
        rm_total(m.subrange(0, i)) <= rm_total(m),
    decreases m.len() - i,
{
    if i == m.len() {
        assert(m.subrange(0, i) =~= m);
    } else {
        assert(m.subrange(0, i + 1).drop_last() =~= m.subrange(0, i));
        lemma_rm_total_prefix_le(m, i + 1);
    }
}

/// The problems that the new map records under keys that the old map also
/// carries, summed in the old map's entry order.
pub open spec fn rm_shared_new_total(old_m: RuleMapV, new_m: RuleMapV) -> nat
    decreases old_m.len(),
{
    if old_m.len() == 0 {
        0
    } else {
        rm_shared_new_total(old_m.drop_last(), new_m) + if rm_contains(new_m, old_m.last().0) {
            rm_count(new_m, old_m.last().0)
        } else {
            0
        }
    }
}

/// The problems that the new map records under keys absent from the old
/// map.
pub open spec fn rm_only_new_total(old_m: RuleMapV, new_m: RuleMapV) -> nat
    decreases new_m.len(),
{
    if new_m.len() == 0 {
        0
    } else {
        rm_only_new_total(old_m, new_m.drop_last()) + if rm_contains(old_m, new_m.last().0) {
            0
        } else {
            new_m.last().1.len()
        }
    }
}

pub(crate) proof fn lemma_rm_shared_empty(old_m: RuleMapV)
    ensures
        rm_shared_new_total(old_m, Seq::empty()) == 0,
    decreases old_m.len(),
{
    if old_m.len() > 0 {
        lemma_rm_shared_empty(old_m.drop_last());
    }
}

/// Appending an entry with a fresh key to the new map raises the shared
/// sum exactly when the old map carries that key.
pub(crate) proof fn lemma_rm_shared_push(
    old_m: RuleMapV,
    new_m: RuleMapV,
    e: ((Seq<char>, u64), Seq<ProblemV>),
)
    requires
        rm_wf(old_m),
        rm_wf(new_m),
        !rm_contains(new_m, e.0),
    ensures
        rm_shared_new_total(old_m, new_m.push(e)) == rm_shared_new_total(old_m, new_m)
            + if rm_contains(old_m, e.0) {
            e.1.len()
        } else {
            0
        },
    decreases old_m.len(),
{
    let newp = new_m.push(e);
    assert(rm_wf(newp)) by {
        assert(forall|i: int| 0 <= i < new_m.len() ==> (#[trigger] newp[i]) == new_m[i]);
        assert(newp[new_m.len() as int] == e);
        assert forall|i: int, j: int| 0 <= i < j < newp.len() implies (#[trigger] newp[i]).0 != (
        #[trigger] newp[j]).0 by {
            if j < new_m.len() {
            } else {
                assert(newp[j] == e);
                assert(newp[i] == new_m[i]);
                if newp[i].0 == e.0 {
                    assert(rm_contains(new_m, e.0));
                }
            }
        }
    }
    if old_m.len() == 0 {
    } else {
        let old_d = old_m.drop_last();
        assert(rm_wf(old_d)) by {
            assert(forall|i: int| 0 <= i < old_d.len() ==> (#[trigger] old_d[i]) == old_m[i]);
        }
        lemma_rm_shared_push(old_d, new_m, e);
        let k = old_m.last().0;
        if k == e.0 {
            assert(!rm_contains(new_m, k));
            assert(rm_contains(newp, k)) by {
                assert(newp[new_m.len() as int].0 == k);
            }
            lemma_rm_index_of(newp, new_m.len() as int);
            assert(rm_count(newp, k) == e.1.len());
            assert(rm_contains(old_m, e.0)) by {
                assert(old_m[old_m.len() - 1].0 == e.0);
            }
            assert(!rm_contains(old_d, e.0)) by {
                if rm_contains(old_d, e.0) {
                    let i = rm_index_of(old_d, e.0);
                    assert(0 <= i < old_d.len() && old_d[i].0 == e.0);
                    assert(old_m[i].0 == e.0);
                    assert(old_m[old_m.len() - 1].0 == e.0);
                }
            }
        } else {
            if rm_contains(new_m, k) {
                let i = rm_index_of(new_m, k);
                assert(0 <= i < new_m.len() && new_m[i].0 == k);
                assert(newp[i] == new_m[i]);
                lemma_rm_index_of(newp, i);
                lemma_rm_index_of(new_m, i);
                assert(rm_count(newp, k) == rm_count(new_m, k));
                assert(rm_contains(newp, k));
            } else {
                assert(!rm_contains(newp, k)) by {
                    if rm_contains(newp, k) {
                        let i = rm_index_of(newp, k);
                        assert(0 <= i < newp.len() && newp[i].0 == k);
                        if i < new_m.len() {
                            assert(new_m[i].0 == k);
                        } else {
                            assert(newp[i] == e);
                        }
                    }
                }
            }
            assert(rm_contains(old_d, e.0) == rm_contains(old_m, e.0)) by {
                if rm_contains(old_d, e.0) {
                    let i = rm_index_of(old_d, e.0);
                    assert(old_m[i].0 == e.0);
                    assert(rm_contains(old_m, e.0));
                } else if rm_contains(old_m, e.0) {
                    let i = rm_index_of(old_m, e.0);
                    assert(0 <= i < old_m.len() && old_m[i].0 == e.0);
                    assert(i < old_m.len() - 1 ==> old_d[i].0 == e.0);
                    assert(i == old_m.len() - 1 ==> k == e.0);
                    assert(rm_contains(old_d, e.0));
                }
            }
        }
    }
}

/// Every problem of the new map is counted exactly once: under a key the
/// old map shares, or under a key of the new map alone.
pub(crate) proof fn lemma_rm_new_total_partition(old_m: RuleMapV, new_m: RuleMapV)
    requires
        rm_wf(old_m),
        rm_wf(new_m),
    ensures
        rm_shared_new_total(old_m, new_m) + rm_only_new_total(old_m, new_m) == rm_total(new_m),
    decreases new_m.len(),
{
    if new_m.len() == 0 {
        lemma_rm_shared_empty(old_m);
        assert(new_m =~= Seq::empty());
    } else {
        let new_d = new_m.drop_last();
        let e = new_m.last();
        assert(rm_wf(new_d)) by {
            assert(forall|i: int| 0 <= i < new_d.len() ==> (#[trigger] new_d[i]) == new_m[i]);
        }
        assert(!rm_contains(new_d, e.0)) by {
            if rm_contains(new_d, e.0) {
                let i = rm_index_of(new_d, e.0);
                assert(new_m[i].0 == e.0);
                assert(new_m[new_m.len() - 1].0 == e.0);
            }
        }
        lemma_rm_new_total_partition(old_m, new_d);
        assert(new_d.push(e) =~= new_m);
        lemma_rm_shared_push(old_m, new_d, e);
    }
}

/// A prefix of the old map's entries never yields a larger shared sum
/// than the whole old map.
pub(crate) proof fn lemma_rm_shared_prefix_le(old_m: RuleMapV, new_m: RuleMapV, i: int)
    requires
        0 <= i <= old_m.len(),
    ensures
        rm_shared_new_total(old_m.subrange(0, i), new_m) <= rm_shared_new_total(old_m, new_m),
    decreases old_m.len() - i,
{
    if i == old_m.len() {
        assert(old_m.subrange(0, i) =~= old_m);
    } else {
        assert(old_m.subrange(0, i + 1).drop_last() =~= old_m.subrange(0, i));
        lemma_rm_shared_prefix_le(old_m, new_m, i + 1);
    }
}

/// A prefix of the new map's entries never yields a larger new-only sum
/// than the whole new map.
pub(crate) proof fn lemma_rm_only_prefix_le(old_m: RuleMapV, new_m: RuleMapV, j: int)
    requires
        0 <= j <= new_m.len(),
    ensures
        rm_only_new_total(old_m, new_m.subrange(0, j)) <= rm_only_new_total(old_m, new_m),
    decreases new_m.len() - j,
{
    if j == new_m.len() {
        assert(new_m.subrange(0, j) =~= new_m);
    } else {
        assert(new_m.subrange(0, j + 1).drop_last() =~= new_m.subrange(0, j));
        lemma_rm_only_prefix_le(old_m, new_m, j + 1);
    }
}

/// Removing one entry removes exactly its problems from the total.
pub(crate) proof fn lemma_rm_total_remove(m: RuleMapV, i: int)
    requires
        0 <= i < m.len(),
    ensures
        rm_total(m.remove(i)) + m[i].1.len() == rm_total(m),
    decreases m.len(),
{
    if i == m.len() - 1 {
        assert(m.remove(i) =~= m.drop_last());
    } else {
        assert(m.remove(i).drop_last() =~= m.drop_last().remove(i));
        assert(m.remove(i).last() == m.last());
        lemma_rm_total_remove(m.drop_last(), i);
    }
}

/// Dropping the last entry of a well-formed map leaves every other key
/// with the same problems.
pub(crate) proof fn lemma_rm_drop_last_facts(m: RuleMapV)
    requires
        rm_wf(m),
        m.len() > 0,
    ensures
        rm_wf(m.drop_last()),
        !rm_contains(m.drop_last(), m.last().0),
        forall|k: (Seq<char>, u64)|
            k != m.last().0 ==> (#[trigger] rm_contains(m.drop_last(), k)) == rm_contains(m, k),
        forall|k: (Seq<char>, u64)|
            k != m.last().0 && rm_contains(m, k) ==> #[trigger] rm_problems(m.drop_last(), k)
                == rm_problems(m, k),
{
    let d = m.drop_last();
    assert(forall|i: int| 0 <= i < d.len() ==> (#[trigger] d[i]) == m[i]);
    assert(!rm_contains(d, m.last().0)) by {
        if rm_contains(d, m.last().0) {
            let i = rm_index_of(d, m.last().0);
            assert(m[i].0 == m.last().0);
            assert(m[m.len() - 1].0 == m.last().0);
        }
    }
    assert forall|k: (Seq<char>, u64)| k != m.last().0 implies (#[trigger] rm_contains(d, k))
        == rm_contains(m, k) by {
        if rm_contains(d, k) {
            let i = rm_index_of(d, k);
            assert(m[i].0 == k);
        } else if rm_contains(m, k) {
            let i = rm_index_of(m, k);
            assert(0 <= i < m.len() && m[i].0 == k);
            assert(i != m.len() - 1);
            assert(d[i].0 == k);
        }
    }
    assert forall|k: (Seq<char>, u64)| k != m.last().0 && rm_contains(m, k) implies (
    #[trigger] rm_problems(d, k)) == rm_problems(m, k) by {
        let i = rm_index_of(m, k);
        assert(0 <= i < m.len() && m[i].0 == k);
        assert(i != m.len() - 1);
        lemma_rm_index_of(m, i);
        assert(d[i].0 == k);
        lemma_rm_index_of(d, i);
    }
}

/// Removing one entry of a well-formed map leaves every other key with
/// the same problems.
pub(crate) proof fn lemma_rm_remove_facts(m: RuleMapV, i: int)
    requires
        rm_wf(m),
        0 <= i < m.len(),
    ensures
        rm_wf(m.remove(i)),
        !rm_contains(m.remove(i), m[i].0),
        forall|k: (Seq<char>, u64)|
            k != m[i].0 ==> (#[trigger] rm_contains(m.remove(i), k)) == rm_contains(m, k),
        forall|k: (Seq<char>, u64)|
            k != m[i].0 && rm_contains(m, k) ==> #[trigger] rm_problems(m.remove(i), k)
                == rm_problems(m, k),
{
    let d = m.remove(i);
    assert(forall|t: int|
        0 <= t < d.len() ==> (#[trigger] d[t]) == if t < i {
            m[t]
        } else {
            m[t + 1]
        });
    assert(rm_wf(d));
    assert(!rm_contains(d, m[i].0)) by {
        if rm_contains(d, m[i].0) {
            let t = rm_index_of(d, m[i].0);
            if t < i {
                assert(m[t].0 == m[i].0);
            } else {
                assert(m[t + 1].0 == m[i].0);
            }
        }
    }
    assert forall|k: (Seq<char>, u64)| k != m[i].0 implies (#[trigger] rm_contains(d, k))
        == rm_contains(m, k) by {
        if rm_contains(d, k) {
            let t = rm_index_of(d, k);
            if t < i {
                assert(m[t].0 == k);
            } else {
                assert(m[t + 1].0 == k);
            }
        } else if rm_contains(m, k) {
            let t = rm_index_of(m, k);
            assert(0 <= t < m.len() && m[t].0 == k);
            if t < i {
                assert(d[t].0 == k);
            } else {
                assert(t > i);
                assert(d[t - 1].0 == k);
            }
        }
    }
    assert forall|k: (Seq<char>, u64)| k != m[i].0 && rm_contains(m, k) implies (
    #[trigger] rm_problems(d, k)) == rm_problems(m, k) by {
        let t = rm_index_of(m, k);
        assert(0 <= t < m.len() && m[t].0 == k);
        lemma_rm_index_of(m, t);
        if t < i {
            assert(d[t].0 == k);
            lemma_rm_index_of(d, t);
        } else {
            assert(t > i);
            assert(d[t - 1].0 == k);
            lemma_rm_index_of(d, t - 1);
        }
    }
}

/// The map for one rule of one scan: each scanned file that the rule
/// flagged, keyed by path and content fingerprint, with its problems in
/// match order. Entries keep their insertion order and keys stay pairwise
/// distinct.
pub struct RuleMap {
    entries: Vec<(FileKey, Vec<Problem>)>,
}

impl View for RuleMap {
    type V = RuleMapV;

    closed spec fn view(&self) -> RuleMapV {
        self.entries.deep_view()
    }
}

impl DeepView for RuleMap {
    type V = RuleMapV;

    open spec fn deep_view(&self) -> RuleMapV {
        self.view()
    }
}

impl RuleMap {
    /// The keys of a rule map are pairwise distinct; `new` establishes
    /// this and every method preserves it.
    pub open spec fn wf(&self) -> bool {
        rm_wf(self.view())
    }

    /// An empty rule map.
    pub fn new() -> (r: RuleMap)
        ensures
            r@ == Seq::<((Seq<char>, u64), Seq<ProblemV>)>::empty(),
            r.wf(),
    {
        let r = RuleMap { entries: Vec::new() };
        proof {
            assert(r@ =~= Seq::<((Seq<char>, u64), Seq<ProblemV>)>::empty());
        }
        r
    }

    /// How many files this map holds problems for.
    pub fn len(&self) -> (r: usize)
        ensures
            r == self@.len(),
    {
        self.entries.len()
    }

    /// The entry at position `i`, in iteration order.
    pub fn entry_at(&self, i: usize) -> (r: &(FileKey, Vec<Problem>))
        requires
            i < self@.len(),
        ensures
            r.deep_view() == self@[i as int],
    {
        &self.entries[i]
    }

    /// The problems recorded under `key`, if that exact path/fingerprint
    /// pair was flagged.
    pub fn get(&self, key: &FileKey) -> (r: Option<&Vec<Problem>>)
        requires
            self.wf(),
        ensures
            match r {
                Some(ps) => rm_contains(self@, key@) && ps.deep_view() == rm_problems(
                    self@,
                    key@,
                ),
                None => !rm_contains(self@, key@),
            },
    {
        let n: usize = self.entries.len();
        let mut i: usize = 0;
        while i < n
            invariant
                n == self@.len(),
                i <= n,
                rm_wf(self@),
                forall|t: int| 0 <= t < i ==> (#[trigger] self@[t]).0 != key@,
            decreases n - i,
        {
            let e = &self.entries[i];
            if e.0.path == key.path && e.0.hash == key.hash {
                proof {
                    assert(self@[i as int].0 == key@);
                    lemma_rm_index_of(self@, i as int);
                }
                return Some(&e.1);
            }
            i = i + 1;
        }
        proof {
            if rm_contains(self@, key@) {
                let t = rm_index_of(self@, key@);
                assert(self@[t].0 == key@);
            }
        }
        None
    }

    /// Records `problems` under `key`, replacing what the map held under
    /// that key before.
    pub fn insert(&mut self, key: FileKey, problems: Vec<Problem>)
        requires
            old(self).wf(),
        ensures
            final(self)@ == rm_insert(old(self)@, key@, problems.deep_view()),
            final(self).wf(),
    {
        let ghost m0 = self@;
        let ghost kv = key@;
        let ghost pv = problems.deep_view();
        let n: usize = self.entries.len();
        let mut i: usize = 0;
        while i < n
            invariant
                n == self@.len(),
                i <= n,
                self@ == m0,
                m0 == old(self)@,
                rm_wf(m0),
                kv == key@,
                pv == problems.deep_view(),
                forall|t: int| 0 <= t < i ==> (#[trigger] m0[t]).0 != kv,
            decreases n - i,
        {
            let e = &self.entries[i];
            if e.0.path == key.path && e.0.hash == key.hash {
                proof {
                    assert(m0[i as int].0 == kv);
                    lemma_rm_index_of(m0, i as int);
                }
                let ghost e0 = self.entries@;
                let pair = (key, problems);
                proof {
                    assert(pair.deep_view() == (kv, pv));
                }
                self.entries.set(i, pair);
                proof {
                    let mu = m0.update(i as int, (kv, pv));
                    assert forall|t: int| 0 <= t < self@.len() implies self@[t] == mu[t] by {
                        assert(self@[t] == self.entries@[t].deep_view());
                        if t != i as int {
                            assert(self.entries@[t] == e0[t]);
                            assert(m0[t] == e0[t].deep_view());
                        }
                    }
                    assert(self@ =~= mu);
                    assert(rm_wf(self@)) by {
                        assert(forall|t: int|
                            0 <= t < self@.len() ==> (#[trigger] self@[t]).0 == if t == i as int {
                                kv
                            } else {
                                m0[t].0
                            });
                    }
                }
                return ;
            }
            i = i + 1;
        }
        proof {
            if rm_contains(m0, kv) {
                let t = rm_index_of(m0, kv);
                assert(m0[t].0 == kv);
            }
            assert(!rm_contains(m0, kv));
        }
        let ghost e0 = self.entries@;
        let pair = (key, problems);
        proof {
            assert(pair.deep_view() == (kv, pv));
        }
        self.entries.push(pair);
        proof {
            assert forall|t: int| 0 <= t < self@.len() implies self@[t] == m0.push((kv, pv))[t] by {
                assert(self@[t] == self.entries@[t].deep_view());
                if t < m0.len() {
                    assert(self.entries@[t] == e0[t]);
                    assert(m0[t] == e0[t].deep_view());
                }
            }
            assert(self@ =~= m0.push((kv, pv)));
            assert(rm_wf(self@)) by {
                assert(forall|t: int| 0 <= t < m0.len() ==> (#[trigger] self@[t]) == m0[t]);
                assert(self@[m0.len() as int].0 == kv);
                assert forall|a: int, b: int| 0 <= a < b < self@.len() implies (
                #[trigger] self@[a]).0 != (#[trigger] self@[b]).0 by {
                    if b == m0.len() as int {
                        if self@[a].0 == kv {
                            assert(m0[a].0 == kv);
                            assert(rm_contains(m0, kv));
                        }
                    }
                }
            }
        }
    }
}

} // verus!
