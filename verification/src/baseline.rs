//! Baseline transition learner for first-order Markov chains: it counts
//! observed `(from, to)` transitions and freezes them into a dense matrix
//! whose columns are the sorted target ids.

use std::collections::HashMap;
use vstd::prelude::*;
use crate::kl::seq_sum;
use crate::tally::{
    dense_row, lemma_dense_row_sum, lemma_from_in_full, lemma_occ_at_index, lemma_occ_le_len,
    lemma_occ_push, lemma_strictly_increasing_distinct, occ, occ_from, strictly_increasing,
};
use vstd::std_specs::iter::IteratorSpec;

verus! {

broadcast use vstd::std_specs::hash::group_hash_axioms;

/// Accumulates observed `(from, to)` transition counts.
pub struct Baseline {
    counts: HashMap<u64, HashMap<u64, u64>>,
}

/// How often `f -> t` is recorded in `m` (zero when it is not recorded).
pub open spec fn count_in(m: Map<u64, Map<u64, u64>>, f: u64, t: u64) -> nat {
    if m.contains_key(f) && m[f].contains_key(t) {
        m[f][t] as nat
    } else {
        0
    }
}

/// The targets recorded for `f` in `m` (empty when `f` is not recorded).
pub open spec fn targets_of(m: Map<u64, Map<u64, u64>>, f: u64) -> Map<u64, u64> {
    if m.contains_key(f) {
        m[f]
    } else {
        Map::empty()
    }
}

/// `t` was observed as the target of some transition recorded in `m`.
pub open spec fn is_observed_target(m: Map<u64, Map<u64, u64>>, t: u64) -> bool {
    exists|f: u64| #[trigger] m.contains_key(f) && m[f].contains_key(t)
}

/// The dense row of counts of `f` aligned to the column ids `cols`.
pub open spec fn count_row(m: Map<u64, Map<u64, u64>>, f: u64, cols: Seq<u64>) -> Seq<u64> {
    Seq::new(cols.len(), |i: int| count_in(m, f, cols[i]) as u64)
}

/// The ids that key `m`, each once, in the map's iteration order.
fn key_list<V>(m: &HashMap<u64, V>) -> (keys: Vec<u64>)
    ensures
        keys@.no_duplicates(),
        forall|k: u64| keys@.contains(k) <==> m@.contains_key(k),
{
    let mut keys: Vec<u64> = Vec::new();
    let iter = m.keys();
    let ghost all = IteratorSpec::remaining(&iter);
    assert(all.unref().to_set() == m@.dom());
    assert(all.no_duplicates());
    for k in it: iter
        invariant
            it.seq() == all,
            keys@ == all.take(it.index()).unref(),
    {
        keys.push(*k);
        assert(keys@ =~= all.take(it.index() + 1).unref());
    }
    assert(keys@ =~= all.unref());
    assert forall|k: u64| keys@.contains(k) <==> m@.contains_key(k) by {
        assert(all.unref().to_set().contains(k) == keys@.contains(k));
    }
    assert forall|i: int, j: int| 0 <= i < keys@.len() && 0 <= j < keys@.len() && i != j
        implies keys@[i] != keys@[j] by {
        assert(all[i] != all[j]);
    }
    keys
}

/// Inserts `t` into the strictly increasing `cols`, unless it is already there.
fn insert_sorted(cols: &mut Vec<u64>, t: u64)
    requires
        strictly_increasing(old(cols)@),
    ensures
        strictly_increasing(final(cols)@),
        forall|x: u64| final(cols)@.contains(x) <==> (old(cols)@.contains(x) || x == t),
{
    let mut i: usize = 0;
    while i < cols.len() && cols[i] < t
        invariant
            0 <= i <= cols@.len(),
            cols@ == old(cols)@,
            strictly_increasing(cols@),
            forall|k: int| 0 <= k < i ==> cols@[k] < t,
        decreases cols@.len() - i,
    {
        i = i + 1;
    }
    if i < cols.len() && cols[i] == t {
        assert(cols@[i as int] == t);
        return;
    }
    let ghost before = cols@;
    cols.insert(i, t);
    assert(cols@ =~= before.take(i as int).push(t) + before.skip(i as int));
    assert forall|x: u64| cols@.contains(x) <==> (before.contains(x) || x == t) by {
        if cols@.contains(x) {
            let k = choose|k: int| 0 <= k < cols@.len() && cols@[k] == x;
            if k < i {
                assert(before[k] == x);
            } else if k > i {
                assert(before[k - 1] == x);
            }
        }
        if before.contains(x) {
            let k = choose|k: int| 0 <= k < before.len() && before[k] == x;
            if k < i {
                assert(cols@[k] == x);
            } else {
                assert(cols@[k + 1] == x);
            }
        }
        if x == t {
            assert(cols@[i as int] == x);
        }
    }
    assert(before == old(cols)@);
    assert(forall|x: u64| cols@.contains(x) <==> (old(cols)@.contains(x) || x == t));
}

/// `t` is the target of some transition out of one of the sources `fs`.
pub open spec fn observed_among(m: Map<u64, Map<u64, u64>>, fs: Seq<u64>, t: u64) -> bool {
    exists|j: int| 0 <= j < fs.len() && #[trigger] m[fs[j]].contains_key(t)
}

proof fn lemma_observed_among_push(m: Map<u64, Map<u64, u64>>, fs: Seq<u64>, i: int)
    requires
        0 <= i < fs.len(),
    ensures
        forall|t: u64|
            observed_among(m, fs.take(i + 1), t) <==> (observed_among(m, fs.take(i), t)
                || m[fs[i]].contains_key(t)),
{
    assert forall|t: u64|
        observed_among(m, fs.take(i + 1), t) <==> (observed_among(m, fs.take(i), t)
            || m[fs[i]].contains_key(t)) by {
        if observed_among(m, fs.take(i + 1), t) {
            let j = choose|j: int| 0 <= j < i + 1 && #[trigger] m[fs.take(i + 1)[j]].contains_key(t);
            if j < i {
                assert(m[fs.take(i)[j]].contains_key(t));
            }
        }
        if observed_among(m, fs.take(i), t) {
            let j = choose|j: int| 0 <= j < i && #[trigger] m[fs.take(i)[j]].contains_key(t);
            assert(m[fs.take(i + 1)[j]].contains_key(t));
        }
        if m[fs[i]].contains_key(t) {
            assert(m[fs.take(i + 1)[i]].contains_key(t));
        }
    }
}

/// A frozen transition matrix of counts: the sorted column ids and, for
/// each observed source, its counts aligned to those columns.
pub struct TransitionMatrix {
    column_idx: Vec<u64>,
    rows: HashMap<u64, Vec<u64>>,
}

impl TransitionMatrix {
    /// The column ids, in column order.
    pub closed spec fn col_seq(&self) -> Seq<u64> {
        self.column_idx@
    }

    /// The count row of each source that has one.
    pub closed spec fn row_map(&self) -> Map<u64, Seq<u64>> {
        Map::new(|f: u64| self.rows@.contains_key(f), |f: u64| self.rows@[f]@)
    }

    /// Columns sorted and unique; every row as long as the column list.
    pub open spec fn wf(&self) -> bool {
        &&& strictly_increasing(self.col_seq())
        &&& forall|f: u64| #[trigger]
            self.row_map().contains_key(f) ==> self.row_map()[f].len() == self.col_seq().len()
    }

    /// Sorted `to` ids in column order.
    pub fn columns(&self) -> (c: &[u64])
        ensures
            c@ == self.col_seq(),
    {
        self.column_idx.as_slice()
    }

    /// Whether `from` was observed, that is, has a row.
    pub fn has_row(&self, from: u64) -> (b: bool)
        ensures
            b == self.row_map().contains_key(from),
    {
        self.rows.contains_key(&from)
    }

    /// Whether `to` is one of the columns.
    pub fn has_column(&self, to: u64) -> (b: bool)
        ensures
            b == self.col_seq().contains(to),
    {
        let mut i: usize = 0;
        while i < self.column_idx.len()
            invariant
                0 <= i <= self.col_seq().len(),
                forall|k: int| 0 <= k < i ==> self.col_seq()[k] != to,
            decreases self.col_seq().len() - i,
        {
            if self.column_idx[i] == to {
                assert(self.col_seq()[i as int] == to);
                return true;
            }
            i = i + 1;
        }
        false
    }

    /// The count row of `from`, aligned to the columns; `None` if `from`
    /// was never observed.
    pub fn row_counts(&self, from: u64) -> (r: Option<&[u64]>)
        ensures
            r is Some <==> self.row_map().contains_key(from),
            r matches Some(s) ==> s@ == self.row_map()[from],
    {
        match self.rows.get(&from) {
            Some(v) => Some(v.as_slice()),
            None => None,
        }
    }

    /// The ids of the sources that have a row, each once, in no particular order.
    pub fn row_ids(&self) -> (ids: Vec<u64>)
        ensures
            ids@.no_duplicates(),
            forall|f: u64| ids@.contains(f) <==> self.row_map().contains_key(f),
    {
        key_list(&self.rows)
    }
}

/// `m` is the frozen form of the counts `b`: its columns are the observed
/// targets, sorted and unique, and each observed source has the row of its
/// counts aligned to them.
pub open spec fn finalizes(b: Map<u64, Map<u64, u64>>, m: TransitionMatrix) -> bool {
    &&& m.wf()
    &&& forall|t: u64| m.col_seq().contains(t) <==> is_observed_target(b, t)
    &&& m.row_map().dom() == b.dom()
    &&& forall|f: u64| #[trigger] b.contains_key(f) ==> m.row_map()[f] == count_row(b, f, m.col_seq())
}

/// The counts `m` after recording one more `p`.
pub open spec fn record(m: Map<u64, Map<u64, u64>>, p: (u64, u64)) -> Map<u64, Map<u64, u64>> {
    m.insert(p.0, targets_of(m, p.0).insert(p.1, (count_in(m, p.0, p.1) + 1) as u64))
}

/// The counts after recording each of `obs`, in order, from nothing.
pub open spec fn recorded(obs: Seq<(u64, u64)>) -> Map<u64, Map<u64, u64>>
    decreases obs.len(),
{
    if obs.len() == 0 {
        Map::empty()
    } else {
        record(recorded(obs.drop_last()), obs.last())
    }
}

/// Counting law: after observing a sequence from a fresh baseline, the
/// count of each pair is the number of times it occurs in the sequence,
/// and exactly the pairs that occur are recorded.
pub proof fn lemma_recorded_counts(obs: Seq<(u64, u64)>, f: u64, t: u64)
    requires
        obs.len() <= u64::MAX,
    ensures
        count_in(recorded(obs), f, t) == occ(obs, (f, t)),
        (recorded(obs).contains_key(f) && recorded(obs)[f].contains_key(t)) <==> occ(obs, (f, t))
            > 0,
    decreases obs.len(),
{
    if obs.len() > 0 {
        let init = obs.drop_last();
        let x = obs.last();
        lemma_recorded_counts(init, f, t);
        lemma_recorded_counts(init, x.0, x.1);
        lemma_occ_le_len(init, x);
        assert(init.push(x) =~= obs);
        lemma_occ_push(init, x, (f, t));
    }
}

/// Two strictly increasing sequences with the same elements are equal.
pub proof fn lemma_sorted_unique(s1: Seq<u64>, s2: Seq<u64>)
    requires
        strictly_increasing(s1),
        strictly_increasing(s2),
        forall|x: u64| s1.contains(x) <==> s2.contains(x),
    ensures
        s1 == s2,
    decreases s1.len(),
{
    if s1.len() == 0 {
        if s2.len() > 0 {
            assert(s2.contains(s2[0]));
        }
        assert(s1 =~= s2);
    } else {
        assert(s1.contains(s1[0]));
        assert(s2.len() > 0);
        assert(s2.contains(s2[0]));
        // both first elements are the least element of the common set
        let k1 = choose|k: int| 0 <= k < s1.len() && s1[k] == s2[0];
        let k2 = choose|k: int| 0 <= k < s2.len() && s2[k] == s1[0];
        if k1 > 0 {
            assert(s1[0] < s1[k1]);
        }
        if k2 > 0 {
            assert(s2[0] < s2[k2]);
        }
        assert(s1[0] == s2[0]);
        let t1 = s1.drop_first();
        let t2 = s2.drop_first();
        assert forall|x: u64| t1.contains(x) <==> t2.contains(x) by {
            if t1.contains(x) {
                let k = choose|k: int| 0 <= k < t1.len() && t1[k] == x;
                assert(s1[k + 1] == x);
                assert(s1.contains(x));
                let j = choose|j: int| 0 <= j < s2.len() && s2[j] == x;
                assert(s1[0] < s1[k + 1]);
                assert(j != 0);
                assert(t2[j - 1] == x);
            }
            if t2.contains(x) {
                let k = choose|k: int| 0 <= k < t2.len() && t2[k] == x;
                assert(s2[k + 1] == x);
                assert(s2.contains(x));
                let j = choose|j: int| 0 <= j < s1.len() && s1[j] == x;
                assert(s2[0] < s2[k + 1]);
                assert(j != 0);
                assert(t1[j - 1] == x);
            }
        }
        lemma_sorted_unique(t1, t2);
        assert forall|i: int| 0 <= i < s1.len() implies s1[i] == s2[i] by {
            if i > 0 {
                assert(s1[i] == t1[i - 1]);
                assert(s2[i] == t2[i - 1]);
            }
        }
        assert(s1 =~= s2);
    }
}

/// Determinism law: the frozen matrix is fixed by the counts alone; two
/// matrices that both freeze the same counts have the same columns and
/// the same rows.
pub proof fn lemma_finalizes_unique(b: Map<u64, Map<u64, u64>>, m1: TransitionMatrix, m2: TransitionMatrix)
    requires
        finalizes(b, m1),
        finalizes(b, m2),
    ensures
        m1.col_seq() == m2.col_seq(),
        m1.row_map() == m2.row_map(),
{
    assert forall|x: u64| m1.col_seq().contains(x) <==> m2.col_seq().contains(x) by {
        assert(m1.col_seq().contains(x) <==> is_observed_target(b, x));
        assert(m2.col_seq().contains(x) <==> is_observed_target(b, x));
    }
    lemma_sorted_unique(m1.col_seq(), m2.col_seq());
    assert(m1.row_map() =~= m2.row_map());
}

/// Every source recorded from a sequence has at least one target.
proof fn lemma_recorded_sources_nonempty(obs: Seq<(u64, u64)>, f: u64)
    requires
        recorded(obs).contains_key(f),
    ensures
        exists|t: u64| #[trigger] recorded(obs)[f].contains_key(t),
    decreases obs.len(),
{
    let x = obs.last();
    if x.0 == f {
        assert(recorded(obs)[f].contains_key(x.1));
    } else {
        lemma_recorded_sources_nonempty(obs.drop_last(), f);
        let t = choose|t: u64| #[trigger] recorded(obs.drop_last())[f].contains_key(t);
        assert(recorded(obs)[f].contains_key(t));
    }
}

/// Order-independence law: sequences in which every pair occurs equally
/// often leave the same counts, so their frozen matrices have the same
/// columns and the same rows, whatever order the pairs came in.
pub proof fn lemma_finalize_order_independent(
    obs1: Seq<(u64, u64)>,
    obs2: Seq<(u64, u64)>,
    m1: TransitionMatrix,
    m2: TransitionMatrix,
)
    requires
        obs1.len() <= u64::MAX,
        obs2.len() <= u64::MAX,
        forall|p: (u64, u64)| occ(obs1, p) == occ(obs2, p),
        finalizes(recorded(obs1), m1),
        finalizes(recorded(obs2), m2),
    ensures
        recorded(obs1) == recorded(obs2),
        m1.col_seq() == m2.col_seq(),
        m1.row_map() == m2.row_map(),
{
    let r1 = recorded(obs1);
    let r2 = recorded(obs2);
    assert forall|f: u64, t: u64|
        (r1.contains_key(f) && r1[f].contains_key(t)) == (r2.contains_key(f)
            && r2[f].contains_key(t)) && #[trigger] count_in(r1, f, t) == count_in(r2, f, t) by {
        lemma_recorded_counts(obs1, f, t);
        lemma_recorded_counts(obs2, f, t);
        assert(occ(obs1, (f, t)) == occ(obs2, (f, t)));
    }
    assert forall|f: u64| r1.contains_key(f) <==> r2.contains_key(f) by {
        if r1.contains_key(f) {
            lemma_recorded_sources_nonempty(obs1, f);
            let t = choose|t: u64| #[trigger] r1[f].contains_key(t);
            assert(count_in(r1, f, t) == count_in(r2, f, t));
            assert(r1.contains_key(f) && r1[f].contains_key(t));
        }
        if r2.contains_key(f) {
            lemma_recorded_sources_nonempty(obs2, f);
            let t = choose|t: u64| #[trigger] r2[f].contains_key(t);
            assert(count_in(r1, f, t) == count_in(r2, f, t));
            assert(r2.contains_key(f) && r2[f].contains_key(t));
        }
    }
    assert forall|f: u64| r1.contains_key(f) implies r1[f] == r2[f] by {
        assert forall|t: u64| r1[f].contains_key(t) <==> r2[f].contains_key(t) by {
            assert(r1.contains_key(f) && r1[f].contains_key(t) ==> count_in(r1, f, t) == count_in(r2, f, t));
        }
        assert forall|t: u64| r1[f].contains_key(t) implies r1[f][t] == r2[f][t] by {
            assert(count_in(r1, f, t) == count_in(r2, f, t));
        }
        assert(r1[f] =~= r2[f]);
    }
    assert(r1 =~= r2);
    lemma_finalizes_unique(r1, m1, m2);
}

/// Growth law: one more observation `from -> to` gives `from` a row and
/// `to` a column, and keeps every column and row that was there before.
pub proof fn lemma_finalize_grows(
    b: Map<u64, Map<u64, u64>>,
    from: u64,
    to: u64,
    before: TransitionMatrix,
    after: TransitionMatrix,
)
    requires
        finalizes(b, before),
        finalizes(record(b, (from, to)), after),
    ensures
        after.row_map().contains_key(from),
        after.col_seq().contains(to),
        forall|t: u64| before.col_seq().contains(t) ==> after.col_seq().contains(t),
        forall|f: u64| before.row_map().contains_key(f) ==> after.row_map().contains_key(f),
{
    let b2 = record(b, (from, to));
    assert(b2.contains_key(from) && b2[from].contains_key(to));
    assert(is_observed_target(b2, to));
    assert forall|t: u64| before.col_seq().contains(t) implies after.col_seq().contains(t) by {
        assert(is_observed_target(b, t));
        let f = choose|f: u64| #[trigger] b.contains_key(f) && b[f].contains_key(t);
        assert(b2.contains_key(f) && b2[f].contains_key(t));
        assert(is_observed_target(b2, t));
    }
    assert forall|f: u64| before.row_map().contains_key(f) implies after.row_map().contains_key(f) by {
        assert(b.dom().contains(f));
        assert(b2.dom().contains(f));
    }
}

/// Row law: in the matrix frozen from the counts of a sequence, the row of
/// a source sums to the number of transitions out of it, so the dense row
/// drops none of its observations.
pub proof fn lemma_finalized_row_total(obs: Seq<(u64, u64)>, m: TransitionMatrix, f: u64)
    requires
        obs.len() <= u64::MAX,
        finalizes(recorded(obs), m),
        m.row_map().contains_key(f),
    ensures
        seq_sum(m.row_map()[f]) == occ_from(obs, f),
{
    let b = recorded(obs);
    let cols = m.col_seq();
    assert(b.contains_key(f));
    assert forall|t: u64| count_in(b, f, t) == occ(obs, (f, t)) by {
        lemma_recorded_counts(obs, f, t);
    }
    assert(m.row_map()[f] =~= dense_row(obs, f, cols));
    lemma_strictly_increasing_distinct(cols);
    lemma_dense_row_sum(obs, f, cols);
    assert forall|i: int| 0 <= i < obs.len() && #[trigger] obs[i].0 == f implies cols.contains(
        obs[i].1,
    ) by {
        lemma_occ_at_index(obs, i);
        lemma_recorded_counts(obs, f, obs[i].1);
        assert(b.contains_key(f) && b[f].contains_key(obs[i].1));
        assert(is_observed_target(b, obs[i].1));
    }
    lemma_from_in_full(obs, f, cols);
}

impl View for Baseline {
    type V = Map<u64, Map<u64, u64>>;

    closed spec fn view(&self) -> Map<u64, Map<u64, u64>> {
        Map::new(|f: u64| self.counts@.contains_key(f), |f: u64| self.counts@[f]@)
    }
}

impl Baseline {
    /// Creates a baseline that has observed nothing.
    pub fn new() -> (b: Self)
        ensures
            b@ == Map::<u64, Map<u64, u64>>::empty(),
    {
        let b = Baseline { counts: HashMap::new() };
        assert(b@ =~= Map::<u64, Map<u64, u64>>::empty());
        b
    }

    /// Number of times `from -> to` has been observed.
    pub fn count(&self, from: u64, to: u64) -> (c: u64)
        ensures
            c == count_in(self@, from, to),
    {
        match self.counts.get(&from) {
            Some(inner) => match inner.get(&to) {
                Some(c) => *c,
                None => 0,
            },
            None => 0,
        }
    }

    /// Freezes the counts into a transition matrix: the columns are every
    /// observed target id, sorted, each once; every observed source gets a
    /// row of its counts aligned to the columns.  The baseline itself is
    /// left as it is, so it can keep observing.
    pub fn finalize(&self) -> (m: TransitionMatrix)
        ensures
            finalizes(self@, m),
    {
        let froms = key_list(&self.counts);
        let mut cols: Vec<u64> = Vec::new();
        let mut i: usize = 0;
        while i < froms.len()
            invariant
                0 <= i <= froms@.len(),
                forall|k: u64| froms@.contains(k) <==> self.counts@.contains_key(k),
                strictly_increasing(cols@),
                forall|t: u64|
                    cols@.contains(t) <==> observed_among(self@, froms@.take(i as int), t),
            decreases froms@.len() - i,
        {
            let f = froms[i];
            assert(froms@.contains(f));
            let inner = match self.counts.get(&f) {
                Some(inner) => inner,
                None => {
                    assert(false);
                    return TransitionMatrix { column_idx: Vec::new(), rows: HashMap::new() };
                },
            };
            let targets = key_list(inner);
            let mut k: usize = 0;
            while k < targets.len()
                invariant
                    0 <= i < froms@.len(),
                    f == froms@[i as int],
                    self@.contains_key(f),
                    self@[f] == inner@,
                    0 <= k <= targets@.len(),
                    forall|x: u64| targets@.contains(x) <==> inner@.contains_key(x),
                    strictly_increasing(cols@),
                    forall|t: u64|
                        cols@.contains(t) <==> (observed_among(self@, froms@.take(i as int), t)
                            || targets@.take(k as int).contains(t)),
                decreases targets@.len() - k,
            {
                let ghost before = cols@;
                insert_sorted(&mut cols, targets[k]);
                proof {
                    let a = targets@.take(k as int);
                    let b = targets@.take(k as int + 1);
                    assert forall|t: u64| b.contains(t) <==> (a.contains(t) || t == targets@[k as int]) by {
                        if b.contains(t) {
                            let l = choose|l: int| 0 <= l < b.len() && b[l] == t;
                            if l < k {
                                assert(a[l] == t);
                            }
                        }
                        if a.contains(t) {
                            let l = choose|l: int| 0 <= l < a.len() && a[l] == t;
                            assert(b[l] == t);
                        }
                        if t == targets@[k as int] {
                            assert(b[k as int] == t);
                        }
                    }
                }
                k = k + 1;
            }
            proof {
                assert(targets@.take(k as int) =~= targets@);
                lemma_observed_among_push(self@, froms@, i as int);
            }
            i = i + 1;
        }
        proof {
            assert(froms@.take(i as int) =~= froms@);
            assert forall|t: u64| cols@.contains(t) <==> is_observed_target(self@, t) by {
                if observed_among(self@, froms@, t) {
                    let j = choose|j: int|
                        0 <= j < froms@.len() && #[trigger] self@[froms@[j]].contains_key(t);
                    assert(froms@.contains(froms@[j]));
                    assert(self@.contains_key(froms@[j]));
                }
                if is_observed_target(self@, t) {
                    let f = choose|f: u64| #[trigger] self@.contains_key(f) && self@[f].contains_key(t);
                    assert(froms@.contains(f));
                    let j = choose|j: int| 0 <= j < froms@.len() && froms@[j] == f;
                    assert(self@[froms@[j]].contains_key(t));
                }
            }
        }
        let mut rows: HashMap<u64, Vec<u64>> = HashMap::new();
        let mut i: usize = 0;
        while i < froms.len()
            invariant
                0 <= i <= froms@.len(),
                froms@.no_duplicates(),
                forall|k: u64| froms@.contains(k) <==> self.counts@.contains_key(k),
                strictly_increasing(cols@),
                forall|f: u64| rows@.contains_key(f) <==> froms@.take(i as int).contains(f),
                forall|f: u64| #[trigger]
                    rows@.contains_key(f) ==> rows@[f]@ == count_row(self@, f, cols@),
            decreases froms@.len() - i,
        {
            let f = froms[i];
            assert(froms@.contains(f));
            let inner = match self.counts.get(&f) {
                Some(inner) => inner,
                None => {
                    assert(false);
                    return TransitionMatrix { column_idx: Vec::new(), rows: HashMap::new() };
                },
            };
            let mut row: Vec<u64> = Vec::new();
            let mut c: usize = 0;
            while c < cols.len()
                invariant
                    0 <= c <= cols@.len(),
                    self@.contains_key(f),
                    self@[f] == inner@,
                    row@ == count_row(self@, f, cols@.take(c as int)),
                decreases cols@.len() - c,
            {
                let n: u64 = match inner.get(&cols[c]) {
                    Some(n) => *n,
                    None => 0,
                };
                row.push(n);
                assert(row@ =~= count_row(self@, f, cols@.take(c as int + 1)));
                c = c + 1;
            }
            assert(cols@.take(c as int) =~= cols@);
            rows.insert(f, row);
            proof {
                let a = froms@.take(i as int);
                let b = froms@.take(i as int + 1);
                assert forall|g: u64| rows@.contains_key(g) <==> b.contains(g) by {
                    if b.contains(g) {
                        let l = choose|l: int| 0 <= l < b.len() && b[l] == g;
                        if l < i {
                            assert(a[l] == g);
                        }
                    }
                    if a.contains(g) {
                        let l = choose|l: int| 0 <= l < a.len() && a[l] == g;
                        assert(b[l] == g);
                    }
                    if g == f {
                        assert(b[i as int] == g);
                    }
                }
            }
            i = i + 1;
        }
        assert(froms@.take(i as int) =~= froms@);
        let m = TransitionMatrix { column_idx: cols, rows };
        assert(m.row_map().dom() =~= self@.dom());
        m
    }

    /// Records one transition `from -> to`.
    pub fn observe(&mut self, from: u64, to: u64)
        requires
            count_in(old(self)@, from, to) < u64::MAX,
        ensures
            final(self)@ == record(old(self)@, (from, to)),
            forall|f: u64, t: u64|
                #[trigger] count_in(final(self)@, f, t) == count_in(old(self)@, f, t) + (if f == from
                    && t == to {
                    1nat
                } else {
                    0nat
                }),
    {
        let ghost old_view = self@;
        let mut inner = match self.counts.remove(&from) {
            Some(m) => m,
            None => HashMap::new(),
        };
        assert(inner@ == targets_of(old_view, from));
        let c: u64 = match inner.get(&to) {
            Some(c) => *c,
            None => 0,
        };
        inner.insert(to, c + 1);
        self.counts.insert(from, inner);
        assert(self@ =~= record(old_view, (from, to)));
    }
}

} // verus!
