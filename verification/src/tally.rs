//! Counting transitions in a sequence, and the facts that relate the
//! per-pair counts, the per-source counts and dense count rows.

use vstd::prelude::*;
use crate::kl::seq_sum;

verus! {

/// Number of times the transition `p` occurs in `s`.
pub open spec fn occ(s: Seq<(u64, u64)>, p: (u64, u64)) -> nat
    decreases s.len(),
{
    if s.len() == 0 {
        0
    } else {
        (if s[0] == p { 1nat } else { 0nat }) + occ(s.drop_first(), p)
    }
}

/// Number of transitions in `s` that leave state `f`.
pub open spec fn occ_from(s: Seq<(u64, u64)>, f: u64) -> nat
    decreases s.len(),
{
    if s.len() == 0 {
        0
    } else {
        (if s[0].0 == f { 1nat } else { 0nat }) + occ_from(s.drop_first(), f)
    }
}

/// Number of transitions in `s` that leave `f` towards one of `cols`.
pub open spec fn occ_from_in(s: Seq<(u64, u64)>, f: u64, cols: Seq<u64>) -> nat
    decreases s.len(),
{
    if s.len() == 0 {
        0
    } else {
        (if s[0].0 == f && cols.contains(s[0].1) { 1nat } else { 0nat })
            + occ_from_in(s.drop_first(), f, cols)
    }
}

/// The dense row of counts of transitions `f -> cols[i]` in `s`.
pub open spec fn dense_row(s: Seq<(u64, u64)>, f: u64, cols: Seq<u64>) -> Seq<u64> {
    Seq::new(cols.len(), |i: int| occ(s, (f, cols[i])) as u64)
}

/// A sequence of ids in strictly increasing order (hence without repeats).
pub open spec fn strictly_increasing(s: Seq<u64>) -> bool {
    forall|i: int, j: int| 0 <= i < j < s.len() ==> s[i] < s[j]
}

pub proof fn lemma_occ_push(s: Seq<(u64, u64)>, x: (u64, u64), p: (u64, u64))
    ensures
        occ(s.push(x), p) == occ(s, p) + (if x == p { 1nat } else { 0nat }),
    decreases s.len(),
{
    if s.len() > 0 {
        assert(s.push(x)[0] == s[0]);
        assert(s.push(x).drop_first() =~= s.drop_first().push(x));
        lemma_occ_push(s.drop_first(), x, p);
    } else {
        assert(s.push(x)[0] == x);
        assert(s.push(x).drop_first() =~= Seq::<(u64, u64)>::empty());
        assert(occ(Seq::<(u64, u64)>::empty(), p) == 0);
    }
}

pub proof fn lemma_occ_le_len(s: Seq<(u64, u64)>, p: (u64, u64))
    ensures
        occ(s, p) <= s.len(),
    decreases s.len(),
{
    if s.len() > 0 {
        lemma_occ_le_len(s.drop_first(), p);
    }
}

/// Every entry of a sequence occurs in it.
pub proof fn lemma_occ_at_index(s: Seq<(u64, u64)>, i: int)
    requires
        0 <= i < s.len(),
    ensures
        occ(s, s[i]) > 0,
    decreases s.len(),
{
    if i > 0 {
        assert(s.drop_first()[i - 1] == s[i]);
        lemma_occ_at_index(s.drop_first(), i - 1);
    }
}

pub proof fn lemma_occ_le_from(s: Seq<(u64, u64)>, f: u64, t: u64)
    ensures
        occ(s, (f, t)) <= occ_from(s, f),
    decreases s.len(),
{
    if s.len() > 0 {
        lemma_occ_le_from(s.drop_first(), f, t);
    }
}

pub proof fn lemma_from_le_len(s: Seq<(u64, u64)>, f: u64)
    ensures
        occ_from(s, f) <= s.len(),
    decreases s.len(),
{
    if s.len() > 0 {
        lemma_from_le_len(s.drop_first(), f);
    }
}

pub proof fn lemma_from_in_le_from(s: Seq<(u64, u64)>, f: u64, cols: Seq<u64>)
    ensures
        occ_from_in(s, f, cols) <= occ_from(s, f),
    decreases s.len(),
{
    if s.len() > 0 {
        lemma_from_in_le_from(s.drop_first(), f, cols);
    }
}

/// A source with some transition out of it has a target that it reaches.
pub proof fn lemma_from_witness(s: Seq<(u64, u64)>, f: u64) -> (t: u64)
    requires
        occ_from(s, f) > 0,
    ensures
        occ(s, (f, t)) > 0,
    decreases s.len(),
{
    if s[0].0 == f {
        s[0].1
    } else {
        let t = lemma_from_witness(s.drop_first(), f);
        t
    }
}

/// When every transition out of `f` reaches one of `cols`, counting
/// towards `cols` counts all of them.
pub proof fn lemma_from_in_full(s: Seq<(u64, u64)>, f: u64, cols: Seq<u64>)
    requires
        forall|i: int| 0 <= i < s.len() && #[trigger] s[i].0 == f ==> cols.contains(s[i].1),
    ensures
        occ_from_in(s, f, cols) == occ_from(s, f),
    decreases s.len(),
{
    if s.len() > 0 {
        assert forall|i: int| 0 <= i < s.drop_first().len() && #[trigger] s.drop_first()[i].0 == f
            implies cols.contains(s.drop_first()[i].1) by {
            assert(s.drop_first()[i] == s[i + 1]);
        }
        lemma_from_in_full(s.drop_first(), f, cols);
    }
}

/// Adding a new target to `cols` adds its pair count.
pub proof fn lemma_from_in_push_col(s: Seq<(u64, u64)>, f: u64, cols: Seq<u64>, c: u64)
    requires
        !cols.contains(c),
    ensures
        occ_from_in(s, f, cols.push(c)) == occ_from_in(s, f, cols) + occ(s, (f, c)),
    decreases s.len(),
{
    if s.len() > 0 {
        let y = s[0].1;
        if cols.push(c).contains(y) {
            let k = choose|k: int| 0 <= k < cols.push(c).len() && cols.push(c)[k] == y;
            if k < cols.len() {
                assert(cols[k] == y);
            }
        }
        if cols.contains(y) {
            let k = choose|k: int| 0 <= k < cols.len() && cols[k] == y;
            assert(cols.push(c)[k] == y);
        }
        assert(cols.push(c)[cols.len() as int] == c);
        lemma_from_in_push_col(s.drop_first(), f, cols, c);
    }
}

/// The dense row over distinct targets sums to the transitions out of `f`
/// that reach those targets.
pub proof fn lemma_dense_row_sum(s: Seq<(u64, u64)>, f: u64, cols: Seq<u64>)
    requires
        cols.no_duplicates(),
        s.len() <= u64::MAX,
    ensures
        seq_sum(dense_row(s, f, cols)) == occ_from_in(s, f, cols),
    decreases cols.len(),
{
    let row = dense_row(s, f, cols);
    if cols.len() == 0 {
        lemma_from_in_empty(s, f, cols);
    } else {
        let init = cols.drop_last();
        let c = cols.last();
        assert(init.no_duplicates());
        assert(!init.contains(c)) by {
            if init.contains(c) {
                let k = choose|k: int| 0 <= k < init.len() && init[k] == c;
                assert(cols[k] == cols[cols.len() - 1]);
            }
        }
        assert(row.drop_last() =~= dense_row(s, f, init));
        lemma_dense_row_sum(s, f, init);
        lemma_from_in_push_col(s, f, init, c);
        assert(init.push(c) =~= cols);
        lemma_occ_le_from(s, f, c);
        lemma_from_le_len(s, f);
    }
}

pub proof fn lemma_from_in_empty(s: Seq<(u64, u64)>, f: u64, cols: Seq<u64>)
    requires
        cols.len() == 0,
    ensures
        occ_from_in(s, f, cols) == 0,
    decreases s.len(),
{
    if s.len() > 0 {
        lemma_from_in_empty(s.drop_first(), f, cols);
    }
}

pub proof fn lemma_strictly_increasing_distinct(s: Seq<u64>)
    requires
        strictly_increasing(s),
    ensures
        s.no_duplicates(),
{
    assert forall|i: int, j: int| 0 <= i < s.len() && 0 <= j < s.len() && i != j
        implies s[i] != s[j] by {
        if i < j {
            assert(s[i] < s[j]);
        } else {
            assert(s[j] < s[i]);
        }
    }
}

} // verus!
