//! Sliding-window live tracker: it keeps the most recent transitions that
//! the baseline knows, and per-pair counts that mirror that window.

use std::collections::{HashMap, VecDeque};
use vstd::prelude::*;
use crate::baseline::TransitionMatrix;
use crate::kl::seq_sum;
use crate::tally::{
    dense_row, lemma_dense_row_sum, lemma_from_in_full, lemma_from_in_le_from, lemma_from_le_len,
    lemma_from_witness, lemma_occ_le_from, lemma_occ_push, lemma_strictly_increasing_distinct, occ,
    occ_from,
};

verus! {

broadcast use vstd::std_specs::hash::group_hash_axioms;

/// The baseline `m` knows the transition `p`: its source has a row and its
/// target is a column.
pub open spec fn accepts(m: TransitionMatrix, p: (u64, u64)) -> bool {
    m.row_map().contains_key(p.0) && m.col_seq().contains(p.1)
}

/// The baseline knows a transition exactly when its source has a row and
/// its target is a column; a source seen only as a target is not known.
pub proof fn lemma_accepts_exactly_known(m: TransitionMatrix, p: (u64, u64))
    ensures
        accepts(m, p) <==> (m.row_map().contains_key(p.0) && m.col_seq().contains(p.1)),
        !m.row_map().contains_key(p.0) ==> !accepts(m, p),
{
}

/// The window `w` after `p` arrives: `p` is appended at the back and, when
/// that makes the window longer than `cap`, the oldest entry is evicted.
pub open spec fn slide(w: Seq<(u64, u64)>, p: (u64, u64), cap: nat) -> Seq<(u64, u64)> {
    if w.len() + 1 > cap {
        w.push(p).drop_first()
    } else {
        w.push(p)
    }
}

/// The window after each of `obs` arrives in turn, starting from `w`:
/// transitions the baseline does not know leave it unchanged.
pub open spec fn window_after(
    m: TransitionMatrix,
    w: Seq<(u64, u64)>,
    obs: Seq<(u64, u64)>,
    cap: nat,
) -> Seq<(u64, u64)>
    decreases obs.len(),
{
    if obs.len() == 0 {
        w
    } else {
        let prev = window_after(m, w, obs.drop_last(), cap);
        if m.row_map().contains_key(obs.last().0) && m.col_seq().contains(obs.last().1) {
            slide(prev, obs.last(), cap)
        } else {
            prev
        }
    }
}

/// The last `cap` entries of `s` (all of `s` when it is no longer).
pub open spec fn latest(s: Seq<(u64, u64)>, cap: nat) -> Seq<(u64, u64)> {
    if s.len() <= cap {
        s
    } else {
        s.subrange(s.len() - cap, s.len() as int)
    }
}

/// Window law: starting from a window within capacity, after any run of
/// observations the window holds exactly the most recent `cap` transitions
/// among the old window followed by the observations the baseline knows,
/// oldest first.
pub proof fn lemma_window_holds_latest(
    m: TransitionMatrix,
    w: Seq<(u64, u64)>,
    obs: Seq<(u64, u64)>,
    cap: nat,
)
    requires
        w.len() <= cap,
    ensures
        window_after(m, w, obs, cap) == latest(
            w + obs.filter(
                |p: (u64, u64)| m.row_map().contains_key(p.0) && m.col_seq().contains(p.1),
            ),
            cap,
        ),
    decreases obs.len(),
{
    let pred = |p: (u64, u64)| m.row_map().contains_key(p.0) && m.col_seq().contains(p.1);
    reveal(Seq::filter);
    if obs.len() == 0 {
        assert(obs.filter(pred) =~= Seq::<(u64, u64)>::empty());
        assert(w + obs.filter(pred) =~= w);
    } else {
        let init = obs.drop_last();
        let x = obs.last();
        lemma_window_holds_latest(m, w, init, cap);
        let s = w + init.filter(pred);
        let prev = window_after(m, w, init, cap);
        assert(prev == latest(s, cap));
        if m.row_map().contains_key(x.0) && m.col_seq().contains(x.1) {
            assert(obs.filter(pred) == init.filter(pred).push(x));
            assert(w + obs.filter(pred) =~= s.push(x));
            if s.len() < cap {
                assert(slide(prev, x, cap) =~= latest(s.push(x), cap));
            } else {
                assert(prev.len() == cap);
                assert(slide(prev, x, cap) =~= latest(s.push(x), cap));
            }
        } else {
            assert(obs.filter(pred) == init.filter(pred));
        }
    }
}

/// `f -> t` is recorded in the nested count map `c`.
pub open spec fn has_pair(c: Map<u64, HashMap<u64, u64>>, f: u64, t: u64) -> bool {
    c.contains_key(f) && c[f]@.contains_key(t)
}

/// The count recorded for `f -> t` in `c` (zero when absent).
pub open spec fn pair_count(c: Map<u64, HashMap<u64, u64>>, f: u64, t: u64) -> nat {
    if has_pair(c, f, t) {
        c[f]@[t] as nat
    } else {
        0
    }
}

/// The count map `c` mirrors the window `w`: each pair is recorded with
/// its number of occurrences, no zero count is kept, and no source is
/// kept without a target.
pub open spec fn mirrors(c: Map<u64, HashMap<u64, u64>>, w: Seq<(u64, u64)>) -> bool {
    &&& forall|f: u64, t: u64| #[trigger] pair_count(c, f, t) == occ(w, (f, t))
    &&& forall|f: u64, t: u64| #[trigger] has_pair(c, f, t) ==> c[f]@[t] > 0
    &&& forall|f: u64| #[trigger] c.contains_key(f) ==> exists|t: u64| has_pair(c, f, t)
}

/// Records one more `from -> to` in the count map.
fn increment(
    counts: &mut HashMap<u64, HashMap<u64, u64>>,
    from: u64,
    to: u64,
    Ghost(w): Ghost<Seq<(u64, u64)>>,
)
    requires
        mirrors(old(counts)@, w),
        occ(w, (from, to)) < u64::MAX,
    ensures
        mirrors(final(counts)@, w.push((from, to))),
{
    let ghost c0 = counts@;
    let mut inner = match counts.remove(&from) {
        Some(m) => m,
        None => HashMap::new(),
    };
    let c: u64 = match inner.get(&to) {
        Some(c) => *c,
        None => 0,
    };
    assert(c == pair_count(c0, from, to));
    inner.insert(to, c + 1);
    counts.insert(from, inner);
    proof {
        let c1 = counts@;
        let w1 = w.push((from, to));
        assert forall|f: u64, t: u64| #[trigger] pair_count(c1, f, t) == occ(w1, (f, t)) by {
            lemma_occ_push(w, (from, to), (f, t));
            assert(pair_count(c0, f, t) == occ(w, (f, t)));
        }
        assert forall|f: u64, t: u64| #[trigger] has_pair(c1, f, t) implies c1[f]@[t] > 0 by {
            if !(f == from && t == to) {
                assert(has_pair(c0, f, t));
            }
        }
        assert forall|f: u64| #[trigger] c1.contains_key(f) implies exists|t: u64| has_pair(c1, f, t) by {
            if f == from {
                assert(has_pair(c1, from, to));
            } else {
                assert(c0.contains_key(f));
                let t = choose|t: u64| has_pair(c0, f, t);
                assert(has_pair(c1, f, t));
            }
        }
    }
}

/// Forgets the oldest entry `w[0] == (from, to)` of the mirrored window.
fn decrement(
    counts: &mut HashMap<u64, HashMap<u64, u64>>,
    from: u64,
    to: u64,
    Ghost(w): Ghost<Seq<(u64, u64)>>,
)
    requires
        mirrors(old(counts)@, w),
        w.len() > 0,
        w[0] == (from, to),
    ensures
        mirrors(final(counts)@, w.drop_first()),
{
    let ghost c0 = counts@;
    let ghost w1 = w.drop_first();
    assert forall|f: u64, t: u64|
        occ(w, (f, t)) == occ(w1, (f, t)) + (if f == from && t == to { 1nat } else { 0nat }) by {}
    assert(pair_count(c0, from, to) == occ(w, (from, to)));
    if let Some(mut inner) = counts.remove(&from) {
        assert(inner@ == c0[from]@);
        if let Some(c) = inner.get(&to) {
            let c = *c;
            if c - 1 == 0 {
                inner.remove(&to);
            } else {
                inner.insert(to, c - 1);
            }
        }
        if !inner.is_empty() {
            counts.insert(from, inner);
            proof {
                let c1 = counts@;
                assert forall|f: u64, t: u64| #[trigger] pair_count(c1, f, t) == occ(w1, (f, t)) by {
                    assert(pair_count(c0, f, t) == occ(w, (f, t)));
                }
                assert forall|f: u64, t: u64| #[trigger] has_pair(c1, f, t) implies c1[f]@[t] > 0 by {
                    assert(has_pair(c0, f, t));
                }
                assert forall|f: u64| #[trigger] c1.contains_key(f) implies exists|t: u64|
                    has_pair(c1, f, t) by {
                    if f == from {
                        let t = choose|t: u64| inner@.contains_key(t);
                        assert(has_pair(c1, f, t));
                    } else {
                        assert(c0.contains_key(f));
                        let t = choose|t: u64| has_pair(c0, f, t);
                        assert(has_pair(c1, f, t));
                    }
                }
            }
        } else {
            proof {
                let c1 = counts@;
                assert forall|f: u64, t: u64| #[trigger] pair_count(c1, f, t) == occ(w1, (f, t)) by {
                    assert(pair_count(c0, f, t) == occ(w, (f, t)));
                    if f == from && t != to {
                        assert(!inner@.contains_key(t));
                        assert(!has_pair(c0, f, t));
                    }
                }
                assert forall|f: u64, t: u64| #[trigger] has_pair(c1, f, t) implies c1[f]@[t] > 0 by {
                    assert(has_pair(c0, f, t));
                }
                assert forall|f: u64| #[trigger] c1.contains_key(f) implies exists|t: u64|
                    has_pair(c1, f, t) by {
                    assert(c0.contains_key(f));
                    let t = choose|t: u64| has_pair(c0, f, t);
                    assert(has_pair(c1, f, t));
                }
            }
        }
    }
}

/// Tracks recent transitions in a sliding window and keeps, for each pair,
/// how often it occurs in the window.
///
/// The window holds the most recent `window_size` transitions that the
/// baseline knows; older ones are evicted first-in first-out.
pub struct LiveTracker<'a> {
    baseline: &'a TransitionMatrix,
    window_size: usize,
    min_observations: usize,
    window: VecDeque<(u64, u64)>,
    counts: HashMap<u64, HashMap<u64, u64>>,
}

impl<'a> LiveTracker<'a> {
    /// Window bounds law: the window never holds more than `window_size`
    /// transitions, and only transitions that the baseline knows.
    pub proof fn lemma_window_bounds(&self)
        requires
            self.wf(),
        ensures
            self.matrix().wf(),
            self.window_seq().len() <= self.capacity(),
            forall|i: int|
                0 <= i < self.window_seq().len() ==> accepts(self.matrix(), #[trigger] self.window_seq()[i]),
            forall|i: int|
                0 <= i < self.window_seq().len() ==> self.matrix().row_map().contains_key(
                    #[trigger] self.window_seq()[i].0,
                ) && self.matrix().col_seq().contains(self.window_seq()[i].1),
    {
        assert forall|i: int| 0 <= i < self.window_seq().len() implies self.matrix().row_map().contains_key(
            #[trigger] self.window_seq()[i].0,
        ) && self.matrix().col_seq().contains(self.window_seq()[i].1) by {
            assert(accepts(*self.baseline, self.window@[i]));
        }
    }

    /// Live total law: the live counts of a source, summed, are exactly the
    /// window's transitions out of that source, so aligning them to the
    /// baseline columns drops nothing.
    pub proof fn lemma_live_row_total(&self, from: u64)
        requires
            self.wf(),
        ensures
            seq_sum(dense_row(self.window_seq(), from, self.matrix().col_seq())) == occ_from(
                self.window_seq(),
                from,
            ),
    {
        let w = self.window@;
        let cs = self.baseline.col_seq();
        lemma_strictly_increasing_distinct(cs);
        lemma_dense_row_sum(w, from, cs);
        assert forall|i: int| 0 <= i < w.len() && #[trigger] w[i].0 == from implies cs.contains(
            w[i].1,
        ) by {
            assert(accepts(*self.baseline, w[i]));
        }
        lemma_from_in_full(w, from, cs);
    }

    /// The baseline the tracker filters and aligns against.
    pub closed spec fn matrix(&self) -> TransitionMatrix {
        *self.baseline
    }

    /// The window, oldest entry first.
    pub closed spec fn window_seq(&self) -> Seq<(u64, u64)> {
        self.window@
    }

    /// The most entries the window holds.
    pub closed spec fn capacity(&self) -> nat {
        self.window_size as nat
    }

    /// The fewest transitions out of a source that the window must hold
    /// before its live counts are reported.
    pub closed spec fn min_obs(&self) -> nat {
        self.min_observations as nat
    }

    /// The tracker's internal invariant.
    pub closed spec fn wf(&self) -> bool {
        &&& self.baseline.wf()
        &&& self.window@.len() <= self.window_size
        &&& forall|i: int|
            0 <= i < self.window@.len() ==> accepts(*self.baseline, #[trigger] self.window@[i])
        &&& mirrors(self.counts@, self.window@)
    }

    /// Creates a tracker bound to `baseline` with an empty window.
    pub fn new(baseline: &'a TransitionMatrix, window_size: usize, min_observations: usize) -> (t:
        Self)
        requires
            baseline.wf(),
        ensures
            t.wf(),
            t.matrix() == *baseline,
            t.capacity() == window_size,
            t.min_obs() == min_observations,
            t.window_seq() == Seq::<(u64, u64)>::empty(),
    {
        let t = LiveTracker {
            baseline,
            window_size,
            min_observations,
            window: VecDeque::with_capacity(window_size),
            counts: HashMap::new(),
        };
        assert forall|f: u64, t0: u64| #[trigger] pair_count(t.counts@, f, t0) == occ(t.window@, (f, t0)) by {}
        t
    }

    /// Number of transitions currently in the window.
    pub fn window_len(&self) -> (n: usize)
        ensures
            n == self.window_seq().len(),
    {
        self.window.len()
    }

    /// Records one observed transition.  It is dropped when the baseline
    /// does not know it (unknown source, or target outside the columns);
    /// otherwise it enters the window at the back and, if the window then
    /// holds more than `window_size` entries, the oldest one leaves.
    pub fn observe(&mut self, from: u64, to: u64)
        requires
            old(self).wf(),
        ensures
            final(self).wf(),
            final(self).matrix() == old(self).matrix(),
            final(self).capacity() == old(self).capacity(),
            final(self).min_obs() == old(self).min_obs(),
            final(self).window_seq() == (if accepts(old(self).matrix(), (from, to)) {
                slide(old(self).window_seq(), (from, to), old(self).capacity())
            } else {
                old(self).window_seq()
            }),
            final(self).window_seq().len() <= final(self).capacity(),
            !old(self).matrix().row_map().contains_key(from) ==> final(self).window_seq()
                == old(self).window_seq(),
            !old(self).matrix().col_seq().contains(to) ==> final(self).window_seq()
                == old(self).window_seq(),
            old(self).matrix().row_map().contains_key(from) && old(self).matrix().col_seq().contains(
                to,
            ) && old(self).window_seq().len() < old(self).capacity() ==> final(self).window_seq()
                == old(self).window_seq().push((from, to)),
            old(self).matrix().row_map().contains_key(from) && old(self).matrix().col_seq().contains(
                to,
            ) && old(self).window_seq().len() >= old(self).capacity() ==> final(self).window_seq()
                == old(self).window_seq().push((from, to)).drop_first(),
    {
        if !self.baseline.has_row(from) {
            return;
        }
        if !self.baseline.has_column(to) {
            return;
        }
        let ghost w0 = self.window@;
        self.window.push_back((from, to));
        let over_capacity = self.window.len() > self.window_size;
        proof {
            assert(pair_count(self.counts@, from, to) == occ(w0, (from, to)));
            lemma_occ_le_from(w0, from, to);
            lemma_from_le_len(w0, from);
        }
        increment(&mut self.counts, from, to, Ghost(w0));
        let ghost w1 = self.window@;
        assert(w1 == w0.push((from, to)));
        if over_capacity {
            match self.window.pop_front() {
                Some(oldest) => {
                    let (old_from, old_to) = oldest;
                    decrement(&mut self.counts, old_from, old_to, Ghost(w1));
                    assert(self.window@ =~= w1.drop_first());
                },
                None => {},
            }
        }
        proof {
            assert forall|i: int|
                0 <= i < self.window@.len() implies accepts(*self.baseline, #[trigger] self.window@[i]) by {
                // entry i of the window is entry j of the window before eviction
                let j = if self.window@.len() < w1.len() { i + 1 } else { i };
                assert(self.window@[i] == w1[j]);
                if j < w0.len() {
                    assert(w1[j] == w0[j]);
                }
            }
        }
    }

    /// The live counts of `from`, aligned to the baseline columns.
    ///
    /// `None` when `from` has no baseline row, when the window holds no
    /// transition out of `from`, or when it holds fewer than
    /// `min_observations` of them (too little signal).
    pub fn live_counts(&self, from: u64) -> (r: Option<Vec<u64>>)
        requires
            self.wf(),
        ensures
            r is Some <==> (self.matrix().row_map().contains_key(from) && occ_from(
                self.window_seq(),
                from,
            ) > 0 && occ_from(self.window_seq(), from) >= self.min_obs()),
            r matches Some(v) ==> v@ == dense_row(self.window_seq(), from, self.matrix().col_seq()),
    {
        let ghost w = self.window@;
        if !self.baseline.has_row(from) {
            return None;
        }
        let inner = match self.counts.get(&from) {
            Some(inner) => inner,
            None => {
                proof {
                    if occ_from(w, from) > 0 {
                        let t = lemma_from_witness(w, from);
                        assert(pair_count(self.counts@, from, t) == occ(w, (from, t)));
                    }
                }
                return None;
            },
        };
        proof {
            let t = choose|t: u64| has_pair(self.counts@, from, t);
            assert(pair_count(self.counts@, from, t) == occ(w, (from, t)));
            lemma_occ_le_from(w, from, t);
        }
        let cols = self.baseline.columns();
        let ghost cs = cols@;
        proof {
            lemma_strictly_increasing_distinct(cs);
            lemma_from_le_len(w, from);
        }
        let mut row: Vec<u64> = Vec::new();
        let mut total: u64 = 0;
        let mut c: usize = 0;
        while c < cols.len()
            invariant
                0 <= c <= cs.len(),
                cols@ == cs,
                cs.no_duplicates(),
                self.wf(),
                w == self.window@,
                self.counts@.contains_key(from),
                self.counts@[from]@ == inner@,
                occ_from(w, from) <= w.len(),
                row@ == dense_row(w, from, cs.take(c as int)),
                total == seq_sum(row@),
            decreases cs.len() - c,
        {
            let n: u64 = match inner.get(&cols[c]) {
                Some(n) => *n,
                None => 0,
            };
            proof {
                assert(pair_count(self.counts@, from, cs[c as int]) == occ(w, (from, cs[c as int])));
            }
            let ghost before = row@;
            row.push(n);
            proof {
                let next = cs.take(c as int + 1);
                assert(row@ =~= dense_row(w, from, next));
                assert(row@.drop_last() =~= before);
                assert(next.no_duplicates());
                lemma_dense_row_sum(w, from, next);
                lemma_from_in_le_from(w, from, next);
            }
            total = total + n;
            c = c + 1;
        }
        proof {
            assert(cs.take(c as int) =~= cs);
            self.lemma_live_row_total(from);
        }
        if (total as usize) < self.min_observations {
            return None;
        }
        Some(row)
    }
}

} // verus!
