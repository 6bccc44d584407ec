//! Integer side of Laplace smoothing: the total of a count vector.

use vstd::prelude::*;

verus! {

/// Sum of a sequence of counts, as a mathematical integer.
pub open spec fn seq_sum(s: Seq<u64>) -> int
    decreases s.len(),
{
    if s.len() == 0 {
        0
    } else {
        seq_sum(s.drop_last()) + s.last()
    }
}

/// Total number of observations in `counts`, the `N` of add-alpha smoothing.
///
/// Returns `None` exactly when the total does not fit in a `u64`.
pub fn count_total(counts: &[u64]) -> (total: Option<u64>)
    ensures
        match total {
            Some(t) => t == seq_sum(counts@),
            None => seq_sum(counts@) > u64::MAX,
        },
{
    let mut acc: u64 = 0;
    let mut i: usize = 0;
    while i < counts.len()
        invariant
            0 <= i <= counts@.len(),
            acc == seq_sum(counts@.take(i as int)),
        decreases counts@.len() - i,
    {
        assert(counts@.take(i as int + 1).drop_last() =~= counts@.take(i as int));
        match acc.checked_add(counts[i]) {
            Some(next) => {
                acc = next;
            },
            None => {
                proof {
                    lemma_seq_sum_prefix_le(counts@, i as int + 1);
                }
                return None;
            },
        }
        i = i + 1;
    }
    assert(counts@.take(i as int) =~= counts@);
    Some(acc)
}

/// The sum of a prefix never exceeds the sum of the whole sequence.
pub proof fn lemma_seq_sum_prefix_le(s: Seq<u64>, n: int)
    requires
        0 <= n <= s.len(),
    ensures
        seq_sum(s.take(n)) <= seq_sum(s),
    decreases s.len(),
{
    if n < s.len() {
        assert(s.drop_last().take(n) =~= s.take(n));
        lemma_seq_sum_prefix_le(s.drop_last(), n);
    } else {
        assert(s.take(n) =~= s);
    }
}

} // verus!
