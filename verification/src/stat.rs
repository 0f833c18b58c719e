//! Fixed-capacity sliding-window running average for one core.

use vstd::prelude::*;

verus! {

use std::collections::VecDeque;

/// Sum of a sequence of samples, as an unbounded integer.
pub open spec fn seq_sum(s: Seq<u64>) -> int
    decreases s.len(),
{
    if s.len() == 0 {
        0
    } else {
        seq_sum(s.drop_last()) + s.last()
    }
}

/// One `add_sample` step on the window contents: evict the oldest
/// retained sample when the window is full, then append the new one.
pub open spec fn window_step(w: Seq<u64>, sample: u64, capacity: nat) -> Seq<u64> {
    if w.len() >= capacity {
        w.drop_first().push(sample)
    } else {
        w.push(sample)
    }
}

/// The window contents after feeding every value of `fed`, in order,
/// into an initially empty window of the given capacity.
pub open spec fn window_run(fed: Seq<u64>, capacity: nat) -> Seq<u64>
    decreases fed.len(),
{
    if fed.len() == 0 {
        Seq::empty()
    } else {
        window_step(window_run(fed.drop_last(), capacity), fed.last(), capacity)
    }
}

pub proof fn lemma_seq_sum_nonneg(s: Seq<u64>)
    ensures
        seq_sum(s) >= 0,
    decreases s.len(),
{
    if s.len() > 0 {
        lemma_seq_sum_nonneg(s.drop_last());
    }
}

/// Splitting the sum at the front instead of the back.
pub proof fn lemma_seq_sum_first(s: Seq<u64>)
    requires
        s.len() > 0,
    ensures
        seq_sum(s) == s[0] + seq_sum(s.drop_first()),
    decreases s.len(),
{
    if s.len() == 1 {
        assert(s.drop_first() =~= Seq::<u64>::empty());
        assert(s.drop_last() =~= Seq::<u64>::empty());
    } else {
        lemma_seq_sum_first(s.drop_last());
        assert(s.drop_last().drop_first() =~= s.drop_first().drop_last());
        assert(s.drop_first().last() == s.last());
        assert(s.drop_last()[0] == s[0]);
    }
}

/// A sum of window samples is bounded by the sample count times the
/// largest sample value.
pub proof fn lemma_seq_sum_bound(s: Seq<u64>)
    ensures
        seq_sum(s) <= s.len() * (u64::MAX as int),
    decreases s.len(),
{
    if s.len() > 0 {
        lemma_seq_sum_bound(s.drop_last());
    }
}

/// Sliding-window mean state for one core: the most recent samples
/// (oldest first, never more than `window_size` of them) and their
/// running sum.
///
/// The sum is kept in 128 bits so that it can hold `window_size`
/// samples of any magnitude without overflowing.
#[derive(Debug)]
pub struct CpuStat {
    id: usize,
    window_size: usize,
    frequency_samples: VecDeque<u64>,
    sum: u128,
}

impl CpuStat {
    /// The core this window belongs to.
    pub closed spec fn spec_id(&self) -> usize {
        self.id
    }

    /// The maximum number of retained samples.
    pub closed spec fn spec_window_size(&self) -> usize {
        self.window_size
    }

    /// The retained samples, oldest first.
    pub closed spec fn samples(&self) -> Seq<u64> {
        self.frequency_samples@
    }

    /// The running sum of the retained samples.
    pub closed spec fn spec_sum(&self) -> int {
        self.sum as int
    }

    /// Structural invariant: the window never exceeds its capacity
    /// and the running sum always equals the sum of the retained
    /// samples.
    pub open spec fn wf(&self) -> bool {
        &&& self.spec_window_size() >= 1
        &&& self.samples().len() <= self.spec_window_size()
        &&& self.spec_sum() == seq_sum(self.samples())
    }

    /// The core this window belongs to.
    pub fn id(&self) -> (r: usize)
        ensures
            r == self.spec_id(),
    {
        self.id
    }

    /// The maximum number of retained samples.
    pub fn window_size(&self) -> (r: usize)
        ensures
            r == self.spec_window_size(),
    {
        self.window_size
    }

    /// A fresh, empty window for the given core. The capacity must be
    /// at least one: a zero-capacity window could never hold the
    /// sample that a poll tick feeds it.
    pub fn new(id: usize, window_size: usize) -> (r: Self)
        requires
            window_size >= 1,
        ensures
            r.wf(),
            r.spec_id() == id,
            r.spec_window_size() == window_size,
            r.samples() == Seq::<u64>::empty(),
            r.spec_sum() == 0,
    {
        Self { id, window_size, frequency_samples: VecDeque::with_capacity(window_size), sum: 0 }
    }

    /// Current running sum of the retained samples.
    pub fn sum(&self) -> (r: u128)
        ensures
            r == self.spec_sum(),
    {
        self.sum
    }

    /// The mean's exact ingredients: the running sum and the sample
    /// count. An empty window has no mean — that case is rejected
    /// here, not computed — so callers divide only through `Some`.
    pub fn mean_parts(&self) -> (r: Option<(u128, usize)>)
        ensures
            match r {
                Some(p) => self.samples().len() > 0 && p.0 == self.spec_sum() && p.1
                    == self.samples().len(),
                None => self.samples().len() == 0,
            },
    {
        if self.frequency_samples.len() == 0 {
            None
        } else {
            Some((self.sum, self.frequency_samples.len()))
        }
    }

    /// How many samples the window currently retains.
    pub fn sample_count(&self) -> (r: usize)
        ensures
            r == self.samples().len(),
    {
        self.frequency_samples.len()
    }

    /// Append one sample; when the window is already full, the oldest
    /// sample is evicted first. The running sum is adjusted in the
    /// same step, so no observer sees it account for more than
    /// `window_size` samples.
    pub fn add_sample(&mut self, sample: u64)
        requires
            old(self).wf(),
        ensures
            final(self).wf(),
            final(self).spec_id() == old(self).spec_id(),
            final(self).spec_window_size() == old(self).spec_window_size(),
            final(self).samples() == window_step(
                old(self).samples(),
                sample,
                old(self).spec_window_size() as nat,
            ),
    {
        proof {
            lemma_seq_sum_bound(self.frequency_samples@);
        }
        if self.frequency_samples.len() == self.window_size {
            if let Some(v) = self.frequency_samples.pop_front() {
                proof {
                    lemma_seq_sum_first(old(self).frequency_samples@);
                    lemma_seq_sum_nonneg(old(self).frequency_samples@.drop_first());
                }
                self.sum = self.sum - (v as u128);
            }
        }
        proof {
            lemma_seq_sum_nonneg(self.frequency_samples@);
            lemma_seq_sum_bound(self.frequency_samples@);
            assert((usize::MAX as int) * (u64::MAX as int) + (u64::MAX as int) < u128::MAX as int)
                by (nonlinear_arith);
            assert(seq_sum(self.frequency_samples@) <= (usize::MAX as int) * (u64::MAX as int))
                by {
                assert(self.frequency_samples@.len() <= usize::MAX);
                assert(self.frequency_samples@.len() * (u64::MAX as int) <= (usize::MAX as int) * (
                u64::MAX as int)) by (nonlinear_arith)
                    requires
                        self.frequency_samples@.len() <= usize::MAX,
                ;
            }
        }
        self.sum = self.sum + (sample as u128);
        self.frequency_samples.push_back(sample);
        proof {
            let w = old(self).frequency_samples@;
            if w.len() >= old(self).window_size {
                assert(self.frequency_samples@ =~= w.drop_first().push(sample));
                assert(w.drop_first().push(sample).drop_last() =~= w.drop_first());
            } else {
                assert(self.frequency_samples@ =~= w.push(sample));
                assert(w.push(sample).drop_last() =~= w);
            }
        }
    }
}

/// The window that results from any sequence of feeds is exactly the
/// suffix of the fed values of length `min(N, C)`: the last `C` values
/// once more than `C` have been fed, all of them before that.
pub proof fn lemma_window_run_is_suffix(fed: Seq<u64>, capacity: nat)
    requires
        capacity >= 1,
    ensures
        window_run(fed, capacity) =~= if fed.len() <= capacity {
            fed
        } else {
            fed.skip(fed.len() - capacity)
        },
    decreases fed.len(),
{
    if fed.len() > 0 {
        lemma_window_run_is_suffix(fed.drop_last(), capacity);
    }
}

/// After feeding any `N` values into an empty window of capacity `C`,
/// the running sum equals the sum of the last `min(N, C)` values fed,
/// exactly.
pub proof fn lemma_window_sum(fed: Seq<u64>, capacity: nat)
    requires
        capacity >= 1,
    ensures
        seq_sum(window_run(fed, capacity)) == seq_sum(
            if fed.len() <= capacity {
                fed
            } else {
                fed.skip(fed.len() - capacity)
            },
        ),
{
    lemma_window_run_is_suffix(fed, capacity);
}

/// Feeding `[a, b, c]` into a window of capacity two always leaves
/// the window `[b, c]` with sum `b + c`, whatever the values are.
pub proof fn lemma_capacity_two_eviction(a: u64, b: u64, c: u64)
    ensures
        window_run(seq![a, b, c], 2) =~= seq![b, c],
        seq_sum(window_run(seq![a, b, c], 2)) == b + c,
{
    lemma_window_run_is_suffix(seq![a, b, c], 2);
    assert(seq![a, b, c].skip(1) =~= seq![b, c]);
    assert(window_run(seq![a, b, c], 2) == seq![b, c]);
    assert(seq![b, c].drop_last() =~= seq![b]);
    assert(seq![b].drop_last() =~= Seq::<u64>::empty());
    assert(seq_sum(seq![b]) == seq_sum(Seq::<u64>::empty()) + b);
    assert(seq_sum(seq![b, c]) == seq_sum(seq![b]) + c);
}

} // verus!
