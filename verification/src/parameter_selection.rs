//! The adaptive choice of the Rice parameter `k`: for every context, the
//! estimator accumulates the exact number of bits each candidate `k` would
//! have spent on the residuals coded so far, and `get_k` picks the candidate
//! with the smallest total. When configured, a context's row is halved once
//! the smallest total first exceeds the threshold, so the estimator tracks
//! local statistics.

use crate::rice_coding::rice_len;
use vstd::arithmetic::power2::lemma_pow2_pos;
use vstd::prelude::*;

verus! {

/// A total capped at `u32::MAX`: the accumulators never wrap around, they
/// saturate.
pub open spec fn sat_add_len(total: u32, value: nat, k: nat) -> u32 {
    if total + rice_len(value, k) > u32::MAX {
        u32::MAX
    } else {
        (total + rice_len(value, k)) as u32
    }
}

/// The smallest entry of a nonempty row.
pub open spec fn row_min(row: Seq<u32>) -> u32
    recommends
        row.len() >= 1,
    decreases row.len(),
{
    if row.len() <= 1 {
        row[0]
    } else {
        let m = row_min(row.drop_last());
        if row.last() < m {
            row.last()
        } else {
            m
        }
    }
}

/// The index of the smallest entry of a nonempty row; ties break toward the
/// lowest index.
pub open spec fn row_argmin(row: Seq<u32>) -> int
    recommends
        row.len() >= 1,
    decreases row.len(),
{
    if row.len() <= 1 {
        0
    } else {
        let a = row_argmin(row.drop_last());
        if row.last() < row[a] {
            row.len() - 1
        } else {
            a
        }
    }
}

/// The entry at the argmin is the minimum, and no earlier entry is as small.
pub proof fn lemma_row_argmin(row: Seq<u32>)
    requires
        row.len() >= 1,
    ensures
        0 <= row_argmin(row) < row.len(),
        row[row_argmin(row)] == row_min(row),
        forall|j: int| 0 <= j < row.len() ==> row_min(row) <= row[j],
        forall|j: int| 0 <= j < row_argmin(row) ==> row[j] > row_min(row),
    decreases row.len(),
{
    if row.len() > 1 {
        lemma_row_argmin(row.drop_last());
        assert(forall|j: int| 0 <= j < row.len() - 1 ==> row[j] == row.drop_last()[j]);
    }
}

/// One `update` call on one context's row: every candidate's total grows by
/// its exact code length for the new value, and when a halving threshold is
/// configured and the smallest total exceeds it, the whole row is halved in
/// the same operation.
pub open spec fn row_step(row: Seq<u32>, ks: Seq<u8>, value: nat, halve_at: Option<u32>) -> Seq<
    u32,
> {
    let added = Seq::new(row.len(), |i: int| sat_add_len(row[i], value, ks[i] as nat));
    match halve_at {
        Some(t) => {
            if row_min(added) > t {
                Seq::new(added.len(), |i: int| added[i] / 2)
            } else {
                added
            }
        },
        None => added,
    }
}

/// This struct is used to estimate the optimal Rice parameter
/// value k from a given list of reasonable parameters for k.
pub struct KEstimator {
    max_context: u32,
    k_values: Vec<u8>,
    // context_map[C][k] - the code length we would have had
    // if we had used parameter k to encode all values encountered
    // so far in the context C.
    context_map: Vec<Vec<u32>>,
    halve_at: Option<u32>,
}

impl KEstimator {
    /// The accumulated totals: one row per context, one entry per candidate.
    pub closed spec fn rows(&self) -> Seq<Seq<u32>> {
        self.context_map@.map_values(|v: Vec<u32>| v@)
    }

    /// The candidate list.
    pub closed spec fn spec_k_values(&self) -> Seq<u8> {
        self.k_values@
    }

    /// The largest valid context.
    pub closed spec fn spec_max_context(&self) -> nat {
        self.max_context as nat
    }

    /// The configured halving threshold.
    pub closed spec fn spec_halve_at(&self) -> Option<u32> {
        self.halve_at
    }

    /// There is a row for every context, every row has one total per
    /// candidate, and every candidate is a valid Rice parameter.
    pub closed spec fn wf(&self) -> bool {
        &&& self.k_values@.len() >= 1
        &&& forall|i: int| 0 <= i < self.k_values@.len() ==> self.k_values@[i] <= 31
        &&& self.context_map@.len() == self.max_context + 1
        &&& forall|c: int|
            0 <= c < self.context_map@.len() ==> (#[trigger] self.context_map@[c])@.len()
                == self.k_values@.len()
    }

    /// Creates a new KEstimator for the given set of k parameters, with all
    /// totals zero.
    ///
    /// If `Some(value)` is passed, use periodic count scaling by halving all
    /// code lengths when the smallest one reaches `value`.
    pub fn new(max_context: u32, k_values: &[u8], halve_at: Option<u32>) -> (r: KEstimator)
        requires
            k_values@.len() >= 1,
            forall|i: int| 0 <= i < k_values@.len() ==> k_values@[i] <= 31,
        ensures
            r.wf(),
            r.spec_max_context() == max_context,
            r.spec_k_values() == k_values@,
            r.spec_halve_at() == halve_at,
            r.rows() == Seq::new(
                (max_context + 1) as nat,
                |c: int| Seq::new(k_values@.len(), |i: int| 0u32),
            ),
    {
        let mut context_map: Vec<Vec<u32>> = Vec::new();
        let ghost zero_row = Seq::new(k_values@.len(), |i: int| 0u32);
        let mut context: u64 = 0;
        while context <= max_context as u64
            invariant
                context <= max_context as u64 + 1,
                context_map@.len() == context,
                zero_row == Seq::new(k_values@.len(), |i: int| 0u32),
                forall|c: int| 0 <= c < context_map@.len() ==> (#[trigger] context_map@[c])@ == zero_row,
            decreases max_context as u64 + 1 - context,
        {
            let mut k: Vec<u32> = Vec::new();
            let mut i: usize = 0;
            while i < k_values.len()
                invariant
                    i <= k_values@.len(),
                    k@.len() == i,
                    forall|j: int| 0 <= j < i ==> k@[j] == 0u32,
                decreases k_values@.len() - i,
            {
                k.push(0);
                i = i + 1;
            }
            proof {
                assert(k@ =~= zero_row);
            }
            context_map.push(k);
            context = context + 1;
        }
        let mut ks: Vec<u8> = Vec::new();
        let mut i: usize = 0;
        while i < k_values.len()
            invariant
                i <= k_values@.len(),
                ks@ == k_values@.take(i as int),
            decreases k_values@.len() - i,
        {
            let v = k_values[i];
            ks.push(v);
            proof {
                assert(k_values@.take(i + 1) =~= k_values@.take(i as int).push(k_values@[i as int]));
            }
            i = i + 1;
        }
        proof {
            assert(k_values@.take(k_values@.len() as int) =~= k_values@);
        }
        let r = KEstimator { max_context, k_values: ks, context_map, halve_at };
        proof {
            assert(r.rows() =~= Seq::new(
                (max_context + 1) as nat,
                |c: int| Seq::new(k_values@.len(), |i: int| 0u32),
            ));
        }
        r
    }

    /// The accumulated totals for one context.
    pub fn context_map(&self, context: u32) -> (r: &Vec<u32>)
        requires
            self.wf(),
            context <= self.spec_max_context(),
        ensures
            r@ == self.rows()[context as int],
    {
        &self.context_map[context as usize]
    }

    /// Updates the cumulative totals for this context to reflect that we
    /// have encoded a new value.
    pub fn update(&mut self, context: u32, encoded: u32)
        requires
            old(self).wf(),
            context <= old(self).spec_max_context(),
        ensures
            final(self).wf(),
            final(self).spec_max_context() == old(self).spec_max_context(),
            final(self).spec_k_values() == old(self).spec_k_values(),
            final(self).spec_halve_at() == old(self).spec_halve_at(),
            final(self).rows() == old(self).rows().update(
                context as int,
                row_step(
                    old(self).rows()[context as int],
                    old(self).spec_k_values(),
                    encoded as nat,
                    old(self).spec_halve_at(),
                ),
            ),
    {
        let ghost old_row = self.rows()[context as int];
        let ghost ks = self.k_values@;
        let ghost added = Seq::new(
            old_row.len(),
            |i: int| sat_add_len(old_row[i], encoded as nat, ks[i] as nat),
        );
        let num_k = self.k_values.len();
        let mut newrow: Vec<u32> = Vec::new();
        let mut ki: usize = 0;
        while ki < num_k
            invariant
                self.wf(),
                *self == *old(self),
                num_k == self.k_values@.len(),
                context <= self.spec_max_context(),
                ki <= num_k,
                old_row == old(self).rows()[context as int],
                old_row.len() == num_k,
                ks == self.k_values@,
                added == Seq::new(
                    old_row.len(),
                    |i: int| sat_add_len(old_row[i], encoded as nat, ks[i] as nat),
                ),
                newrow@ == added.take(ki as int),
            decreases num_k - ki,
        {
            let k = self.k_values[ki];
            let p = crate::bits::exp2(k as u32);
            proof {
                lemma_pow2_pos(k as nat);
            }
            let q: u32 = encoded / p;
            let cur: u32 = self.context_map[context as usize][ki];
            let sum: u64 = (cur as u64) + (q as u64) + 1 + (k as u64);
            let newval: u32 = if sum > u32::MAX as u64 {
                u32::MAX
            } else {
                sum as u32
            };
            proof {
                assert(newval == added[ki as int]);
                assert(added.take(ki + 1) =~= added.take(ki as int).push(newval));
            }
            newrow.push(newval);
            ki = ki + 1;
        }
        proof {
            assert(added.take(num_k as int) =~= added);
        }

        let halve = match self.halve_at {
            Some(halve_at) => {
                let min_value = row_min_vec(&newrow);
                min_value > halve_at
            },
            None => false,
        };
        if halve {
            let mut halvedrow: Vec<u32> = Vec::new();
            let ghost halved = Seq::new(added.len(), |i: int| added[i] / 2);
            let mut ki: usize = 0;
            while ki < num_k
                invariant
                    ki <= num_k,
                    newrow@ == added,
                    added.len() == num_k,
                    halved == Seq::new(added.len(), |i: int| added[i] / 2),
                    halvedrow@ == halved.take(ki as int),
                decreases num_k - ki,
            {
                let cur: u32 = newrow[ki];
                proof {
                    assert(halved.take(ki + 1) =~= halved.take(ki as int).push(cur / 2));
                }
                halvedrow.push(cur / 2);
                ki = ki + 1;
            }
            proof {
                assert(halved.take(num_k as int) =~= halved);
            }
            self.context_map[context as usize] = halvedrow;
        } else {
            self.context_map[context as usize] = newrow;
        }
        proof {
            assert(final(self).rows() =~= old(self).rows().update(
                context as int,
                row_step(old_row, ks, encoded as nat, old(self).spec_halve_at()),
            ));
        }
    }

    /// The smallest total in one context's row.
    /// Returns the best parameter value k for the current context:
    /// Returns the best parameter value k for the current context: the
    /// candidate whose accumulated total is smallest, ties breaking toward
    /// the smallest k.
    pub fn get_k(&self, context: u32) -> (r: u8)
        requires
            self.wf(),
            context <= self.spec_max_context(),
        ensures
            r == self.spec_k_values()[row_argmin(self.rows()[context as int])],
            r <= 31,
    {
        let row = &self.context_map[context as usize];
        let ghost rowseq = self.rows()[context as int];
        let mut smallest: u32 = row[0];
        let mut best: usize = 0;
        proof {
            assert(rowseq.take(1).drop_last() =~= Seq::<u32>::empty());
        }
        let mut i: usize = 1;
        while i < row.len()
            invariant
                1 <= i <= rowseq.len(),
                row@ == rowseq,
                rowseq.len() >= 1,
                best < i,
                smallest == rowseq[best as int],
                smallest == row_min(rowseq.take(i as int)),
                best == row_argmin(rowseq.take(i as int)),
            decreases rowseq.len() - i,
        {
            let v = row[i];
            proof {
                assert(rowseq.take(i + 1).drop_last() =~= rowseq.take(i as int));
                assert(rowseq.take(i + 1).last() == rowseq[i as int]);
                lemma_row_argmin(rowseq.take(i as int));
            }
            if v < smallest {
                best = i;
                smallest = v;
            }
            i = i + 1;
        }
        proof {
            assert(rowseq.take(rowseq.len() as int) =~= rowseq);
        }
        self.k_values[best]
    }
}

/// The smallest entry of a nonempty vector of totals.
fn row_min_vec(row: &Vec<u32>) -> (r: u32)
    requires
        row@.len() >= 1,
    ensures
        r == row_min(row@),
{
    let ghost rowseq = row@;
    let mut smallest: u32 = row[0];
    proof {
        assert(rowseq.take(1).drop_last() =~= Seq::<u32>::empty());
        assert(row_min(rowseq.take(1)) == rowseq[0]);
    }
    let mut i: usize = 1;
    while i < row.len()
        invariant
            1 <= i <= rowseq.len(),
            row@ == rowseq,
            rowseq.len() >= 1,
            smallest == row_min(rowseq.take(i as int)),
        decreases rowseq.len() - i,
    {
        let v = row[i];
        proof {
            assert(rowseq.take(i + 1).drop_last() =~= rowseq.take(i as int));
            assert(rowseq.take(i + 1).last() == rowseq[i as int]);
        }
        if v < smallest {
            smallest = v;
        }
        i = i + 1;
    }
    proof {
        assert(rowseq.take(rowseq.len() as int) =~= rowseq);
    }
    smallest
}

/// Periodic count scaling: an update halves every total of the row, in the
/// same operation, exactly when the row's smallest total has just exceeded
/// the configured threshold; otherwise the totals are exactly the old ones
/// plus the code length of the new value.
pub proof fn lemma_periodic_scaling(row: Seq<u32>, ks: Seq<u8>, value: nat, t: u32)
    ensures
        ({
            let added = Seq::new(row.len(), |i: int| sat_add_len(row[i], value, ks[i] as nat));
            &&& row_min(added) > t ==> row_step(row, ks, value, Some(t)) == Seq::new(
                added.len(),
                |i: int| added[i] / 2,
            )
            &&& row_min(added) <= t ==> row_step(row, ks, value, Some(t)) == added
        }),
{
}

/// The total number of bits that Rice coding with parameter `k` would have
/// spent on a sequence of values.
pub open spec fn total_code_len(values: Seq<u32>, k: nat) -> nat
    decreases values.len(),
{
    if values.len() == 0 {
        0
    } else {
        total_code_len(values.drop_last(), k) + rice_len(values.last() as nat, k)
    }
}

/// The rows reached from `row` by updating with each value in order.
pub open spec fn row_after(
    row: Seq<u32>,
    ks: Seq<u8>,
    values: Seq<u32>,
    halve_at: Option<u32>,
) -> Seq<u32>
    decreases values.len(),
{
    if values.len() == 0 {
        row
    } else {
        row_step(row_after(row, ks, values.drop_last(), halve_at), ks, values.last() as nat, halve_at)
    }
}

/// With halving disabled, after any sequence of updates every accumulated
/// total is exactly the summed code length of the values seen, as long as
/// that sum stays representable.
pub proof fn lemma_estimator_tracks_totals(
    row: Seq<u32>,
    ks: Seq<u8>,
    values: Seq<u32>,
    i: int,
)
    requires
        row.len() == ks.len(),
        0 <= i < row.len(),
        row[i] + total_code_len(values, ks[i] as nat) <= u32::MAX,
    ensures
        row_after(row, ks, values, None)[i] == row[i] + total_code_len(values, ks[i] as nat),
    decreases values.len(),
{
    if values.len() > 0 {
        assert(total_code_len(values.drop_last(), ks[i] as nat) <= total_code_len(
            values,
            ks[i] as nat,
        ));
        lemma_estimator_tracks_totals(row, ks, values.drop_last(), i);
        assert(row_after(row, ks, values, None) == row_step(
            row_after(row, ks, values.drop_last(), None),
            ks,
            values.last() as nat,
            None,
        ));
        lemma_row_after_len(row, ks, values.drop_last(), None);
    }
}

/// Updating preserves the row length.
pub proof fn lemma_row_after_len(row: Seq<u32>, ks: Seq<u8>, values: Seq<u32>, halve_at: Option<u32>)
    ensures
        row_after(row, ks, values, halve_at).len() == row.len(),
    decreases values.len(),
{
    if values.len() > 0 {
        lemma_row_after_len(row, ks, values.drop_last(), halve_at);
    }
}

} // verus!
