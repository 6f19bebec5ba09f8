//! The histogram: one counter for each bucket of the scale.
use vstd::prelude::*;
use crate::samples::{
    high_rank_of, lemma_energy_at_term, lemma_weight_take, low_rank_of, range_of_terms, weight,
    Percentiles, Term,
};
use crate::scale::{Scale, BUCKETS};

verus! {

/// Sum of the counters.
pub open spec fn total(counts: Seq<u128>) -> nat
    decreases counts.len(),
{
    if counts.len() == 0 {
        0
    } else {
        total(counts.drop_last()) + counts.last() as nat
    }
}

/// The buckets from `from` on as terms, each with its counter and the energy
/// that stands for it.
pub open spec fn bucket_terms(counts: Seq<u128>, energies: Seq<u64>, from: int) -> Seq<Term> {
    Seq::new(
        (counts.len() - from) as nat,
        |k: int| Term { count: counts[from + k], energy: energies[from + k] },
    )
}

/// The energies at the two percentiles of the loudness range over the
/// buckets from `gate` on; `None` if those buckets have counted nothing.
///
/// The samples are ranked from the lowest bucket up, and the energy of a
/// sample is the energy that stands for its bucket.
pub open spec fn histogram_range(counts: Seq<u128>, energies: Seq<u64>, gate: int) -> Option<
    Percentiles,
> {
    range_of_terms(bucket_terms(counts, energies, gate))
}

/// The counters after one more energy: the counter of its bucket is one
/// higher.
pub open spec fn counted(counts: Seq<u128>, scale: &Scale, energy: u64) -> Seq<u128> {
    counts.update(scale.bucket_of(energy), (counts[scale.bucket_of(energy)] + 1) as u128)
}

/// The counters after the energies of `energies`, one after the other.
pub open spec fn counted_all(counts: Seq<u128>, scale: &Scale, energies: Seq<u64>) -> Seq<u128>
    decreases energies.len(),
{
    if energies.len() == 0 {
        counts
    } else {
        counted(counted_all(counts, scale, energies.drop_last()), scale, energies.last())
    }
}

/// Number of the values whose bucket is `index`.
pub open spec fn count_in_bucket(values: Seq<u64>, scale: &Scale, index: int) -> nat
    decreases values.len(),
{
    if values.len() == 0 {
        0
    } else {
        count_in_bucket(values.drop_last(), scale, index) + if scale.bucket_of(values.last())
            == index {
            1nat
        } else {
            0nat
        }
    }
}

/// Starting from zero, each counter holds the number of the energies whose
/// bucket it stands for.
pub proof fn lemma_counted_all(scale: &Scale, energies: Seq<u64>)
    requires
        scale.wf(),
        energies.len() <= u64::MAX,
    ensures
        counted_all(Seq::new(BUCKETS as nat, |i: int| 0u128), scale, energies).len() == BUCKETS,
        forall|i: int|
            0 <= i < BUCKETS ==> counted_all(
                Seq::new(BUCKETS as nat, |i: int| 0u128),
                scale,
                energies,
            )[i] == #[trigger] count_in_bucket(energies, scale, i),
        forall|i: int|
            0 <= i < BUCKETS ==> #[trigger] count_in_bucket(energies, scale, i) <= energies.len(),
    decreases energies.len(),
{
    if energies.len() > 0 {
        lemma_counted_all(scale, energies.drop_last());
        scale.lemma_bucket_of(energies.last());
        let before = counted_all(
            Seq::new(BUCKETS as nat, |i: int| 0u128),
            scale,
            energies.drop_last(),
        );
        let after = counted_all(Seq::new(BUCKETS as nat, |i: int| 0u128), scale, energies);
        assert forall|i: int| 0 <= i < BUCKETS implies after[i] == #[trigger] count_in_bucket(
            energies,
            scale,
            i,
        ) && count_in_bucket(energies, scale, i) <= energies.len() by {
            assert(count_in_bucket(energies.drop_last(), scale, i) <= energies.len() - 1);
        }
    }
}

/// The counters of two histograms added bucket by bucket.
pub open spec fn sum_counts(a: Seq<u128>, b: Seq<u128>) -> Seq<u128> {
    Seq::new(a.len(), |i: int| (a[i] + b[i]) as u128)
}

/// The terms of the buckets from `from` on weigh as much as their counters
/// sum up to, and no more than all counters do.
pub proof fn lemma_bucket_terms_weight(counts: Seq<u128>, energies: Seq<u64>, from: int)
    requires
        0 <= from <= counts.len(),
    ensures
        weight(bucket_terms(counts, energies, from)) == total(counts.skip(from)),
        total(counts.take(from)) + total(counts.skip(from)) == total(counts),
    decreases counts.len() - from,
{
    let terms = bucket_terms(counts, energies, from);
    if from == counts.len() {
        assert(counts.take(from) =~= counts);
    } else {
        let shorter = counts.drop_last();
        lemma_bucket_terms_weight(shorter, energies, from);
        assert(terms.drop_last() =~= bucket_terms(shorter, energies, from));
        assert(counts.skip(from).drop_last() =~= shorter.skip(from));
        assert(shorter.take(from) =~= counts.take(from));
    }
}

/// Changing one counter changes the sum by as much.
pub proof fn lemma_total_update(counts: Seq<u128>, index: int, value: u128)
    requires
        0 <= index < counts.len(),
    ensures
        total(counts.update(index, value)) == total(counts) - counts[index] + value,
        counts[index] <= total(counts),
    decreases counts.len(),
{
    let changed = counts.update(index, value);
    if index == counts.len() - 1 {
        assert(changed.drop_last() =~= counts.drop_last());
    } else {
        lemma_total_update(counts.drop_last(), index, value);
        assert(changed.drop_last() =~= counts.drop_last().update(index, value));
    }
}

/// Counters that are all zero sum up to zero.
pub proof fn lemma_total_zero(counts: Seq<u128>)
    requires
        forall|i: int| 0 <= i < counts.len() ==> counts[i] == 0,
    ensures
        total(counts) == 0,
    decreases counts.len(),
{
    if counts.len() > 0 {
        lemma_total_zero(counts.drop_last());
    }
}

/// The sum of two lists of counters added bucket by bucket is the sum of
/// their sums, as long as no bucket overflows.
pub proof fn lemma_total_sum_counts(a: Seq<u128>, b: Seq<u128>)
    requires
        a.len() == b.len(),
        total(a) + total(b) <= u128::MAX,
    ensures
        total(sum_counts(a, b)) == total(a) + total(b),
        forall|i: int| 0 <= i < a.len() ==> a[i] + b[i] <= u128::MAX,
    decreases a.len(),
{
    if a.len() > 0 {
        lemma_total_sum_counts(a.drop_last(), b.drop_last());
        assert(sum_counts(a, b).drop_last() =~= sum_counts(a.drop_last(), b.drop_last()));
        assert forall|i: int| 0 <= i < a.len() implies a[i] + b[i] <= u128::MAX by {
            if i < a.len() - 1 {
                assert(b.drop_last()[i] == b[i]);
            }
        }
    }
}

/// A histogram over the buckets of a scale, with the sum of its counters
/// kept beside them.
pub struct Histogram {
    counts: Vec<u64>,
    sum: u64,
}

impl Histogram {
    /// The counters, one for each bucket.
    pub closed spec fn counts(&self) -> Seq<u128> {
        Seq::new(self.counts@.len(), |i: int| self.counts@[i] as u128)
    }

    /// Number of energies counted so far.
    pub open spec fn count(&self) -> nat {
        total(self.counts())
    }

    /// The sum that is kept beside the counters.
    pub closed spec fn kept_sum(&self) -> u64 {
        self.sum
    }

    /// There is a counter for each bucket, and the sum that is kept is the
    /// sum of the counters: the number of energies counted fits the width
    /// of one counter.
    pub open spec fn wf(&self) -> bool {
        &&& self.counts().len() == BUCKETS
        &&& self.count() == self.kept_sum()
    }

    /// The buckets whose energy is not below `threshold`, as terms in the
    /// order of the buckets.
    pub open spec fn terms(&self, scale: &Scale, threshold: u64) -> Seq<Term> {
        bucket_terms(self.counts(), scale.energies(), scale.gate_of(threshold))
    }

    /// A histogram that has counted nothing.
    pub fn new() -> (histogram: Histogram)
        ensures
            histogram.wf(),
            histogram.count() == 0,
            forall|i: int| 0 <= i < BUCKETS ==> histogram.counts()[i] == 0,
    {
        let histogram = Histogram { counts: vec![0u64; BUCKETS], sum: 0 };
        proof {
            lemma_total_zero(histogram.counts());
        }
        histogram
    }

    /// Counts an energy in its bucket.
    pub fn add(&mut self, scale: &Scale, energy: u64)
        requires
            old(self).wf(),
            scale.wf(),
            old(self).count() < u64::MAX,
        ensures
            final(self).wf(),
            final(self).counts() == counted(old(self).counts(), scale, energy),
            final(self).count() == old(self).count() + 1,
    {
        let index: usize = scale.find_histogram_index(energy);
        let count: u64 = self.counts[index];
        proof {
            lemma_total_update(self.counts(), index as int, (count + 1) as u128);
        }
        self.counts.set(index, count + 1);
        self.sum = self.sum + 1;
        assert(self.counts() =~= old(self).counts().update(index as int, (count + 1) as u128));
    }

    /// The counter of bucket `index`.
    pub fn bucket_count(&self, index: usize) -> (count: u64)
        requires
            self.wf(),
            index < BUCKETS,
        ensures
            count == self.counts()[index as int],
    {
        self.counts[index]
    }

    /// Number of energies counted so far.
    pub fn len(&self) -> (count: u64)
        requires
            self.wf(),
        ensures
            count == self.count(),
    {
        self.sum
    }

    /// All buckets as terms, and how many energies they have counted.
    pub fn calc_relative_threshold(&self, scale: &Scale) -> (all: (u128, Vec<Term>))
        requires
            self.wf(),
            scale.wf(),
        ensures
            all.0 == self.count(),
            all.0 == weight(all.1@),
            all.1@ == bucket_terms(self.counts(), scale.energies(), 0),
    {
        let mut terms: Vec<Term> = Vec::new();
        proof {
            lemma_bucket_terms_weight(self.counts(), scale.energies(), 0);
        }
        let above_thresh_counter: u128 = self.append_from(scale, 0, &mut terms);
        (above_thresh_counter, terms)
    }

    /// Appends the buckets from `gate` on to `terms`, and returns how many
    /// energies they have counted.
    pub fn append_from(&self, scale: &Scale, gate: usize, terms: &mut Vec<Term>) -> (count: u128)
        requires
            self.wf(),
            scale.wf(),
            gate <= BUCKETS,
        ensures
            final(terms)@ == old(terms)@ + bucket_terms(
                self.counts(),
                scale.energies(),
                gate as int,
            ),
            count == weight(bucket_terms(self.counts(), scale.energies(), gate as int)),
            count <= self.count(),
    {
        let ghost gated = bucket_terms(self.counts(), scale.energies(), gate as int);
        let mut count: u128 = 0;
        let mut i: usize = gate;
        proof {
            lemma_bucket_terms_weight(self.counts(), scale.energies(), gate as int);
        }
        while i < BUCKETS
            invariant
                self.wf(),
                scale.wf(),
                gate <= i <= BUCKETS,
                gated == bucket_terms(self.counts(), scale.energies(), gate as int),
                terms@ == old(terms)@ + gated.take(i - gate),
                count == weight(gated.take(i - gate)),
                weight(gated) <= u64::MAX,
            decreases BUCKETS - i,
        {
            proof {
                lemma_weight_take(gated, i - gate);
            }
            let term = Term { count: self.counts[i] as u128, energy: scale.energy(i) };
            terms.push(term);
            count += term.count;
            i += 1;
        }
        proof {
            assert(gated.take(BUCKETS - gate) =~= gated);
        }
        count
    }

    /// All buckets of `counts` as terms, and how many energies they have
    /// counted.
    pub fn all_terms(counts: &Vec<u128>, scale: &Scale) -> (all: (u128, Vec<Term>))
        requires
            scale.wf(),
            counts.len() == BUCKETS,
            total(counts@) <= u128::MAX,
        ensures
            all.0 == total(counts@),
            all.0 == weight(all.1@),
            all.1@ == bucket_terms(counts@, scale.energies(), 0),
    {
        let ghost every = bucket_terms(counts@, scale.energies(), 0);
        let mut size: u128 = 0;
        let mut terms: Vec<Term> = Vec::new();
        let mut i: usize = 0;
        proof {
            lemma_bucket_terms_weight(counts@, scale.energies(), 0);
        }
        while i < BUCKETS
            invariant
                scale.wf(),
                counts.len() == BUCKETS,
                i <= BUCKETS,
                every == bucket_terms(counts@, scale.energies(), 0),
                terms@ == every.take(i as int),
                size == weight(every.take(i as int)),
                weight(every) <= u128::MAX,
            decreases BUCKETS - i,
        {
            proof {
                lemma_weight_take(every, i as int);
                lemma_weight_take(every, i + 1);
            }
            let term = Term { count: counts[i], energy: scale.energy(i) };
            size += term.count;
            terms.push(term);
            i += 1;
        }
        proof {
            assert(every.take(BUCKETS as int) =~= every);
        }
        (size, terms)
    }

    /// Adds the counters to those of `combined`, bucket by bucket.
    pub fn add_counts_to(&self, combined: &mut Vec<u128>)
        requires
            self.wf(),
            old(combined).len() == BUCKETS,
            total(old(combined)@) + self.count() <= u128::MAX,
        ensures
            final(combined)@ == sum_counts(old(combined)@, self.counts()),
            total(final(combined)@) == total(old(combined)@) + self.count(),
    {
        proof {
            lemma_total_sum_counts(combined@, self.counts());
        }
        let mut i: usize = 0;
        while i < BUCKETS
            invariant
                self.wf(),
                i <= BUCKETS,
                combined.len() == BUCKETS,
                old(combined).len() == BUCKETS,
                forall|k: int|
                    0 <= k < BUCKETS ==> old(combined)@[k] + self.counts()[k] <= u128::MAX,
                forall|k: int| 0 <= k < i ==> combined@[k] == old(combined)@[k] + self.counts()[k],
                forall|k: int| i <= k < BUCKETS ==> combined@[k] == old(combined)@[k],
            decreases BUCKETS - i,
        {
            assert(self.counts()[i as int] == self.counts@[i as int]);
            let sum: u128 = combined[i] + self.counts[i] as u128;
            combined.set(i, sum);
            i += 1;
        }
    }

    /// The energies at the two percentiles of the loudness range over the
    /// buckets whose energy is not below `integrated`; `None` if those
    /// buckets have counted nothing.
    ///
    /// The samples are ranked from the lowest bucket up. The sample of a rank
    /// lies in the bucket at which the running count first exceeds the rank,
    /// and its energy is the energy of that bucket.
    pub fn loudness_range(counts: &Vec<u128>, scale: &Scale, integrated: u64) -> (range: Option<
        Percentiles,
    >)
        requires
            scale.wf(),
            counts.len() == BUCKETS,
            total(counts@) <= u128::MAX,
        ensures
            range == histogram_range(counts@, scale.energies(), scale.gate_of(integrated)),
            range matches Some(p) ==> p.low <= p.high,
    {
        let gate: usize = scale.gate_index(integrated);
        let ghost terms = bucket_terms(counts@, scale.energies(), gate as int);
        proof {
            lemma_bucket_terms_weight(counts@, scale.energies(), gate as int);
        }
        let mut size: u128 = 0;
        let mut i: usize = gate;
        while i < BUCKETS
            invariant
                counts.len() == BUCKETS,
                gate <= i <= BUCKETS,
                terms == bucket_terms(counts@, scale.energies(), gate as int),
                size == weight(terms.take(i - gate)),
                weight(terms) <= u128::MAX,
            decreases BUCKETS - i,
        {
            proof {
                lemma_weight_take(terms, i - gate);
                lemma_weight_take(terms, i + 1 - gate);
            }
            size += counts[i];
            i += 1;
        }
        proof {
            lemma_weight_take(terms, BUCKETS - gate);
        }
        if size == 0 {
            return None;
        }
        let percentile_low: u128 = low_rank_of(size);
        let percentile_high: u128 = high_rank_of(size);
        let mut j: usize = gate;
        let mut seen: u128 = 0;
        while seen <= percentile_low
            invariant
                counts.len() == BUCKETS,
                gate <= j <= BUCKETS,
                terms == bucket_terms(counts@, scale.energies(), gate as int),
                seen == weight(terms.take(j - gate)),
                size == weight(terms),
                percentile_low < size,
                j > gate ==> weight(terms.take(j - 1 - gate)) <= percentile_low,
            decreases BUCKETS - j,
        {
            proof {
                lemma_weight_take(terms, j - gate);
                if j < BUCKETS {
                    lemma_weight_take(terms, j + 1 - gate);
                }
            }
            seen += counts[j];
            j += 1;
        }
        proof {
            lemma_energy_at_term(terms, percentile_low as nat, j - 1 - gate);
        }
        let l_en: u64 = scale.energy(j - 1);
        let ghost low_bucket: int = j - 1;
        while seen <= percentile_high
            invariant
                counts.len() == BUCKETS,
                gate < j <= BUCKETS,
                low_bucket < j,
                terms == bucket_terms(counts@, scale.energies(), gate as int),
                seen == weight(terms.take(j - gate)),
                size == weight(terms),
                percentile_high < size,
                weight(terms.take(j - 1 - gate)) <= percentile_high,
            decreases BUCKETS - j,
        {
            proof {
                lemma_weight_take(terms, j - gate);
                if j < BUCKETS {
                    lemma_weight_take(terms, j + 1 - gate);
                }
            }
            seen += counts[j];
            j += 1;
        }
        proof {
            lemma_energy_at_term(terms, percentile_high as nat, j - 1 - gate);
            scale.lemma_tables_ascend();
        }
        let h_en: u64 = scale.energy(j - 1);
        Some(Percentiles { low: l_en, high: h_en })
    }
}

} // verus!
