//! The history: a histogram or a queue behind one surface, and the
//! statistics over one history or over several at once.
use vstd::pervasive::unreached;
use vstd::prelude::*;
use vstd::relations::{sorted_by, total_ordering};
use vstd::seq_lib::{lemma_sorted_unique, to_multiset_len};
use crate::histogram::{
    bucket_terms, count_in_bucket, counted, counted_all, lemma_bucket_terms_weight,
    lemma_counted_all, lemma_total_zero, sum_counts, total, Histogram,
};
use crate::queue::{
    fed, lemma_queue_range, lemma_queue_with_room, lemma_unit_terms_weight, pushed, resized,
    unit_terms, Queue,
};
use crate::samples::{
    lemma_weight_concat, range_of_terms, total_weight, weight, Percentiles, Samples, Term,
};
use crate::scale::{ascending, lemma_count_below_zero, Scale, BUCKETS};

verus! {

/// The energies of a measurement, kept either as a histogram or as a queue.
/// Which of the two is fixed when the history is made.
pub enum History {
    Queue(Queue),
    Histogram(Histogram),
}

/// A loudness range was asked over histories that are not all of one kind.
#[derive(Clone, Copy, Debug, PartialEq, Eq, Structural)]
pub struct VariantMismatch;

/// Every history of the list is well formed.
pub open spec fn all_wf(s: Seq<&History>) -> bool {
    forall|i: int| 0 <= i < s.len() ==> (#[trigger] s[i]).wf()
}

/// All histories of the list are of the kind of the first one.
pub open spec fn same_variant(s: Seq<&History>) -> bool {
    forall|i: int| 0 <= i < s.len() ==> (#[trigger] s[i]).is_histogram() == s[0].is_histogram()
}

/// Number of energies that the histories hold together.
pub open spec fn total_count(s: Seq<&History>) -> nat
    decreases s.len(),
{
    if s.len() == 0 {
        0
    } else {
        total_count(s.drop_last()) + s.last().count()
    }
}

/// The terms of each history, one group for each.
pub open spec fn grouped_terms(s: Seq<&History>, scale: &Scale) -> Seq<Seq<Term>> {
    Seq::new(s.len(), |i: int| s[i].terms(scale, 0))
}

/// The terms of all histories at a threshold, history after history.
pub open spec fn gated_terms(s: Seq<&History>, scale: &Scale, threshold: u64) -> Seq<Term>
    decreases s.len(),
{
    if s.len() == 0 {
        Seq::empty()
    } else {
        gated_terms(s.drop_last(), scale, threshold) + s.last().terms(scale, threshold)
    }
}

/// The counters of all histories added bucket by bucket.
pub open spec fn combined_counts(s: Seq<&History>) -> Seq<u128>
    decreases s.len(),
{
    if s.len() == 0 {
        Seq::new(BUCKETS as nat, |i: int| 0u128)
    } else {
        sum_counts(combined_counts(s.drop_last()), s.last().bucket_counts())
    }
}

/// The values of all histories, history after history.
pub open spec fn combined_values(s: Seq<&History>) -> Seq<u64>
    decreases s.len(),
{
    if s.len() == 0 {
        Seq::empty()
    } else {
        combined_values(s.drop_last()) + s.last().values()
    }
}

/// Fed the same energies from empty, a queue with room for all of them holds
/// each of them, and a histogram has counted each of them in its bucket. For
/// an energy that is not below the floor, the lower boundary of that bucket
/// is not above the energy, and the energy that stands for the bucket lies
/// between the boundaries of the bucket; below the highest bucket the upper
/// boundary lies above the energy too, so that the two lie between the same
/// two boundaries.
pub proof fn lemma_histogram_counts_what_a_queue_holds(
    scale: &Scale,
    energies: Seq<u64>,
    max: nat,
)
    requires
        scale.wf(),
        energies.len() <= max,
        energies.len() <= u64::MAX,
    ensures
        fed(Seq::empty(), max, energies) == energies,
        forall|i: int|
            0 <= i < BUCKETS ==> counted_all(
                Seq::new(BUCKETS as nat, |i: int| 0u128),
                scale,
                energies,
            )[i] == #[trigger] count_in_bucket(energies, scale, i),
        forall|k: int|
            0 <= k < energies.len() && !scale.below_floor(energies[k]) ==> {
                let bucket = scale.bucket_of(#[trigger] energies[k]);
                &&& 0 <= bucket < BUCKETS
                &&& scale.boundaries()[bucket] <= energies[k]
                &&& scale.boundaries()[bucket] <= scale.energies()[bucket] < scale.boundaries()[
                    bucket + 1]
                &&& bucket < BUCKETS - 1 ==> energies[k] < scale.boundaries()[bucket + 1]
            },
{
    lemma_queue_with_room(max, energies);
    lemma_counted_all(scale, energies);
    assert forall|k: int|
        0 <= k < energies.len() && !scale.below_floor(energies[k]) implies {
        let bucket = scale.bucket_of(#[trigger] energies[k]);
        &&& 0 <= bucket < BUCKETS
        &&& scale.boundaries()[bucket] <= energies[k]
        &&& scale.boundaries()[bucket] <= scale.energies()[bucket] < scale.boundaries()[bucket + 1]
        &&& bucket < BUCKETS - 1 ==> energies[k] < scale.boundaries()[bucket + 1]
    } by {
        scale.lemma_bucket_of(energies[k]);
    }
}

/// No threshold lets through more energies than the histories hold
/// together: histories without energies are silent at every threshold.
pub proof fn lemma_gated_terms_weight(s: Seq<&History>, scale: &Scale, threshold: u64)
    requires
        all_wf(s),
        scale.wf(),
    ensures
        weight(gated_terms(s, scale, threshold)) <= total_count(s),
    decreases s.len(),
{
    if s.len() > 0 {
        assert(all_wf(s.drop_last())) by {
            assert forall|i: int| 0 <= i < s.drop_last().len() implies (#[trigger] s.drop_last()[
                i]).wf() by {
                assert(s[i].wf());
            }
        }
        lemma_gated_terms_weight(s.drop_last(), scale, threshold);
        assert(s[s.len() - 1].wf());
        s.last().lemma_terms_weight(scale, threshold);
        lemma_weight_concat(
            gated_terms(s.drop_last(), scale, threshold),
            s.last().terms(scale, threshold),
        );
    }
}

/// One more group adds its weight.
pub proof fn lemma_total_weight_push(groups: Seq<Seq<Term>>, group: Seq<Term>)
    ensures
        total_weight(groups.push(group)) == total_weight(groups) + weight(group),
{
    assert(groups.push(group).drop_last() =~= groups);
}

/// Ascending sequences that hold the same values, each as often in the one
/// as in the other, are equal: there is one way only to put the values of
/// queues together.
pub proof fn lemma_ascending_unique(a: Seq<u64>, b: Seq<u64>)
    requires
        ascending(a),
        ascending(b),
        a.to_multiset() == b.to_multiset(),
    ensures
        a == b,
{
    let leq = |x: u64, y: u64| x <= y;
    assert(sorted_by(a, leq));
    assert(sorted_by(b, leq));
    assert(total_ordering(leq));
    lemma_sorted_unique(a, b, leq);
}

/// `<[u64]>::sort_unstable`: puts the values into ascending order. Which of
/// two equal values comes first is left open, and cannot be told.
#[verifier::external_body]
fn sort_ascending(values: &mut Vec<u64>)
    ensures
        ascending(final(values)@),
        final(values)@.to_multiset() == old(values)@.to_multiset(),
{
    values.sort_unstable()
}

enum Pool {
    Histogram(Vec<u128>),
    Queue(Vec<u64>),
}

/// The energies of histories of one kind, put together for the loudness
/// range: the counters of histograms added bucket by bucket, or the values
/// of queues in ascending order.
pub struct Combined {
    pool: Pool,
}

/// The samples of `terms` as one group.
fn one_group(count: u128, terms: Vec<Term>) -> (samples: Samples)
    requires
        count == weight(terms@),
    ensures
        samples.count == count,
        samples.groups_view() == seq![terms@],
        samples.wf(),
{
    let mut groups: Vec<Vec<Term>> = Vec::new();
    groups.push(terms);
    let samples = Samples { count, groups };
    proof {
        lemma_total_weight_push(Seq::<Seq<Term>>::empty(), terms@);
    }
    samples
}

impl Combined {
    /// Whether histograms were put together.
    pub closed spec fn is_histogram(&self) -> bool {
        self.pool is Histogram
    }

    /// The counters; none where queues were put together.
    pub closed spec fn counts(&self) -> Seq<u128> {
        match self.pool {
            Pool::Histogram(counts) => counts@,
            Pool::Queue(_) => Seq::empty(),
        }
    }

    /// The values; none where histograms were put together.
    pub closed spec fn values(&self) -> Seq<u64> {
        match self.pool {
            Pool::Histogram(_) => Seq::empty(),
            Pool::Queue(values) => values@,
        }
    }

    /// There is a counter for each bucket and their sum fits `u128`, or the
    /// values ascend.
    pub open spec fn wf(&self) -> bool {
        if self.is_histogram() {
            self.counts().len() == BUCKETS && total(self.counts()) <= u128::MAX
        } else {
            ascending(self.values())
        }
    }

    /// Number of energies.
    pub open spec fn count(&self) -> nat {
        if self.is_histogram() {
            total(self.counts())
        } else {
            self.values().len()
        }
    }

    /// The energies that are not below `threshold`, as terms in ascending
    /// order of energy.
    pub open spec fn terms(&self, scale: &Scale, threshold: u64) -> Seq<Term> {
        if self.is_histogram() {
            bucket_terms(self.counts(), scale.energies(), scale.gate_of(threshold))
        } else {
            unit_terms(self.values(), threshold)
        }
    }

    /// Whether histograms were put together.
    pub fn uses_histogram(&self) -> (histogram: bool)
        ensures
            histogram == self.is_histogram(),
    {
        match &self.pool {
            Pool::Histogram(_) => true,
            Pool::Queue(_) => false,
        }
    }

    /// The samples whose mean, scaled down by 20 dB, is the threshold
    /// `integrated` of the loudness range; `None` if there is no energy at
    /// all, and the range is zero.
    pub fn samples(&self, scale: &Scale) -> (all: Option<Samples>)
        requires
            self.wf(),
            scale.wf(),
        ensures
            all is None <==> self.count() == 0,
            all matches Some(x) ==> {
                &&& x.count == self.count()
                &&& x.groups_view() == seq![self.terms(scale, 0)]
                &&& x.wf()
            },
    {
        let (size, terms) = match &self.pool {
            Pool::Histogram(counts) => {
                proof {
                    lemma_count_below_zero(scale.energies());
                }
                Histogram::all_terms(counts, scale)
            },
            Pool::Queue(values) => Queue::all_terms(values),
        };
        if size == 0 {
            return None;
        }
        Some(one_group(size, terms))
    }

    /// The energies at the two percentiles of the loudness range, given its
    /// threshold `integrated`: the energies at the two ranks among the
    /// samples that are not below the threshold, ranked from the lowest up.
    /// The low one is not above the high one, so that the range is never
    /// negative. `None` if there is no such sample, and the range is zero.
    pub fn loudness_range(&self, scale: &Scale, integrated: u64) -> (range: Option<Percentiles>)
        requires
            self.wf(),
            scale.wf(),
        ensures
            range == range_of_terms(self.terms(scale, integrated)),
            range matches Some(p) ==> p.low <= p.high,
    {
        match &self.pool {
            Pool::Histogram(counts) => Histogram::loudness_range(counts, scale, integrated),
            Pool::Queue(values) => {
                proof {
                    lemma_queue_range(values@, integrated);
                }
                Queue::loudness_range(values, integrated)
            },
        }
    }
}

impl History {
    /// A histogram is well formed; a queue always is.
    pub open spec fn wf(&self) -> bool {
        match self {
            History::Histogram(h) => h.wf(),
            History::Queue(_) => true,
        }
    }

    /// Whether the history is kept as a histogram.
    pub open spec fn is_histogram(&self) -> bool {
        self is Histogram
    }

    /// Number of energies that the history holds.
    pub open spec fn count(&self) -> nat {
        match self {
            History::Histogram(h) => h.count(),
            History::Queue(q) => q@.len(),
        }
    }

    /// The energies that are not below `threshold`, as terms in the order in
    /// which they are summed: the buckets of a histogram from the lowest up,
    /// the values of a queue from the oldest on. At threshold zero these are
    /// all energies of the history.
    pub open spec fn terms(&self, scale: &Scale, threshold: u64) -> Seq<Term> {
        match self {
            History::Histogram(h) => h.terms(scale, threshold),
            History::Queue(q) => q.terms(threshold),
        }
    }

    /// The counters of a histogram; zero counters for a queue.
    pub open spec fn bucket_counts(&self) -> Seq<u128> {
        match self {
            History::Histogram(h) => h.counts(),
            History::Queue(_) => Seq::new(BUCKETS as nat, |i: int| 0u128),
        }
    }

    /// The values of a queue; none for a histogram.
    pub open spec fn values(&self) -> Seq<u64> {
        match self {
            History::Histogram(_) => Seq::empty(),
            History::Queue(q) => q@,
        }
    }

    /// At threshold zero the terms of a history stand for all its energies.
    pub proof fn lemma_terms_at_zero(&self, scale: &Scale)
        requires
            self.wf(),
            scale.wf(),
        ensures
            weight(self.terms(scale, 0)) == self.count(),
            self.count() <= u64::MAX,
            self matches History::Histogram(h) ==> self.terms(scale, 0) == bucket_terms(
                h.counts(),
                scale.energies(),
                0,
            ),
    {
        match self {
            History::Histogram(h) => {
                lemma_count_below_zero(scale.energies());
                lemma_bucket_terms_weight(h.counts(), scale.energies(), 0);
            },
            History::Queue(q) => {
                lemma_unit_terms_weight(q@, 0);
                q.lemma_len_bounded();
            },
        }
    }

    /// No threshold lets through more energies than the history holds: a
    /// history without energies is silent at every threshold.
    pub proof fn lemma_terms_weight(&self, scale: &Scale, threshold: u64)
        requires
            self.wf(),
            scale.wf(),
        ensures
            weight(self.terms(scale, threshold)) <= self.count(),
    {
        match self {
            History::Histogram(h) => {
                scale.lemma_gate_of(threshold);
                lemma_bucket_terms_weight(h.counts(), scale.energies(), scale.gate_of(threshold));
            },
            History::Queue(q) => {
                lemma_unit_terms_weight(q@, threshold);
            },
        }
    }

    /// A history without energies: a histogram if `use_histogram`, else a
    /// queue of limit `max`.
    pub fn new(use_histogram: bool, max: usize) -> (history: History)
        ensures
            history.wf(),
            history.is_histogram() == use_histogram,
            history.count() == 0,
            history matches History::Queue(q) ==> q@ == Seq::<u64>::empty() && q.max_size() == max,
            history matches History::Histogram(h) ==> forall|i: int|
                0 <= i < BUCKETS ==> h.counts()[i] == 0,
    {
        if use_histogram {
            History::Histogram(Histogram::new())
        } else {
            History::Queue(Queue::new(max))
        }
    }

    /// Takes in one energy. An energy below the floor of the scale leaves
    /// the history as it is; any other is counted by a histogram in its
    /// bucket, and appended by a queue.
    pub fn add(&mut self, scale: &Scale, energy: u64)
        requires
            old(self).wf(),
            scale.wf(),
            *old(self) matches History::Histogram(h) ==> h.count() < u64::MAX,
        ensures
            final(self).wf(),
            final(self).is_histogram() == old(self).is_histogram(),
            scale.below_floor(energy) ==> *final(self) == *old(self),
            !scale.below_floor(energy) ==> match (*old(self), *final(self)) {
                (History::Histogram(before), History::Histogram(after)) => {
                    &&& after.counts() == counted(before.counts(), scale, energy)
                    &&& after.count() == before.count() + 1
                },
                (History::Queue(before), History::Queue(after)) => {
                    &&& after@ == pushed(before@, before.max_size(), energy)
                    &&& after.max_size() == before.max_size()
                },
                _ => false,
            },
    {
        if scale.is_below_floor(energy) {
            return ;
        }
        match self {
            History::Histogram(h) => h.add(scale, energy),
            History::Queue(q) => q.add(energy),
        }
    }

    /// Sets the limit of a queue; a histogram has none and stays as it is.
    pub fn set_max_size(&mut self, max: usize)
        requires
            old(self).wf(),
        ensures
            final(self).wf(),
            match (*old(self), *final(self)) {
                (History::Histogram(before), History::Histogram(after)) => after == before,
                (History::Queue(before), History::Queue(after)) => {
                    &&& after@ == resized(before@, max as nat)
                    &&& after.max_size() == max
                },
                _ => false,
            },
    {
        match self {
            History::Histogram(_) => (),
            History::Queue(q) => q.set_max_size(max),
        }
    }

    /// Whether the history is kept as a histogram.
    pub fn uses_histogram(&self) -> (histogram: bool)
        ensures
            histogram == self.is_histogram(),
    {
        match self {
            History::Histogram(_) => true,
            History::Queue(_) => false,
        }
    }

    /// Number of energies that the history holds.
    pub fn len(&self) -> (count: u64)
        requires
            self.wf(),
        ensures
            count == self.count(),
    {
        match self {
            History::Histogram(h) => h.len(),
            History::Queue(q) => q.len() as u64,
        }
    }

    /// All energies of the history: how many they are, and the terms whose
    /// sum is the sum of the energies.
    pub fn calc_relative_threshold(&self, scale: &Scale) -> (all: (u128, Vec<Term>))
        requires
            self.wf(),
            scale.wf(),
        ensures
            all.0 == self.count(),
            all.0 == weight(all.1@),
            all.0 <= u64::MAX,
            all.1@ == self.terms(scale, 0),
    {
        proof {
            self.lemma_terms_at_zero(scale);
        }
        match self {
            History::Histogram(h) => h.calc_relative_threshold(scale),
            History::Queue(q) => q.calc_relative_threshold(),
        }
    }

    /// The samples whose mean, scaled by the relative gate, is the relative
    /// threshold of the history; `None` for a history without energies,
    /// whose threshold is the floor.
    pub fn relative_threshold(&self, scale: &Scale) -> (all: Option<Samples>)
        requires
            self.wf(),
            scale.wf(),
        ensures
            all is None <==> self.count() == 0,
            all matches Some(x) ==> {
                &&& x.count == self.count()
                &&& x.groups_view() == seq![self.terms(scale, 0)]
                &&& x.wf()
            },
    {
        let (above_thresh_counter, terms) = self.calc_relative_threshold(scale);
        if above_thresh_counter == 0 {
            return None;
        }
        Some(one_group(above_thresh_counter, terms))
    }

    /// The samples whose mean, scaled by the relative gate, is the relative
    /// threshold of several histories together, a group for each history;
    /// `None` if they hold no energy at all.
    pub fn relative_threshold_multiple(s: &[&History], scale: &Scale) -> (all: Option<Samples>)
        requires
            all_wf(s@),
            scale.wf(),
        ensures
            all is None <==> total_count(s@) == 0,
            all matches Some(x) ==> {
                &&& x.count == total_count(s@)
                &&& x.groups_view() == grouped_terms(s@, scale)
                &&& x.wf()
            },
    {
        let mut above_thresh_counter: u128 = 0;
        let mut groups: Vec<Vec<Term>> = Vec::new();
        let mut i: usize = 0;
        while i < s.len()
            invariant
                all_wf(s@),
                scale.wf(),
                i <= s.len(),
                above_thresh_counter == total_count(s@.take(i as int)),
                above_thresh_counter <= i * u64::MAX,
                groups@.len() == i,
                forall|k: int| 0 <= k < i ==> (#[trigger] groups@[k])@ == s@[k].terms(scale, 0),
                above_thresh_counter == total_weight(
                    Seq::new(groups@.len(), |k: int| groups@[k]@),
                ),
            decreases s.len() - i,
        {
            let ghost before = Seq::new(groups@.len(), |k: int| groups@[k]@);
            let h: &History = s[i];
            let (count, terms) = h.calc_relative_threshold(scale);
            proof {
                assert(s@.take(i + 1).drop_last() =~= s@.take(i as int));
                lemma_total_weight_push(before, terms@);
            }
            above_thresh_counter += count;
            groups.push(terms);
            assert(Seq::new(groups@.len(), |k: int| groups@[k]@) =~= before.push(terms@));
            i += 1;
        }
        assert(s@.take(s.len() as int) =~= s@);
        if above_thresh_counter == 0 {
            return None;
        }
        let all = Samples { count: above_thresh_counter, groups };
        Some(all)
    }

    /// The samples whose mean is the gated loudness of the history, given
    /// its relative threshold; `None` if no energy reaches that threshold.
    pub fn gated_loudness(&self, scale: &Scale, relative_threshold: u64) -> (gated: Option<
        Samples,
    >)
        requires
            self.wf(),
            scale.wf(),
        ensures
            gated is None <==> weight(self.terms(scale, relative_threshold)) == 0,
            gated matches Some(x) ==> {
                &&& x.count == weight(self.terms(scale, relative_threshold))
                &&& x.groups_view() == seq![self.terms(scale, relative_threshold)]
                &&& x.wf()
            },
    {
        let one: [&History; 1] = [self];
        proof {
            let s = one@;
            assert(gated_terms(s.drop_last(), scale, relative_threshold) =~= Seq::<Term>::empty());
            assert(gated_terms(s, scale, relative_threshold) =~= self.terms(
                scale,
                relative_threshold,
            ));
        }
        Self::gated_loudness_multiple(one.as_slice(), scale, relative_threshold)
    }

    /// The samples whose mean is the gated loudness of several histories
    /// together, given their relative threshold; `None` if no energy reaches
    /// that threshold.
    ///
    /// A histogram passes the buckets whose energy is not below the
    /// threshold, a queue the values that are not below it.
    pub fn gated_loudness_multiple(s: &[&History], scale: &Scale, relative_threshold: u64) -> (gated:
        Option<Samples>)
        requires
            all_wf(s@),
            scale.wf(),
        ensures
            gated is None <==> weight(gated_terms(s@, scale, relative_threshold)) == 0,
            gated matches Some(x) ==> {
                &&& x.count == weight(gated_terms(s@, scale, relative_threshold))
                &&& x.groups_view() == seq![gated_terms(s@, scale, relative_threshold)]
                &&& x.wf()
            },
    {
        let start_index: usize = scale.gate_index(relative_threshold);
        let mut above_thresh_counter: u128 = 0;
        let mut terms: Vec<Term> = Vec::new();
        let mut i: usize = 0;
        while i < s.len()
            invariant
                all_wf(s@),
                scale.wf(),
                i <= s.len(),
                start_index == scale.gate_of(relative_threshold),
                start_index <= BUCKETS,
                terms@ == gated_terms(s@.take(i as int), scale, relative_threshold),
                above_thresh_counter == weight(terms@),
                above_thresh_counter <= i * u64::MAX,
            decreases s.len() - i,
        {
            let ghost before = terms@;
            let h: &History = s[i];
            let count: u128 = match h {
                History::Histogram(h) => h.append_from(scale, start_index, &mut terms),
                History::Queue(q) => {
                    proof {
                        q.lemma_len_bounded();
                    }
                    q.append_gated(relative_threshold, &mut terms)
                },
            };
            proof {
                assert(s@.take(i + 1).drop_last() =~= s@.take(i as int));
                lemma_weight_concat(before, h.terms(scale, relative_threshold));
            }
            above_thresh_counter += count;
            i += 1;
        }
        assert(s@.take(s.len() as int) =~= s@);
        if above_thresh_counter == 0 {
            return None;
        }
        Some(one_group(above_thresh_counter, terms))
    }

    /// The energies of the history, put together for the loudness range.
    pub fn loudness_range(&self) -> (combined: Combined)
        requires
            self.wf(),
        ensures
            combined.wf(),
            combined.is_histogram() == self.is_histogram(),
            combined.count() == self.count(),
            combined.is_histogram() ==> combined.counts() == self.bucket_counts(),
            !combined.is_histogram() ==> combined.values().to_multiset()
                == self.values().to_multiset(),
    {
        let one: [&History; 1] = [self];
        proof {
            let s = one@;
            assert(combined_values(s.drop_last()) =~= Seq::<u64>::empty());
            assert(combined_counts(s.drop_last()) =~= Seq::new(BUCKETS as nat, |i: int| 0u128));
            assert(total_count(s.drop_last()) == 0);
        }
        match Self::loudness_range_multiple(one.as_slice()) {
            Ok(combined) => combined,
            Err(_) => unreached(),
        }
    }

    /// The energies of several histories, put together for the loudness
    /// range. Histories that are not all of one kind are refused; no
    /// histories at all give an empty result.
    pub fn loudness_range_multiple(s: &[&History]) -> (combined: Result<Combined, VariantMismatch>)
        requires
            all_wf(s@),
        ensures
            combined is Err <==> !same_variant(s@),
            combined matches Ok(c) ==> {
                &&& c.wf()
                &&& c.is_histogram() == (s@.len() > 0 && s@[0].is_histogram())
                &&& c.count() == total_count(s@)
                &&& c.is_histogram() ==> c.counts() == combined_counts(s@)
                &&& !c.is_histogram() ==> c.values().to_multiset() == combined_values(
                    s@,
                ).to_multiset()
            },
    {
        if s.len() == 0 {
            return Ok(Combined { pool: Pool::Queue(Vec::new()) });
        }
        let mut i: usize = 0;
        match s[0] {
            History::Histogram(_) => {
                let mut combined: Vec<u128> = vec![0u128; BUCKETS];
                proof {
                    lemma_total_zero(combined@);
                }
                while i < s.len()
                    invariant
                        all_wf(s@),
                        i <= s.len(),
                        s@[0].is_histogram(),
                        forall|k: int| 0 <= k < i ==> (#[trigger] s@[k]).is_histogram(),
                        combined.len() == BUCKETS,
                        combined@ == combined_counts(s@.take(i as int)),
                        total(combined@) == total_count(s@.take(i as int)),
                        total(combined@) <= i * u64::MAX,
                    decreases s.len() - i,
                {
                    let h: &History = s[i];
                    proof {
                        assert(s@.take(i + 1).drop_last() =~= s@.take(i as int));
                    }
                    match h {
                        History::Histogram(h) => h.add_counts_to(&mut combined),
                        History::Queue(_) => {
                            return Err(VariantMismatch);
                        },
                    }
                    i += 1;
                }
                assert(s@.take(s.len() as int) =~= s@);
                Ok(Combined { pool: Pool::Histogram(combined) })
            },
            History::Queue(_) => {
                let mut combined: Vec<u64> = Vec::new();
                while i < s.len()
                    invariant
                        i <= s.len(),
                        !s@[0].is_histogram(),
                        forall|k: int| 0 <= k < i ==> !(#[trigger] s@[k]).is_histogram(),
                        combined@ == combined_values(s@.take(i as int)),
                        combined@.len() == total_count(s@.take(i as int)),
                    decreases s.len() - i,
                {
                    let h: &History = s[i];
                    proof {
                        assert(s@.take(i + 1).drop_last() =~= s@.take(i as int));
                    }
                    match h {
                        History::Queue(q) => q.append_values(&mut combined),
                        History::Histogram(_) => {
                            return Err(VariantMismatch);
                        },
                    }
                    i += 1;
                }
                assert(s@.take(s.len() as int) =~= s@);
                let ghost unsorted = combined@;
                sort_ascending(&mut combined);
                proof {
                    to_multiset_len(unsorted);
                    to_multiset_len(combined@);
                }
                Ok(Combined { pool: Pool::Queue(combined) })
            },
        }
    }
}

} // verus!
