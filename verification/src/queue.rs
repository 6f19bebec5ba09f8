//! The queue: the latest energies themselves, oldest first.
use std::collections::VecDeque;
use vstd::prelude::*;
use crate::samples::{
    high_rank, high_rank_of, lemma_energy_at_units, lemma_ranks_in_range, lemma_weight_push,
    low_rank, low_rank_of, range_of_terms, weight, Percentiles, Term,
};
use crate::scale::{ascending, count_below, lemma_count_below_is, lemma_count_below_splits};

verus! {

/// The values that are not below `threshold`, in their order, each as a term
/// of one sample.
pub open spec fn unit_terms(values: Seq<u64>, threshold: u64) -> Seq<Term>
    decreases values.len(),
{
    if values.len() == 0 {
        Seq::empty()
    } else if values.last() >= threshold {
        unit_terms(values.drop_last(), threshold).push(Term { count: 1, energy: values.last() })
    } else {
        unit_terms(values.drop_last(), threshold)
    }
}

/// The energies at the two percentiles of the loudness range over the
/// values of an ascending `q` that are not below `integrated`; `None` if
/// there are none.
pub open spec fn queue_range(q: Seq<u64>, integrated: u64) -> Option<Percentiles> {
    let gate = count_below(q, integrated as int);
    let size = (q.len() - gate) as nat;
    if size == 0 {
        None
    } else {
        Some(
            Percentiles {
                low: q[(gate + low_rank(size)) as int],
                high: q[(gate + high_rank(size)) as int],
            },
        )
    }
}

/// What a queue of limit `max` holds after one more energy: the oldest value
/// leaves first if the queue has reached its limit.
pub open spec fn pushed(values: Seq<u64>, max: nat, energy: u64) -> Seq<u64> {
    if values.len() >= max && values.len() > 0 {
        values.drop_first().push(energy)
    } else {
        values.push(energy)
    }
}

/// What a queue of limit `max` holds after the energies of `energies`, one
/// after the other.
pub open spec fn fed(values: Seq<u64>, max: nat, energies: Seq<u64>) -> Seq<u64>
    decreases energies.len(),
{
    if energies.len() == 0 {
        values
    } else {
        pushed(fed(values, max, energies.drop_last()), max, energies.last())
    }
}

/// What a queue holds after its limit is set to `max`: a shorter queue is
/// filled up to the new limit with zero energies, a longer one stays as it
/// is.
pub open spec fn resized(values: Seq<u64>, max: nat) -> Seq<u64> {
    if values.len() < max {
        values + Seq::new((max - values.len()) as nat, |i: int| 0u64)
    } else {
        values
    }
}

/// A queue that starts empty with a limit above zero holds the latest
/// energies that it was fed, as many as the limit allows, in the order of
/// their arrival.
pub proof fn lemma_queue_holds_latest(max: nat, energies: Seq<u64>)
    requires
        max > 0,
    ensures
        fed(Seq::empty(), max, energies) == energies.skip(
            energies.len() - vstd::math::min(energies.len() as int, max as int),
        ),
    decreases energies.len(),
{
    if energies.len() > 0 {
        lemma_queue_holds_latest(max, energies.drop_last());
    }
}

/// A queue that starts empty with room for all energies holds all of them.
pub proof fn lemma_queue_with_room(max: nat, energies: Seq<u64>)
    requires
        energies.len() <= max,
    ensures
        fed(Seq::empty(), max, energies) == energies,
{
    if max > 0 {
        lemma_queue_holds_latest(max, energies);
    }
}

/// Of ascending values, those that are not below a threshold are the last
/// ones, from the first that is not below it.
pub proof fn lemma_unit_terms_ascending(q: Seq<u64>, threshold: u64)
    requires
        ascending(q),
    ensures
        count_below(q, threshold as int) <= q.len(),
        unit_terms(q, threshold) == Seq::new(
            (q.len() - count_below(q, threshold as int)) as nat,
            |k: int| Term { count: 1, energy: q[count_below(q, threshold as int) + k] },
        ),
    decreases q.len(),
{
    lemma_count_below_splits(q, threshold as int);
    if q.len() > 0 {
        let rest = q.drop_last();
        lemma_unit_terms_ascending(rest, threshold);
        lemma_count_below_splits(rest, threshold as int);
        let gate = count_below(q, threshold as int) as int;
        let from_gate = Seq::new(
            (q.len() - gate) as nat,
            |k: int| Term { count: 1, energy: q[gate + k] },
        );
        if q.last() >= threshold {
            assert(unit_terms(q, threshold) =~= from_gate);
        } else {
            assert(gate == q.len());
            if count_below(rest, threshold as int) < rest.len() {
                assert(rest[count_below(rest, threshold as int) as int] <= q[q.len() - 1]);
            }
            assert(unit_terms(q, threshold) =~= from_gate);
        }
    }
}

/// Over ascending values the percentiles of the loudness range are the
/// energies at the two ranks among the terms of the values: a queue and a
/// histogram rank their samples by one rule.
pub proof fn lemma_queue_range(q: Seq<u64>, integrated: u64)
    requires
        ascending(q),
    ensures
        queue_range(q, integrated) == range_of_terms(unit_terms(q, integrated)),
{
    let terms = unit_terms(q, integrated);
    lemma_unit_terms_ascending(q, integrated);
    lemma_unit_terms_weight(q, integrated);
    let size = weight(terms);
    if size > 0 {
        lemma_ranks_in_range(size);
        lemma_energy_at_units(terms, low_rank(size));
        lemma_energy_at_units(terms, high_rank(size));
    }
}

/// The terms of a queue weigh no more than the queue is long.
pub proof fn lemma_unit_terms_weight(values: Seq<u64>, threshold: u64)
    ensures
        weight(unit_terms(values, threshold)) == unit_terms(values, threshold).len(),
        unit_terms(values, threshold).len() <= values.len(),
        threshold == 0 ==> unit_terms(values, threshold).len() == values.len(),
    decreases values.len(),
{
    if values.len() > 0 {
        lemma_unit_terms_weight(values.drop_last(), threshold);
        if values.last() >= threshold {
            lemma_weight_push(
                unit_terms(values.drop_last(), threshold),
                Term { count: 1, energy: values.last() },
            );
        }
    }
}

/// `VecDeque::shrink_to_fit`: gives back memory that the queue does not
/// use; what the queue holds stays as it is.
#[verifier::external_body]
fn shrink(queue: &mut VecDeque<u64>)
    ensures
        final(queue)@ == old(queue)@,
{
    queue.shrink_to_fit()
}

/// A queue of energies with a limit on its length.
pub struct Queue {
    queue: VecDeque<u64>,
    max: usize,
}

impl View for Queue {
    type V = Seq<u64>;

    /// The energies in the queue, oldest first.
    closed spec fn view(&self) -> Seq<u64> {
        self.queue@
    }
}

impl Queue {
    /// The limit on the length of the queue.
    pub closed spec fn max_size(&self) -> nat {
        self.max as nat
    }

    /// The values that are not below `threshold`, as terms in the order of
    /// their arrival.
    pub open spec fn terms(&self, threshold: u64) -> Seq<Term> {
        unit_terms(self@, threshold)
    }

    /// The queue is never longer than `usize::MAX`.
    pub proof fn lemma_len_bounded(&self)
        ensures
            self@.len() <= usize::MAX,
    {
        let n = self.queue.len();
    }

    /// An empty queue of limit `max`.
    pub fn new(max: usize) -> (queue: Queue)
        ensures
            queue@ == Seq::<u64>::empty(),
            queue.max_size() == max,
    {
        let capacity: usize = if max < 5000 {
            max
        } else {
            5000
        };
        Queue { queue: VecDeque::with_capacity(capacity), max }
    }

    /// Appends an energy; the oldest one leaves first if the queue has
    /// reached its limit. A queue within a limit above zero stays within it,
    /// and a queue that holds more than its limit, as it may after the limit
    /// was lowered, loses its oldest values one by one and does not grow.
    pub fn add(&mut self, energy: u64)
        ensures
            final(self)@ == pushed(old(self)@, old(self).max_size(), energy),
            final(self).max_size() == old(self).max_size(),
            old(self).max_size() > 0 && old(self)@.len() <= old(self).max_size()
                ==> final(self)@.len() <= final(self).max_size(),
            old(self)@.len() > 0 && old(self)@.len() >= old(self).max_size()
                ==> final(self)@.len() == old(self)@.len(),
    {
        if self.queue.len() >= self.max {
            self.queue.pop_front();
        }
        self.queue.push_back(energy);
    }

    /// Sets the limit. A queue shorter than the new limit is filled up to it
    /// with zero energies; a longer one keeps what it holds for now.
    pub fn set_max_size(&mut self, max: usize)
        ensures
            final(self)@ == resized(old(self)@, max as nat),
            final(self).max_size() == max,
            old(self)@.len() <= max ==> final(self)@.len() == max,
    {
        if self.queue.len() < max {
            self.queue.resize(max, 0);
            shrink(&mut self.queue);
        }
        self.max = max;
    }

    /// Number of energies in the queue.
    pub fn len(&self) -> (len: usize)
        ensures
            len == self@.len(),
    {
        self.queue.len()
    }

    /// The limit on the length of the queue.
    pub fn max(&self) -> (max: usize)
        ensures
            max == self.max_size(),
    {
        self.max
    }

    /// The energy at place `index`, the oldest one at place zero.
    pub fn get(&self, index: usize) -> (energy: u64)
        requires
            index < self@.len(),
        ensures
            energy == self@[index as int],
    {
        self.queue[index]
    }

    /// All values as terms of one sample each, and how many they are.
    pub fn calc_relative_threshold(&self) -> (all: (u128, Vec<Term>))
        ensures
            all.0 == self@.len(),
            all.0 == weight(all.1@),
            all.1@ == unit_terms(self@, 0),
    {
        let mut terms: Vec<Term> = Vec::new();
        proof {
            lemma_unit_terms_weight(self@, 0);
        }
        let count: u128 = self.append_gated(0, &mut terms);
        (count, terms)
    }

    /// Appends what the queue holds to `values`.
    pub fn append_values(&self, values: &mut Vec<u64>)
        ensures
            final(values)@ == old(values)@ + self@,
    {
        let n: usize = self.queue.len();
        let mut i: usize = 0;
        while i < n
            invariant
                n == self@.len(),
                i <= n,
                values@ == old(values)@ + self@.take(i as int),
            decreases n - i,
        {
            values.push(self.queue[i]);
            i += 1;
        }
    }

    /// Appends the values that are not below `threshold` to `terms`, and
    /// returns how many they are.
    pub fn append_gated(&self, threshold: u64, terms: &mut Vec<Term>) -> (count: u128)
        ensures
            final(terms)@ == old(terms)@ + self.terms(threshold),
            count == weight(self.terms(threshold)),
            count <= self@.len(),
    {
        let n: usize = self.queue.len();
        let mut count: u128 = 0;
        let mut i: usize = 0;
        while i < n
            invariant
                n == self@.len(),
                i <= n,
                terms@ == old(terms)@ + unit_terms(self@.take(i as int), threshold),
                count == weight(unit_terms(self@.take(i as int), threshold)),
                count <= i,
            decreases n - i,
        {
            let v: u64 = self.queue[i];
            proof {
                assert(self@.take(i + 1).drop_last() =~= self@.take(i as int));
                lemma_weight_push(
                    unit_terms(self@.take(i as int), threshold),
                    Term { count: 1, energy: v },
                );
            }
            if v >= threshold {
                count += 1;
                terms.push(Term { count: 1, energy: v });
            }
            i += 1;
        }
        assert(self@.take(n as int) =~= self@);
        count
    }

    /// All values of `values` as terms of one sample each, and how many they
    /// are.
    pub fn all_terms(values: &Vec<u64>) -> (all: (u128, Vec<Term>))
        ensures
            all.0 == values@.len(),
            all.0 == weight(all.1@),
            all.1@ == unit_terms(values@, 0),
    {
        let n: usize = values.len();
        let mut terms: Vec<Term> = Vec::new();
        let mut i: usize = 0;
        while i < n
            invariant
                n == values@.len(),
                i <= n,
                terms@ == unit_terms(values@.take(i as int), 0),
            decreases n - i,
        {
            proof {
                assert(values@.take(i + 1).drop_last() =~= values@.take(i as int));
            }
            terms.push(Term { count: 1, energy: values[i] });
            i += 1;
        }
        proof {
            assert(values@.take(n as int) =~= values@);
            lemma_unit_terms_weight(values@, 0);
        }
        (n as u128, terms)
    }

    /// The energies at the two percentiles of the loudness range over the
    /// values of `q` that are not below `integrated`; `None` if there are
    /// none. `q` ascends.
    pub fn loudness_range(q: &Vec<u64>, integrated: u64) -> (range: Option<Percentiles>)
        requires
            ascending(q@),
        ensures
            range == queue_range(q@, integrated),
            range matches Some(p) ==> p.low <= p.high,
    {
        let mut relgated: usize = 0;
        let mut relgated_size: usize = q.len();
        while relgated_size > 0 && q[relgated] < integrated
            invariant
                relgated + relgated_size == q.len(),
                forall|i: int| 0 <= i < relgated ==> q@[i] < integrated,
            decreases relgated_size,
        {
            relgated += 1;
            relgated_size -= 1;
        }
        proof {
            lemma_count_below_is(q@, integrated as int, relgated as int);
        }
        if relgated_size > 0 {
            let high: usize = high_rank_of(relgated_size as u128) as usize;
            let low: usize = low_rank_of(relgated_size as u128) as usize;
            let h_en: u64 = q[relgated + high];
            let l_en: u64 = q[relgated + low];
            Some(Percentiles { low: l_en, high: h_en })
        } else {
            None
        }
    }
}

} // verus!
