//! Weighted energies, and the ranks of the two percentiles of the loudness range.
use vstd::prelude::*;

verus! {

/// `count` samples that all carry the energy `energy`.
#[derive(Clone, Copy, Debug, PartialEq, Eq, Structural)]
pub struct Term {
    pub count: u128,
    pub energy: u64,
}

/// The samples that enter one mean.
///
/// The mean is the sum of the energies divided by `count`. The sum is taken
/// group by group: each group is summed from zero in the order of its terms,
/// a term adding `count * energy`, and the sums of the groups are added up in
/// the order of the groups.
#[derive(Debug)]
pub struct Samples {
    pub count: u128,
    pub groups: Vec<Vec<Term>>,
}

/// The energies at the low and at the high percentile of a loudness range.
#[derive(Clone, Copy, Debug, PartialEq, Eq, Structural)]
pub struct Percentiles {
    pub low: u64,
    pub high: u64,
}

/// Number of samples that a list of terms stands for.
pub open spec fn weight(terms: Seq<Term>) -> nat
    decreases terms.len(),
{
    if terms.len() == 0 {
        0
    } else {
        weight(terms.drop_last()) + terms.last().count as nat
    }
}

/// Number of samples in a list of groups.
pub open spec fn total_weight(groups: Seq<Seq<Term>>) -> nat
    decreases groups.len(),
{
    if groups.len() == 0 {
        0
    } else {
        total_weight(groups.drop_last()) + weight(groups.last())
    }
}

/// Energy of the sample of rank `rank`, counted from zero, when the samples
/// of `terms` are laid out term by term.
pub open spec fn energy_at(terms: Seq<Term>, rank: nat) -> u64
    decreases terms.len(),
{
    if terms.len() == 0 {
        0
    } else if rank < terms[0].count {
        terms[0].energy
    } else {
        energy_at(terms.drop_first(), (rank - terms[0].count) as nat)
    }
}

/// Rank of the 10th percentile among `n` samples: `(n - 1) / 10` rounded to
/// the nearest integer, a half rounded up. That is the integer part of
/// `(n - 1) / 10 + 1 / 2`, which is that of `(n + 4) / 10`.
pub open spec fn low_rank(n: nat) -> nat {
    ((n + 4) / 10) as nat
}

/// Rank of the 95th percentile among `n` samples: `19 * (n - 1) / 20` rounded
/// to the nearest integer, a half rounded up. That is the integer part of
/// `19 * (n - 1) / 20 + 1 / 2`, which is that of `(19 * n - 9) / 20`.
pub open spec fn high_rank(n: nat) -> nat {
    ((19 * n - 9) / 20) as nat
}

/// The energies at the two percentiles of the loudness range over the
/// samples of `terms`, which ascend in energy; `None` if there are no
/// samples.
pub open spec fn range_of_terms(terms: Seq<Term>) -> Option<Percentiles> {
    let size = weight(terms);
    if size == 0 {
        None
    } else {
        Some(
            Percentiles {
                low: energy_at(terms, low_rank(size)),
                high: energy_at(terms, high_rank(size)),
            },
        )
    }
}

impl Samples {
    /// The groups as sequences of terms.
    pub open spec fn groups_view(&self) -> Seq<Seq<Term>> {
        Seq::new(self.groups@.len(), |i: int| self.groups@[i]@)
    }

    /// The count is the number of samples that the groups hold.
    pub open spec fn wf(&self) -> bool {
        self.count == total_weight(self.groups_view())
    }
}

/// Both ranks lie among the samples, the low one not above the high one.
pub proof fn lemma_ranks_in_range(n: nat)
    requires
        n >= 1,
    ensures
        low_rank(n) <= high_rank(n) < n,
{
}

/// One more term adds its count.
pub proof fn lemma_weight_push(terms: Seq<Term>, term: Term)
    ensures
        weight(terms.push(term)) == weight(terms) + term.count,
{
    assert(terms.push(term).drop_last() =~= terms);
}

/// Two lists of terms in a row weigh as much as the two together.
pub proof fn lemma_weight_concat(a: Seq<Term>, b: Seq<Term>)
    ensures
        weight(a + b) == weight(a) + weight(b),
    decreases b.len(),
{
    if b.len() > 0 {
        lemma_weight_concat(a, b.drop_last());
        assert((a + b).drop_last() =~= a + b.drop_last());
    }
}

/// A prefix of a list of terms weighs no more than the list.
pub proof fn lemma_weight_take(terms: Seq<Term>, k: int)
    requires
        0 <= k <= terms.len(),
    ensures
        weight(terms.take(k)) <= weight(terms),
        k < terms.len() ==> weight(terms.take(k + 1)) == weight(terms.take(k)) + terms[k].count,
        k == terms.len() ==> weight(terms.take(k)) == weight(terms),
    decreases terms.len() - k,
{
    if k == terms.len() {
        assert(terms.take(k) =~= terms);
    } else {
        lemma_weight_take(terms, k + 1);
        assert(terms.take(k + 1).drop_last() =~= terms.take(k));
    }
}

/// Skipping whole terms that lie below a rank leaves the energy at that rank
/// in place.
pub proof fn lemma_energy_at_skip(terms: Seq<Term>, rank: nat, k: int)
    requires
        0 <= k <= terms.len(),
        weight(terms.take(k)) <= rank,
    ensures
        energy_at(terms, rank) == energy_at(
            terms.skip(k),
            (rank - weight(terms.take(k))) as nat,
        ),
    decreases k,
{
    if k == 0 {
        assert(terms.skip(0) =~= terms);
    } else {
        let first = terms[0];
        let rest = terms.drop_first();
        assert(terms.take(k) =~= seq![first] + rest.take(k - 1));
        lemma_weight_concat(seq![first], rest.take(k - 1));
        lemma_weight_push(Seq::<Term>::empty(), first);
        lemma_energy_at_skip(rest, (rank - first.count) as nat, k - 1);
        assert(rest.skip(k - 1) =~= terms.skip(k));
    }
}

/// The sample of a rank lies in the term at which the running count first
/// exceeds the rank.
pub proof fn lemma_energy_at_term(terms: Seq<Term>, rank: nat, k: int)
    requires
        0 <= k < terms.len(),
        weight(terms.take(k)) <= rank < weight(terms.take(k + 1)),
    ensures
        energy_at(terms, rank) == terms[k].energy,
{
    lemma_energy_at_skip(terms, rank, k);
    lemma_weight_take(terms, k);
}

/// Among terms of one sample each, the sample of a rank is the term at
/// that place.
pub proof fn lemma_energy_at_units(terms: Seq<Term>, rank: nat)
    requires
        forall|i: int| 0 <= i < terms.len() ==> (#[trigger] terms[i]).count == 1,
        rank < terms.len(),
    ensures
        energy_at(terms, rank) == terms[rank as int].energy,
    decreases terms.len(),
{
    if rank > 0 {
        let rest = terms.drop_first();
        assert forall|i: int| 0 <= i < rest.len() implies (#[trigger] rest[i]).count == 1 by {
            assert(rest[i] == terms[i + 1]);
        }
        lemma_energy_at_units(rest, (rank - 1) as nat);
    }
}

/// Rank of the 10th percentile among `n` samples.
pub fn low_rank_of(n: u128) -> (rank: u128)
    requires
        n >= 1,
    ensures
        rank == low_rank(n as nat),
{
    let m: u128 = n - 1;
    m / 10 + (m % 10 + 5) / 10
}

/// Rank of the 95th percentile among `n` samples.
pub fn high_rank_of(n: u128) -> (rank: u128)
    requires
        n >= 1,
    ensures
        rank == high_rank(n as nat),
{
    let m: u128 = n - 1;
    m - (m / 20 + (m % 20 + 9) / 20)
}

} // verus!
