//! The logarithmic scale of the histogram: bucket boundaries and the energy
//! that stands for each bucket.
use vstd::prelude::*;

verus! {

/// Number of buckets of the scale.
pub const BUCKETS: usize = 1000;

/// Keys from here on carry the sign bit: they stand for negative numbers,
/// which lie below every boundary.
pub const SIGN_BIT: u64 = 0x8000_0000_0000_0000;

/// Number of entries of `s` that lie below `bound`.
pub open spec fn count_below(s: Seq<u64>, bound: int) -> nat
    decreases s.len(),
{
    if s.len() == 0 {
        0
    } else {
        count_below(s.drop_last(), bound) + if s.last() < bound {
            1nat
        } else {
            0nat
        }
    }
}

/// `s` ascends, equal neighbours allowed.
pub open spec fn ascending(s: Seq<u64>) -> bool {
    forall|i: int, j: int| 0 <= i <= j < s.len() ==> s[i] <= s[j]
}

/// The tables of a scale: `BUCKETS + 1` boundaries and `BUCKETS` energies,
/// all of them keys of non-negative numbers, where the energy of a bucket
/// lies from its lower boundary up to, but not at, its upper one.
pub open spec fn valid_tables(boundaries: Seq<u64>, energies: Seq<u64>) -> bool {
    &&& boundaries.len() == BUCKETS + 1
    &&& energies.len() == BUCKETS
    &&& boundaries[BUCKETS as int] < SIGN_BIT
    &&& forall|i: int|
        0 <= i < BUCKETS ==> boundaries[i] <= #[trigger] energies[i] < boundaries[i + 1]
}

/// The two lookup tables, checked once when the scale is made and read-only
/// from there on.
pub struct Scale {
    boundaries: Vec<u64>,
    energies: Vec<u64>,
}

/// A split point of `s` at `bound` is the number of entries below `bound`.
pub proof fn lemma_count_below_is(s: Seq<u64>, bound: int, g: int)
    requires
        0 <= g <= s.len(),
        forall|i: int| 0 <= i < g ==> s[i] < bound,
        forall|i: int| g <= i < s.len() ==> s[i] >= bound,
    ensures
        count_below(s, bound) == g,
    decreases s.len(),
{
    if s.len() > 0 {
        let rest = s.drop_last();
        if g == s.len() {
            lemma_count_below_is(rest, bound, g - 1);
        } else {
            lemma_count_below_is(rest, bound, g);
        }
    }
}

/// In an ascending sequence the entries below `bound` come first.
pub proof fn lemma_count_below_splits(s: Seq<u64>, bound: int)
    requires
        ascending(s),
    ensures
        count_below(s, bound) <= s.len(),
        forall|i: int| 0 <= i < count_below(s, bound) ==> s[i] < bound,
        forall|i: int| count_below(s, bound) <= i < s.len() ==> s[i] >= bound,
    decreases s.len(),
{
    if s.len() > 0 {
        let rest = s.drop_last();
        lemma_count_below_splits(rest, bound);
        if s.last() < bound {
            assert(forall|i: int| 0 <= i < rest.len() ==> rest[i] < bound);
        }
        assert forall|i: int| 0 <= i < count_below(s, bound) implies s[i] < bound by {
            if i < rest.len() {
                assert(s[i] == rest[i]);
            }
        }
        assert forall|i: int| count_below(s, bound) <= i < s.len() implies s[i] >= bound by {
            if i < rest.len() {
                assert(s[i] == rest[i]);
            }
        }
    }
}

/// The count of the entries below a bound grows with the bound.
pub proof fn lemma_count_below_monotonic(s: Seq<u64>, low: int, high: int)
    requires
        low <= high,
    ensures
        count_below(s, low) <= count_below(s, high) <= s.len(),
    decreases s.len(),
{
    if s.len() > 0 {
        lemma_count_below_monotonic(s.drop_last(), low, high);
    }
}

/// No entry lies below zero.
pub proof fn lemma_count_below_zero(s: Seq<u64>)
    ensures
        count_below(s, 0) == 0,
    decreases s.len(),
{
    if s.len() > 0 {
        lemma_count_below_zero(s.drop_last());
    }
}

impl Scale {
    /// The boundaries of the buckets, lowest first.
    pub closed spec fn boundaries(&self) -> Seq<u64> {
        self.boundaries@
    }

    /// The energy that stands for each bucket.
    pub closed spec fn energies(&self) -> Seq<u64> {
        self.energies@
    }

    /// The tables are the tables of a scale.
    pub open spec fn wf(&self) -> bool {
        valid_tables(self.boundaries(), self.energies())
    }

    /// The lowest boundary: the absolute gate.
    pub open spec fn floor_spec(&self) -> u64 {
        self.boundaries()[0]
    }

    /// An energy that never enters the statistics: one below the lowest
    /// boundary, or a negative number.
    pub open spec fn below_floor(&self, energy: u64) -> bool {
        energy < self.boundaries()[0] || energy >= SIGN_BIT
    }

    /// The bucket of an energy: the highest bucket whose lower boundary is
    /// not above the energy, and the lowest bucket for an energy below all
    /// of them.
    pub open spec fn bucket_of(&self, energy: u64) -> int {
        count_below(self.boundaries().subrange(1, BUCKETS as int), energy + 1) as int
    }

    /// The first bucket whose energy is not below `threshold`: the number of
    /// buckets whose energy is below it.
    pub open spec fn gate_of(&self, threshold: u64) -> int {
        count_below(self.energies(), threshold as int) as int
    }

    /// Both tables ascend strictly, and each energy lies between the
    /// boundaries around it.
    pub proof fn lemma_tables_ascend(&self)
        requires
            self.wf(),
        ensures
            forall|i: int, j: int|
                0 <= i < j <= BUCKETS ==> self.boundaries()[i] < self.boundaries()[j],
            forall|i: int, j: int|
                0 <= i < j < BUCKETS ==> self.energies()[i] < self.energies()[j],
            forall|i: int, j: int|
                0 <= i <= j < BUCKETS ==> self.boundaries()[i] <= self.energies()[j],
            forall|i: int, j: int|
                0 <= i < j <= BUCKETS ==> self.energies()[i] < self.boundaries()[j],
    {
        let b = self.boundaries();
        let e = self.energies();
        assert forall|i: int, j: int| 0 <= i < j <= BUCKETS implies b[i] < b[j] by {
            Self::lemma_boundaries_step(b, e, i, j);
        }
    }

    proof fn lemma_boundaries_step(b: Seq<u64>, e: Seq<u64>, i: int, j: int)
        requires
            valid_tables(b, e),
            0 <= i < j <= BUCKETS,
        ensures
            b[i] < b[j],
        decreases j - i,
    {
        assert(b[j - 1] <= e[j - 1] < b[j]);
        if i < j - 1 {
            Self::lemma_boundaries_step(b, e, i, j - 1);
        }
    }

    /// The bucket of an energy is the one whose boundaries hold it; the
    /// lowest bucket also takes what lies below it, the highest what lies
    /// above.
    pub proof fn lemma_bucket_of(&self, energy: u64)
        requires
            self.wf(),
        ensures
            0 <= self.bucket_of(energy) < BUCKETS,
            self.bucket_of(energy) > 0 ==> self.boundaries()[self.bucket_of(energy)] <= energy,
            self.bucket_of(energy) < BUCKETS - 1 ==> energy < self.boundaries()[
                self.bucket_of(energy) + 1],
    {
        self.lemma_tables_ascend();
        let inner = self.boundaries().subrange(1, BUCKETS as int);
        lemma_count_below_splits(inner, energy + 1);
        let b = self.bucket_of(energy);
        if b > 0 {
            assert(inner[b - 1] < energy + 1);
        }
        if b < BUCKETS - 1 {
            assert(inner[b] >= energy + 1);
        }
    }

    /// A bucket whose boundaries hold the energy is the bucket of the energy.
    pub proof fn lemma_bucket_unique(&self, energy: u64, index: int)
        requires
            self.wf(),
            0 <= index < BUCKETS,
            index > 0 ==> self.boundaries()[index] <= energy,
            index < BUCKETS - 1 ==> energy < self.boundaries()[index + 1],
        ensures
            self.bucket_of(energy) == index,
    {
        self.lemma_tables_ascend();
        let inner = self.boundaries().subrange(1, BUCKETS as int);
        lemma_count_below_is(inner, energy + 1, index);
    }

    /// A higher energy never falls into a lower bucket.
    pub proof fn lemma_bucket_monotonic(&self, e1: u64, e2: u64)
        requires
            e1 <= e2,
        ensures
            self.bucket_of(e1) <= self.bucket_of(e2),
    {
        lemma_count_below_monotonic(
            self.boundaries().subrange(1, BUCKETS as int),
            e1 + 1,
            e2 + 1,
        );
    }

    /// The buckets from `gate_of` on are those whose energy is not below
    /// the threshold.
    pub proof fn lemma_gate_of(&self, threshold: u64)
        requires
            self.wf(),
        ensures
            0 <= self.gate_of(threshold) <= BUCKETS,
            forall|i: int| 0 <= i < self.gate_of(threshold) ==> self.energies()[i] < threshold,
            forall|i: int|
                self.gate_of(threshold) <= i < BUCKETS ==> self.energies()[i] >= threshold,
    {
        self.lemma_tables_ascend();
        lemma_count_below_splits(self.energies(), threshold as int);
    }

    /// Makes a scale of the two tables, if they are the tables of a scale.
    pub fn new(boundaries: Vec<u64>, energies: Vec<u64>) -> (scale: Option<Scale>)
        ensures
            scale is Some <==> valid_tables(boundaries@, energies@),
            scale matches Some(s) ==> s.boundaries() == boundaries@ && s.energies() == energies@,
    {
        if boundaries.len() != BUCKETS + 1 || energies.len() != BUCKETS {
            return None;
        }
        if boundaries[BUCKETS] >= SIGN_BIT {
            return None;
        }
        let mut i: usize = 0;
        while i < BUCKETS
            invariant
                i <= BUCKETS,
                boundaries.len() == BUCKETS + 1,
                energies.len() == BUCKETS,
                forall|k: int| 0 <= k < i ==> boundaries[k] <= #[trigger] energies[k] < boundaries[k + 1],
            decreases BUCKETS - i,
        {
            if !(boundaries[i] <= energies[i] && energies[i] < boundaries[i + 1]) {
                return None;
            }
            i += 1;
        }
        Some(Scale { boundaries, energies })
    }

    /// The lowest boundary: the absolute gate.
    pub fn floor(&self) -> (floor: u64)
        requires
            self.wf(),
        ensures
            floor == self.floor_spec(),
    {
        self.boundaries[0]
    }

    /// The lower boundary of bucket `index`, or for `index == BUCKETS` the
    /// upper boundary of the last bucket.
    pub fn boundary(&self, index: usize) -> (boundary: u64)
        requires
            self.wf(),
            index <= BUCKETS,
        ensures
            boundary == self.boundaries()[index as int],
    {
        self.boundaries[index]
    }

    /// The energy that stands for bucket `index`.
    pub fn energy(&self, index: usize) -> (energy: u64)
        requires
            self.wf(),
            index < BUCKETS,
        ensures
            energy == self.energies()[index as int],
    {
        self.energies[index]
    }

    /// Whether an energy never enters the statistics.
    pub fn is_below_floor(&self, energy: u64) -> (below: bool)
        requires
            self.wf(),
        ensures
            below == self.below_floor(energy),
    {
        energy < self.boundaries[0] || energy >= SIGN_BIT
    }

    /// Finds the bucket of an energy by binary search over the boundaries.
    pub fn find_histogram_index(&self, energy: u64) -> (index: usize)
        requires
            self.wf(),
        ensures
            index == self.bucket_of(energy),
            index < BUCKETS,
            self.boundaries()[0] <= energy < self.boundaries()[BUCKETS as int]
                ==> self.boundaries()[index as int] <= energy < self.boundaries()[index + 1],
    {
        let mut min: usize = 0;
        let mut max: usize = BUCKETS;
        loop
            invariant_except_break
                max - min >= 2,
            invariant
                self.wf(),
                min < max <= BUCKETS,
                min > 0 ==> self.boundaries()[min as int] <= energy,
                max < BUCKETS ==> energy < self.boundaries()[max as int],
            ensures
                max - min == 1,
            decreases max - min,
        {
            let mid: usize = (min + max) / 2;
            if energy >= self.boundaries[mid] {
                min = mid;
            } else {
                max = mid;
            }
            if max - min == 1 {
                break ;
            }
        }
        proof {
            self.lemma_bucket_unique(energy, min as int);
        }
        min
    }

    /// Finds the first bucket whose energy is not below `threshold`;
    /// `BUCKETS` if there is none.
    pub fn gate_index(&self, threshold: u64) -> (gate: usize)
        requires
            self.wf(),
        ensures
            gate == self.gate_of(threshold),
            gate <= BUCKETS,
            forall|i: int| 0 <= i < gate ==> self.energies()[i] < threshold,
            forall|i: int| gate <= i < BUCKETS ==> self.energies()[i] >= threshold,
    {
        proof {
            self.lemma_tables_ascend();
        }
        let gate: usize = if threshold < self.boundaries[0] {
            0
        } else {
            let index: usize = self.find_histogram_index(threshold);
            proof {
                self.lemma_bucket_of(threshold);
            }
            if threshold > self.energies[index] {
                index + 1
            } else {
                index
            }
        };
        proof {
            lemma_count_below_is(self.energies(), threshold as int, gate as int);
        }
        gate
    }
}

} // verus!
