use loudness_history::histogram::Histogram;
use loudness_history::samples::{Percentiles, Term};
use loudness_history::scale::{Scale, BUCKETS};

fn boundary(i: usize) -> f64 {
    f64::powf(10.0, (i as f64 / 10.0 - 70.0 + 0.691) / 10.0)
}

fn energy(i: usize) -> f64 {
    f64::powf(10.0, (i as f64 / 10.0 - 69.95 + 0.691) / 10.0)
}

fn scale() -> Scale {
    let boundaries = (0..=BUCKETS).map(|i| boundary(i).to_bits()).collect();
    let energies = (0..BUCKETS).map(|i| energy(i).to_bits()).collect();
    Scale::new(boundaries, energies).expect("the tables of the scale")
}

fn counts_of(filled: &[(usize, u128)]) -> Vec<u128> {
    let mut counts = vec![0u128; BUCKETS];
    for (index, count) in filled {
        counts[*index] = *count;
    }
    counts
}

fn range_of(filled: &[(usize, u128)], scale: &Scale, integrated: f64) -> Option<(usize, usize)> {
    let counts = counts_of(filled);
    Histogram::loudness_range(&counts, scale, integrated.to_bits()).map(|p| {
        (scale.find_histogram_index(p.low), scale.find_histogram_index(p.high))
    })
}

#[test]
fn a_new_histogram_has_counted_nothing() {
    let histogram = Histogram::new();
    assert_eq!(histogram.len(), 0);
    for i in 0..BUCKETS {
        assert_eq!(histogram.bucket_count(i), 0);
    }
}

#[test]
fn histogram_counts_an_energy_in_its_bucket() {
    let scale = scale();
    let mut histogram = Histogram::new();
    histogram.add(&scale, 0.01f64.to_bits());
    histogram.add(&scale, 0.01f64.to_bits());
    histogram.add(&scale, 1.0f64.to_bits());
    assert_eq!(histogram.len(), 3);
    for i in 0..BUCKETS {
        let expected = match i {
            493 => 2,
            693 => 1,
            _ => 0,
        };
        assert_eq!(histogram.bucket_count(i), expected);
    }
}

#[test]
fn histogram_counts_at_the_two_ends() {
    let scale = scale();
    let mut histogram = Histogram::new();
    histogram.add(&scale, boundary(0).to_bits());
    histogram.add(&scale, 1.0e9f64.to_bits());
    assert_eq!(histogram.bucket_count(0), 1);
    assert_eq!(histogram.bucket_count(BUCKETS - 1), 1);
    assert_eq!(histogram.len(), 2);
}

#[test]
fn append_from_lists_the_buckets_from_an_index_on() {
    let scale = scale();
    let mut histogram = Histogram::new();
    for _ in 0..3 {
        histogram.add(&scale, energy(997).to_bits());
    }
    histogram.add(&scale, energy(999).to_bits());
    histogram.add(&scale, energy(5).to_bits());
    let mut terms = vec![Term { count: 9, energy: 9 }];
    let count = histogram.append_from(&scale, 996, &mut terms);
    assert_eq!(count, 4);
    assert_eq!(
        terms,
        vec![
            Term { count: 9, energy: 9 },
            Term { count: 0, energy: energy(996).to_bits() },
            Term { count: 3, energy: energy(997).to_bits() },
            Term { count: 0, energy: energy(998).to_bits() },
            Term { count: 1, energy: energy(999).to_bits() },
        ]
    );
    let mut none = Vec::new();
    assert_eq!(histogram.append_from(&scale, BUCKETS, &mut none), 0);
    assert!(none.is_empty());
    let mut all = Vec::new();
    assert_eq!(histogram.append_from(&scale, 0, &mut all), 5);
    assert_eq!(all.len(), BUCKETS);
    assert_eq!(all[5], Term { count: 1, energy: energy(5).to_bits() });
}

#[test]
fn all_terms_lists_every_bucket() {
    let scale = scale();
    let counts = counts_of(&[(0, 4), (500, 1u128 << 100), (999, 2)]);
    let (size, terms) = Histogram::all_terms(&counts, &scale);
    assert_eq!(size, (1u128 << 100) + 6);
    assert_eq!(terms.len(), BUCKETS);
    for (i, term) in terms.iter().enumerate() {
        assert_eq!(term.count, counts[i]);
        assert_eq!(term.energy, energy(i).to_bits());
    }
}

#[test]
fn add_counts_to_adds_bucket_by_bucket() {
    let scale = scale();
    let mut histogram = Histogram::new();
    histogram.add(&scale, energy(10).to_bits());
    histogram.add(&scale, energy(20).to_bits());
    let mut combined = counts_of(&[(10, 5), (30, 7)]);
    histogram.add_counts_to(&mut combined);
    assert_eq!(combined, counts_of(&[(10, 6), (20, 1), (30, 7)]));
}

#[test]
fn histogram_range_of_nothing_is_none() {
    let scale = scale();
    assert_eq!(range_of(&[], &scale, 0.0), None);
    assert_eq!(range_of(&[(100, 3)], &scale, energy(101)), None);
    assert_eq!(range_of(&[(999, 3)], &scale, f64::INFINITY), None);
}

#[test]
fn histogram_range_of_one_bucket() {
    let scale = scale();
    assert_eq!(range_of(&[(100, 1)], &scale, 0.0), Some((100, 100)));
    assert_eq!(range_of(&[(100, 12345)], &scale, energy(100)), Some((100, 100)));
    let counts = counts_of(&[(100, 1)]);
    assert_eq!(
        Histogram::loudness_range(&counts, &scale, 0),
        Some(Percentiles { low: energy(100).to_bits(), high: energy(100).to_bits() })
    );
}

#[test]
fn histogram_range_walks_to_the_nearest_ranks() {
    let scale = scale();
    // 10 samples: ranks 1 and 9.
    assert_eq!(range_of(&[(100, 5), (200, 5)], &scale, 0.0), Some((100, 200)));
    assert_eq!(range_of(&[(100, 1), (200, 9)], &scale, 0.0), Some((200, 200)));
    assert_eq!(range_of(&[(100, 2), (200, 7), (300, 1)], &scale, 0.0), Some((100, 300)));
    assert_eq!(range_of(&[(100, 9), (200, 1)], &scale, 0.0), Some((100, 200)));
    // 100 samples: ranks 10 and 94.
    assert_eq!(range_of(&[(1, 10), (2, 84), (3, 6)], &scale, 0.0), Some((2, 3)));
    assert_eq!(range_of(&[(1, 11), (2, 83), (3, 6)], &scale, 0.0), Some((1, 3)));
    assert_eq!(range_of(&[(1, 11), (2, 84), (3, 5)], &scale, 0.0), Some((1, 2)));
    assert_eq!(range_of(&[(1, 10), (2, 85), (3, 5)], &scale, 0.0), Some((2, 2)));
    assert_eq!(range_of(&[(1, 10), (2, 84), (3, 5), (999, 1)], &scale, 0.0), Some((2, 3)));
}

#[test]
fn histogram_range_leaves_out_the_buckets_below_the_threshold() {
    let scale = scale();
    let filled = [(100, 50), (200, 5), (300, 5)];
    // 60 samples: ranks 6 and 56
    assert_eq!(range_of(&filled, &scale, 0.0), Some((100, 300)));
    assert_eq!(range_of(&filled, &scale, energy(100)), Some((100, 300)));
    // just above the energy of bucket 100: 10 samples are left
    assert_eq!(range_of(&filled, &scale, boundary(101)), Some((200, 300)));
    assert_eq!(range_of(&filled, &scale, energy(200)), Some((200, 300)));
    assert_eq!(range_of(&filled, &scale, boundary(201)), Some((300, 300)));
}

#[test]
fn histogram_range_of_counts_beyond_one_counter() {
    let scale = scale();
    let big = 1u128 << 100;
    assert_eq!(range_of(&[(7, big), (8, 18 * big), (9, big)], &scale, 0.0), Some((8, 8)));
    assert_eq!(range_of(&[(7, 2 * big + 1), (8, 17 * big), (9, big + 1)], &scale, 0.0), Some((7, 9)));
}
