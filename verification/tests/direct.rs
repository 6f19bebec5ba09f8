use std::collections::VecDeque;

use loudness_history::history::History;
use loudness_history::samples::Samples;
use loudness_history::scale::{Scale, BUCKETS};

fn boundary(i: usize) -> f64 {
    f64::powf(10.0, (i as f64 / 10.0 - 70.0 + 0.691) / 10.0)
}

fn energy(i: usize) -> f64 {
    f64::powf(10.0, (i as f64 / 10.0 - 69.95 + 0.691) / 10.0)
}

fn scale() -> Scale {
    let boundaries = (0..=BUCKETS).map(|i| boundary(i).to_bits()).collect();
    let energies = (0..BUCKETS).map(|i| energy(i).to_bits()).collect();
    Scale::new(boundaries, energies).expect("the tables of the scale")
}

fn energy_to_loudness(energy: f64) -> f64 {
    10.0 * energy.log10() - 0.691
}

// The statistics through the library.

fn mean(samples: &Samples) -> f64 {
    let mut sum = 0.0;
    for group in &samples.groups {
        let mut part = 0.0;
        for term in group {
            part += term.count as f64 * f64::from_bits(term.energy);
        }
        sum += part;
    }
    sum / samples.count as f64
}

fn relative_threshold(history: &History, scale: &Scale) -> f64 {
    match history.relative_threshold(scale) {
        None => -70.0,
        Some(all) => energy_to_loudness(mean(&all) * f64::powf(10.0, -10.0 / 10.0)),
    }
}

fn gated_loudness_multiple(s: &[&History], scale: &Scale) -> f64 {
    let all = match History::relative_threshold_multiple(s, scale) {
        None => return f64::NEG_INFINITY,
        Some(all) => all,
    };
    let threshold = mean(&all) * f64::powf(10.0, -10.0 / 10.0);
    match History::gated_loudness_multiple(s, scale, threshold.to_bits()) {
        None => f64::NEG_INFINITY,
        Some(gated) => energy_to_loudness(mean(&gated)),
    }
}

fn loudness_range_multiple(s: &[&History], scale: &Scale) -> Option<f64> {
    let combined = History::loudness_range_multiple(s).ok()?;
    let all = match combined.samples(scale) {
        None => return Some(0.0),
        Some(all) => all,
    };
    let integrated = f64::powf(10.0, -20.0 / 10.0) * mean(&all);
    Some(match combined.loudness_range(scale, integrated.to_bits()) {
        None => 0.0,
        Some(p) => {
            energy_to_loudness(f64::from_bits(p.high)) - energy_to_loudness(f64::from_bits(p.low))
        }
    })
}

// The same statistics computed in doubles throughout.

enum Direct {
    Histogram(Vec<u64>),
    Queue(VecDeque<f64>, usize),
}

fn find_index(energy: f64) -> usize {
    let mut min = 0;
    let mut max = 1000;
    loop {
        let mid = (min + max) / 2;
        if energy >= boundary(mid) {
            min = mid;
        } else {
            max = mid;
        }
        if max - min == 1 {
            break;
        }
    }
    min
}

fn first_index(threshold: f64) -> usize {
    if threshold < boundary(0) {
        0
    } else {
        let index = find_index(threshold);
        if threshold > energy(index) {
            index + 1
        } else {
            index
        }
    }
}

impl Direct {
    fn new(use_histogram: bool, max: usize) -> Direct {
        if use_histogram {
            Direct::Histogram(vec![0; 1000])
        } else {
            Direct::Queue(VecDeque::new(), max)
        }
    }

    fn add(&mut self, e: f64) {
        if e < boundary(0) {
            return;
        }
        match self {
            Direct::Histogram(counts) => counts[find_index(e)] += 1,
            Direct::Queue(queue, max) => {
                if queue.len() >= *max {
                    queue.pop_front();
                }
                queue.push_back(e);
            }
        }
    }

    fn set_max_size(&mut self, new: usize) {
        if let Direct::Queue(queue, max) = self {
            if queue.len() < new {
                queue.resize(new, 0.0);
            }
            *max = new;
        }
    }

    fn totals(&self) -> (u64, f64) {
        match self {
            Direct::Histogram(counts) => {
                let mut count = 0;
                let mut sum = 0.0;
                for (i, c) in counts.iter().enumerate() {
                    sum += *c as f64 * energy(i);
                    count += *c;
                }
                (count, sum)
            }
            Direct::Queue(queue, _) => (queue.len() as u64, queue.iter().sum::<f64>()),
        }
    }

    fn relative_threshold(&self) -> f64 {
        let (count, sum) = self.totals();
        if count == 0 {
            return -70.0;
        }
        energy_to_loudness((sum / count as f64) * f64::powf(10.0, -10.0 / 10.0))
    }

    fn gated_loudness_multiple(s: &[&Direct]) -> f64 {
        let mut count = 0;
        let mut sum = 0.0;
        for h in s {
            let (c, e) = h.totals();
            count += c;
            sum += e;
        }
        if count == 0 {
            return f64::NEG_INFINITY;
        }
        let threshold = (sum / count as f64) * f64::powf(10.0, -10.0 / 10.0);
        let start = first_index(threshold);
        let mut count = 0u64;
        let mut sum = 0.0;
        for h in s {
            match h {
                Direct::Histogram(counts) => {
                    for i in start..1000 {
                        sum += counts[i] as f64 * energy(i);
                        count += counts[i];
                    }
                }
                Direct::Queue(queue, _) => {
                    for v in queue.iter() {
                        if *v >= threshold {
                            count += 1;
                            sum += *v;
                        }
                    }
                }
            }
        }
        if count == 0 {
            return f64::NEG_INFINITY;
        }
        energy_to_loudness(sum / count as f64)
    }

    fn histogram_range(h: &[u64]) -> f64 {
        let mut size = 0;
        let mut power = 0.0;
        for (i, c) in h.iter().enumerate() {
            size += *c;
            power += *c as f64 * energy(i);
        }
        if size == 0 {
            return 0.0;
        }
        power /= size as f64;
        let integrated = f64::powf(10.0, -20.0 / 10.0) * power;
        let index = first_index(integrated);
        let size = h[index..].iter().sum::<u64>();
        if size == 0 {
            return 0.0;
        }
        let low = ((size - 1) as f64 * 0.1 + 0.5) as u64;
        let high = ((size - 1) as f64 * 0.95 + 0.5) as u64;
        let mut j = index;
        let mut size = 0;
        while size <= low {
            size += h[j];
            j += 1;
        }
        let l_en = energy(j - 1);
        while size <= high {
            size += h[j];
            j += 1;
        }
        let h_en = energy(j - 1);
        energy_to_loudness(h_en) - energy_to_loudness(l_en)
    }

    fn queue_range(q: &[f64]) -> f64 {
        if q.is_empty() {
            return 0.0;
        }
        let power = q.iter().sum::<f64>() / q.len() as f64;
        let integrated = f64::powf(10.0, -20.0 / 10.0) * power;
        let mut first = 0;
        let mut size = q.len();
        while size > 0 && q[first] < integrated {
            first += 1;
            size -= 1;
        }
        if size > 0 {
            let h_en = q[first + ((size - 1) as f64 * 0.95 + 0.5) as usize];
            let l_en = q[first + ((size - 1) as f64 * 0.1 + 0.5) as usize];
            energy_to_loudness(h_en) - energy_to_loudness(l_en)
        } else {
            0.0
        }
    }

    fn loudness_range_multiple(s: &[&Direct]) -> Option<f64> {
        if s.is_empty() {
            return Some(0.0);
        }
        match s[0] {
            Direct::Histogram(_) => {
                let mut combined = vec![0u64; 1000];
                for h in s {
                    match h {
                        Direct::Histogram(counts) => {
                            for (i, o) in counts.iter().zip(combined.iter_mut()) {
                                *o += *i;
                            }
                        }
                        Direct::Queue(..) => return None,
                    }
                }
                Some(Direct::histogram_range(&combined))
            }
            Direct::Queue(..) => {
                let mut combined = Vec::new();
                for h in s {
                    match h {
                        Direct::Queue(queue, _) => combined.extend(queue.iter().copied()),
                        Direct::Histogram(_) => return None,
                    }
                }
                combined.sort_unstable_by(|a, b| a.partial_cmp(b).expect("no energy is NaN"));
                Some(Direct::queue_range(&combined))
            }
        }
    }
}

// A small generator of numbers that look random.
struct Numbers(u64);

impl Numbers {
    fn next(&mut self) -> u64 {
        self.0 = self.0.wrapping_mul(6364136223846793005).wrapping_add(1442695040888963407);
        self.0 >> 11
    }

    fn unit(&mut self) -> f64 {
        self.next() as f64 / (1u64 << 53) as f64
    }

    fn energy(&mut self) -> f64 {
        match self.next() % 4 {
            0 => -5.0 + 1205.0 * self.unit(),
            1 => f64::powf(10.0, -9.0 + 10.0 * self.unit()),
            2 => energy((self.next() % 1000) as usize),
            _ => boundary((self.next() % 1001) as usize),
        }
    }
}

fn same(a: f64, b: f64) -> bool {
    a.to_bits() == b.to_bits()
}

fn pair(use_histogram: bool, max: usize, scale: &Scale, numbers: &mut Numbers) -> (History, Direct) {
    let mut history = History::new(use_histogram, max);
    let mut direct = Direct::new(use_histogram, max);
    let n = numbers.next() % 300;
    for _ in 0..n {
        let e = numbers.energy();
        history.add(scale, e.to_bits());
        direct.add(e);
        if numbers.next() % 97 == 0 {
            let new = (numbers.next() % 400) as usize;
            history.set_max_size(new);
            direct.set_max_size(new);
        }
    }
    (history, direct)
}

#[test]
fn one_history_agrees_with_the_computation_in_doubles() {
    let scale = scale();
    let mut numbers = Numbers(2011);
    for round in 0..400 {
        let use_histogram = round % 2 == 0;
        let max = (numbers.next() % 200) as usize;
        let (history, direct) = pair(use_histogram, max, &scale, &mut numbers);
        assert!(same(relative_threshold(&history, &scale), direct.relative_threshold()));
        assert!(same(
            gated_loudness_multiple(&[&history], &scale),
            Direct::gated_loudness_multiple(&[&direct])
        ));
        let range = loudness_range_multiple(&[&history], &scale).expect("one kind");
        let expected = Direct::loudness_range_multiple(&[&direct]).expect("one kind");
        assert!(same(range, expected));
    }
}

#[test]
fn several_histories_agree_with_the_computation_in_doubles() {
    let scale = scale();
    let mut numbers = Numbers(2020);
    for _ in 0..200 {
        let n = 1 + numbers.next() % 4;
        let mut histories = Vec::new();
        let mut directs = Vec::new();
        for _ in 0..n {
            let use_histogram = numbers.next() % 2 == 0;
            let max = (numbers.next() % 100) as usize;
            let (history, direct) = pair(use_histogram, max, &scale, &mut numbers);
            histories.push(history);
            directs.push(direct);
        }
        let s: Vec<&History> = histories.iter().collect();
        let d: Vec<&Direct> = directs.iter().collect();
        assert!(same(gated_loudness_multiple(&s, &scale), Direct::gated_loudness_multiple(&d)));
        match (loudness_range_multiple(&s, &scale), Direct::loudness_range_multiple(&d)) {
            (Some(range), Some(expected)) => assert!(same(range, expected)),
            (None, None) => (),
            _ => panic!("one refuses what the other takes"),
        }
    }
}

#[test]
fn histories_of_one_kind_agree_with_the_computation_in_doubles() {
    let scale = scale();
    let mut numbers = Numbers(1770);
    for round in 0..200 {
        let use_histogram = round % 2 == 0;
        let n = 2 + numbers.next() % 3;
        let mut histories = Vec::new();
        let mut directs = Vec::new();
        for _ in 0..n {
            let max = 1 + (numbers.next() % 100) as usize;
            let (history, direct) = pair(use_histogram, max, &scale, &mut numbers);
            histories.push(history);
            directs.push(direct);
        }
        let s: Vec<&History> = histories.iter().collect();
        let d: Vec<&Direct> = directs.iter().collect();
        let range = loudness_range_multiple(&s, &scale).expect("one kind");
        let expected = Direct::loudness_range_multiple(&d).expect("one kind");
        assert!(same(range, expected));
        assert!(same(gated_loudness_multiple(&s, &scale), Direct::gated_loudness_multiple(&d)));
    }
}
