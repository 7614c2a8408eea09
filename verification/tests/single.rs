use std::collections::HashMap;

use rand::rngs::StdRng;
use rand::SeedableRng;
use rand_distr::{Distribution, Exp1};
use wswor::{KeySource, SingleStreamingWs};

/// A source that ranks a weight by an Exponential(1) draw divided by it.
fn exp_keys(rng: &mut StdRng) -> KeySource<impl FnMut(u64) -> u64 + '_> {
    KeySource::new(move |weight: u64| {
        let draw: f64 = Exp1.sample(rng);
        (draw / f64::from_bits(weight)).to_bits()
    })
}

fn tally<K: std::hash::Hash + Eq>(counts: &HashMap<K, usize>, item: K) -> usize {
    *counts.get(&item).unwrap_or(&0)
}

/// Feeds 3 items: one value is there to look at and to take.
#[test]
fn test_single_streaming_ws_basic() {
    let mut rng = StdRng::seed_from_u64(42);
    let mut source = exp_keys(&mut rng);
    let mut sampler: SingleStreamingWs<i32> = SingleStreamingWs::new();

    sampler.feed(1, 1.0f64.to_bits(), &mut source).unwrap();
    sampler.feed(2, 2.0f64.to_bits(), &mut source).unwrap();
    sampler.feed(3, 3.0f64.to_bits(), &mut source).unwrap();

    let result = sampler.get();
    assert!(result.is_some());

    let taken = sampler.take();
    assert!(taken.is_some());
}

/// A sampler that was fed nothing holds nothing.
#[test]
fn test_single_streaming_ws_empty() {
    let sampler: SingleStreamingWs<i32> = SingleStreamingWs::new();

    assert!(sampler.get().is_none());
    assert!(sampler.take().is_none());
}

/// Negative weights, NaN and infinity are errors.
#[test]
fn test_single_streaming_ws_invalid_weights() {
    let mut rng = StdRng::seed_from_u64(42);
    let mut source = exp_keys(&mut rng);
    let mut sampler: SingleStreamingWs<i32> = SingleStreamingWs::new();

    assert!(sampler.feed(1, (-1.0f64).to_bits(), &mut source).is_err());
    assert!(sampler.feed(2, f64::NAN.to_bits(), &mut source).is_err());
    assert!(sampler.feed(3, f64::INFINITY.to_bits(), &mut source).is_err());
}

/// Feeds 3 items at once: a value is held.
#[test]
fn test_single_streaming_ws_feed_iter() {
    let mut rng = StdRng::seed_from_u64(42);
    let mut source = exp_keys(&mut rng);
    let mut sampler: SingleStreamingWs<i32> = SingleStreamingWs::new();

    let items = vec![(1.0f64.to_bits(), 1), (2.0f64.to_bits(), 2), (3.0f64.to_bits(), 3)];
    sampler.feed_iter(items, &mut source).unwrap();

    assert!(sampler.get().is_some());
}

/// Batch feeding reports a rejected weight.
#[test]
fn test_single_streaming_ws_feed_iter_invalid_weight() {
    let mut rng = StdRng::seed_from_u64(42);
    let mut source = exp_keys(&mut rng);
    let mut sampler: SingleStreamingWs<i32> = SingleStreamingWs::new();

    let items = vec![(1.0f64.to_bits(), 1), ((-1.0f64).to_bits(), 2)];
    assert!(sampler.feed_iter(items, &mut source).is_err());
}

/// Over 1000 trials the item of weight 9 is selected far more often than
/// the item of weight 1.
#[test]
fn test_single_streaming_ws_weighted_distribution() {
    let mut rng = StdRng::seed_from_u64(42);
    let mut source = exp_keys(&mut rng);
    let mut counts: HashMap<i32, usize> = HashMap::new();

    for _ in 0..1000 {
        let mut sampler: SingleStreamingWs<i32> = SingleStreamingWs::new();
        sampler.feed(1, 1.0f64.to_bits(), &mut source).unwrap();
        sampler.feed(2, 9.0f64.to_bits(), &mut source).unwrap();

        let result = sampler.take().unwrap();
        *counts.entry(result).or_insert(0) += 1;
    }

    let count_1 = tally(&counts, 1);
    let count_2 = tally(&counts, 2);

    assert!(count_2 > count_1 * 3);
}

/// Items with weights 1:2:3:4 are selected in those proportions over
/// 10,000 trials, by a chi-square test at the 0.01 level.
#[test]
fn test_single_streaming_proportionality() {
    let mut rng = StdRng::seed_from_u64(12345);
    let mut source = exp_keys(&mut rng);
    let mut counts: HashMap<char, usize> = HashMap::new();
    let trials: usize = 10000;

    let items = vec![(1.0f64, 'A'), (2.0, 'B'), (3.0, 'C'), (4.0, 'D')];
    let expected_probs = vec![0.1f64, 0.2, 0.3, 0.4];

    for _ in 0..trials {
        let mut sampler: SingleStreamingWs<char> = SingleStreamingWs::new();
        for (weight, value) in items.iter() {
            sampler.feed(*value, weight.to_bits(), &mut source).unwrap();
        }
        let result = sampler.take().unwrap();
        *counts.entry(result).or_insert(0) += 1;
    }

    let mut chi_square = 0.0f64;
    for (i, &item) in ['A', 'B', 'C', 'D'].iter().enumerate() {
        let observed = tally(&counts, item) as f64;
        let expected = trials as f64 * expected_probs[i];
        chi_square += (observed - expected).powi(2) / expected;
    }

    assert!(chi_square < 11.345, "Chi-square value {} exceeds critical value", chi_square);
}

/// With weights 1 and 1000 the heavy item is selected over 90% of the time
/// and over 100 times as often as the light one.
#[test]
fn test_single_streaming_extreme_weights() {
    let mut rng = StdRng::seed_from_u64(54321);
    let mut source = exp_keys(&mut rng);
    let mut counts: HashMap<char, usize> = HashMap::new();
    let trials: usize = 5000;

    for _ in 0..trials {
        let mut sampler: SingleStreamingWs<char> = SingleStreamingWs::new();
        sampler.feed('A', 1.0f64.to_bits(), &mut source).unwrap();
        sampler.feed('B', 1000.0f64.to_bits(), &mut source).unwrap();

        let result = sampler.take().unwrap();
        *counts.entry(result).or_insert(0) += 1;
    }

    let count_a = tally(&counts, 'A');
    let count_b = tally(&counts, 'B');

    assert!(count_b as f64 / trials as f64 > 0.9);
    assert!(count_b > count_a * 100);
}

/// With equal weights each of 8 items is selected about 1/8 of the time.
#[test]
fn test_single_streaming_uniform_distribution() {
    let mut rng = StdRng::seed_from_u64(98765);
    let mut source = exp_keys(&mut rng);
    let mut counts: HashMap<i32, usize> = HashMap::new();
    let trials: usize = 8000;

    for _ in 0..trials {
        let mut sampler: SingleStreamingWs<i32> = SingleStreamingWs::new();
        for i in 1..=8 {
            sampler.feed(i, 1.0f64.to_bits(), &mut source).unwrap();
        }

        let result = sampler.take().unwrap();
        *counts.entry(result).or_insert(0) += 1;
    }

    let expected = trials / 8;
    for i in 1..=8 {
        let count = tally(&counts, i);
        let deviation = (count as i32 - expected as i32).abs();
        assert!(
            deviation < 200,
            "Item {} count {} deviates too much from expected {}",
            i,
            count,
            expected
        );
    }
}

/// Zero-weight items are almost never selected, and the others keep their
/// 2:1 ratio.
#[test]
fn test_single_streaming_zero_weight_mixed() {
    let mut rng = StdRng::seed_from_u64(13579);
    let mut source = exp_keys(&mut rng);
    let mut counts: HashMap<char, usize> = HashMap::new();
    let trials: usize = 3000;

    for _ in 0..trials {
        let mut sampler: SingleStreamingWs<char> = SingleStreamingWs::new();
        sampler.feed('A', 0.0f64.to_bits(), &mut source).unwrap();
        sampler.feed('B', 0.0f64.to_bits(), &mut source).unwrap();
        sampler.feed('C', 1.0f64.to_bits(), &mut source).unwrap();
        sampler.feed('D', 2.0f64.to_bits(), &mut source).unwrap();

        let result = sampler.take().unwrap();
        *counts.entry(result).or_insert(0) += 1;
    }

    let count_a = tally(&counts, 'A');
    let count_b = tally(&counts, 'B');
    let count_c = tally(&counts, 'C');
    let count_d = tally(&counts, 'D');

    assert!(count_a < trials / 100);
    assert!(count_b < trials / 100);

    assert!((count_d as f64) / (count_c as f64) > 1.5);
    assert!((count_d as f64) / (count_c as f64) < 2.5);
}
