use seed_gen::cli::{NumberOrString, SeedIter, Seeds};

fn drain(seeds: &Seeds, limit: usize) -> Vec<u64> {
    let mut it = seeds.iter();
    let mut out = Vec::new();
    while out.len() < limit {
        match it.next() {
            Some(seed) => out.push(seed),
            None => break,
        }
    }
    out
}

#[test]
fn single_number_yields_that_number() {
    let seeds = Seeds::Single { seed: NumberOrString::Number(42) };
    assert_eq!(drain(&seeds, 10), vec![42]);
}

#[test]
fn single_number_at_the_ends_of_the_space() {
    let low = Seeds::Single { seed: NumberOrString::Number(0) };
    assert_eq!(drain(&low, 10), vec![0]);
    let high = Seeds::Single { seed: NumberOrString::Number(u64::MAX) };
    assert_eq!(drain(&high, 10), vec![u64::MAX]);
}

#[test]
fn single_label_yields_its_hash() {
    let seeds = Seeds::Single { seed: NumberOrString::Str("to be or not to be".to_string()) };
    assert_eq!(drain(&seeds, 10), vec![1988685042348123509]);
}

#[test]
fn single_label_agrees_with_seahash() {
    for label in ["", "a", "hello", "seed-label", "1e3", "ünïcödé", "-1"] {
        let seeds = Seeds::Single { seed: NumberOrString::Str(label.to_string()) };
        assert_eq!(drain(&seeds, 10), vec![seahash::hash(label.as_bytes())]);
    }
}

#[test]
fn single_label_is_stable() {
    let a = Seeds::Single { seed: NumberOrString::Str("hello".to_string()) };
    let b = Seeds::Single { seed: NumberOrString::Str("hello".to_string()) };
    assert_eq!(drain(&a, 10), drain(&b, 10));
    assert_eq!(drain(&a, 10), drain(&a, 10));
    assert_eq!(drain(&a, 10).len(), 1);
}

#[test]
fn label_of_digits_is_hashed_not_read() {
    let seeds = Seeds::Single { seed: NumberOrString::Str("42".to_string()) };
    assert_eq!(drain(&seeds, 10), vec![seahash::hash(b"42")]);
    assert_ne!(drain(&seeds, 10), vec![42]);
}

#[test]
fn range_of_one() {
    let seeds = Seeds::Range { min: 5, max: 5, step: None };
    assert_eq!(drain(&seeds, 10), vec![5]);
}

#[test]
fn range_with_step_three() {
    let seeds = Seeds::Range { min: 0, max: 10, step: Some(3) };
    assert_eq!(drain(&seeds, 100), vec![0, 3, 6, 9]);
}

#[test]
fn range_default_step_is_one() {
    let seeds = Seeds::Range { min: 3, max: 7, step: None };
    assert_eq!(drain(&seeds, 100), vec![3, 4, 5, 6, 7]);
}

#[test]
fn range_that_ends_on_max() {
    let seeds = Seeds::Range { min: 1, max: 10, step: Some(3) };
    assert_eq!(drain(&seeds, 100), vec![1, 4, 7, 10]);
}

#[test]
fn range_length_and_values() {
    let (min, max, step) = (10u64, 100u64, 7u64);
    let seeds = Seeds::Range { min, max, step: Some(step) };
    let got = drain(&seeds, 1000);
    assert_eq!(got.len() as u64, (max - min) / step + 1);
    assert_eq!(got.len(), 13);
    for (i, seed) in got.iter().enumerate() {
        assert_eq!(*seed, min + (i as u64) * step);
    }
    for pair in got.windows(2) {
        assert!(pair[0] < pair[1]);
    }
    let last = *got.last().unwrap();
    assert_eq!(last, 94);
    assert!(last <= max && max - last < step);
}

#[test]
fn range_step_larger_than_span() {
    let seeds = Seeds::Range { min: 2, max: 9, step: Some(100) };
    assert_eq!(drain(&seeds, 100), vec![2]);
}

#[test]
fn range_near_the_top_does_not_overflow() {
    let seeds = Seeds::Range { min: u64::MAX - 5, max: u64::MAX, step: Some(4) };
    assert_eq!(drain(&seeds, 100), vec![u64::MAX - 5, u64::MAX - 1]);
    let seeds = Seeds::Range { min: 1, max: u64::MAX, step: Some(u64::MAX) };
    assert_eq!(drain(&seeds, 100), vec![1]);
    let seeds = Seeds::Range { min: 0, max: u64::MAX, step: Some(u64::MAX) };
    assert_eq!(drain(&seeds, 100), vec![0, u64::MAX]);
}

#[test]
fn range_reversed_yields_min_once() {
    let seeds = Seeds::Range { min: 9, max: 3, step: Some(2) };
    assert_eq!(drain(&seeds, 100), vec![9]);
}

#[test]
fn range_step_zero_on_one_value() {
    let seeds = Seeds::Range { min: 5, max: 5, step: Some(0) };
    assert_eq!(drain(&seeds, 100), vec![5]);
}

#[test]
fn range_step_zero_never_moves() {
    let seeds = Seeds::Range { min: 5, max: 6, step: Some(0) };
    assert_eq!(drain(&seeds, 6), vec![5, 5, 5, 5, 5, 5]);
}

#[test]
fn random_five_yields_five() {
    let seeds = Seeds::Random { count: Some(5) };
    assert_eq!(drain(&seeds, 100).len(), 5);
}

#[test]
fn random_default_yields_one() {
    let seeds = Seeds::Random { count: None };
    assert_eq!(drain(&seeds, 100).len(), 1);
}

#[test]
fn random_zero_yields_nothing() {
    let seeds = Seeds::Random { count: Some(0) };
    assert_eq!(drain(&seeds, 100).len(), 0);
}

#[test]
fn random_seeds_are_not_the_counters() {
    let seeds = Seeds::Random { count: Some(64) };
    let got = drain(&seeds, 100);
    assert_eq!(got.len(), 64);
    let counters: Vec<u64> = (1..=64).collect();
    assert_ne!(got, counters);
}

#[test]
fn full_begins_at_zero() {
    assert_eq!(drain(&Seeds::Full, 5), vec![0, 1, 2, 3, 4]);
}

#[test]
fn full_ends_at_the_top() {
    let mut it = SeedIter::new(u64::MAX - 2, u64::MAX, 1, false);
    assert_eq!(it.next(), Some(u64::MAX - 2));
    assert_eq!(it.next(), Some(u64::MAX - 1));
    assert_eq!(it.next(), Some(u64::MAX));
    assert_eq!(it.next(), None);
    assert_eq!(it.next(), None);
}

#[test]
fn exhausted_stays_exhausted() {
    let mut it = Seeds::Range { min: 1, max: 2, step: None }.iter();
    assert_eq!(it.next(), Some(1));
    assert_eq!(it.next(), Some(2));
    for _ in 0..10 {
        assert_eq!(it.next(), None);
    }
    assert_eq!(it.take(3), Vec::<u64>::new());
}

#[test]
fn same_parameters_same_sequence() {
    let modes = [
        Seeds::Single { seed: NumberOrString::Number(7) },
        Seeds::Single { seed: NumberOrString::Str("label".to_string()) },
        Seeds::Range { min: 4, max: 40, step: Some(5) },
        Seeds::Range { min: 4, max: 9, step: None },
        Seeds::Full,
    ];
    for mode in modes.iter() {
        let again = mode.clone();
        assert_eq!(drain(mode, 50), drain(&again, 50));
        assert_eq!(drain(mode, 50), drain(mode, 50));
    }
}

#[test]
fn new_starts_at_current() {
    let mut it = SeedIter::new(3, 9, 3, false);
    assert_eq!(it.next(), Some(3));
    assert_eq!(it.next(), Some(6));
    assert_eq!(it.next(), Some(9));
    assert_eq!(it.next(), None);
}

#[test]
fn next_with_ignores_the_draw_unless_random() {
    let mut it = SeedIter::new(3, 4, 1, false);
    assert_eq!(it.next_with(99), Some(3));
    assert_eq!(it.next_with(98), Some(4));
    assert_eq!(it.next_with(97), None);
}

#[test]
fn next_with_yields_the_draw_when_random() {
    let mut it = SeedIter::new(1, 3, 1, true);
    assert_eq!(it.next_with(99), Some(99));
    assert_eq!(it.next_with(5), Some(5));
    assert_eq!(it.next_with(0), Some(0));
    assert_eq!(it.next_with(1), None);
    assert_eq!(it.next(), None);
}

#[test]
fn take_stops_at_the_limit_and_goes_on() {
    let mut it = Seeds::Range { min: 0, max: 10, step: Some(3) }.iter();
    assert_eq!(it.take(0), Vec::<u64>::new());
    assert_eq!(it.take(3), vec![0, 3, 6]);
    assert_eq!(it.take(3), vec![9]);
    assert_eq!(it.take(3), Vec::<u64>::new());
}

#[test]
fn take_counts_random_seeds() {
    let mut it = Seeds::Random { count: Some(5) }.iter();
    assert_eq!(it.take(2).len(), 2);
    assert_eq!(it.take(10).len(), 3);
    assert_eq!(it.next(), None);
}
