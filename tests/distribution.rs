use rand::rngs::StdRng;
use rand::Rng;
use rand::SeedableRng;
use std::cell::Cell;
use weighted_probability_rs::{Alias, WeightedTuple};

fn build<T: Copy>(items: &[WeightedTuple<T>]) -> Alias<T> {
    match Alias::from_weighted_tuples(items) {
        Ok(t) => t,
        Err(e) => panic!("building failed: {}", e.message()),
    }
}

fn draw<T: Copy>(alias: &Alias<T>, rng: &mut impl Rng) -> T {
    let die: usize = rng.gen();
    let coin: u32 = rng.gen();
    alias.select(die, coin)
}

/// The chance of each value, in units of 1 / (len * total), read off the
/// slots through `select` alone: a coin of zero stays, the largest coin
/// falls through wherever a slot's chance is below one.
fn shares(alias: &Alias<usize>, values: usize, total: u64) -> Vec<u128> {
    let mut out = vec![0u128; values];
    for i in 0..alias.len() {
        let (p, q) = alias.probability(i);
        assert_eq!(total % q, 0);
        let stay = p as u128 * (total / q) as u128;
        let total = total as u128;
        out[alias.select(i, 0)] += stay;
        if stay < total {
            out[alias.select(i, u32::MAX)] += total - stay;
        }
    }
    out
}

#[test]
fn slot_count_matches_item_count() {
    for n in 1..20usize {
        let items: Vec<WeightedTuple<usize>> =
            (0..n).map(|i| WeightedTuple::new((i as u64 * 7) % 5 + 1, i)).collect();
        let alias = build(&items);
        assert_eq!(alias.len(), n);
    }
}

#[test]
fn scaled_weights_are_exact_fractions() {
    let alias = build(&[WeightedTuple::new(1, 0usize), WeightedTuple::new(2, 1usize)]);
    assert_eq!(alias.len(), 2);
    assert_eq!(alias.probability(0), (2, 3));
    assert_eq!(alias.probability(1), (1, 1));
    assert_eq!(shares(&alias, 2, 3), vec![2, 4]);
}

#[test]
fn chances_come_in_lowest_terms() {
    let alias = build(&[WeightedTuple::new(1, 0usize), WeightedTuple::new(3, 1usize)]);
    assert_eq!(alias.probability(0), (1, 2));
    assert_eq!(alias.probability(1), (1, 1));
    assert_eq!(shares(&alias, 2, 4), vec![2, 6]);
    let zero = build(&[WeightedTuple::new(0, 0usize), WeightedTuple::new(0, 1usize)]);
    assert_eq!(zero.probability(0), (1, 1));
}

#[test]
fn awkward_weights_split_without_rounding() {
    let weights = [1u64, 3, 3, 3];
    let items: Vec<WeightedTuple<usize>> =
        weights.iter().enumerate().map(|(i, &w)| WeightedTuple::new(w, i)).collect();
    let first = build(&items);
    let second = build(&items);
    for i in 0..4 {
        assert_eq!(first.probability(i), second.probability(i));
        assert_eq!(first.select(i, 0), second.select(i, 0));
        assert_eq!(first.select(i, u32::MAX), second.select(i, u32::MAX));
    }
    assert_eq!(shares(&first, 4, 10), vec![4, 12, 12, 12]);
}

#[test]
fn every_item_gets_its_exact_share() {
    let weights = [5u64, 0, 17, 1, 1, 9, 0, 33, 2];
    let items: Vec<WeightedTuple<usize>> =
        weights.iter().enumerate().map(|(i, &w)| WeightedTuple::new(w, i)).collect();
    let alias = build(&items);
    let n = weights.len() as u128;
    let total: u64 = weights.iter().sum();
    let expected: Vec<u128> = weights.iter().map(|&w| w as u128 * n).collect();
    assert_eq!(shares(&alias, weights.len(), total), expected);
}

#[test]
fn zero_weights_draw_each_item_alike() {
    let alias = build(&[
        WeightedTuple::new(0, 'a'),
        WeightedTuple::new(0, 'b'),
        WeightedTuple::new(0, 'c'),
    ]);
    assert_eq!(alias.len(), 3);
    let mut seen = Vec::new();
    for die in 0..3 {
        assert_eq!(alias.select(die, u32::MAX), alias.select(die, 0));
        seen.push(alias.select(die, 0));
    }
    seen.sort();
    assert_eq!(seen, vec!['a', 'b', 'c']);
}

#[test]
fn huge_weights_do_not_overflow() {
    let alias = build(&[
        WeightedTuple::new(u64::MAX - 1, 0usize),
        WeightedTuple::new(1, 1usize),
    ]);
    let n = 2u128;
    assert_eq!(shares(&alias, 2, u64::MAX), vec![(u64::MAX - 1) as u128 * n, n]);
}

#[test]
fn single_item_is_always_drawn() {
    for weight in [0u64, 1, 42, u64::MAX] {
        let alias = build(&[WeightedTuple::new(weight, "only")]);
        for die in [0usize, 1, 7, usize::MAX] {
            for coin in [0u32, 1, 1 << 31, u32::MAX] {
                assert_eq!(alias.select(die, coin), "only");
            }
        }
    }
}

#[test]
fn selected_callable_runs_once_per_call() {
    fn bump(counter: &Cell<u32>) {
        counter.set(counter.get() + 1);
    }
    let alias = build(&[WeightedTuple::new(3, bump as fn(&Cell<u32>))]);
    let counter = Cell::new(0u32);
    let mut rng = StdRng::seed_from_u64(7);
    for _ in 0..10 {
        let f = draw(&alias, &mut rng);
        assert_eq!(counter.get() < 10, true);
        f(&counter);
    }
    assert_eq!(counter.get(), 10);
}

#[test]
fn two_to_one_weights_sample_two_to_one() {
    let alias = build(&[WeightedTuple::new(1, 'A'), WeightedTuple::new(2, 'B')]);
    let mut rng = StdRng::seed_from_u64(2024);
    let mut a: i64 = 0;
    let mut b: i64 = 0;
    for _ in 0..1_000_000 {
        match draw(&alias, &mut rng) {
            'A' => a += 1,
            _ => b += 1,
        }
    }
    assert!((a - 333_333).abs() < 3_000, "A was drawn {} times", a);
    assert!((b - 666_667).abs() < 3_000, "B was drawn {} times", b);
}

#[test]
fn marbles_follow_their_weights() {
    let alias = build(&[
        WeightedTuple::new(1, 0usize),
        WeightedTuple::new(2, 1usize),
        WeightedTuple::new(3, 2usize),
        WeightedTuple::new(0, 3usize),
    ]);
    let mut rng = StdRng::seed_from_u64(99);
    let mut counts = [0i64; 4];
    let draws = 600_000i64;
    for _ in 0..draws {
        counts[draw(&alias, &mut rng)] += 1;
    }
    assert_eq!(counts[3], 0);
    for (i, w) in [1i64, 2, 3].iter().enumerate() {
        let expected = draws * w / 6;
        assert!((counts[i] - expected).abs() < expected / 100, "value {} drawn {} times", i, counts[i]);
    }
}
