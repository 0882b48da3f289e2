use prison::bits::BitSet;
use prison::board::{Boxes, Cell};

fn board(values: Vec<usize>) -> Boxes {
    Boxes::from_permutation(values, 7).expect("a permutation")
}

fn values_of(b: &Boxes) -> Vec<usize> {
    (0..b.len()).map(|i| b.value(i)).collect()
}

fn identity(n: usize) -> Vec<usize> {
    (0..n).collect()
}

#[test]
fn new_random_holds_each_number_once() {
    for n in [0usize, 1, 2, 3, 10, 64, 100, 257] {
        for seed in 0..20u64 {
            let b = Boxes::new_random(n, seed);
            let mut v = values_of(&b);
            v.sort();
            assert_eq!(v, identity(n));
        }
    }
}

#[test]
fn new_random_is_deterministic_per_seed() {
    let a = Boxes::new_random(100, 42);
    let b = Boxes::new_random(100, 42);
    assert_eq!(values_of(&a), values_of(&b));
}

#[test]
fn new_random_actually_shuffles() {
    let moved = (0..10u64)
        .filter(|seed| values_of(&Boxes::new_random(100, *seed)) != identity(100))
        .count();
    assert!(moved >= 9);
}

#[test]
fn cell_constructors() {
    assert_eq!(Cell::new(5).value(), 5);
    assert_eq!(Cell::empty().value(), 0);
    assert_eq!(Cell::empty(), Cell::new(0));
}

#[test]
fn from_permutation_rejects_out_of_range() {
    assert!(Boxes::from_permutation(vec![0, 2], 0).is_none());
}

#[test]
fn from_permutation_rejects_duplicates() {
    assert!(Boxes::from_permutation(vec![1, 1, 0], 0).is_none());
}

#[test]
fn from_permutation_keeps_values() {
    let b = board(vec![2, 0, 1]);
    assert_eq!(values_of(&b), vec![2, 0, 1]);
}

#[test]
fn two_prisoners_swapped_fail() {
    let b = board(vec![1, 0]);
    assert!(!b.solve_smart_cycle_detect());
    assert_eq!(b.solve_smart().to_vec(), vec![false, false]);
    assert_eq!(b.cycle_lengths(), vec![2]);
}

#[test]
fn identity_always_succeeds() {
    for n in 2..40 {
        let b = board(identity(n));
        assert!(b.solve_smart_cycle_detect());
        assert!(b.solve_smart().to_vec().iter().all(|x| *x));
        assert_eq!(b.cycle_lengths(), vec![1; n]);
    }
}

#[test]
fn empty_board_succeeds_vacuously() {
    let mut b = Boxes::new_random(0, 3);
    assert!(b.solve_smart_cycle_detect());
    assert!(b.solve_smart().to_vec().is_empty());
    assert!(b.solve_dumb().to_vec().is_empty());
    assert!(b.solve_dumb_no_list());
    assert!(b.solve_dumb_shuffle());
    assert!(b.cycle_lengths().is_empty());
}

#[test]
fn single_prisoner_opens_nothing() {
    let mut b = Boxes::new_random(1, 3);
    assert!(!b.solve_smart_cycle_detect());
    assert_eq!(b.solve_smart().to_vec(), vec![false]);
    assert_eq!(b.solve_dumb().to_vec(), vec![false]);
    assert!(!b.solve_dumb_no_list());
    assert!(!b.solve_dumb_shuffle());
}

#[test]
fn smart_follows_the_chain() {
    // cycles (0 1 2) and (3)(4)(5): half is 3
    let b = board(vec![1, 2, 0, 3, 4, 5]);
    assert_eq!(b.solve_smart().to_vec(), vec![true; 6]);
    assert!(b.solve_smart_cycle_detect());
    // one cycle of length 4 among 6 boxes
    let b = board(vec![1, 2, 3, 0, 4, 5]);
    assert_eq!(
        b.solve_smart().to_vec(),
        vec![false, false, false, false, true, true]
    );
    assert!(!b.solve_smart_cycle_detect());
    assert_eq!(b.cycle_lengths(), vec![4, 1, 1]);
}

#[test]
fn long_cycle_found_after_early_short_ones() {
    // (0)(1)(2 3 4 5 6 7 8 9 10 11): the long cycle starts late
    let mut v = vec![0, 1];
    v.extend(3..12);
    v.push(2);
    let b = board(v);
    assert!(!b.solve_smart_cycle_detect());
    assert_eq!(b.cycle_lengths(), vec![1, 1, 10]);
}

#[test]
fn odd_size_early_exit_keeps_long_cycle() {
    // n = 3, half = 1: after the cycle (0) two boxes remain, which may hold a long cycle
    let b = board(vec![0, 2, 1]);
    assert!(!b.solve_smart_cycle_detect());
    assert_eq!(b.solve_smart().to_vec(), vec![true, false, false]);
}

#[test]
fn smart_and_cycle_detect_agree() {
    for n in [1usize, 2, 3, 4, 5, 9, 10, 20, 21, 100, 101] {
        for seed in 0..200u64 {
            let b = Boxes::new_random(n, seed);
            let all = b.solve_smart().to_vec().iter().all(|x| *x);
            assert_eq!(all, b.solve_smart_cycle_detect(), "n={} seed={}", n, seed);
        }
    }
}

#[test]
fn cycle_lengths_sum_to_size() {
    for n in [0usize, 1, 2, 5, 20, 100] {
        for seed in 0..100u64 {
            let b = Boxes::new_random(n, seed);
            let lengths = b.cycle_lengths();
            assert_eq!(lengths.iter().sum::<usize>(), n);
            assert!(lengths.iter().all(|l| *l >= 1));
        }
    }
}

#[test]
fn early_exit_agrees_with_full_decomposition() {
    for n in [1usize, 2, 3, 4, 5, 9, 10, 20, 21, 100, 101] {
        for seed in 0..200u64 {
            let b = Boxes::new_random(n, seed);
            let full = b.cycle_lengths().iter().all(|l| *l <= n / 2);
            assert_eq!(full, b.solve_smart_cycle_detect(), "n={} seed={}", n, seed);
        }
    }
}

#[test]
fn opens_own_in_looks_at_first_half_only() {
    let b = board(vec![3, 2, 1, 0]);
    assert!(b.opens_own_in(0, &vec![3, 1]));
    assert!(b.opens_own_in(0, &vec![1, 3]));
    assert!(!b.opens_own_in(0, &vec![1, 2, 3]));
    assert!(!b.opens_own_in(0, &vec![]));
}

#[test]
fn sampling_strategies_leave_the_boxes() {
    let mut b = Boxes::new_random(30, 9);
    let before = values_of(&b);
    b.solve_dumb();
    b.solve_dumb_no_list();
    b.solve_dumb_shuffle();
    assert_eq!(values_of(&b), before);
}

#[test]
fn monte_carlo_smart_rate() {
    let n = 20;
    let trials = 20_000u64;
    let wins = (0..trials)
        .filter(|seed| Boxes::new_random(n, *seed).solve_smart_cycle_detect())
        .count();
    let expected = 1.0 - (n / 2 + 1..=n).map(|i| 1.0 / i as f64).sum::<f64>();
    let rate = wins as f64 / trials as f64;
    assert!((rate - expected).abs() < 0.02, "rate {} expected {}", rate, expected);
}

#[test]
fn monte_carlo_dumb_rate() {
    let n = 20;
    let trials = 5_000u64;
    let wins = (0..trials)
        .filter(|seed| Boxes::new_random(n, *seed).solve_dumb_no_list())
        .count();
    assert!(wins <= 2, "{} wins", wins);
}

#[test]
fn dumb_variants_match_in_distribution() {
    let n = 4;
    let trials = 8_000u64;
    let mut listed = 0u64;
    let mut shuffled = 0u64;
    for seed in 0..trials {
        let mut b = Boxes::new_random(n, seed);
        if b.solve_dumb().to_vec().iter().all(|x| *x) {
            listed += 1;
        }
        let mut b = Boxes::new_random(n, seed);
        if b.solve_dumb_shuffle() {
            shuffled += 1;
        }
    }
    let a = listed as f64 / trials as f64;
    let c = shuffled as f64 / trials as f64;
    assert!((a - 1.0 / 16.0).abs() < 0.02, "{}", a);
    assert!((c - 1.0 / 16.0).abs() < 0.02, "{}", c);
}

#[test]
fn open_drawn_skips_opened_boxes() {
    let b = board(vec![3, 2, 1, 0]);
    let mut visited = BitSet::new(4);
    let mut opened = 0usize;
    // 6 % 4 == 2: box 2 holds 1
    assert!(!b.open_drawn(0, 6, &mut visited, &mut opened));
    assert_eq!(opened, 1);
    assert_eq!(visited.to_vec(), vec![false, false, true, false]);
    // box 2 again: skipped, not counted
    assert!(!b.open_drawn(1, 2, &mut visited, &mut opened));
    assert_eq!(opened, 1);
    // 7 % 4 == 3: box 3 holds 0
    assert!(b.open_drawn(0, 7, &mut visited, &mut opened));
    assert_eq!(opened, 2);
    assert_eq!(visited.to_vec(), vec![false, false, true, true]);
}

#[test]
fn draws_find_uses_draws_modulo_size() {
    let b = board(vec![3, 2, 1, 0]);
    // 7 % 4 == 3 holds 0
    assert!(b.draws_find(0, &vec![7]));
    assert!(b.draws_find(0, &vec![5, 3]));
    // repeats count against the n / 2 openings
    assert!(!b.draws_find(0, &vec![1, 1, 3]));
    assert!(!b.draws_find(0, &vec![]));
}

#[test]
fn all_open_own_needs_every_prisoner() {
    let b = board(vec![3, 2, 1, 0]);
    let good = vec![vec![3, 0], vec![2, 1], vec![1, 0], vec![0, 1]];
    assert!(b.all_open_own(&good));
    let bad = vec![vec![3, 0], vec![2, 1], vec![0, 3], vec![0, 1]];
    assert!(!b.all_open_own(&bad));
}

#[test]
fn bit_set_starts_clear() {
    assert_eq!(BitSet::new(5).to_vec(), vec![false; 5]);
}
