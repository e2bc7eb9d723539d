use anneal_splines::counter::{choose_method, AcceptanceCounter, ScaleChange, METHODS};
use anneal_splines::random::{random_orientation, random_segment, random_segment_count, Orientation};
use rand::SeedableRng;

#[test]
fn counter_starts_at_zero_and_counts() {
    let mut c = AcceptanceCounter::zeros();
    for m in 0..METHODS {
        for o in 0..3 {
            assert_eq!(c.get(m, o), 0);
        }
    }
    c.increase(2, AcceptanceCounter::REJECTED);
    c.increase(2, AcceptanceCounter::REJECTED);
    c.increase(4, AcceptanceCounter::LOWER);
    assert_eq!(c.get(2, AcceptanceCounter::REJECTED), 2);
    assert_eq!(c.get(4, AcceptanceCounter::LOWER), 1);
    assert_eq!(c.get(2, AcceptanceCounter::LOWER), 0);
    c.clear();
    assert_eq!(c.get(2, AcceptanceCounter::REJECTED), 0);
    assert_eq!(c.get(4, AcceptanceCounter::LOWER), 0);
}

#[test]
fn scale_change_follows_rejection_fraction() {
    let mut c = AcceptanceCounter::zeros();
    // method 0: 1 of 4 rejected -> grow
    c.increase(0, AcceptanceCounter::LOWER);
    c.increase(0, AcceptanceCounter::ACCEPTED);
    c.increase(0, AcceptanceCounter::ACCEPTED);
    c.increase(0, AcceptanceCounter::REJECTED);
    // method 1: 4 of 5 rejected -> shrink
    for _ in 0..4 {
        c.increase(1, AcceptanceCounter::REJECTED);
    }
    c.increase(1, AcceptanceCounter::LOWER);
    // method 2: 11 of 20 rejected -> keep
    for _ in 0..11 {
        c.increase(2, AcceptanceCounter::REJECTED);
    }
    for _ in 0..9 {
        c.increase(2, AcceptanceCounter::ACCEPTED);
    }
    // method 3: exactly one half -> keep; method 4: exactly 3/5 -> keep
    c.increase(3, AcceptanceCounter::REJECTED);
    c.increase(3, AcceptanceCounter::LOWER);
    for _ in 0..3 {
        c.increase(4, AcceptanceCounter::REJECTED);
    }
    c.increase(4, AcceptanceCounter::LOWER);
    c.increase(4, AcceptanceCounter::LOWER);
    assert_eq!(c.scale_change(0), ScaleChange::Grow);
    assert_eq!(c.scale_change(1), ScaleChange::Shrink);
    assert_eq!(c.scale_change(2), ScaleChange::Keep);
    assert_eq!(c.scale_change(3), ScaleChange::Keep);
    assert_eq!(c.scale_change(4), ScaleChange::Keep);
    // never tried: keep
    assert_eq!(c.scale_change(5), ScaleChange::Keep);
    let all = c.scale_changes();
    assert_eq!(all.len(), METHODS);
    assert_eq!(all[1], ScaleChange::Shrink);
}

#[test]
fn outcome_totals_sum_over_methods() {
    let mut c = AcceptanceCounter::zeros();
    c.increase(0, AcceptanceCounter::LOWER);
    c.increase(5, AcceptanceCounter::LOWER);
    c.increase(3, AcceptanceCounter::ACCEPTED);
    c.increase(1, AcceptanceCounter::REJECTED);
    c.increase(1, AcceptanceCounter::REJECTED);
    c.increase(2, AcceptanceCounter::REJECTED);
    assert_eq!(c.outcome_totals(), vec![2, 1, 3]);
}

#[test]
fn chosen_methods_are_in_range_and_vary() {
    let mut rng = rand_xoshiro::Xoshiro128StarStar::seed_from_u64(7);
    let mut seen = [false; METHODS];
    for _ in 0..600 {
        let m = choose_method(&mut rng);
        assert!(m < METHODS);
        seen[m] = true;
    }
    assert!(seen.iter().all(|s| *s));
}

#[test]
fn random_draws_stay_in_range() {
    let mut rng = rand_xoshiro::Xoshiro128StarStar::seed_from_u64(5);
    let mut seen_max = false;
    let mut seen_swap = false;
    for _ in 0..400 {
        let n = random_segment_count(&mut rng, 3);
        assert!((1..=3).contains(&n));
        seen_max |= n == 3;
        assert!(random_segment(&mut rng, 5) < 5);
        seen_swap |= random_orientation(&mut rng) == Orientation::Swapped;
    }
    assert!(seen_max);
    assert!(seen_swap);
}
