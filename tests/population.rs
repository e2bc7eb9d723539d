use anneal_splines::counter::AcceptanceCounter;
use anneal_splines::population::Population;
use anneal_splines::rect::Rect;
use rand::SeedableRng;

#[test]
fn check_out_and_in_keep_the_index_complete() {
    let mut p: Population<i32> = Population::new();
    let a = p.add(vec![1, 2, 3, 4], Rect::new(0, 1, 0, 1));
    let b = p.add(vec![5, 6, 7, 8, 9, 10], Rect::new(10, 20, 10, 20));
    assert_eq!(p.count(), 2);
    assert_eq!(p.indexed(), 2);
    let mut rng = rand_xoshiro::Xoshiro128StarStar::seed_from_u64(11);
    for step in 0..20 {
        let parts = p.check_out(&mut rng);
        assert_eq!(p.indexed(), 1);
        let out = if p.is_checked_out(&a) { a } else { b };
        assert!(p.is_checked_out(&out));
        assert_eq!(parts.len(), 2 * (out.count_segments() as usize + 1));
        let accept = step % 2 == 0;
        let edited: Vec<i32> = parts.iter().map(|v| v + 100).collect();
        let h = p.check_in(edited.clone(), Rect::new(0, 30, 0, 30), accept);
        assert_eq!(h, out);
        assert_eq!(p.indexed(), 2);
        if accept {
            assert_eq!(p.spline(&h), edited);
            assert_eq!(h.bounds(), Rect::new(0, 30, 0, 30));
        } else {
            assert_eq!(p.spline(&h), parts);
        }
    }
    assert_eq!(p.handles().len(), 2);
}

#[test]
fn neighbours_follow_bounds() {
    let mut p: Population<i32> = Population::new();
    p.add(vec![0; 4], Rect::new(0, 1, 0, 1));
    let far = p.add(vec![0; 4], Rect::new(100, 101, 100, 101));
    let near = p.neighbours(Rect::new(90, 100, 90, 100));
    assert_eq!(near.len(), 1);
    assert!(near[0] == far);
    assert_eq!(p.neighbours(Rect::new(0, 200, 0, 200)).len(), 2);
    assert!(p.neighbours(Rect::new(50, 60, 50, 60)).is_empty());
}

#[test]
fn lowering_move_is_counted_and_written() {
    let mut p: Population<i32> = Population::new();
    let h = p.add(vec![0, 1, 2, 3], Rect::new(0, 3, 0, 3));
    let mut counter = AcceptanceCounter::zeros();
    let mut rng = rand_xoshiro::Xoshiro128StarStar::seed_from_u64(1);
    let parts = p.check_out(&mut rng);
    assert_eq!(parts, vec![0, 1, 2, 3]);
    counter.increase(0, AcceptanceCounter::LOWER);
    let moved = vec![5, 1, 7, 3];
    let back = p.check_in(moved.clone(), Rect::new(5, 8, 0, 3), true);
    assert_eq!(back, h);
    assert_eq!(counter.get(0, AcceptanceCounter::LOWER), 1);
    assert_eq!(counter.outcome_totals(), vec![1, 0, 0]);
    assert_eq!(p.spline(&back), moved);
    assert_eq!(p.neighbours(Rect::new(6, 6, 1, 1)).len(), 1);
    assert!(p.neighbours(Rect::new(0, 4, 0, 3)).is_empty());
}
