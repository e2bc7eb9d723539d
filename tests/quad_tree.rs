use anneal_splines::quad_tree::QuadTree;
use anneal_splines::rect::Rect;
use anneal_splines::storage::SplineStorage;
use rand::SeedableRng;

fn boxes() -> Vec<Rect> {
    let mut v = Vec::new();
    for i in 0..12 {
        for j in 0..9 {
            let x = i * 17 % 100;
            let y = j * 23 % 100;
            v.push(Rect::new(x, x + (i % 4) * 3, y, y + (j % 3) * 5));
        }
    }
    v
}

fn sorted(mut v: Vec<Rect>) -> Vec<Rect> {
    v.sort_by_key(|r| (r.x_min, r.x_max, r.y_min, r.y_max));
    v
}

#[test]
fn len_counts_inserts_minus_pops() {
    let mut t: QuadTree<Rect> = QuadTree::new();
    assert_eq!(t.len(), 0);
    for (k, r) in boxes().into_iter().enumerate() {
        t.insert(r);
        assert_eq!(t.len(), k + 1);
    }
    let n = t.len();
    let mut rng = rand_xoshiro::Xoshiro128StarStar::seed_from_u64(3);
    for k in 0..10 {
        t.pop_random(&mut rng);
        assert_eq!(t.len(), n - k - 1);
    }
    t.insert(Rect::new(500, 600, 500, 600));
    assert_eq!(t.len(), n - 9);
}

#[test]
fn query_returns_exactly_the_intersecting_items() {
    let all = boxes();
    let t = QuadTree::from(all.clone());
    assert_eq!(t.len(), all.len());
    assert_eq!(sorted(t.iter()), sorted(all.clone()));
    for q in [
        Rect::new(0, 10, 0, 10),
        Rect::new(40, 60, 40, 60),
        Rect::new(90, 200, -5, 3),
        Rect::new(-50, -10, -50, -10),
        Rect::new(0, 100, 0, 100),
    ] {
        let expected: Vec<Rect> = all.iter().copied().filter(|r| r.intersects(&q)).collect();
        assert_eq!(sorted(t.query_intersects(q)), sorted(expected));
    }
}

#[test]
fn insert_outside_root_rebuilds() {
    let mut t: QuadTree<Rect> = QuadTree::new();
    t.insert(Rect::new(0, 1, 0, 1));
    t.insert(Rect::new(0, 2, 0, 2));
    assert_eq!(t.get_bounds(), Rect::new(0, 2, 0, 2));
    t.insert(Rect::new(-10, -8, 5, 6));
    assert_eq!(t.get_bounds(), Rect::new(-10, 2, 0, 6));
    assert_eq!(t.len(), 3);
    let hits = t.query_intersects(Rect::new(-9, -9, 5, 5));
    assert_eq!(hits, vec![Rect::new(-10, -8, 5, 6)]);
}

#[test]
fn pop_removes_the_indexed_item() {
    let all = boxes();
    let mut t = QuadTree::with_bounds(all.clone(), Rect::new(0, 200, 0, 200));
    let order = t.iter();
    let popped = t.pop(5);
    assert_eq!(popped, order[5]);
    let mut rest = order.clone();
    rest.remove(5);
    assert_eq!(sorted(t.into_vec()), sorted(rest));
}

#[test]
fn handles_are_indexed_by_their_bounds() {
    let mut st: SplineStorage<i32> = SplineStorage::new();
    let a = st.add_spline(vec![0; 4], Rect::new(0, 1, 0, 1));
    let b = st.add_spline(vec![0; 6], Rect::new(50, 60, 50, 60));
    let t = QuadTree::from(vec![a, b]);
    let near_b = t.query_intersects(Rect::new(55, 70, 40, 52));
    assert_eq!(near_b.len(), 1);
    assert!(near_b[0] == b);
}

#[test]
fn level_counts_cover_every_item() {
    let empty: QuadTree<Rect> = QuadTree::new();
    assert_eq!(empty.level_counts(), vec![0, 0, 0, 0]);
    let mut t = QuadTree::with_bounds(Vec::new(), Rect::new(0, 80, 0, 80));
    // straddles the root's middle lines: stays at the root
    t.insert(Rect::new(30, 50, 30, 50));
    // inside the first quadrant but across its middle: depth one
    t.insert(Rect::new(10, 30, 10, 30));
    // small and deep inside the first quadrant chain: deepest level
    t.insert(Rect::new(1, 2, 1, 2));
    assert_eq!(t.level_counts(), vec![1, 1, 0, 1]);
    let all = boxes();
    let u = QuadTree::from(all.clone());
    assert_eq!(u.level_counts().iter().sum::<usize>(), all.len());
}
