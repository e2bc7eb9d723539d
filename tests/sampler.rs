use anneal_splines::rect::{Point, Rect};
use anneal_splines::sampler::Samples2d;

#[test]
fn grid_from_fn_returns_values_at_cells() {
    let g = Samples2d::from_fn(|i, j| (i * 10 + j) as i64, 4, 3, Rect::new(0, 40, 0, 30));
    assert_eq!(g.width(), 4);
    assert_eq!(g.height(), 3);
    for i in 0..4 {
        for j in 0..3 {
            assert_eq!(*g.get_cell(i, j), (i * 10 + j) as i64);
        }
    }
    // cell corners map back to their own cell
    assert_eq!(g.get_sample(Point::new(0, 0)), Some(&0));
    assert_eq!(g.get_sample(Point::new(20, 10)), Some(&21));
    assert_eq!(g.get_sample(Point::new(30, 20)), Some(&32));
}

#[test]
fn sampling_rounds_to_nearest_cell() {
    let g = Samples2d::new((0..10).collect::<Vec<i32>>(), 10, 1, Rect::new(0, 100, 0, 10));
    assert_eq!(g.get_sample(Point::new(14, 0)), Some(&1));
    assert_eq!(g.get_sample(Point::new(15, 0)), Some(&2));
    assert_eq!(g.get_sample(Point::new(94, 0)), Some(&9));
    // rounds to cell 10, past the grid
    assert_eq!(g.get_sample(Point::new(95, 0)), None);
    assert_eq!(g.get_sample(Point::new(-1, 0)), None);
    assert_eq!(g.get_sample(Point::new(50, 6)), None);
}

#[test]
fn filled_grid_and_bounds() {
    let mut g = Samples2d::new_filled(7u8, 2, 2, Rect::new(0, 2, 0, 2));
    assert_eq!(*g.get_cell(1, 1), 7);
    assert_eq!(g.get_bounds(), Rect::new(0, 2, 0, 2));
    g.set_bounds(Rect::new(10, 12, 10, 12));
    assert_eq!(g.get_bounds(), Rect::new(10, 12, 10, 12));
    assert_eq!(g.get_sample(Point::new(0, 0)), None);
    assert_eq!(g.get_sample(Point::new(10, 10)), Some(&7));
}

#[test]
fn map_keeps_shape_and_transforms_samples() {
    let g = Samples2d::new(vec![1, 2, 3, 4, 5, 6], 3, 2, Rect::new(0, 3, 0, 2));
    let h = g.map(|v| v * 10);
    assert_eq!(h.width(), 3);
    assert_eq!(h.height(), 2);
    assert_eq!(h.get_bounds(), Rect::new(0, 3, 0, 2));
    assert_eq!(*h.get_cell(2, 1), 60);
    assert_eq!(*h.get_cell(0, 1), 40);
}

#[test]
fn every_grid_corner_reads_its_own_cell() {
    let (w, h) = (5usize, 4usize);
    let b = Rect::new(-50, 50, 0, 80);
    let g = Samples2d::from_fn(|i, j| (i, j), w, h, b);
    for i in 0..w {
        for j in 0..h {
            let p = Point::new(b.x_min + (i as i32) * 100 / w as i32, b.y_min + (j as i32) * 80 / h as i32);
            assert_eq!(g.get_sample(p), Some(&(i, j)));
        }
    }
}
