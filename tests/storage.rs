use anneal_splines::rect::Rect;
use anneal_splines::storage::SplineStorage;

fn spline(base: i32, segments: usize) -> Vec<i32> {
    (0..2 * (segments as i32 + 1)).map(|k| base + k).collect()
}

#[test]
fn add_assigns_positions_and_ordinals() {
    let mut st: SplineStorage<i32> = SplineStorage::new();
    let a = st.add_spline(spline(100, 1), Rect::new(0, 1, 0, 1));
    let b = st.add_spline(spline(200, 3), Rect::new(0, 2, 0, 2));
    assert_eq!(a.storage_index(), 0);
    assert_eq!(a.list_index(), 0);
    assert_eq!(a.count_segments(), 1);
    assert_eq!(b.storage_index(), 4);
    assert_eq!(b.list_index(), 1);
    assert_eq!(b.count_segments(), 3);
    assert_eq!(b.bounds(), Rect::new(0, 2, 0, 2));
    assert_eq!(st.len(), 2);
    assert!(a.is_before(&b));
    assert!(a != b);
    assert_eq!(st.get_spline(&b), spline(200, 3));
}

#[test]
fn read_then_overwrite_replaces_in_place() {
    let mut st: SplineStorage<i32> = SplineStorage::new();
    let a = st.add_spline(spline(100, 1), Rect::new(0, 1, 0, 1));
    let b = st.add_spline(spline(200, 2), Rect::new(0, 1, 0, 1));
    let c = st.add_spline(spline(300, 1), Rect::new(0, 1, 0, 1));
    let got = st.read(b);
    assert_eq!(got, spline(200, 2));
    assert!(st.is_empty(&b));
    assert!(!st.is_empty(&a));
    assert!(!st.is_empty(&c));
    let edited = spline(900, 2);
    let h = st.overwrite_spline(edited.clone(), Rect::new(-5, 5, -5, 5));
    assert_eq!(h, b);
    assert_eq!(h.bounds(), Rect::new(-5, 5, -5, 5));
    assert!(!st.is_empty(&b));
    let all = st.all_splines();
    assert_eq!(all, vec![spline(100, 1), edited, spline(300, 1)]);
}

#[test]
fn revalidate_keeps_old_contents() {
    let mut st: SplineStorage<i32> = SplineStorage::new();
    let a = st.add_spline(spline(10, 2), Rect::new(1, 2, 3, 4));
    let got = st.read(a);
    let h = st.revalidate_ref(got);
    assert_eq!(h, a);
    assert_eq!(h.bounds(), Rect::new(1, 2, 3, 4));
    assert!(!st.is_empty(&a));
    assert_eq!(st.get_spline(&a), spline(10, 2));
}

#[test]
fn segments_never_span_two_splines() {
    let mut st: SplineStorage<i32> = SplineStorage::new();
    st.add_spline(spline(0, 2), Rect::new(0, 0, 0, 0));
    st.add_spline(spline(100, 1), Rect::new(0, 0, 0, 0));
    let segs = st.all_segments();
    assert_eq!(
        segs,
        vec![vec![0, 1, 2, 3], vec![2, 3, 4, 5], vec![100, 101, 102, 103]]
    );
    let empty: SplineStorage<i32> = SplineStorage::new();
    assert!(empty.all_segments().is_empty());
    assert!(empty.all_splines().is_empty());
}

#[test]
fn info_tables_are_indexed_by_handle() {
    let mut st: SplineStorage<i32> = SplineStorage::new();
    let a = st.add_spline(spline(0, 2), Rect::new(0, 0, 0, 0));
    let b = st.add_spline(spline(100, 3), Rect::new(0, 0, 0, 0));
    let mut marks = st.new_spline_info(false);
    assert_eq!(marks.len(), 2);
    marks.set(&b, true);
    assert!(!*marks.get(&a));
    assert!(*marks.get(&b));
    assert_eq!(marks.iter().filter(|m| **m).count(), 1);
    for m in marks.iter_mut().iter_mut() {
        *m = true;
    }
    assert!(*marks.get(&a));

    let mut per_segment = st.new_segment_info(0u32);
    // 6 + 8 vectors minus 2 splines
    assert_eq!(per_segment.len(), 12);
    per_segment.set(&a, 1, 7);
    per_segment.set(&b, 0, 9);
    per_segment.set(&b, 2, 11);
    assert_eq!(*per_segment.get(&a, 1), 7);
    assert_eq!(*per_segment.get(&a, 0), 0);
    assert_eq!(*per_segment.get(&b, 0), 9);
    assert_eq!(*per_segment.get(&b, 2), 11);
}

#[test]
fn snapshot_copies_without_the_checked_out_slot() {
    let mut st: SplineStorage<i32> = SplineStorage::new();
    let a = st.add_spline(spline(0, 1), Rect::new(0, 0, 0, 0));
    st.add_spline(spline(50, 2), Rect::new(0, 0, 0, 0));
    let _ = st.read(a);
    assert!(st.is_empty(&a));
    let copy = st.snapshot();
    assert!(!copy.is_empty(&a));
    assert_eq!(copy.all_splines(), st.all_splines());
    assert_eq!(copy.len(), 2);
}
