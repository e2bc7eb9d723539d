//! A row-major grid of samples covering a rectangle, queried by nearest cell.
use vstd::prelude::*;

use crate::rect::{Point, Rect};

verus! {

/// The cell along one axis that a coordinate `p` falls to when the extent
/// `[lo, hi]` is divided into `n` cells: the offset `(p - lo) / (hi - lo)`
/// scaled by `n` and rounded to the nearest integer, halves upwards; none when
/// that lies before the extent or at or past cell `n`. An extent of one point
/// (or an inverted one) has only the cell of its lower end.
pub open spec fn axis_cell(p: int, lo: int, hi: int, n: int) -> Option<int> {
    if p < lo {
        None
    } else {
        let k = if hi <= lo {
            if p == lo { 0 } else { n }
        } else {
            (2 * (p - lo) * n + (hi - lo)) / (2 * (hi - lo))
        };
        if k < n { Some(k) } else { None }
    }
}

/// Samples of a field on a `width` by `height` grid over `bounds`; sample
/// `(i, j)` (column `i`, row `j`) is stored at `i + width * j`.
pub struct Samples2d<T> {
    samples: Vec<T>,
    width: usize,
    height: usize,
    bounds: Rect,
}

impl<T> Samples2d<T> {
    pub closed spec fn samples(&self) -> Seq<T> {
        self.samples@
    }

    pub closed spec fn width_spec(&self) -> nat {
        self.width as nat
    }

    pub closed spec fn height_spec(&self) -> nat {
        self.height as nat
    }

    pub closed spec fn bounds_spec(&self) -> Rect {
        self.bounds
    }

    pub open spec fn wf(&self) -> bool {
        self.samples().len() == self.width_spec() * self.height_spec()
    }

    /// The sample of column `i`, row `j`.
    pub open spec fn cell(&self, i: int, j: int) -> T {
        self.samples()[i + self.width_spec() * j]
    }

    /// Position in `samples` of the cell nearest to `p`, if `p` falls on the grid.
    pub open spec fn index_of(&self, p: Point) -> Option<int> {
        let b = self.bounds_spec();
        match (
            axis_cell(p.x as int, b.x_min as int, b.x_max as int, self.width_spec() as int),
            axis_cell(p.y as int, b.y_min as int, b.y_max as int, self.height_spec() as int),
        ) {
            (Some(i), Some(j)) => Some(i + self.width_spec() * j),
            _ => None,
        }
    }

    /// The grid point of cell `(i, j)`: the cell's lower corner, at the fractions
    /// `i / width` and `j / height` of the extents, rounded down.
    pub open spec fn grid_point(&self, i: int, j: int) -> Point {
        let b = self.bounds_spec();
        Point {
            x: (b.x_min + i * (b.x_max - b.x_min) / (self.width_spec() as int)) as i32,
            y: (b.y_min + j * (b.y_max - b.y_min) / (self.height_spec() as int)) as i32,
        }
    }

    /// A grid over `bounds` holding `samples` in row-major order.
    pub fn new(samples: Vec<T>, width: usize, height: usize, bounds: Rect) -> (r: Samples2d<T>)
        requires
            width * height == samples@.len(),
        ensures
            r.wf(),
            r.samples() == samples@,
            r.width_spec() == width,
            r.height_spec() == height,
            r.bounds_spec() == bounds,
    {
        Samples2d { samples, width, height, bounds }
    }

    /// A grid whose sample `(i, j)` is `func(i, j)`, filled row by row.
    pub fn from_fn<F: Fn(usize, usize) -> T>(func: F, width: usize, height: usize, bounds: Rect) -> (r: Samples2d<T>)
        requires
            width * height <= usize::MAX,
            forall|i: usize, j: usize| i < width && j < height ==> #[trigger] func.requires((i, j)),
        ensures
            r.wf(),
            r.width_spec() == width,
            r.height_spec() == height,
            r.bounds_spec() == bounds,
            forall|i: usize, j: usize|
                i < width && j < height ==> func.ensures((i, j), #[trigger] r.cell(i as int, j as int)),
    {
        let mut samples: Vec<T> = Vec::new();
        let mut j: usize = 0;
        while j < height
            invariant
                j <= height,
                width * height <= usize::MAX,
                samples@.len() == width * j,
                forall|i: usize, j: usize| i < width && j < height ==> #[trigger] func.requires((i, j)),
                forall|a: usize, b: usize|
                    a < width && b < j ==> func.ensures((a, b), #[trigger] samples@[a + width * b]),
            decreases height - j,
        {
            let mut i: usize = 0;
            while i < width
                invariant
                    i <= width,
                    j < height,
                    width * height <= usize::MAX,
                    samples@.len() == width * j + i,
                    forall|i: usize, j: usize| i < width && j < height ==> #[trigger] func.requires((i, j)),
                    forall|a: usize, b: usize|
                        (a < width && b < j) || (a < i && b == j) ==> func.ensures(
                            (a, b),
                            #[trigger] samples@[a + width * b],
                        ),
                decreases width - i,
            {
                let v = func(i, j);
                proof {
                    assert(width * j + i == i + width * j) by (nonlinear_arith);
                }
                let ghost before = samples@;
                samples.push(v);
                proof {
                    assert forall|a: usize, b: usize|
                        (a < width && b < j) || (a < i + 1 && b == j) implies func.ensures(
                        (a, b),
                        #[trigger] samples@[a + width * b],
                    ) by {
                        if a == i && b == j {
                        } else {
                            assert(a + width * b < width * j + i) by (nonlinear_arith)
                                requires
                                    (a < width && b < j) || (a < i && b == j),
                            ;
                            assert(samples@[a + width * b] == before[a + width * b]);
                        }
                    }
                }
                i = i + 1;
            }
            proof {
                assert(width * j + width == width * (j + 1)) by (nonlinear_arith);
            }
            j = j + 1;
        }
        Samples2d { samples, width, height, bounds }
    }

    /// A grid of the same shape whose samples are `func` of this grid's samples.
    pub fn map<S, F: Fn(&T) -> S>(&self, func: F) -> (r: Samples2d<S>)
        requires
            forall|k: int| 0 <= k < self.samples().len() ==> #[trigger] func.requires((&self.samples()[k],)),
        ensures
            r.samples().len() == self.samples().len(),
            r.width_spec() == self.width_spec(),
            r.height_spec() == self.height_spec(),
            r.bounds_spec() == self.bounds_spec(),
            forall|k: int|
                0 <= k < self.samples().len() ==> func.ensures((&self.samples()[k],), #[trigger] r.samples()[k]),
    {
        let mut out: Vec<S> = Vec::new();
        let mut k: usize = 0;
        while k < self.samples.len()
            invariant
                k <= self.samples@.len(),
                out@.len() == k,
                forall|i: int| 0 <= i < self.samples().len() ==> #[trigger] func.requires((&self.samples()[i],)),
                forall|i: int| 0 <= i < k ==> func.ensures((&self.samples()[i],), #[trigger] out@[i]),
            decreases self.samples@.len() - k,
        {
            assert(func.requires((&self.samples()[k as int],)));
            let v = func(&self.samples[k]);
            out.push(v);
            k = k + 1;
        }
        Samples2d { samples: out, width: self.width, height: self.height, bounds: self.bounds }
    }

    pub fn get_bounds(&self) -> (r: Rect)
        ensures
            r == self.bounds_spec(),
    {
        self.bounds
    }

    /// Moves the grid onto another rectangle; the samples stay.
    pub fn set_bounds(&mut self, bounds: Rect)
        ensures
            final(self).bounds_spec() == bounds,
            final(self).samples() == old(self).samples(),
            final(self).width_spec() == old(self).width_spec(),
            final(self).height_spec() == old(self).height_spec(),
    {
        self.bounds = bounds;
    }

    pub fn width(&self) -> (r: usize)
        ensures
            r == self.width_spec(),
    {
        self.width
    }

    pub fn height(&self) -> (r: usize)
        ensures
            r == self.height_spec(),
    {
        self.height
    }

    /// The sample of column `i`, row `j`.
    pub fn get_cell(&self, i: usize, j: usize) -> (r: &T)
        requires
            self.wf(),
            i < self.width_spec(),
            j < self.height_spec(),
        ensures
            *r == self.cell(i as int, j as int),
    {
        proof {
            lemma_cell_in_grid(i as int, j as int, self.width as int, self.height as int);
        }
        // the buffer's length bounds the index computed below
        let _len = self.samples.len();
        &self.samples[i + self.width * j]
    }

    /// Position in `samples` of the cell nearest to `p`.
    fn calculate_idx(&self, p: Point) -> (r: Option<usize>)
        requires
            self.wf(),
        ensures
            r matches Some(k) ==> self.index_of(p) == Some(k as int) && k < self.samples().len(),
            r is None ==> self.index_of(p) is None,
    {
        let i = axis_index(p.x, self.bounds.x_min, self.bounds.x_max, self.width);
        let j = axis_index(p.y, self.bounds.y_min, self.bounds.y_max, self.height);
        match (i, j) {
            (Some(i), Some(j)) => {
                // the buffer's length bounds the index computed below
                let _len = self.samples.len();
                proof {
                    lemma_cell_in_grid(i as int, j as int, self.width as int, self.height as int);
                }
                Some(i + self.width * j)
            },
            _ => None,
        }
    }

    /// The sample of the cell nearest to `p`, or none when `p` is off the grid.
    pub fn get_sample(&self, p: Point) -> (r: Option<&T>)
        requires
            self.wf(),
        ensures
            match self.index_of(p) {
                Some(k) => r matches Some(v) && *v == self.samples()[k],
                None => r is None,
            },
    {
        match self.calculate_idx(p) {
            Some(k) => Some(&self.samples[k]),
            None => None,
        }
    }
}

impl<T: Copy> Samples2d<T> {
    /// A grid holding `fill` in every cell.
    pub fn new_filled(fill: T, width: usize, height: usize, bounds: Rect) -> (r: Samples2d<T>)
        requires
            width * height <= usize::MAX,
        ensures
            r.wf(),
            r.samples() == Seq::new((width * height) as nat, |k: int| fill),
            r.width_spec() == width,
            r.height_spec() == height,
            r.bounds_spec() == bounds,
    {
        let n = width * height;
        let mut samples: Vec<T> = Vec::new();
        let mut k: usize = 0;
        while k < n
            invariant
                k <= n,
                samples@ == Seq::new(k as nat, |i: int| fill),
            decreases n - k,
        {
            samples.push(fill);
            k = k + 1;
            assert(samples@ =~= Seq::new(k as nat, |i: int| fill));
        }
        Samples2d { samples, width, height, bounds }
    }
}

/// Cell of coordinate `p` along one axis, as `axis_cell` states.
fn axis_index(p: i32, lo: i32, hi: i32, n: usize) -> (r: Option<usize>)
    ensures
        r matches Some(k) ==> axis_cell(p as int, lo as int, hi as int, n as int) == Some(k as int),
        r is None ==> axis_cell(p as int, lo as int, hi as int, n as int) is None,
{
    if p < lo {
        return None;
    }
    let k: u128 = if hi <= lo {
        if p == lo { 0 } else { n as u128 }
    } else {
        let off = (p as i64 - lo as i64) as u128;
        let span = (hi as i64 - lo as i64) as u128;
        assert(off * (n as u128) <= 0x1_0000_0000u128 * 0x1_0000_0000_0000_0000u128) by (nonlinear_arith)
            requires
                off <= 0x1_0000_0000u128,
                n <= 0x1_0000_0000_0000_0000u128,
        ;
        let scaled = off * (n as u128);
        assert(2 * scaled + span == 2 * (p - lo) * n + (hi - lo)) by (nonlinear_arith)
            requires
                scaled == off * n,
                off == p - lo,
                span == hi - lo,
        ;
        (2 * scaled + span) / (2 * span)
    };
    if k < n as u128 {
        Some(k as usize)
    } else {
        None
    }
}

/// On an extent that divides evenly into `n` cells, the lower end of cell `i`
/// falls to cell `i`.
proof fn lemma_axis_corner(lo: int, hi: int, n: int, i: int)
    requires
        lo < hi,
        0 <= i < n,
        (hi - lo) % n == 0,
    ensures
        axis_cell(lo + i * (hi - lo) / n, lo, hi, n) == Some(i),
{
    let c = (hi - lo) / n;
    vstd::arithmetic::div_mod::lemma_fundamental_div_mod(hi - lo, n);
    assert(hi - lo == n * c);
    assert(c > 0) by (nonlinear_arith)
        requires
            hi - lo == n * c,
            hi - lo > 0,
            n > 0,
    ;
    assert(i * (hi - lo) == (i * c) * n) by (nonlinear_arith)
        requires
            hi - lo == n * c,
    ;
    vstd::arithmetic::div_mod::lemma_fundamental_div_mod_converse(i * (hi - lo), n, i * c, 0);
    let p = lo + i * c;
    assert(p - lo >= 0) by (nonlinear_arith)
        requires
            p == lo + i * c,
            i >= 0,
            c > 0,
    ;
    let m = c * n;
    assert(2 * (p - lo) * n + (hi - lo) == i * (2 * m) + m) by (nonlinear_arith)
        requires
            p - lo == i * c,
            m == c * n,
            hi - lo == n * c,
    ;
    assert(m > 0) by (nonlinear_arith)
        requires
            m == c * n,
            c > 0,
            n > 0,
    ;
    vstd::arithmetic::div_mod::lemma_fundamental_div_mod_converse(i * (2 * m) + m, 2 * m, i, m);
    assert(2 * (hi - lo) == 2 * m);
}

/// A grid whose extents divide evenly into its cells samples the grid point of
/// cell `(i, j)` from cell `(i, j)`; with `from_fn` that is the value the
/// function gave for `(i, j)`.
pub proof fn lemma_grid_point_samples_cell<T>(g: Samples2d<T>, i: int, j: int)
    requires
        g.wf(),
        0 <= i < g.width_spec(),
        0 <= j < g.height_spec(),
        g.bounds_spec().x_min < g.bounds_spec().x_max,
        g.bounds_spec().y_min < g.bounds_spec().y_max,
        (g.bounds_spec().x_max - g.bounds_spec().x_min) % (g.width_spec() as int) == 0,
        (g.bounds_spec().y_max - g.bounds_spec().y_min) % (g.height_spec() as int) == 0,
    ensures
        g.index_of(g.grid_point(i, j)) == Some(i + g.width_spec() * j),
        g.samples()[i + g.width_spec() * j] == g.cell(i, j),
{
    let b = g.bounds_spec();
    let w = g.width_spec() as int;
    let h = g.height_spec() as int;
    lemma_axis_corner(b.x_min as int, b.x_max as int, w, i);
    lemma_axis_corner(b.y_min as int, b.y_max as int, h, j);
    lemma_corner_in_range(b.x_min as int, b.x_max as int, w, i);
    lemma_corner_in_range(b.y_min as int, b.y_max as int, h, j);
}

/// The lower end of a cell lies within the extent.
proof fn lemma_corner_in_range(lo: int, hi: int, n: int, i: int)
    requires
        lo < hi,
        0 <= i < n,
    ensures
        lo <= lo + i * (hi - lo) / n <= hi,
{
    assert(0 <= i * (hi - lo) <= n * (hi - lo)) by (nonlinear_arith)
        requires
            lo < hi,
            0 <= i < n,
    ;
    vstd::arithmetic::div_mod::lemma_div_is_ordered(i * (hi - lo), n * (hi - lo), n);
    vstd::arithmetic::div_mod::lemma_div_multiples_vanish(hi - lo, n);
    vstd::arithmetic::div_mod::lemma_div_pos_is_pos(i * (hi - lo), n);
}

proof fn lemma_cell_in_grid(i: int, j: int, w: int, h: int)
    requires
        0 <= i < w,
        0 <= j < h,
    ensures
        0 <= i + w * j < w * h,
{
    assert(0 <= i + w * j < w * h) by (nonlinear_arith)
        requires
            0 <= i < w,
            0 <= j < h,
    ;
}

} // verus!
