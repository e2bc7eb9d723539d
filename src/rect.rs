//! Axis-aligned rectangles and points on an integer grid.
use vstd::prelude::*;

verus! {

/// A point on the integer grid.
#[derive(Clone, Copy, Debug, PartialEq, Eq, Structural)]
pub struct Point {
    pub x: i32,
    pub y: i32,
}

/// An axis-aligned rectangle `[x_min, x_max] x [y_min, y_max]`, bounds included.
#[derive(Clone, Copy, Debug, PartialEq, Eq, Structural)]
pub struct Rect {
    pub x_min: i32,
    pub x_max: i32,
    pub y_min: i32,
    pub y_max: i32,
}

pub open spec fn min_i(a: int, b: int) -> int {
    if a <= b { a } else { b }
}

pub open spec fn max_i(a: int, b: int) -> int {
    if a >= b { a } else { b }
}

impl Point {
    pub fn new(x: i32, y: i32) -> (r: Point)
        ensures
            r.x == x,
            r.y == y,
    {
        Point { x, y }
    }
}

impl Rect {
    /// Both extents are ordered.
    pub open spec fn valid(self) -> bool {
        self.x_min <= self.x_max && self.y_min <= self.y_max
    }

    pub open spec fn intersects_spec(self, o: Rect) -> bool {
        !(self.x_max < o.x_min || self.x_min > o.x_max || self.y_max < o.y_min || self.y_min
            > o.y_max)
    }

    pub open spec fn contains_spec(self, o: Rect) -> bool {
        self.x_min <= o.x_min && self.x_max >= o.x_max && self.y_min <= o.y_min && self.y_max
            >= o.y_max
    }

    pub open spec fn contains_point_spec(self, p: Point) -> bool {
        self.x_min <= p.x && p.x <= self.x_max && self.y_min <= p.y && p.y <= self.y_max
    }

    /// The point lies in the rectangle and on one of its four edges.
    pub open spec fn on_boundary(self, p: Point) -> bool {
        self.contains_point_spec(p) && (p.x == self.x_min || p.x == self.x_max || p.y
            == self.y_min || p.y == self.y_max)
    }

    /// The point lies in the rectangle and on none of its edges.
    pub open spec fn strictly_inside(self, p: Point) -> bool {
        self.x_min < p.x && p.x < self.x_max && self.y_min < p.y && p.y < self.y_max
    }

    /// The smallest rectangle holding both.
    pub open spec fn combine_spec(self, o: Rect) -> Rect {
        Rect {
            x_min: min_i(self.x_min as int, o.x_min as int) as i32,
            x_max: max_i(self.x_max as int, o.x_max as int) as i32,
            y_min: min_i(self.y_min as int, o.y_min as int) as i32,
            y_max: max_i(self.y_max as int, o.y_max as int) as i32,
        }
    }

    /// Midpoint of each extent, rounded towards the lower bound.
    pub open spec fn mid_x(self) -> int {
        self.x_min + (self.x_max - self.x_min) / 2
    }

    pub open spec fn mid_y(self) -> int {
        self.y_min + (self.y_max - self.y_min) / 2
    }

    /// Quadrant `i` in the order (low x, low y), (low x, high y), (high x, low y),
    /// (high x, high y); neighbouring quadrants share their middle line.
    pub open spec fn quadrant(self, i: int) -> Rect {
        let (x0, x1) = if i < 2 {
            (self.x_min, self.mid_x() as i32)
        } else {
            (self.mid_x() as i32, self.x_max)
        };
        let (y0, y1) = if i % 2 == 0 {
            (self.y_min, self.mid_y() as i32)
        } else {
            (self.mid_y() as i32, self.y_max)
        };
        Rect { x_min: x0, x_max: x1, y_min: y0, y_max: y1 }
    }

    /// Distance along the axis that is farthest out: negative inside, zero on an
    /// edge, positive outside.
    pub open spec fn signed_distance_spec(self, p: Point) -> int {
        max_i(
            max_i(self.x_min - p.x, p.x - self.x_max),
            max_i(self.y_min - p.y, p.y - self.y_max),
        )
    }

    pub fn new(x_min: i32, x_max: i32, y_min: i32, y_max: i32) -> (r: Rect)
        requires
            x_min <= x_max,
            y_min <= y_max,
        ensures
            r == (Rect { x_min, x_max, y_min, y_max }),
            r.valid(),
    {
        Rect { x_min, x_max, y_min, y_max }
    }

    /// The rectangle that holds the single point `p`.
    pub fn from_point(p: Point) -> (r: Rect)
        ensures
            r == (Rect { x_min: p.x, x_max: p.x, y_min: p.y, y_max: p.y }),
            r.valid(),
    {
        Rect { x_min: p.x, x_max: p.x, y_min: p.y, y_max: p.y }
    }

    pub fn intersects(&self, other: &Rect) -> (r: bool)
        ensures
            r == self.intersects_spec(*other),
    {
        !(self.x_max < other.x_min || self.x_min > other.x_max || self.y_max < other.y_min
            || self.y_min > other.y_max)
    }

    pub fn contains(&self, other: &Rect) -> (r: bool)
        ensures
            r == self.contains_spec(*other),
    {
        self.x_min <= other.x_min && self.x_max >= other.x_max && self.y_min <= other.y_min
            && self.y_max >= other.y_max
    }

    pub fn contains_point(&self, p: Point) -> (r: bool)
        ensures
            r == self.contains_point_spec(p),
    {
        self.x_min <= p.x && self.x_max >= p.x && self.y_min <= p.y && self.y_max >= p.y
    }

    pub fn combine(self, other: Rect) -> (r: Rect)
        ensures
            r == self.combine_spec(other),
            self.valid() ==> r.valid(),
            r.contains_spec(self),
            r.contains_spec(other),
    {
        Rect {
            x_min: if self.x_min <= other.x_min { self.x_min } else { other.x_min },
            x_max: if self.x_max >= other.x_max { self.x_max } else { other.x_max },
            y_min: if self.y_min <= other.y_min { self.y_min } else { other.y_min },
            y_max: if self.y_max >= other.y_max { self.y_max } else { other.y_max },
        }
    }

    /// The tight bounding rectangle of a non-empty list of points.
    pub fn from_points(points: &Vec<Point>) -> (r: Rect)
        requires
            points@.len() > 0,
        ensures
            r.valid(),
            forall|i: int| 0 <= i < points@.len() ==> r.contains_point_spec(#[trigger] points@[i]),
            exists|i: int| 0 <= i < points@.len() && points@[i].x == r.x_min,
            exists|i: int| 0 <= i < points@.len() && points@[i].x == r.x_max,
            exists|i: int| 0 <= i < points@.len() && points@[i].y == r.y_min,
            exists|i: int| 0 <= i < points@.len() && points@[i].y == r.y_max,
    {
        let mut r = Rect::from_point(points[0]);
        let mut k: usize = 1;
        while k < points.len()
            invariant
                1 <= k <= points@.len(),
                r.valid(),
                forall|i: int| 0 <= i < k ==> r.contains_point_spec(#[trigger] points@[i]),
                exists|i: int| 0 <= i < k && points@[i].x == r.x_min,
                exists|i: int| 0 <= i < k && points@[i].x == r.x_max,
                exists|i: int| 0 <= i < k && points@[i].y == r.y_min,
                exists|i: int| 0 <= i < k && points@[i].y == r.y_max,
            decreases points@.len() - k,
        {
            let p = points[k];
            if p.x < r.x_min {
                r.x_min = p.x;
            }
            if p.x > r.x_max {
                r.x_max = p.x;
            }
            if p.y < r.y_min {
                r.y_min = p.y;
            }
            if p.y > r.y_max {
                r.y_max = p.y;
            }
            k = k + 1;
        }
        r
    }

    pub fn translate(self, v: Point) -> (r: Rect)
        requires
            i32::MIN <= self.x_min + v.x <= i32::MAX,
            i32::MIN <= self.x_max + v.x <= i32::MAX,
            i32::MIN <= self.y_min + v.y <= i32::MAX,
            i32::MIN <= self.y_max + v.y <= i32::MAX,
        ensures
            r == (Rect {
                x_min: (self.x_min + v.x) as i32,
                x_max: (self.x_max + v.x) as i32,
                y_min: (self.y_min + v.y) as i32,
                y_max: (self.y_max + v.y) as i32,
            }),
            self.valid() ==> r.valid(),
    {
        Rect {
            x_min: self.x_min + v.x,
            x_max: self.x_max + v.x,
            y_min: self.y_min + v.y,
            y_max: self.y_max + v.y,
        }
    }

    /// Moves every side outwards by `radius`; a negative radius shrinks the
    /// rectangle, as far as it stays a rectangle.
    pub fn add_radius(self, radius: i32) -> (r: Rect)
        requires
            self.x_min - radius <= self.x_max + radius,
            self.y_min - radius <= self.y_max + radius,
            i32::MIN <= self.x_min - radius <= i32::MAX,
            i32::MIN <= self.x_max + radius <= i32::MAX,
            i32::MIN <= self.y_min - radius <= i32::MAX,
            i32::MIN <= self.y_max + radius <= i32::MAX,
        ensures
            r == (Rect {
                x_min: (self.x_min - radius) as i32,
                x_max: (self.x_max + radius) as i32,
                y_min: (self.y_min - radius) as i32,
                y_max: (self.y_max + radius) as i32,
            }),
            r.valid(),
            radius >= 0 ==> r.contains_spec(self),
            radius <= 0 ==> self.contains_spec(r),
    {
        Rect::new(self.x_min - radius, self.x_max + radius, self.y_min - radius, self.y_max + radius)
    }

    pub fn width(&self) -> (r: u32)
        requires
            self.valid(),
        ensures
            r == self.x_max - self.x_min,
    {
        (self.x_max as i64 - self.x_min as i64) as u32
    }

    pub fn height(&self) -> (r: u32)
        requires
            self.valid(),
        ensures
            r == self.y_max - self.y_min,
    {
        (self.y_max as i64 - self.y_min as i64) as u32
    }

    pub fn get_center(&self) -> (r: Point)
        requires
            self.valid(),
        ensures
            r.x == self.mid_x(),
            r.y == self.mid_y(),
            self.contains_point_spec(r),
    {
        let hx = (self.x_max as i64 - self.x_min as i64) / 2;
        let hy = (self.y_max as i64 - self.y_min as i64) / 2;
        Point { x: (self.x_min as i64 + hx) as i32, y: (self.y_min as i64 + hy) as i32 }
    }

    /// The four quadrants, in the order of `quadrant`.
    pub fn get_quadrants(&self) -> (r: [Rect; 4])
        requires
            self.valid(),
        ensures
            forall|i: int| 0 <= i < 4 ==> r@[i] == self.quadrant(i),
            forall|i: int| 0 <= i < 4 ==> (#[trigger] r@[i]).valid() && self.contains_spec(r@[i]),
    {
        let c = self.get_center();
        [
            Rect { x_min: self.x_min, x_max: c.x, y_min: self.y_min, y_max: c.y },
            Rect { x_min: self.x_min, x_max: c.x, y_min: c.y, y_max: self.y_max },
            Rect { x_min: c.x, x_max: self.x_max, y_min: self.y_min, y_max: c.y },
            Rect { x_min: c.x, x_max: self.x_max, y_min: c.y, y_max: self.y_max },
        ]
    }

    pub fn signed_distance(&self, p: Point) -> (r: i64)
        ensures
            r == self.signed_distance_spec(p),
    {
        let dx1 = self.x_min as i64 - p.x as i64;
        let dx2 = p.x as i64 - self.x_max as i64;
        let dy1 = self.y_min as i64 - p.y as i64;
        let dy2 = p.y as i64 - self.y_max as i64;
        let dx = if dx1 >= dx2 { dx1 } else { dx2 };
        let dy = if dy1 >= dy2 { dy1 } else { dy2 };
        if dx >= dy { dx } else { dy }
    }
}

/// The signed distance to a valid rectangle is zero exactly on its edges, positive
/// exactly outside it and negative exactly in its interior.
pub proof fn lemma_signed_distance_sign(r: Rect, p: Point)
    requires
        r.valid(),
    ensures
        (r.signed_distance_spec(p) == 0) <==> r.on_boundary(p),
        (r.signed_distance_spec(p) > 0) <==> !r.contains_point_spec(p),
        (r.signed_distance_spec(p) < 0) <==> r.strictly_inside(p),
{
}

} // verus!
