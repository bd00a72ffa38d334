use crate::point::Point;
use vstd::prelude::*;

verus! {

/// An axis-aligned rectangle `[xmin, ymin, xmax, ymax]` of the integer plane,
/// with `xmin < xmax` and `ymin < ymax`.
pub struct Rect([i32; 4]);

impl Rect {
    pub closed spec fn spec_xmin(&self) -> int {
        self.0[0] as int
    }

    pub closed spec fn spec_ymin(&self) -> int {
        self.0[1] as int
    }

    pub closed spec fn spec_xmax(&self) -> int {
        self.0[2] as int
    }

    pub closed spec fn spec_ymax(&self) -> int {
        self.0[3] as int
    }

    /// Both sides have positive length.
    pub open spec fn wf(&self) -> bool {
        self.spec_xmin() < self.spec_xmax() && self.spec_ymin() < self.spec_ymax()
    }

    /// `p` lies inside or on the border.
    pub open spec fn spec_contains(&self, p: Point) -> bool {
        self.spec_xmin() <= p.x <= self.spec_xmax() && self.spec_ymin() <= p.y <= self.spec_ymax()
    }

    /// The square of the distance from `p` to the nearest point of the rectangle.
    pub open spec fn spec_distance_squared_to(&self, p: Point) -> int {
        let dx = if p.x < self.spec_xmin() {
            p.x - self.spec_xmin()
        } else if p.x > self.spec_xmax() {
            p.x - self.spec_xmax()
        } else {
            0
        };
        let dy = if p.y < self.spec_ymin() {
            p.y - self.spec_ymin()
        } else if p.y > self.spec_ymax() {
            p.y - self.spec_ymax()
        } else {
            0
        };
        dx * dx + dy * dy
    }

    pub fn new(bounds: [i32; 4]) -> (r: Rect)
        requires
            bounds[0] < bounds[2],
            bounds[1] < bounds[3],
        ensures
            r.wf(),
            r.spec_xmin() == bounds[0],
            r.spec_ymin() == bounds[1],
            r.spec_xmax() == bounds[2],
            r.spec_ymax() == bounds[3],
    {
        Rect(bounds)
    }

    pub fn xmin(&self) -> (v: i32)
        ensures
            v == self.spec_xmin(),
    {
        self.0[0]
    }

    pub fn ymin(&self) -> (v: i32)
        ensures
            v == self.spec_ymin(),
    {
        self.0[1]
    }

    pub fn xmax(&self) -> (v: i32)
        ensures
            v == self.spec_xmax(),
    {
        self.0[2]
    }

    pub fn ymax(&self) -> (v: i32)
        ensures
            v == self.spec_ymax(),
    {
        self.0[3]
    }

    /// The same rectangle as its corner `(xmin, ymin)`, width and height.
    pub fn as_rect_wh(&self) -> (r: [i64; 4])
        ensures
            r[0] == self.spec_xmin(),
            r[1] == self.spec_ymin(),
            r[2] == self.spec_xmax() - self.spec_xmin(),
            r[3] == self.spec_ymax() - self.spec_ymin(),
    {
        let xmin = self.xmin() as i64;
        let ymin = self.ymin() as i64;
        [xmin, ymin, self.xmax() as i64 - xmin, self.ymax() as i64 - ymin]
    }

    pub fn contains(&self, p: &Point) -> (r: bool)
        ensures
            r == self.spec_contains(*p),
    {
        p.x >= self.xmin() && p.x <= self.xmax() && p.y >= self.ymin() && p.y <= self.ymax()
    }

    pub fn intersects(&self, that: &Rect) -> (r: bool)
        ensures
            r == (self.spec_xmax() >= that.spec_xmin() && self.spec_ymax() >= that.spec_ymin()
                && that.spec_xmax() >= self.spec_xmin() && that.spec_ymax() >= self.spec_ymin()),
    {
        self.xmax() >= that.xmin() && self.ymax() >= that.ymin() && that.xmax() >= self.xmin()
            && that.ymax() >= self.ymin()
    }

    /// The square of the distance from `p` to the nearest point of the rectangle.
    pub fn distance_squared_to(&self, p: &Point) -> (d: i128)
        ensures
            d == self.spec_distance_squared_to(*p),
    {
        let px = p.x as i128;
        let py = p.y as i128;
        let dx: i128 = if px < self.xmin() as i128 {
            px - self.xmin() as i128
        } else if px > self.xmax() as i128 {
            px - self.xmax() as i128
        } else {
            0
        };
        let dy: i128 = if py < self.ymin() as i128 {
            py - self.ymin() as i128
        } else if py > self.ymax() as i128 {
            py - self.ymax() as i128
        } else {
            0
        };
        assert(dx * dx <= 0x1_0000_0000 * 0x1_0000_0000) by (nonlinear_arith)
            requires
                -0x1_0000_0000 <= dx <= 0x1_0000_0000,
        ;
        assert(dy * dy <= 0x1_0000_0000 * 0x1_0000_0000) by (nonlinear_arith)
            requires
                -0x1_0000_0000 <= dy <= 0x1_0000_0000,
        ;
        assert(dx * dx >= 0 && dy * dy >= 0) by (nonlinear_arith);
        dx * dx + dy * dy
    }
}

} // verus!
