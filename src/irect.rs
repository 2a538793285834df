use vstd::prelude::*;

verus! {

/// A cell coordinate on the tile grid.
#[derive(Clone, Copy, Debug, PartialEq, Eq, Structural)]
pub struct Point {
    pub x: i32,
    pub y: i32,
}

impl Point {
    pub fn new(x: i32, y: i32) -> (r: Point)
        ensures
            r.x == x,
            r.y == y,
    {
        Point { x, y }
    }
}

/// An axis-aligned rectangle with inclusive corners `(x, y)` and `(xx, yy)`.
#[derive(Clone, Copy, Debug, PartialEq, Eq, Structural)]
pub struct IRect {
    pub x: i32,
    pub y: i32,
    pub xx: i32,
    pub yy: i32,
}

/// Integer division rounding toward zero, as Rust's `/` on signed integers does.
pub open spec fn div_trunc(a: int, b: int) -> int {
    if a >= 0 { a / b } else { -((-a) / b) }
}

/// The centre of a non-empty rectangle with non-negative corners lies in it.
pub proof fn lemma_center_inside(r: IRect)
    requires
        0 <= r.x <= r.xx,
        0 <= r.y <= r.yy,
    ensures
        r.x <= div_trunc(r.x + r.xx, 2) <= r.xx,
        r.y <= div_trunc(r.y + r.yy, 2) <= r.yy,
{
}

impl IRect {
    pub open spec fn spec_width(self) -> int {
        self.xx - self.x + 1
    }

    pub open spec fn spec_height(self) -> int {
        self.yy - self.y + 1
    }

    pub open spec fn spec_contains(self, x: int, y: int) -> bool {
        self.x <= x <= self.xx && self.y <= y <= self.yy
    }

    pub open spec fn spec_overlaps(self, o: IRect) -> bool {
        self.x <= o.xx && self.xx >= o.x && self.y <= o.yy && self.yy >= o.y
    }

    /// The rectangle with corner `(x, y)`, `w` columns and `h` rows.
    pub fn new(x: i32, y: i32, w: i32, h: i32) -> (r: IRect)
        requires
            i32::MIN <= x + w - 1 <= i32::MAX,
            i32::MIN <= y + h - 1 <= i32::MAX,
        ensures
            r.x == x,
            r.y == y,
            r.xx == x + w - 1,
            r.yy == y + h - 1,
    {
        IRect {
            x,
            y,
            xx: (x as i64 + w as i64 - 1) as i32,
            yy: (y as i64 + h as i64 - 1) as i32,
        }
    }

    /// Every cell of the rectangle, row by row.
    pub fn iter(&self) -> (r: Vec<(i32, i32)>)
        requires
            self.x <= self.xx + 1,
            self.y <= self.yy + 1,
            self.xx < i32::MAX,
            self.yy < i32::MAX,
        ensures
            r@.len() == self.spec_width() * self.spec_height(),
            forall|i: int|
                0 <= i < r@.len() ==> (#[trigger] r@[i]).0 == self.x + i % self.spec_width() && r@[i].1
                    == self.y + i / self.spec_width(),
    {
        let mut r: Vec<(i32, i32)> = Vec::new();
        let ghost w = self.spec_width();
        let mut y = self.y;
        while y <= self.yy
            invariant
                self.x <= self.xx + 1,
                self.xx < i32::MAX,
                self.yy < i32::MAX,
                self.y <= y <= self.yy + 1,
                w == self.spec_width(),
                r@.len() == (y - self.y) * w,
                forall|i: int|
                    0 <= i < r@.len() ==> (#[trigger] r@[i]).0 == self.x + i % w && r@[i].1 == self.y + i / w,
            decreases self.yy + 1 - y,
        {
            let mut x = self.x;
            while x <= self.xx
                invariant
                    self.x <= x <= self.xx + 1,
                    self.xx < i32::MAX,
                    self.y <= y <= self.yy,
                    w == self.spec_width(),
                    r@.len() == (y - self.y) * w + (x - self.x),
                    forall|i: int|
                        0 <= i < r@.len() ==> (#[trigger] r@[i]).0 == self.x + i % w && r@[i].1 == self.y + i / w,
                decreases self.xx + 1 - x,
            {
                proof {
                    let i = (y - self.y) * w + (x - self.x);
                    assert(i % w == x - self.x && i / w == y - self.y) by (nonlinear_arith)
                        requires
                            i == (y - self.y) * w + (x - self.x),
                            0 <= x - self.x < w,
                            0 <= y - self.y,
                    ;
                }
                r.push((x, y));
                x += 1;
            }
            proof {
                assert((y - self.y) * w + w == (y + 1 - self.y) * w) by (nonlinear_arith);
            }
            y += 1;
        }
        proof {
            assert((y - self.y) * w == self.spec_width() * self.spec_height()) by (nonlinear_arith)
                requires
                    y == self.yy + 1,
                    w == self.spec_width(),
            ;
        }
        r
    }

    pub fn width(&self) -> (r: i32)
        requires
            i32::MIN <= self.spec_width() <= i32::MAX,
        ensures
            r == self.spec_width(),
    {
        (self.xx as i64 - self.x as i64 + 1) as i32
    }

    pub fn height(&self) -> (r: i32)
        requires
            i32::MIN <= self.spec_height() <= i32::MAX,
        ensures
            r == self.spec_height(),
    {
        (self.yy as i64 - self.y as i64 + 1) as i32
    }

    pub fn overlaps(&self, other: &IRect) -> (r: bool)
        ensures
            r == self.spec_overlaps(*other),
    {
        self.x <= other.xx && self.xx >= other.x && self.y <= other.yy && self.yy >= other.y
    }

    /// The common part of two rectangles, or `None` where they do not overlap.
    pub fn intersection(&self, other: &IRect) -> (r: Option<IRect>)
        ensures
            self.spec_overlaps(*other) <==> r.is_some(),
            r matches Some(i) ==> {
                &&& i.x == if self.x >= other.x { self.x } else { other.x }
                &&& i.y == if self.y >= other.y { self.y } else { other.y }
                &&& i.xx == if self.xx <= other.xx { self.xx } else { other.xx }
                &&& i.yy == if self.yy <= other.yy { self.yy } else { other.yy }
                &&& forall|x: int, y: int|
                    i.spec_contains(x, y) <==> self.spec_contains(x, y) && other.spec_contains(x, y)
            },
    {
        if self.overlaps(other) {
            Some(
                IRect {
                    x: if self.x >= other.x { self.x } else { other.x },
                    y: if self.y >= other.y { self.y } else { other.y },
                    xx: if self.xx <= other.xx { self.xx } else { other.xx },
                    yy: if self.yy <= other.yy { self.yy } else { other.yy },
                },
            )
        } else {
            None
        }
    }

    pub fn contains(&self, x: i32, y: i32) -> (r: bool)
        ensures
            r == self.spec_contains(x as int, y as int),
    {
        self.x <= x && self.y <= y && x <= self.xx && y <= self.yy
    }

    /// The middle cell, each coordinate halved toward zero.
    pub fn center(&self) -> (r: (i32, i32))
        ensures
            r.0 == div_trunc(self.x + self.xx, 2),
            r.1 == div_trunc(self.y + self.yy, 2),
    {
        let cx = ((self.x as i64 + self.xx as i64) / 2) as i32;
        let cy = ((self.y as i64 + self.yy as i64) / 2) as i32;
        (cx, cy)
    }
}

} // verus!
