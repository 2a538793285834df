use vstd::prelude::*;
use crate::base_map::{BaseMap, on_map};
use crate::grid::Grid;
use crate::irect::Point;
use crate::bfs::adjacent_cells;

verus! {

/// The largest sight radius that `compute_fov` accepts.
pub const MAX_FOV_RANGE: i32 = 65536;

/// Squared Euclidean distance between two cells.
pub open spec fn sq_dist(a: Point, b: Point) -> int {
    (a.x - b.x) * (a.x - b.x) + (a.y - b.y) * (a.y - b.y)
}

/// The cells found visible so far: each on the map, within `range` of
/// `origin`, flagged in `seen`, and listed once.
pub open spec fn visible_ok(
    out: Seq<Point>,
    seen: Grid<bool>,
    size: (int, int),
    origin: Point,
    range: int,
) -> bool {
    &&& seen.wf()
    &&& seen.spec_width() == size.0
    &&& seen.spec_height() == size.1
    &&& forall|i: int|
        0 <= i < out.len() ==> {
            &&& on_map(size, #[trigger] out[i])
            &&& sq_dist(out[i], origin) <= range * range
            &&& seen.at(out[i].x as int, out[i].y as int)
        }
    &&& forall|i: int, j: int| 0 <= i < j < out.len() ==> out[i] != out[j]
    &&& forall|p: Point|
        on_map(size, p) && #[trigger] seen.at(p.x as int, p.y as int) ==> out.contains(p)
}

/// `seen` flags at least the cells that `before` flags.
pub open spec fn seen_grows(before: Grid<bool>, after: Grid<bool>, size: (int, int)) -> bool {
    forall|p: Point|
        on_map(size, p) && before.at(p.x as int, p.y as int) ==> #[trigger] after.at(
            p.x as int,
            p.y as int,
        )
}

/// The `num / den` of a slope; `den` is positive.
#[derive(Clone, Copy)]
struct Fraction {
    num: i64,
    den: i64,
}

spec fn frac_ok(f: Fraction) -> bool {
    &&& 1 <= f.den <= 2 * MAX_FOV_RANGE
    &&& -(2 * MAX_FOV_RANGE + 1) <= f.num <= 2 * MAX_FOV_RANGE + 1
}

/// `a / b` rounded up, for positive `b`.
spec fn ceil_div(a: int, b: int) -> int {
    -((-a) / b)
}

impl Fraction {
    fn new(num: i64, den: i64) -> (r: Fraction)
        requires
            den > 0,
        ensures
            r.num == num,
            r.den == den,
    {
        Fraction { num, den }
    }

    /// The nearest integer, halves going up.
    fn round_ties_up(&self) -> (r: i64)
        requires
            self.den >= 1,
            -0x1000_0000_0000 <= self.num <= 0x1000_0000_0000,
            self.den <= 0x1000_0000_0000,
        ensures
            r == (2 * self.num + self.den) / (2 * self.den),
    {
        let (a, b) = (self.num, self.den);
        if 2 * a + b >= 0 {
            (2 * a + b) / (2 * b)
        } else {
            let r = -((-(2 * a + b) + 2 * b - 1) / (2 * b));
            proof {
                let x = 2 * a + b;
                let y = 2 * b;
                assert(-((-x + y - 1) / y) == x / y) by (nonlinear_arith)
                    requires
                        x < 0,
                        y > 0,
                ;
            }
            r
        }
    }

    /// The nearest integer, halves going down.
    fn round_ties_down(&self) -> (r: i64)
        requires
            self.den >= 1,
            -0x1000_0000_0000 <= self.num <= 0x1000_0000_0000,
            self.den <= 0x1000_0000_0000,
        ensures
            r == ceil_div(2 * self.num - self.den, 2 * self.den),
    {
        let (a, b) = (self.num, self.den);
        if 2 * a - b >= 0 {
            let r = (2 * a + b - 1) / (2 * b);
            proof {
                let x = 2 * a - b;
                let y = 2 * b;
                assert((x + y - 1) / y == -((-x) / y)) by (nonlinear_arith)
                    requires
                        x >= 0,
                        y > 0,
                ;
            }
            r
        } else {
            -((b - 2 * a) / (2 * b))
        }
    }

    /// This fraction with its numerator multiplied by `k`.
    fn mult(self, k: i64) -> (r: Fraction)
        requires
            -0x1000_0000 <= self.num <= 0x1000_0000,
            0 <= k <= 0x1000_0000,
        ensures
            r.num == self.num * k,
            r.den == self.den,
    {
        proof {
            assert(-0x100_0000_0000_0000 <= self.num * k <= 0x100_0000_0000_0000) by (nonlinear_arith)
                requires
                    -0x1000_0000 <= self.num <= 0x1000_0000,
                    0 <= k <= 0x1000_0000,
            ;
        }
        Fraction { num: self.num * k, den: self.den }
    }
}

/// The slope of the left edge of column `col` at `depth`.
fn slope(col: i64, depth: i64) -> (r: Fraction)
    requires
        1 <= depth <= MAX_FOV_RANGE,
        -MAX_FOV_RANGE <= col <= MAX_FOV_RANGE,
    ensures
        r.num == 2 * col - 1,
        r.den == 2 * depth,
        frac_ok(r),
{
    Fraction::new(2 * col - 1, 2 * depth)
}

/// One row of a quadrant scan, between two slopes.
#[derive(Clone, Copy)]
struct Row {
    depth: i64,
    start_slope: Fraction,
    end_slope: Fraction,
}

/// Column `c` at `depth` lies within `range` of the origin.
spec fn col_fits(c: int, depth: int, range: int) -> bool {
    c * c + depth * depth <= range * range && -range <= c <= range
}

spec fn row_ok(row: Row, range: int) -> bool {
    &&& 1 <= row.depth
    &&& 0 <= range <= MAX_FOV_RANGE
    &&& row.depth <= MAX_FOV_RANGE
    &&& frac_ok(row.start_slope)
    &&& frac_ok(row.end_slope)
}

/// Whether `(d + 1)^2` is at most `n`.
fn next_square_fits(d: i64, n: i64) -> (r: bool)
    requires
        0 <= d <= 0x80_0000,
    ensures
        r == ((d + 1) * (d + 1) <= n),
{
    proof {
        assert((d + 1) * (d + 1) <= 0x1_0000_0000_0000) by (nonlinear_arith)
            requires
                0 <= d <= 0x80_0000,
        ;
    }
    (d + 1) * (d + 1) <= n
}

/// The first row of a quadrant, spanning the whole quarter.
spec fn first_row(row: Row) -> bool {
    &&& row.depth == 1
    &&& row.start_slope.num == -1
    &&& row.start_slope.den == 1
    &&& row.end_slope.num == 1
    &&& row.end_slope.den == 1
}

/// The first column of row `row` at slope rounding, ties up.
spec fn slope_start(row: Row) -> int {
    (2 * (row.start_slope.num * row.depth) + row.start_slope.den) / (2 * row.start_slope.den)
}

/// The last column of row `row` at slope rounding, ties down.
spec fn slope_end(row: Row) -> int {
    ceil_div(2 * (row.end_slope.num * row.depth) - row.end_slope.den, 2 * row.end_slope.den)
}

/// The columns `[start, end)` of `row` where `d` columns either side of the
/// centre lie within range: none for `d == 0`, else the slopes' columns
/// clipped to `[-d, d]`.
spec fn cols_of(row: Row, d: int) -> (int, int) {
    if d == 0 {
        (0, 0)
    } else {
        (
            if slope_start(row) >= -d { slope_start(row) } else { -d },
            (if slope_end(row) <= d { slope_end(row) } else { d }) + 1,
        )
    }
}

proof fn lemma_isqrt_unique(n: int, a: int, b: int)
    requires
        0 <= a,
        0 <= b,
        a * a <= n < (a + 1) * (a + 1),
        b * b <= n < (b + 1) * (b + 1),
    ensures
        a == b,
{
    if a < b {
        assert((a + 1) * (a + 1) <= b * b) by (nonlinear_arith)
            requires
                0 <= a < b,
        ;
    } else if b < a {
        assert((b + 1) * (b + 1) <= a * a) by (nonlinear_arith)
            requires
                0 <= b < a,
        ;
    }
}

/// The largest `d` with `d * d <= n`.
fn isqrt(n: i64) -> (d: i64)
    requires
        0 <= n <= 0x4000_0000_0000,
    ensures
        0 <= d,
        d * d <= n,
        n < (d + 1) * (d + 1),
{
    let mut d: i64 = 0;
    while next_square_fits(d, n)
        invariant
            0 <= d <= 0x80_0000,
            d * d <= n,
            n <= 0x4000_0000_0000,
        decreases n - d,
    {
        proof {
            assert(d <= 0x80_0000) by (nonlinear_arith)
                requires
                    0 <= d,
                    d * d <= 0x4000_0000_0000,
            ;
            assert((d + 1) * (d + 1) <= 0x1_0000_0000_0000) by (nonlinear_arith)
                requires
                    0 <= d <= 0x80_0000,
            ;
            assert(d + 1 <= (d + 1) * (d + 1)) by (nonlinear_arith)
                requires
                    0 <= d,
            ;
        }
        d = d + 1;
        proof {
            assert(d <= 0x80_0000) by (nonlinear_arith)
                requires
                    0 <= d,
                    d * d <= 0x4000_0000_0000,
            ;
        }
    }
    d
}

impl Row {
    fn new(depth: i64, start_slope: Fraction, end_slope: Fraction) -> (r: Row)
        ensures
            r.depth == depth,
            r.start_slope == start_slope,
            r.end_slope == end_slope,
    {
        Row { depth, start_slope, end_slope }
    }

    /// The half-open column range `[start, end)` scanned in this row: the
    /// columns within `range` of the origin and within the row's slopes.
    fn cols(&self, range: i64) -> (r: (i64, i64))
        requires
            row_ok(*self, range as int),
        ensures
            r.0 < r.1 ==> self.depth < range,
            forall|c: int| r.0 <= c < r.1 ==> #[trigger] col_fits(c, self.depth as int, range as int),
            first_row(*self) && range >= 2 ==> r == (-1i64, 2i64),
            r.0 < r.1 ==> r.0 >= (2 * (self.start_slope.num * self.depth) + self.start_slope.den) / (2
                * self.start_slope.den),
            r.0 < r.1 ==> r.1 - 1 <= ceil_div(
                2 * (self.end_slope.num * self.depth) - self.end_slope.den,
                2 * self.end_slope.den,
            ),
            self.depth >= range ==> r == (0i64, 0i64),
            full_row(*self) && self.depth < range ==> {
                &&& r.0 + r.1 == 1
                &&& r.1 >= 2
                &&& r.0 >= -self.depth
                &&& r.1 - 1 <= self.depth
                &&& forall|c: int|
                    -self.depth <= c <= self.depth && #[trigger] col_fits(c, self.depth as int, range as int) ==> r.0
                        <= c < r.1
            },
            forall|d: int|
                self.depth < range && 0 <= d && d * d <= range * range - self.depth * self.depth < (d + 1) * (
                d + 1) ==> #[trigger] cols_of(*self, d) == (r.0 as int, r.1 as int),
    {
        if self.depth >= range {
            return (0, 0);
        }
        proof {
            assert(range * range <= 0x1_0000_0000) by (nonlinear_arith)
                requires
                    0 <= range <= MAX_FOV_RANGE,
            ;
            assert(self.depth * self.depth <= range * range) by (nonlinear_arith)
                requires
                    1 <= self.depth < range,
            ;
        }
        let d = isqrt(range * range - self.depth * self.depth);
        proof {
            if first_row(*self) && range >= 2 {
                assert(self.depth * self.depth == 1) by (nonlinear_arith)
                    requires
                        self.depth == 1,
                ;
                assert(range * range - 1 >= 3) by (nonlinear_arith)
                    requires
                        range >= 2,
                ;
                if d == 0 {
                    assert((d + 1) * (d + 1) == 1);
                    assert(false);
                }
            }
        }
        if d == 0 {
            proof {
                assert(range * range - self.depth * self.depth >= 1) by (nonlinear_arith)
                    requires
                        1 <= self.depth < range,
                ;
                assert((d + 1) * (d + 1) == 1) by (nonlinear_arith)
                    requires
                        d == 0,
                ;
                assert forall|d2: int|
                    self.depth < range && 0 <= d2 && d2 * d2 <= range * range - self.depth * self.depth < (d2 + 1) * (
                    d2 + 1) implies #[trigger] cols_of(*self, d2) == (0int, 0int) by {
                    lemma_isqrt_unique(range * range - self.depth * self.depth, d2, d as int);
                }
            }
            return (0, 0);
        }
        proof {
            assert(d <= range) by (nonlinear_arith)
                requires
                    d * d <= range * range - self.depth * self.depth,
                    0 <= d,
                    0 <= range,
            ;
        }
        proof {
            assert(-0x1000_0000_0000 <= self.start_slope.num * self.depth <= 0x1000_0000_0000)
                by (nonlinear_arith)
                requires
                    -(2 * MAX_FOV_RANGE + 1) <= self.start_slope.num <= 2 * MAX_FOV_RANGE + 1,
                    1 <= self.depth <= MAX_FOV_RANGE,
            ;
            assert(-0x1000_0000_0000 <= self.end_slope.num * self.depth <= 0x1000_0000_0000)
                by (nonlinear_arith)
                requires
                    -(2 * MAX_FOV_RANGE + 1) <= self.end_slope.num <= 2 * MAX_FOV_RANGE + 1,
                    1 <= self.depth <= MAX_FOV_RANGE,
            ;
        }
        let ms = self.start_slope.mult(self.depth);
        let me = self.end_slope.mult(self.depth);
        proof {
            if first_row(*self) {
                assert(ms.num == -1) by (nonlinear_arith)
                    requires
                        ms.num == self.start_slope.num * self.depth,
                        self.start_slope.num == -1,
                        self.depth == 1,
                ;
                assert(me.num == 1) by (nonlinear_arith)
                    requires
                        me.num == self.end_slope.num * self.depth,
                        self.end_slope.num == 1,
                        self.depth == 1,
                ;
                assert((2 * ms.num + ms.den) / (2 * ms.den) == -1);
                assert(ceil_div(2 * me.num - me.den, 2 * me.den) == 1);
            }
        }
        let s = ms.round_ties_up();
        let start = if s >= -d { s } else { -d };
        let e = me.round_ties_down();
        let end = if e <= d { e } else { d };
        proof {
            assert forall|c: int| start <= c < end + 1 implies #[trigger] col_fits(c, self.depth as int, range as int) by {
                assert(c * c <= d * d) by (nonlinear_arith)
                    requires
                        -d <= c <= d,
                ;
            }
        }
        proof {
            assert forall|d2: int|
                self.depth < range && 0 <= d2 && d2 * d2 <= range * range - self.depth * self.depth < (d2 + 1) * (
                d2 + 1) implies #[trigger] cols_of(*self, d2) == (start as int, end + 1) by {
                lemma_isqrt_unique(range * range - self.depth * self.depth, d2, d as int);
            }
        }
        proof {
            if full_row(*self) {
                assert(ms.num == -self.depth) by (nonlinear_arith)
                    requires
                        ms.num == self.start_slope.num * self.depth,
                        self.start_slope.num == -1,
                ;
                assert(me.num == self.depth) by (nonlinear_arith)
                    requires
                        me.num == self.end_slope.num * self.depth,
                        self.end_slope.num == 1,
                ;
                let dd = self.depth as int;
                assert((2 * (-dd) + 1) / 2int == -dd);
                assert(-((-(2 * dd - 1)) / 2int) == dd);
                assert(s == -self.depth);
                assert(e == self.depth);
                assert forall|c: int|
                    -self.depth <= c <= self.depth && #[trigger] col_fits(c, self.depth as int, range as int) implies start
                        <= c < end + 1 by {
                    assert(-d <= c <= d) by (nonlinear_arith)
                        requires
                            c * c <= range * range - self.depth * self.depth,
                            range * range - self.depth * self.depth < (d + 1) * (d + 1),
                            0 <= d,
                    ;
                }
            }
        }
        (start, end + 1)
    }

    fn next(&self) -> (r: Row)
        requires
            self.depth < MAX_FOV_RANGE,
        ensures
            r.depth == self.depth + 1,
            r.start_slope == self.start_slope,
            r.end_slope == self.end_slope,
    {
        Row { depth: self.depth + 1, ..*self }
    }

    /// Whether the centre of column `col` lies between the row's slopes.
    fn is_symmetric(&self, col: i64) -> (r: bool)
        requires
            row_ok(*self, MAX_FOV_RANGE as int),
            -MAX_FOV_RANGE <= col <= MAX_FOV_RANGE,
        ensures
            r == (col * self.start_slope.den >= self.start_slope.num * self.depth && col
                * self.end_slope.den <= self.end_slope.num * self.depth),
    {
        let left = self.start_slope.mult(self.depth);
        let right = self.end_slope.mult(self.depth);
        let c = Fraction::new(col, 1);
        proof {
            assert(-0x10_0000_0000_0000 <= c.num * left.den <= 0x10_0000_0000_0000) by (nonlinear_arith)
                requires
                    -MAX_FOV_RANGE <= c.num <= MAX_FOV_RANGE,
                    1 <= left.den <= 2 * MAX_FOV_RANGE,
            ;
            assert(-0x10_0000_0000_0000 <= c.num * right.den <= 0x10_0000_0000_0000) by (nonlinear_arith)
                requires
                    -MAX_FOV_RANGE <= c.num <= MAX_FOV_RANGE,
                    1 <= right.den <= 2 * MAX_FOV_RANGE,
            ;
        }
        c.num * left.den >= left.num * c.den && c.num * right.den <= right.num * c.den
    }
}

/// The four directions a quadrant scan looks in.
#[derive(Clone, Copy)]
enum Cardinal {
    North,
    East,
    South,
    West,
}

/// A direction together with the origin it is scanned from.
#[derive(Clone, Copy)]
struct Quadrant {
    cardinal: Cardinal,
    origin: Point,
}

spec fn spec_transform(q: Quadrant, col: int, depth: int) -> (int, int) {
    match q.cardinal {
        Cardinal::North => (q.origin.x + col, q.origin.y - depth),
        Cardinal::South => (q.origin.x + col, q.origin.y + depth),
        Cardinal::East => (q.origin.x + depth, q.origin.y + col),
        Cardinal::West => (q.origin.x - depth, q.origin.y + col),
    }
}

impl Quadrant {
    fn all(origin: Point) -> (r: [Quadrant; 4])
        ensures
            forall|i: int| 0 <= i < 4 ==> (#[trigger] r@[i]).origin == origin,
            r@[0].cardinal == Cardinal::North,
            r@[1].cardinal == Cardinal::East,
            r@[2].cardinal == Cardinal::South,
            r@[3].cardinal == Cardinal::West,
    {
        [
            Quadrant { cardinal: Cardinal::North, origin },
            Quadrant { cardinal: Cardinal::East, origin },
            Quadrant { cardinal: Cardinal::South, origin },
            Quadrant { cardinal: Cardinal::West, origin },
        ]
    }

    /// The map cell at column `col` and depth `depth` of this quadrant.
    fn transform(&self, col: i64, depth: i64) -> (r: (i64, i64))
        requires
            -MAX_FOV_RANGE <= col <= MAX_FOV_RANGE,
            0 <= depth <= MAX_FOV_RANGE,
        ensures
            r.0 == spec_transform(*self, col as int, depth as int).0,
            r.1 == spec_transform(*self, col as int, depth as int).1,
    {
        let (ox, oy) = (self.origin.x as i64, self.origin.y as i64);
        match self.cardinal {
            Cardinal::North => (ox + col, oy - depth),
            Cardinal::South => (ox + col, oy + depth),
            Cardinal::East => (ox + depth, oy + col),
            Cardinal::West => (ox - depth, oy + col),
        }
    }
}

/// Whether the cell at `(col, depth)` of the quadrant blocks sight; cells
/// off the map do.
fn opaque_at<M: BaseMap>(map: &M, q: &Quadrant, col: i64, depth: i64) -> (r: bool)
    requires
        map.map_ok(),
        -MAX_FOV_RANGE <= col <= MAX_FOV_RANGE,
        0 <= depth <= MAX_FOV_RANGE,
    ensures
        ({
            let t = spec_transform(*q, col as int, depth as int);
            let p = Point { x: t.0 as i32, y: t.1 as i32 };
            r == if 0 <= t.0 < map.spec_size().0 && 0 <= t.1 < map.spec_size().1 {
                map.spec_opaque(p)
            } else {
                true
            }
        }),
{
    let (x, y) = q.transform(col, depth);
    let (w, h) = map.size();
    if 0 <= x && x < w as i64 && 0 <= y && y < h as i64 {
        map.is_opaque(Point { x: x as i32, y: y as i32 })
    } else {
        true
    }
}

/// Adds the map cell at `(x, y)` to the visible cells unless it is off the map
/// or already listed.
fn mark(
    x: i64,
    y: i64,
    size: (i32, i32),
    out: &mut Vec<Point>,
    seen: &mut Grid<bool>,
    origin: Point,
    range: i64,
)
    requires
        visible_ok(old(out)@, *old(seen), (size.0 as int, size.1 as int), origin, range as int),
        (x - origin.x) * (x - origin.x) + (y - origin.y) * (y - origin.y) <= range * range,
    ensures
        visible_ok(final(out)@, *final(seen), (size.0 as int, size.1 as int), origin, range as int),
        final(out)@.len() >= old(out)@.len(),
        forall|i: int| 0 <= i < old(out)@.len() ==> final(out)@[i] == old(out)@[i],
        seen_grows(*old(seen), *final(seen), (size.0 as int, size.1 as int)),
        0 <= x < size.0 && 0 <= y < size.1 ==> final(seen).at(x as int, y as int),
{
    let ghost sz = (size.0 as int, size.1 as int);
    let ghost seen0 = *seen;
    if 0 <= x && x < size.0 as i64 && 0 <= y && y < size.1 as i64 {
        let p = Point { x: x as i32, y: y as i32 };
        if !*seen.get(p.x, p.y) {
            let ghost before = out@;
            proof {
                crate::grid::lemma_cell_index_bounds(size.0 as int, size.1 as int, p.x as int, p.y as int);
                assert forall|i: int| 0 <= i < before.len() implies before[i] != p by {
                    assert(seen.at(before[i].x as int, before[i].y as int));
                }
            }
            out.push(p);
            seen.set(p.x, p.y, true);
            proof {
                assert forall|q: Point| on_map(sz, q) implies #[trigger] seen.at(q.x as int, q.y as int)
                    == if q == p { true } else { seen0.at(q.x as int, q.y as int) } by {
                    crate::grid::lemma_cell_index_bounds(sz.0, sz.1, q.x as int, q.y as int);
                    if crate::grid::cell_index(sz.0, q.x as int, q.y as int) == crate::grid::cell_index(sz.0, p.x as int, p.y as int) {
                        crate::grid::lemma_cell_index_injective(sz.0, sz.1, q.x as int, q.y as int, p.x as int, p.y as int);
                    }
                }
                assert forall|q: Point| on_map(sz, q) && #[trigger] seen.at(q.x as int, q.y as int) implies out@.contains(q) by {
                    if q == p {
                        assert(out@[before.len() as int] == p);
                    } else {
                        assert(before.contains(q));
                        let j = choose|j: int| 0 <= j < before.len() && before[j] == q;
                        assert(out@[j] == q);
                    }
                }
                assert forall|i: int| 0 <= i < out@.len() implies seen.at(
                    (#[trigger] out@[i]).x as int,
                    out@[i].y as int,
                ) by {
                    if i < before.len() {
                        assert(out@[i] == before[i]);
                        crate::grid::lemma_cell_index_bounds(sz.0, sz.1, out@[i].x as int, out@[i].y as int);
                    }
                }
            }
        } else {
            proof {
                assert(seen.at(p.x as int, p.y as int));
            }
        }
    }
}

/// Column `c` of the first row of quadrant `q` is flagged, where it lies on
/// the map.
spec fn first_row_seen(q: Quadrant, c: int, seen: Grid<bool>, size: (int, int)) -> bool {
    let t = spec_transform(q, c, 1);
    0 <= t.0 < size.0 && 0 <= t.1 < size.1 ==> seen.at(t.0, t.1)
}

proof fn lemma_seen_grows_trans(s1: Grid<bool>, s2: Grid<bool>, s3: Grid<bool>, size: (int, int))
    requires
        seen_grows(s1, s2, size),
        seen_grows(s2, s3, size),
    ensures
        seen_grows(s1, s3, size),
{
    assert forall|p: Point| on_map(size, p) && s1.at(p.x as int, p.y as int) implies #[trigger] s3.at(
        p.x as int,
        p.y as int,
    ) by {
        assert(s2.at(p.x as int, p.y as int));
    }
}

proof fn lemma_first_row_kept(q: Quadrant, c: int, s1: Grid<bool>, s2: Grid<bool>, size: (int, int))
    requires
        first_row_seen(q, c, s1, size),
        seen_grows(s1, s2, size),
        size.0 <= i32::MAX,
        size.1 <= i32::MAX,
    ensures
        first_row_seen(q, c, s2, size),
{
    let t = spec_transform(q, c, 1);
    if 0 <= t.0 < size.0 && 0 <= t.1 < size.1 {
        let p = Point { x: t.0 as i32, y: t.1 as i32 };
        assert(on_map(size, p));
        assert(s2.at(p.x as int, p.y as int));
    }
}

/// Every cell within `range` of `origin` lies on the map and lets sight through.
pub open spec fn open_disc<M: BaseMap>(map: &M, origin: Point, range: int) -> bool {
    &&& 0 <= origin.x - range
    &&& origin.x + range < map.spec_size().0
    &&& 0 <= origin.y - range
    &&& origin.y + range < map.spec_size().1
    &&& forall|p: Point| sq_dist(p, origin) <= range * range ==> !#[trigger] map.spec_opaque(p)
}

/// A row spanning the whole quarter.
spec fn full_row(row: Row) -> bool {
    &&& row.start_slope.num == -1
    &&& row.start_slope.den == 1
    &&& row.end_slope.num == 1
    &&& row.end_slope.den == 1
}

/// Column `c` at depth `d` of quadrant `q` is flagged, where it lies on the map.
spec fn seen_at(q: Quadrant, c: int, d: int, seen: Grid<bool>, size: (int, int)) -> bool {
    let t = spec_transform(q, c, d);
    0 <= t.0 < size.0 && 0 <= t.1 < size.1 ==> seen.at(t.0, t.1)
}

proof fn lemma_seen_at_kept(q: Quadrant, c: int, d: int, s1: Grid<bool>, s2: Grid<bool>, size: (int, int))
    requires
        seen_at(q, c, d, s1, size),
        seen_grows(s1, s2, size),
        size.0 <= i32::MAX,
        size.1 <= i32::MAX,
    ensures
        seen_at(q, c, d, s2, size),
{
    let t = spec_transform(q, c, d);
    if 0 <= t.0 < size.0 && 0 <= t.1 < size.1 {
        let p = Point { x: t.0 as i32, y: t.1 as i32 };
        assert(on_map(size, p));
        assert(s2.at(p.x as int, p.y as int));
    }
}

/// Scans one row of a quadrant and, recursively, the rows behind it.
fn scan<M: BaseMap>(
    map: &M,
    q: &Quadrant,
    range: i64,
    row: Row,
    out: &mut Vec<Point>,
    seen: &mut Grid<bool>,
)
    requires
        map.map_ok(),
        row_ok(row, range as int),
        map.spec_size().0 <= i32::MAX,
        visible_ok(
            old(out)@,
            *old(seen),
            map.spec_size(),
            q.origin,
            range as int,
        ),
    ensures
        visible_ok(final(out)@, *final(seen), map.spec_size(), q.origin, range as int),
        final(out)@.len() >= old(out)@.len(),
        forall|i: int| 0 <= i < old(out)@.len() ==> final(out)@[i] == old(out)@[i],
        seen_grows(*old(seen), *final(seen), map.spec_size()),
        first_row(row) && range >= 2 ==> forall|c: int|
            -1 <= c <= 1 ==> #[trigger] first_row_seen(*q, c, *final(seen), map.spec_size()),
        open_disc(map, q.origin, range as int) && full_row(row) ==> forall|c: int, d: int|
            row.depth <= d < range && -d <= c <= d && c * c + d * d <= range * range ==> #[trigger] seen_at(
                *q,
                c,
                d,
                *final(seen),
                map.spec_size(),
            ),
    decreases range - row.depth,
{
    let size = map.size();
    let ghost sz = map.spec_size();
    let ghost seen0 = *seen;
    let (start, end) = row.cols(range);
    let mut cur = row;
    let mut prev_opaque: Option<bool> = None;
    let mut col = start;
    while col < end
        invariant
            map.map_ok(),
            row_ok(cur, range as int),
            cur.depth == row.depth,
            cur.end_slope == row.end_slope,
            size.0 == map.spec_size().0,
            size.1 == map.spec_size().1,
            start <= col,
            col < end ==> row.depth < range,
            prev_opaque.is_some() ==> row.depth < range,
            forall|c: int| start <= c < end ==> #[trigger] col_fits(c, row.depth as int, range as int),
            visible_ok(out@, *seen, map.spec_size(), q.origin, range as int),
            out@.len() >= old(out)@.len(),
            forall|i: int| 0 <= i < old(out)@.len() ==> out@[i] == old(out)@[i],
            sz == map.spec_size(),
            seen0 == *old(seen),
            seen_grows(seen0, *seen, sz),
            first_row(row) && range >= 2 ==> {
                &&& start == -1
                &&& end == 2
                &&& col <= 2
                &&& cur.start_slope.num <= col * cur.start_slope.den
                &&& forall|c: int| -1 <= c < col ==> #[trigger] first_row_seen(*q, c, *seen, sz)
            },
            open_disc(map, q.origin, range as int) && full_row(row) && row.depth < range ==> {
                &&& cur == row
                &&& prev_opaque != Some(true)
                &&& (col > start ==> prev_opaque == Some(false))
                &&& start + end == 1
                &&& end >= 2
                &&& start >= -row.depth
                &&& end - 1 <= row.depth
                &&& col <= end
                &&& forall|c: int| start <= c < col ==> #[trigger] seen_at(*q, c, row.depth as int, *seen, sz)
            },
        decreases end - col,
    {
        let ghost seen1 = *seen;
        assert(col_fits(col as int, row.depth as int, range as int));
        let opaque = opaque_at(map, q, col, cur.depth);
        proof {
            if open_disc(map, q.origin, range as int) && full_row(row) && row.depth < range {
                let t = spec_transform(*q, col as int, cur.depth as int);
                let pt = Point { x: t.0 as i32, y: t.1 as i32 };
                let (ox, oy) = (q.origin.x as int, q.origin.y as int);
                assert(-range <= col <= range);
                assert((t.0 - ox) * (t.0 - ox) + (t.1 - oy) * (t.1 - oy) == col * col + cur.depth * cur.depth)
                    by (nonlinear_arith)
                    requires
                        (t.0 - ox == col && t.1 - oy == cur.depth) || (t.0 - ox == col && t.1 - oy
                            == -cur.depth) || (t.0 - ox == cur.depth && t.1 - oy == col) || (t.0 - ox
                            == -cur.depth && t.1 - oy == col),
                ;
                assert(sq_dist(pt, q.origin) <= range * range);
                assert(!map.spec_opaque(pt));
                assert(!opaque);
            }
        }
        let sym = cur.is_symmetric(col);
        if opaque || sym {
            let (x, y) = q.transform(col, cur.depth);
            proof {
                let (ox, oy) = (q.origin.x as int, q.origin.y as int);
                assert((x - ox) * (x - ox) + (y - oy) * (y - oy) == col * col + cur.depth * cur.depth)
                    by (nonlinear_arith)
                    requires
                        (x - ox == col && y - oy == cur.depth) || (x - ox == col && y - oy
                            == -cur.depth) || (x - ox == cur.depth && y - oy == col) || (x - ox
                            == -cur.depth && y - oy == col),
                ;
            }
            mark(x, y, size, out, seen, q.origin, range);
        }
        let ghost seen2 = *seen;
        proof {
            lemma_seen_grows_trans(seen0, seen1, seen2, sz);
            if open_disc(map, q.origin, range as int) && full_row(row) && row.depth < range {
                assert(col * cur.start_slope.den >= cur.start_slope.num * cur.depth) by (nonlinear_arith)
                    requires
                        col >= -cur.depth,
                        cur.start_slope.den == 1,
                        cur.start_slope.num == -1,
                ;
                assert(col * cur.end_slope.den <= cur.end_slope.num * cur.depth) by (nonlinear_arith)
                    requires
                        col <= cur.depth,
                        cur.end_slope.den == 1,
                        cur.end_slope.num == 1,
                ;
                assert(sym);
                assert(seen_at(*q, col as int, row.depth as int, seen2, sz));
                assert forall|c: int| start <= c < col implies #[trigger] seen_at(*q, c, row.depth as int, seen2, sz) by {
                    lemma_seen_at_kept(*q, c, row.depth as int, seen1, seen2, sz);
                }
            }
            if first_row(row) && range >= 2 {
                assert(col * cur.start_slope.den >= cur.start_slope.num * cur.depth) by (nonlinear_arith)
                    requires
                        cur.start_slope.num <= col * cur.start_slope.den,
                        cur.depth == 1,
                ;
                assert(col * cur.end_slope.den <= cur.end_slope.num * cur.depth) by (nonlinear_arith)
                    requires
                        col <= 1,
                        cur.end_slope.den == 1,
                        cur.end_slope.num == 1,
                        cur.depth == 1,
                ;
                assert(sym);
                assert(first_row_seen(*q, col as int, seen2, sz));
                assert forall|c: int| -1 <= c < col implies #[trigger] first_row_seen(*q, c, seen2, sz) by {
                    lemma_first_row_kept(*q, c, seen1, seen2, sz);
                }
                assert(cur.start_slope.num <= (col + 1) * cur.start_slope.den) by (nonlinear_arith)
                    requires
                        cur.start_slope.num <= col * cur.start_slope.den,
                        cur.start_slope.den >= 1,
                ;
            }
        }
        if let Some(prev) = prev_opaque {
            if prev && !opaque {
                cur.start_slope = slope(col, cur.depth);
                proof {
                    if first_row(row) {
                        assert(cur.start_slope.num <= (col + 1) * cur.start_slope.den) by (nonlinear_arith)
                            requires
                                cur.start_slope.num == 2 * col - 1,
                                cur.start_slope.den == 2 * cur.depth,
                                cur.depth == 1,
                        ;
                    }
                }
            }
            if !prev && opaque {
                let deeper = Row::new(cur.depth + 1, cur.start_slope, slope(col, cur.depth));
                scan(map, q, range, deeper, out, seen);
            }
        }
        proof {
            lemma_seen_grows_trans(seen0, seen2, *seen, sz);
            if open_disc(map, q.origin, range as int) && full_row(row) && row.depth < range {
                assert forall|c: int| start <= c < col + 1 implies #[trigger] seen_at(*q, c, row.depth as int, *seen, sz) by {
                    lemma_seen_at_kept(*q, c, row.depth as int, seen2, *seen, sz);
                }
            }
            if first_row(row) && range >= 2 {
                assert forall|c: int| -1 <= c < col + 1 implies #[trigger] first_row_seen(*q, c, *seen, sz) by {
                    lemma_first_row_kept(*q, c, seen2, *seen, sz);
                }
            }
        }
        prev_opaque = Some(opaque);
        col = col + 1;
    }
    let ghost seen3 = *seen;
    if prev_opaque == Some(false) {
        scan(map, q, range, cur.next(), out, seen);
    }
    proof {
        if prev_opaque == Some(false) {
            lemma_seen_grows_trans(seen0, seen3, *seen, sz);
        }
        if open_disc(map, q.origin, range as int) && full_row(row) {
            assert forall|c: int, d: int|
                row.depth <= d < range && -d <= c <= d && c * c + d * d <= range * range implies #[trigger] seen_at(
                *q,
                c,
                d,
                *seen,
                sz,
            ) by {
                if d == row.depth {
                    assert(col_fits(c, row.depth as int, range as int));
                    assert(seen_at(*q, c, d, seen3, sz));
                    lemma_seen_at_kept(*q, c, d, seen3, *seen, sz);
                }
            }
        }
        if first_row(row) && range >= 2 {
            assert forall|c: int| -1 <= c <= 1 implies #[trigger] first_row_seen(*q, c, *seen, sz) by {
                lemma_first_row_kept(*q, c, seen3, *seen, sz);
            }
        }
    }
}

/// Marks the cells visible from `origin` within `range` by symmetric
/// shadowcasting over four quadrants, and returns them in the order found,
/// each once, `origin` first. Cells off the map block sight. Every cell is
/// within `range` of `origin`; from a range of 2 on the eight cells around
/// `origin` are always seen; and where the disc of radius `range` lies on
/// the map with nothing in it blocking sight, every cell of it less than
/// `range` away along both axes is seen.
pub fn compute_fov<M: BaseMap>(origin: Point, range: i32, map: &M) -> (r: Vec<Point>)
    requires
        map.map_ok(),
        on_map(map.spec_size(), origin),
        0 <= range <= MAX_FOV_RANGE,
        map.spec_size().0 * map.spec_size().1 <= usize::MAX,
    ensures
        r@.len() >= 1,
        r@[0] == origin,
        forall|i: int|
            0 <= i < r@.len() ==> on_map(map.spec_size(), #[trigger] r@[i]) && sq_dist(
                r@[i],
                origin,
            ) <= range * range,
        forall|i: int, j: int| 0 <= i < j < r@.len() ==> r@[i] != r@[j],
        range >= 2 ==> forall|p: Point|
            on_map(map.spec_size(), p) && #[trigger] adjacent_cells(origin, p) ==> r@.contains(p),
        open_disc(map, origin, range as int) ==> forall|p: Point|
            #[trigger] sq_dist(p, origin) <= range * range && -range < p.x - origin.x < range && -range < p.y
                - origin.y < range ==> r@.contains(p),
{
    let (w, h) = map.size();
    let mut seen = Grid::new(w, h, false);
    let mut out: Vec<Point> = Vec::new();
    let ghost sz = map.spec_size();
    proof {
        assert(sq_dist(origin, origin) == 0);
        crate::grid::lemma_cell_index_bounds(sz.0, sz.1, origin.x as int, origin.y as int);
    }
    let ghost seen0 = seen;
    out.push(origin);
    seen.set(origin.x, origin.y, true);
    proof {
        assert forall|q: Point| on_map(sz, q) && #[trigger] seen.at(q.x as int, q.y as int) implies out@.contains(q) by {
            crate::grid::lemma_cell_index_bounds(sz.0, sz.1, q.x as int, q.y as int);
            if crate::grid::cell_index(sz.0, q.x as int, q.y as int) == crate::grid::cell_index(sz.0, origin.x as int, origin.y as int) {
                crate::grid::lemma_cell_index_injective(sz.0, sz.1, q.x as int, q.y as int, origin.x as int, origin.y as int);
                assert(out@[0] == q);
            } else {
                assert(!seen0.at(q.x as int, q.y as int));
            }
        }
    }
    let quadrants = Quadrant::all(origin);
    let mut i: usize = 0;
    while i < 4
        invariant
            map.map_ok(),
            visible_ok(out@, seen, map.spec_size(), origin, range as int),
            out@.len() >= 1,
            out@[0] == origin,
            0 <= range <= MAX_FOV_RANGE,
            forall|k: int| 0 <= k < 4 ==> (#[trigger] quadrants@[k]).origin == origin,
            quadrants@[0].cardinal == Cardinal::North,
            quadrants@[1].cardinal == Cardinal::East,
            quadrants@[2].cardinal == Cardinal::South,
            quadrants@[3].cardinal == Cardinal::West,
            sz == map.spec_size(),
            i <= 4,
            range >= 2 ==> forall|k: int, c: int|
                0 <= k < i && -1 <= c <= 1 ==> #[trigger] first_row_seen(quadrants@[k], c, seen, sz),
            open_disc(map, origin, range as int) ==> forall|k: int, c: int, d: int|
                0 <= k < i && 1 <= d < range && -d <= c <= d && c * c + d * d <= range * range ==> #[trigger] seen_at(
                    quadrants@[k],
                    c,
                    d,
                    seen,
                    sz,
                ),
        decreases 4 - i,
    {
        let row = Row::new(1, Fraction::new(-1, 1), Fraction::new(1, 1));
        let ghost before = seen;
        scan(map, &quadrants[i], range as i64, row, &mut out, &mut seen);
        proof {
            if range >= 2 {
                assert forall|k: int, c: int|
                    0 <= k < i + 1 && -1 <= c <= 1 implies #[trigger] first_row_seen(quadrants@[k], c, seen, sz) by {
                    if k < i {
                        lemma_first_row_kept(quadrants@[k], c, before, seen, sz);
                    }
                }
            }
            if open_disc(map, origin, range as int) {
                assert forall|k: int, c: int, d: int|
                    0 <= k < i + 1 && 1 <= d < range && -d <= c <= d && c * c + d * d <= range * range implies #[trigger] seen_at(
                    quadrants@[k],
                    c,
                    d,
                    seen,
                    sz,
                ) by {
                    if k < i {
                        lemma_seen_at_kept(quadrants@[k], c, d, before, seen, sz);
                    }
                }
            }
        }
        i += 1;
    }
    proof {
        if open_disc(map, origin, range as int) {
            assert forall|p: Point|
                #[trigger] sq_dist(p, origin) <= range * range && -range < p.x - origin.x < range && -range < p.y
                    - origin.y < range implies out@.contains(p) by {
                let dx = p.x - origin.x;
                let dy = p.y - origin.y;
                assert(on_map(sz, p));
                if p == origin {
                    assert(out@[0] == p);
                } else {
                    let ax = if dx >= 0 { dx } else { -dx };
                    let ay = if dy >= 0 { dy } else { -dy };
                    assert(dx * dx == ax * ax && dy * dy == ay * ay) by (nonlinear_arith)
                        requires
                            ax == dx || ax == -dx,
                            ay == dy || ay == -dy,
                    ;
                    if ay >= ax && dy < 0 {
                        assert(seen_at(quadrants@[0], dx, -dy, seen, sz));
                    } else if ay >= ax {
                        assert(seen_at(quadrants@[2], dx, dy, seen, sz));
                    } else if dx > 0 {
                        assert(seen_at(quadrants@[1], dy, dx, seen, sz));
                    } else {
                        assert(seen_at(quadrants@[3], dy, -dx, seen, sz));
                    }
                    assert(seen.at(p.x as int, p.y as int));
                }
            }
        }
        if range >= 2 {
            assert forall|p: Point| on_map(sz, p) && #[trigger] adjacent_cells(origin, p) implies out@.contains(p) by {
                let dx = p.x - origin.x;
                let dy = p.y - origin.y;
                if dy == -1 {
                    assert(first_row_seen(quadrants@[0], dx, seen, sz));
                } else if dy == 1 {
                    assert(first_row_seen(quadrants@[2], dx, seen, sz));
                } else if dx == 1 {
                    assert(first_row_seen(quadrants@[1], 0, seen, sz));
                } else {
                    assert(first_row_seen(quadrants@[3], 0, seen, sz));
                }
                assert(seen.at(p.x as int, p.y as int));
            }
        }
    }
    out
}

} // verus!
