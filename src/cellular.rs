use vstd::prelude::*;
use crate::builder::MapBuilder;
use crate::bfs::{BFS, adjacent_cells, reach, is_walk, passable, label, exact_distances, lemma_walk_prefix_reach, lemma_reach_source, lemma_reach_step};
use crate::grid::{Grid, cell_index, lemma_cell_index_bounds, lemma_index_cell, lemma_cell_index_injective};
use crate::irect::Point;
use crate::map::{IntermediateMap, LevelMap, TileType};
use crate::rng::random_ratio;
use crate::walk::{walkable, is_walkway, connected};

verus! {

/// Number of cells equal to `t` in row `y` between columns `x0` (included)
/// and `x1` (excluded), of the row-major cells `s` of a grid of width `w`.
pub open spec fn count_in_row(s: Seq<TileType>, w: int, t: TileType, y: int, x0: int, x1: int) -> int
    decreases x1 - x0,
{
    if x1 <= x0 {
        0
    } else {
        count_in_row(s, w, t, y, x0, x1 - 1) + if s[y * w + x1 - 1] == t {
            1int
        } else {
            0
        }
    }
}

/// Number of cells equal to `t` in columns `[x0, x1)` of rows `[y0, y1)`.
pub open spec fn count_in_rect(
    s: Seq<TileType>,
    w: int,
    t: TileType,
    x0: int,
    x1: int,
    y0: int,
    y1: int,
) -> int
    decreases y1 - y0,
{
    if y1 <= y0 {
        0
    } else {
        count_in_rect(s, w, t, x0, x1, y0, y1 - 1) + count_in_row(s, w, t, y1 - 1, x0, x1)
    }
}

/// Walls among the cells within `r` steps of `(x, y)` in both directions,
/// `(x, y)` itself left out, on a `w` by `h` grid: its 8 neighbours for
/// `r == 1`, its 24 for `r == 2`, fewer at the edge of the grid.
pub open spec fn walls_around(s: Seq<TileType>, w: int, h: int, x: int, y: int, r: int) -> int {
    count_in_rect(
        s,
        w,
        TileType::Wall,
        if x - r >= 0 { x - r } else { 0 },
        if x + r < w { x + r + 1 } else { w },
        if y - r >= 0 { y - r } else { 0 },
        if y + r < h { y + r + 1 } else { h },
    ) - if s[y * w + x] == TileType::Wall {
        1int
    } else {
        0
    }
}

/// The smoothing rule for cell `(x, y)`: wall where at least five of its
/// eight neighbours are walls, or, with `sparse`, where at most two of the
/// twenty-four cells within two steps are walls; floor elsewhere.
pub open spec fn smooth_rule(s: Seq<TileType>, w: int, h: int, x: int, y: int, sparse: bool) -> TileType {
    if walls_around(s, w, h, x, y, 1) >= 5 || (sparse && walls_around(s, w, h, x, y, 2) <= 2) {
        TileType::Wall
    } else {
        TileType::Floor
    }
}

/// The `k`-th inner cell of a grid of width `w`, row by row.
pub open spec fn inner_cell(w: int, k: int) -> (int, int) {
    (k % (w - 2) + 1, k / (w - 2) + 1)
}

/// The cells after the first `k` inner cells have been smoothed in place,
/// row by row, each seeing the cells before it already smoothed.
pub open spec fn sweep(s: Seq<TileType>, w: int, h: int, sparse: bool, k: int) -> Seq<TileType>
    decreases k,
{
    if k <= 0 {
        s
    } else {
        let prev = sweep(s, w, h, sparse, k - 1);
        let c = inner_cell(w, k - 1);
        prev.update(c.1 * w + c.0, smooth_rule(prev, w, h, c.0, c.1, sparse))
    }
}

/// Number of entries of `s` equal to `t`.
pub open spec fn count_tile(s: Seq<TileType>, t: TileType) -> int
    decreases s.len(),
{
    if s.len() == 0 {
        0
    } else {
        count_tile(s.drop_last(), t) + if s.last() == t {
            1int
        } else {
            0
        }
    }
}

proof fn lemma_count_tile_positive(s: Seq<TileType>, t: TileType)
    requires
        count_tile(s, t) > 0,
    ensures
        exists|i: int| 0 <= i < s.len() && s[i] == t,
    decreases s.len(),
{
    if s.last() != t {
        lemma_count_tile_positive(s.drop_last(), t);
        let i = choose|i: int| 0 <= i < s.drop_last().len() && s.drop_last()[i] == t;
        assert(s[i] == t);
    } else {
        assert(s[s.len() - 1] == t);
    }
}

/// What a finished level guarantees: the start is walkable and every walkable
/// cell can be reached from it; the down stairs stand somewhere else; and
/// between two and three fifths of the cells are floor.
pub open spec fn accepted(tiles: Grid<TileType>, start: Point) -> bool {
    let n = tiles.spec_width() * tiles.spec_height();
    &&& walkable(tiles, start)
    &&& forall|p: Point| #[trigger] walkable(tiles, p) ==> connected(tiles, start, p)
    &&& exists|e: Point|
        #[trigger] tiles.spec_in_bounds(e.x as int, e.y as int) && tiles.at(e.x as int, e.y as int)
            == TileType::DownStairs && e != start && forall|q: Point|
            tiles.spec_in_bounds(q.x as int, q.y as int) && tiles.at(q.x as int, q.y as int)
                == TileType::DownStairs ==> q == e
    &&& 5 * count_tile(tiles@, TileType::Floor) >= 2 * n
    &&& 5 * count_tile(tiles@, TileType::Floor) <= 3 * n
}

/// `(x, y)` lies off the border of a `w` by `h` grid.
pub open spec fn inner(w: int, h: int, x: int, y: int) -> bool {
    1 <= x < w - 1 && 1 <= y < h - 1
}

/// Every cell on the border of `t` is a wall.
pub open spec fn border_walls(t: Grid<TileType>) -> bool {
    forall|x: int, y: int|
        t.spec_in_bounds(x, y) && !inner(t.spec_width(), t.spec_height(), x, y) ==> #[trigger] t.at(x, y)
            == TileType::Wall
}

/// Every cell of `t` is floor or wall.
pub open spec fn seeded(t: Grid<TileType>) -> bool {
    forall|x: int, y: int|
        t.spec_in_bounds(x, y) ==> (#[trigger] t.at(x, y) == TileType::Floor || t.at(x, y) == TileType::Wall)
}

/// The position of the greatest label, the last one among equals.
fn farthest(g: &Grid<i32>) -> (best: usize)
    requires
        g.wf(),
        g@.len() > 0,
    ensures
        best < g@.len(),
        forall|j: int| 0 <= j < g@.len() ==> g@[j] <= g@[best as int],
        forall|j: int| best < j < g@.len() ==> g@[j] < g@[best as int],
{
    let n = g.len();
    let mut best: usize = 0;
    let mut best_d = g.data[0];
    let mut i: usize = 1;
    while i < n
        invariant
            g.wf(),
            g@.len() == n,
            1 <= i <= n,
            best < i,
            best_d == g@[best as int],
            forall|j: int| 0 <= j < i ==> g@[j] <= best_d,
            forall|j: int| best < j < i ==> g@[j] < best_d,
        decreases n - i,
    {
        if g.data[i] >= best_d {
            best = i;
            best_d = g.data[i];
        }
        i += 1;
    }
    best
}

/// The number of floor cells.
fn count_floor(t: &Grid<TileType>) -> (cnt: usize)
    requires
        t.wf(),
    ensures
        cnt == count_tile(t@, TileType::Floor),
        cnt <= t@.len(),
{
    let n = t.len();
    let mut cnt: usize = 0;
    let mut i: usize = 0;
    while i < n
        invariant
            t.wf(),
            n == t@.len(),
            i <= n,
            cnt <= i,
            cnt == count_tile(t@.subrange(0, i as int), TileType::Floor),
        decreases n - i,
    {
        proof {
            assert(t@.subrange(0, i + 1).drop_last() =~= t@.subrange(0, i as int));
        }
        if t.data[i] == TileType::Floor {
            cnt += 1;
        }
        i += 1;
    }
    proof {
        assert(t@.subrange(0, n as int) =~= t@);
    }
    cnt
}

/// Some cell of `t` is floor.
pub open spec fn has_floor(t: Grid<TileType>) -> bool {
    exists|i: int| 0 <= i < t@.len() && t@[i] == TileType::Floor
}

/// The number of king's moves between `a` and `b`.
pub open spec fn cheb(a: Point, b: Point) -> int {
    let dx = if a.x >= b.x { a.x - b.x } else { b.x - a.x };
    let dy = if a.y >= b.y { a.y - b.y } else { b.y - a.y };
    if dx >= dy { dx } else { dy }
}

proof fn lemma_walk_moves_slowly(open: Grid<bool>, s: Point, path: Seq<Point>, i: int)
    requires
        is_walk(open, seq![s], path),
        0 <= i < path.len(),
    ensures
        cheb(s, path[i]) <= i,
    decreases i,
{
    if i == 0 {
        let j = choose|j: int| 0 <= j < seq![s].len() && seq![s][j] == path[0];
    } else {
        lemma_walk_moves_slowly(open, s, path, i - 1);
        assert(adjacent_cells(path[i - 1], path[i]));
    }
}

/// A cell reached in `k` steps is at most `k` king's moves away.
proof fn lemma_reach_cheb(open: Grid<bool>, s: Point, k: nat, c: Point)
    requires
        reach(open, seq![s], k, c),
    ensures
        cheb(s, c) <= k,
{
    let path = choose|path: Seq<Point>|
        #[trigger] is_walk(open, seq![s], path) && path.len() <= k + 1 && path.last() == c;
    lemma_walk_moves_slowly(open, s, path, path.len() - 1);
}

/// On a grid where every cell is open, each cell is reached in as many steps
/// as king's moves.
proof fn lemma_open_reach(open: Grid<bool>, s: Point, c: Point)
    requires
        open.wf(),
        forall|i: int| 0 <= i < open@.len() ==> open@[i],
        open.spec_in_bounds(s.x as int, s.y as int),
        open.spec_in_bounds(c.x as int, c.y as int),
    ensures
        reach(open, seq![s], cheb(s, c) as nat, c),
    decreases cheb(s, c),
{
    if c == s {
        lemma_reach_source(open, seq![s], 0);
    } else {
        let px = if c.x > s.x { c.x - 1 } else if c.x < s.x { c.x + 1 } else { c.x as int };
        let py = if c.y > s.y { c.y - 1 } else if c.y < s.y { c.y + 1 } else { c.y as int };
        let p = Point { x: px as i32, y: py as i32 };
        assert(cheb(s, p) == cheb(s, c) - 1);
        lemma_open_reach(open, s, p);
        lemma_cell_index_bounds(open.spec_width(), open.spec_height(), c.x as int, c.y as int);
        assert(open@[cell_index(open.spec_width(), c.x as int, c.y as int)]);
        assert(passable(open, c));
        lemma_reach_step(open, seq![s], cheb(s, p) as nat, p, c);
    }
}

/// The cells of `tiles` that are floor.
fn floor_mask(tiles: &Grid<TileType>) -> (r: Grid<bool>)
    requires
        tiles.wf(),
    ensures
        r.wf(),
        r.spec_width() == tiles.spec_width(),
        r.spec_height() == tiles.spec_height(),
        forall|i: int| 0 <= i < r@.len() ==> r@[i] == (tiles@[i] == TileType::Floor),
{
    let n = tiles.len();
    let mut m = Grid::new(tiles.width(), tiles.height(), false);
    let mut i: usize = 0;
    while i < n
        invariant
            m.wf(),
            m.spec_width() == tiles.spec_width(),
            m.spec_height() == tiles.spec_height(),
            tiles.wf(),
            n == tiles@.len(),
            i <= n,
            forall|j: int| 0 <= j < i ==> m@[j] == (tiles@[j] == TileType::Floor),
        decreases n - i,
    {
        m.data.set(i, tiles.data[i] == TileType::Floor);
        i += 1;
    }
    m
}

/// Cell `j` after the first `i` cells have been walled where unlabelled.
spec fn sealed(t0: Seq<TileType>, labels: Seq<i32>, i: int, j: int) -> TileType {
    if j < i && labels[j] == -1 {
        TileType::Wall
    } else {
        t0[j]
    }
}

/// The cell at row-major position `i` of a grid of width `w`.
pub open spec fn cell_of(w: int, i: int) -> Point {
    Point { x: (i % w) as i32, y: (i / w) as i32 }
}

/// The trimmed and marked grid of the last stage is an accepted level: every
/// cell labelled by the search from `start` stays, the rest is walled, and the
/// down stairs go on the cell of greatest label.
proof fn lemma_finalize_accepted(
    t0: Seq<TileType>,
    floors: Grid<bool>,
    g: Grid<i32>,
    tiles: Grid<TileType>,
    start: Point,
    best: int,
)
    requires
        tiles.wf(),
        floors.wf(),
        g.wf(),
        tiles.spec_width() >= 1,
        tiles.spec_height() >= 1,
        floors.spec_width() == tiles.spec_width(),
        floors.spec_height() == tiles.spec_height(),
        g.spec_width() == tiles.spec_width(),
        g.spec_height() == tiles.spec_height(),
        t0.len() == tiles@.len(),
        forall|j: int| 0 <= j < t0.len() ==> floors@[j] == (t0[j] == TileType::Floor),
        passable(floors, start),
        exact_distances(g, floors, seq![start]),
        0 <= best < t0.len(),
        forall|j: int| 0 <= j < t0.len() ==> g@[j] <= g@[best],
        forall|j: int|
            0 <= j < t0.len() ==> tiles@[j] == if j == best {
                TileType::DownStairs
            } else if g@[j] == -1 {
                TileType::Wall
            } else {
                t0[j]
            },
        5 * count_tile(tiles@, TileType::Floor) >= 2 * (tiles.spec_width() * tiles.spec_height()),
        5 * count_tile(tiles@, TileType::Floor) <= 3 * (tiles.spec_width() * tiles.spec_height()),
        forall|j: int| 0 <= j < t0.len() ==> t0[j] != TileType::DownStairs,
    ensures
        accepted(tiles, start),
{
    let w = tiles.spec_width();
    let h = tiles.spec_height();
    let srcs = seq![start];
    // labels are at least -1 and a labelled cell was floor
    assert forall|p: Point|
        tiles.spec_in_bounds(p.x as int, p.y as int) implies (#[trigger] walkable(tiles, p) <==> label(g, p) >= 0) by {
        lemma_cell_index_bounds(w, h, p.x as int, p.y as int);
        let j = cell_index(w, p.x as int, p.y as int);
        assert(label(g, p) >= -1);
        assert(reach(floors, srcs, 0, start)) by {
            let path = seq![start];
            assert(srcs.contains(path[0])) by { assert(srcs[0] == start); }
            assert(is_walk(floors, srcs, path));
        }
        lemma_cell_index_bounds(w, h, start.x as int, start.y as int);
        assert(label(g, start) == 0);
        assert(g@[best] >= 0) by {
            assert(g@[cell_index(w, start.x as int, start.y as int)] <= g@[best]);
        }
        if label(g, p) >= 0 {
            assert(reach(floors, srcs, label(g, p) as nat, p));
            let path = choose|path: Seq<Point>|
                #[trigger] is_walk(floors, srcs, path) && path.len() <= label(g, p) + 1 && path.last() == p;
            if path.len() == 1 {
                assert(srcs.contains(path[0]));
                assert(p == start);
            } else {
                assert(passable(floors, path[path.len() - 1]));
            }
            assert(t0[j] == TileType::Floor);
        }
    }
    // every walkable cell is connected to the start
    assert forall|p: Point| #[trigger] walkable(tiles, p) implies connected(tiles, start, p) by {
        assert(label(g, p) >= 0);
        assert(reach(floors, srcs, label(g, p) as nat, p));
        let path = choose|path: Seq<Point>|
            #[trigger] is_walk(floors, srcs, path) && path.len() <= label(g, p) + 1 && path.last() == p;
        assert forall|i: int| 0 <= i < path.len() implies walkable(tiles, #[trigger] path[i]) by {
            lemma_walk_prefix_reach(floors, srcs, path, i);
            assert(reach(floors, srcs, i as nat, path[i]));
        }
        assert forall|i: int| 1 <= i < path.len() implies adjacent_cells(path[i - 1], #[trigger] path[i]) by {
        }
        assert(srcs.contains(path[0]));
        assert(path[0] == start);
        assert(is_walkway(tiles, path, start, p));
    }
    // the start is walkable
    assert(reach(floors, srcs, 0, start)) by {
        let path = seq![start];
        assert(srcs.contains(path[0])) by { assert(srcs[0] == start); }
        assert(is_walk(floors, srcs, path));
    }
    lemma_cell_index_bounds(w, h, start.x as int, start.y as int);
    assert(walkable(tiles, start));
    // the stairs stand apart from the start
    lemma_index_cell(w, h, best);
    let e = cell_of(w, best);
    assert(tiles.at(e.x as int, e.y as int) == TileType::DownStairs);
    assert(count_tile(tiles@, TileType::Floor) > 0) by (nonlinear_arith)
        requires
            5 * count_tile(tiles@, TileType::Floor) >= 2 * (w * h),
            w >= 1,
            h >= 1,
    ;
    lemma_count_tile_positive(tiles@, TileType::Floor);
    let j = choose|j: int| 0 <= j < tiles@.len() && tiles@[j] == TileType::Floor;
    lemma_index_cell(w, h, j);
    let f = cell_of(w, j);
    assert(walkable(tiles, f));
    if e == start {
        assert(label(g, e) == 0);
        assert(g@[j] <= g@[best]);
        assert(label(g, f) == 0);
        assert(reach(floors, srcs, 0, f));
        let path = choose|path: Seq<Point>|
            #[trigger] is_walk(floors, srcs, path) && path.len() <= 1 && path.last() == f;
        assert(srcs.contains(path[0]));
        assert(f == start);
        assert(false);
    }
    assert forall|q: Point|
        tiles.spec_in_bounds(q.x as int, q.y as int) && tiles.at(q.x as int, q.y as int) == TileType::DownStairs
        implies q == e by {
        lemma_cell_index_bounds(w, h, q.x as int, q.y as int);
        let qi = cell_index(w, q.x as int, q.y as int);
        assert(qi == best);
        lemma_cell_index_injective(w, h, q.x as int, q.y as int, e.x as int, e.y as int);
    }
    assert(tiles.spec_in_bounds(e.x as int, e.y as int) && tiles.at(e.x as int, e.y as int) == TileType::DownStairs && e != start);
}

/// A cell labelled by the search from `start` over floor was floor.
proof fn lemma_labelled_floor(
    t0: Seq<TileType>,
    floors: Grid<bool>,
    g: Grid<i32>,
    start: Point,
    p: Point,
)
    requires
        floors.wf(),
        g.wf(),
        floors.spec_width() == g.spec_width(),
        floors.spec_height() == g.spec_height(),
        t0.len() == floors@.len(),
        forall|j: int| 0 <= j < t0.len() ==> floors@[j] == (t0[j] == TileType::Floor),
        passable(floors, start),
        exact_distances(g, floors, seq![start]),
        g.spec_in_bounds(p.x as int, p.y as int),
        label(g, p) >= 0,
    ensures
        t0[cell_index(g.spec_width(), p.x as int, p.y as int)] == TileType::Floor,
{
    let srcs = seq![start];
    lemma_cell_index_bounds(g.spec_width(), g.spec_height(), p.x as int, p.y as int);
    lemma_cell_index_bounds(g.spec_width(), g.spec_height(), start.x as int, start.y as int);
    assert(reach(floors, srcs, label(g, p) as nat, p));
    let path = choose|path: Seq<Point>|
        #[trigger] is_walk(floors, srcs, path) && path.len() <= label(g, p) + 1 && path.last() == p;
    if path.len() == 1 {
        assert(srcs.contains(path[0]));
        assert(p == start);
    } else {
        assert(passable(floors, path[path.len() - 1]));
    }
}

#[derive(PartialEq, Eq, Structural)]
/// The stages of cave generation.
pub enum Stage {
    Init,
    IterationFirst(i32),
    IterationSecond(i32),
    Finalize,
    Done,
}

/// A cave generator: random noise smoothed by cellular-automaton rules, then
/// trimmed to the part connected to the player, and thrown away and begun
/// again unless between two and three fifths of it is floor.
pub struct CellularAutomata {
    tiles: Grid<TileType>,
    depth: i32,
    stage: Stage,
    plp: Point,
    floors: Grid<bool>,
    dist: Grid<i32>,
    exit: Point,
}

impl CellularAutomata {
    pub closed spec fn spec_tiles(&self) -> Grid<TileType> {
        self.tiles
    }

    pub closed spec fn spec_plp(&self) -> Point {
        self.plp
    }

    pub closed spec fn spec_depth(&self) -> i32 {
        self.depth
    }

    pub closed spec fn spec_stage(&self) -> Stage {
        self.stage
    }

    /// The hop distances of the last trimming, over the window of the map.
    pub closed spec fn spec_dist(&self) -> Grid<i32> {
        self.dist
    }

    /// The floor cells the last trimming searched over.
    pub closed spec fn spec_floors(&self) -> Grid<bool> {
        self.floors
    }

    /// Where the last trimming put the down stairs.
    pub closed spec fn spec_exit(&self) -> Point {
        self.exit
    }

    pub open spec fn done(&self) -> bool {
        self.spec_stage() == Stage::Done
    }

    /// The outcome of trimming `t0`: the start is the floor cell of `t0`
    /// nearest the centre in king's moves; `dist` holds the hop distances from
    /// it over the floor of `t0`; unreached cells are walled; the down stairs
    /// stand on the last reached cell of greatest distance, row by row; and
    /// the level is done exactly when two to three fifths of it is floor.
    pub open spec fn trimmed_from(&self, t0: Grid<TileType>) -> bool {
        let w = t0.spec_width();
        let h = t0.spec_height();
        let center = Point { x: (w / 2) as i32, y: (h / 2) as i32 };
        let t = self.spec_tiles();
        let d = self.spec_dist();
        let e = cell_index(w, self.spec_exit().x as int, self.spec_exit().y as int);
        let plp = self.spec_plp();
            &&& t0.spec_in_bounds(plp.x as int, plp.y as int)
            &&& t0.at(plp.x as int, plp.y as int) == TileType::Floor
            &&& forall|c: Point|
                t0.spec_in_bounds(c.x as int, c.y as int) && #[trigger] t0.at(c.x as int, c.y as int)
                    == TileType::Floor ==> cheb(center, plp) <= cheb(center, c)
            &&& self.spec_floors().spec_width() == w
            &&& self.spec_floors().spec_height() == h
            &&& forall|i: int| 0 <= i < t0@.len() ==> self.spec_floors()@[i] == (t0@[i] == TileType::Floor)
            &&& d.spec_width() == w
            &&& d.spec_height() == h
            &&& exact_distances(d, self.spec_floors(), seq![plp])
            &&& t0.spec_in_bounds(self.spec_exit().x as int, self.spec_exit().y as int)
            &&& d@[e] >= 0
            &&& forall|i: int| 0 <= i < t0@.len() ==> d@[i] <= d@[e]
            &&& forall|i: int| e < i < t0@.len() ==> d@[i] < d@[e]
            &&& forall|i: int|
                0 <= i < t0@.len() ==> t@[i] == if i == e {
                    TileType::DownStairs
                } else if d@[i] == -1 {
                    TileType::Wall
                } else {
                    t0@[i]
                }
            &&& (self.spec_stage() == Stage::Done <==> (5 * count_tile(t@, TileType::Floor) >= 2 * (w * h)
                && 5 * count_tile(t@, TileType::Floor) <= 3 * (w * h)))
    }

    /// Where generation stands: 0 before seeding, 1 to 4 during the four
    /// passes of the first smoothing rule, 5 to 7 during the three passes of
    /// the majority rule, 8 before trimming and 9 once the level is accepted.
    pub open spec fn phase(&self) -> int {
        match self.spec_stage() {
            Stage::Init => 0,
            Stage::IterationFirst(n) => 1 + n,
            Stage::IterationSecond(n) => 5 + n,
            Stage::Finalize => 8,
            Stage::Done => 9,
        }
    }

    pub closed spec fn stage_ok(&self) -> bool {
        match self.stage {
            Stage::IterationFirst(n) => 0 <= n <= 3,
            Stage::IterationSecond(n) => 0 <= n <= 2,
            _ => true,
        }
    }

    pub open spec fn wf(&self) -> bool {
        &&& self.spec_tiles().wf()
        &&& self.spec_tiles().spec_width() >= 3
        &&& self.spec_tiles().spec_height() >= 3
        &&& self.spec_tiles().spec_width() * self.spec_tiles().spec_height() <= i32::MAX
        &&& self.stage_ok()
        &&& self.done() ==> accepted(self.spec_tiles(), self.spec_plp())
        &&& border_walls(self.spec_tiles())
        &&& 1 <= self.phase() <= 8 ==> seeded(self.spec_tiles())
    }

    pub fn new(width: i32, height: i32, depth: i32) -> (r: CellularAutomata)
        requires
            width >= 3,
            height >= 3,
            width * height <= i32::MAX,
        ensures
            r.wf(),
            !r.done(),
            r.phase() == 0,
            r.spec_depth() == depth,
            r.spec_tiles().spec_width() == width,
            r.spec_tiles().spec_height() == height,
            forall|i: int| 0 <= i < r.spec_tiles()@.len() ==> r.spec_tiles()@[i] == TileType::Wall,
            r.spec_plp() == (Point { x: 0, y: 0 }),
    {
        let r = CellularAutomata {
            tiles: Grid::new(width, height, TileType::Wall),
            depth,
            stage: Stage::Init,
            plp: Point { x: 0, y: 0 },
            floors: Grid::new(0, 0, false),
            dist: Grid::new(0, 0, -1),
            exit: Point { x: 0, y: 0 },
        };
        proof {
            assert forall|x: int, y: int| r.tiles.spec_in_bounds(x, y) implies #[trigger] r.tiles.at(x, y)
                == TileType::Wall by {
                lemma_cell_index_bounds(width as int, height as int, x, y);
                assert(r.tiles@[cell_index(width as int, x, y)] == TileType::Wall);
            }
        }
        r
    }

    /// Sets cell `(x, y)` to `t`, leaving the others.
    fn set_inner(&mut self, x: i32, y: i32, t: TileType)
        requires
            old(self).tiles.wf(),
            old(self).tiles.spec_in_bounds(x as int, y as int),
        ensures
            final(self).tiles.wf(),
            final(self).tiles.spec_width() == old(self).tiles.spec_width(),
            final(self).tiles.spec_height() == old(self).tiles.spec_height(),
            forall|qx: int, qy: int|
                old(self).tiles.spec_in_bounds(qx, qy) ==> #[trigger] final(self).tiles.at(qx, qy)
                    == if qx == x && qy == y {
                    t
                } else {
                    old(self).tiles.at(qx, qy)
                },
            final(self).tiles@ == old(self).tiles@.update(
                cell_index(old(self).tiles.spec_width(), x as int, y as int),
                t,
            ),
            final(self).depth == old(self).depth,
            final(self).stage == old(self).stage,
            final(self).plp == old(self).plp,
    {
        let ghost before = self.tiles;
        self.tiles.set(x, y, t);
        proof {
            let w = before.spec_width();
            let h = before.spec_height();
            assert forall|qx: int, qy: int| before.spec_in_bounds(qx, qy) implies #[trigger] self.tiles.at(qx, qy)
                == if qx == x && qy == y {
                t
            } else {
                before.at(qx, qy)
            } by {
                lemma_cell_index_bounds(w, h, qx, qy);
                lemma_cell_index_bounds(w, h, x as int, y as int);
                if cell_index(w, qx, qy) == cell_index(w, x as int, y as int) {
                    crate::grid::lemma_cell_index_injective(w, h, qx, qy, x as int, y as int);
                }
            }
        }
    }

    /// Fills the inner cells with noise, each a wall with chance 45 in 100.
    fn init(&mut self)
        requires
            old(self).wf(),
            !old(self).done(),
        ensures
            final(self).wf(),
            !final(self).done(),
            final(self).stage == Stage::IterationFirst(0),
            final(self).depth == old(self).depth,
            final(self).tiles.spec_width() == old(self).tiles.spec_width(),
            final(self).tiles.spec_height() == old(self).tiles.spec_height(),
            forall|qx: int, qy: int|
                final(self).tiles.spec_in_bounds(qx, qy) ==> {
                    &&& !inner(final(self).tiles.spec_width(), final(self).tiles.spec_height(), qx, qy)
                        ==> #[trigger] final(self).tiles.at(qx, qy) == old(self).tiles.at(qx, qy)
                    &&& inner(final(self).tiles.spec_width(), final(self).tiles.spec_height(), qx, qy)
                        ==> (final(self).tiles.at(qx, qy) == TileType::Floor || final(self).tiles.at(qx, qy) == TileType::Wall)
                },
    {
        let (w, h) = (self.tiles.width(), self.tiles.height());
        let mut y: i32 = 1;
        while y < h - 1
            invariant
                self.tiles.wf(),
                self.tiles.spec_width() == w,
                self.tiles.spec_height() == h,
                w >= 3,
                h >= 3,
                w * h <= i32::MAX,
                1 <= y <= h - 1,
                forall|qx: int, qy: int|
                    self.tiles.spec_in_bounds(qx, qy) ==> {
                        &&& !inner(w as int, h as int, qx, qy) ==> #[trigger] self.tiles.at(qx, qy) == old(self).tiles.at(qx, qy)
                        &&& (inner(w as int, h as int, qx, qy) && (qy < y)) ==> (self.tiles.at(qx, qy) == TileType::Floor || self.tiles.at(qx, qy) == TileType::Wall)
                    },
                self.depth == old(self).depth,
                self.stage == old(self).stage,
            decreases h - y,
        {
            let mut x: i32 = 1;
            while x < w - 1
                invariant
                    self.tiles.wf(),
                    self.tiles.spec_width() == w,
                    self.tiles.spec_height() == h,
                    w >= 3,
                    h >= 3,
                    1 <= x <= w - 1,
                    1 <= y < h - 1,
                    forall|qx: int, qy: int|
                        self.tiles.spec_in_bounds(qx, qy) ==> {
                            &&& !inner(w as int, h as int, qx, qy) ==> #[trigger] self.tiles.at(qx, qy) == old(self).tiles.at(qx, qy)
                            &&& (inner(w as int, h as int, qx, qy) && (qy < y || (qy == y && qx < x))) ==> (self.tiles.at(qx, qy) == TileType::Floor || self.tiles.at(qx, qy) == TileType::Wall)
                        },
                    self.depth == old(self).depth,
                    self.stage == old(self).stage,
                decreases w - x,
            {
                let t = if random_ratio(45, 100) {
                    TileType::Wall
                } else {
                    TileType::Floor
                };
                self.set_inner(x, y, t);
                x += 1;
            }
            y += 1;
        }
        self.stage = Stage::IterationFirst(0);
    }

    /// The number of walls within `r` cells of `(x, y)` in both directions,
    /// `(x, y)` left out, over the part of that square on the map.
    fn count_walls(&self, x: i32, y: i32, r: i32) -> (n: i32)
        requires
            self.tiles.wf(),
            self.tiles.spec_in_bounds(x as int, y as int),
            self.tiles.spec_width() < i32::MAX - 1000,
            self.tiles.spec_height() < i32::MAX - 1000,
            0 <= r <= 1000,
        ensures
            n == walls_around(self.tiles@, self.tiles.spec_width(), self.tiles.spec_height(), x as int, y as int, r as int),
            n <= (2 * r + 1) * (2 * r + 1),
    {
        let all = self.count_window(x, y, r);
        proof {
            lemma_cell_index_bounds(self.tiles.spec_width(), self.tiles.spec_height(), x as int, y as int);
        }
        let own: i32 = if *self.tiles.get(x, y) == TileType::Wall { 1 } else { 0 };
        all - own
    }

    /// The number of walls within `r` cells of `(x, y)` in both directions,
    /// `(x, y)` included, over the part of that square on the map.
    fn count_window(&self, x: i32, y: i32, r: i32) -> (n: i32)
        requires
            self.tiles.wf(),
            self.tiles.spec_in_bounds(x as int, y as int),
            self.tiles.spec_width() < i32::MAX - 1000,
            self.tiles.spec_height() < i32::MAX - 1000,
            0 <= r <= 1000,
        ensures
            n == count_in_rect(
                self.tiles@,
                self.tiles.spec_width(),
                TileType::Wall,
                if x - r >= 0 { x - r } else { 0 },
                if x + r < self.tiles.spec_width() { x + r + 1 } else { self.tiles.spec_width() },
                if y - r >= 0 { y - r } else { 0 },
                if y + r < self.tiles.spec_height() { y + r + 1 } else { self.tiles.spec_height() },
            ),
            0 <= n <= (2 * r + 1) * (2 * r + 1),
    {
        let (w, h) = (self.tiles.width(), self.tiles.height());
        let x0 = if x - r >= 0 { x - r } else { 0 };
        let x1 = if x + r < w { x + r + 1 } else { w };
        let y0 = if y - r >= 0 { y - r } else { 0 };
        let y1 = if y + r < h { y + r + 1 } else { h };
        let mut n: i32 = 0;
        let mut yy = y0;
        while yy < y1
            invariant
                self.tiles.wf(),
                w == self.tiles.spec_width(),
                h == self.tiles.spec_height(),
                0 <= x0 < x1 <= w,
                x1 - x0 <= 2 * r + 1,
                0 <= y0 <= yy <= y1 <= h,
                y1 - y0 <= 2 * r + 1,
                0 <= r <= 1000,
                n == count_in_rect(self.tiles@, w as int, TileType::Wall, x0 as int, x1 as int, y0 as int, yy as int),
                0 <= n <= (x1 - x0) * (yy - y0),
            decreases y1 - yy,
        {
            let mut m: i32 = 0;
            let mut xx = x0;
            while xx < x1
                invariant
                    self.tiles.wf(),
                    w == self.tiles.spec_width(),
                    h == self.tiles.spec_height(),
                    0 <= x0 <= xx <= x1 <= w,
                    0 <= yy < h,
                    m == count_in_row(self.tiles@, w as int, TileType::Wall, yy as int, x0 as int, xx as int),
                    0 <= m <= xx - x0,
                decreases x1 - xx,
            {
                proof {
                    lemma_cell_index_bounds(w as int, h as int, xx as int, yy as int);
                }
                if *self.tiles.get(xx, yy) == TileType::Wall {
                    m += 1;
                }
                xx += 1;
            }
            proof {
                assert((x1 - x0) * (yy - y0) + (x1 - x0) == (x1 - x0) * (yy + 1 - y0)) by (nonlinear_arith);
                assert((x1 - x0) * (yy + 1 - y0) <= (2 * r + 1) * (2 * r + 1)) by (nonlinear_arith)
                    requires
                        0 <= x1 - x0 <= 2 * r + 1,
                        0 <= yy + 1 - y0 <= 2 * r + 1,
                ;
                assert((2 * r + 1) * (2 * r + 1) <= 2001 * 2001) by (nonlinear_arith)
                    requires
                        0 <= r <= 1000,
                ;
            }
            n += m;
            yy += 1;
        }
        proof {
            assert((x1 - x0) * (yy - y0) <= (2 * r + 1) * (2 * r + 1)) by (nonlinear_arith)
                requires
                    0 <= x1 - x0 <= 2 * r + 1,
                    0 <= yy - y0 <= 2 * r + 1,
            ;
        }
        n
    }

    /// One smoothing pass over the inner cells, in place, row by row: a cell
    /// becomes wall where at least five of its eight neighbours are walls or
    /// at most two of the twenty-four cells within two steps are, and floor
    /// elsewhere.
    fn iteration_first(&mut self, n: i32)
        requires
            old(self).wf(),
            old(self).stage == Stage::IterationFirst(n),
        ensures
            final(self).wf(),
            final(self).tiles@ == sweep(
                old(self).tiles@,
                old(self).tiles.spec_width(),
                old(self).tiles.spec_height(),
                true,
                (old(self).tiles.spec_width() - 2) * (old(self).tiles.spec_height() - 2),
            ),
            !final(self).done(),
            final(self).stage == if n >= 3 { Stage::IterationSecond(0) } else { Stage::IterationFirst((n + 1) as i32) },
            final(self).depth == old(self).depth,
            final(self).tiles.spec_width() == old(self).tiles.spec_width(),
            final(self).tiles.spec_height() == old(self).tiles.spec_height(),
            forall|qx: int, qy: int|
                final(self).tiles.spec_in_bounds(qx, qy) ==> {
                    &&& !inner(final(self).tiles.spec_width(), final(self).tiles.spec_height(), qx, qy)
                        ==> #[trigger] final(self).tiles.at(qx, qy) == old(self).tiles.at(qx, qy)
                    &&& inner(final(self).tiles.spec_width(), final(self).tiles.spec_height(), qx, qy)
                        ==> (final(self).tiles.at(qx, qy) == TileType::Floor || final(self).tiles.at(qx, qy) == TileType::Wall)
                },
    {
        self.smooth(true);
        self.stage = if n >= 3 {
            Stage::IterationSecond(0)
        } else {
            Stage::IterationFirst(n + 1)
        };
    }

    /// One smoothing pass over the inner cells, in place: a cell becomes wall
    /// where at least five of its eight neighbours are walls, and floor
    /// elsewhere.
    fn iteration_second(&mut self, n: i32)
        requires
            old(self).wf(),
            old(self).stage == Stage::IterationSecond(n),
        ensures
            final(self).wf(),
            final(self).tiles@ == sweep(
                old(self).tiles@,
                old(self).tiles.spec_width(),
                old(self).tiles.spec_height(),
                false,
                (old(self).tiles.spec_width() - 2) * (old(self).tiles.spec_height() - 2),
            ),
            !final(self).done(),
            final(self).stage == if n >= 2 { Stage::Finalize } else { Stage::IterationSecond((n + 1) as i32) },
            final(self).depth == old(self).depth,
            final(self).tiles.spec_width() == old(self).tiles.spec_width(),
            final(self).tiles.spec_height() == old(self).tiles.spec_height(),
            forall|qx: int, qy: int|
                final(self).tiles.spec_in_bounds(qx, qy) ==> {
                    &&& !inner(final(self).tiles.spec_width(), final(self).tiles.spec_height(), qx, qy)
                        ==> #[trigger] final(self).tiles.at(qx, qy) == old(self).tiles.at(qx, qy)
                    &&& inner(final(self).tiles.spec_width(), final(self).tiles.spec_height(), qx, qy)
                        ==> (final(self).tiles.at(qx, qy) == TileType::Floor || final(self).tiles.at(qx, qy) == TileType::Wall)
                },
    {
        self.smooth(false);
        self.stage = if n >= 2 {
            Stage::Finalize
        } else {
            Stage::IterationSecond(n + 1)
        };
    }

    fn smooth(&mut self, fill_sparse: bool)
        requires
            old(self).wf(),
            !old(self).done(),
        ensures
            final(self).wf(),
            final(self).tiles@ == sweep(
                old(self).tiles@,
                old(self).tiles.spec_width(),
                old(self).tiles.spec_height(),
                fill_sparse,
                (old(self).tiles.spec_width() - 2) * (old(self).tiles.spec_height() - 2),
            ),
            final(self).stage == old(self).stage,
            final(self).depth == old(self).depth,
            final(self).tiles.spec_width() == old(self).tiles.spec_width(),
            final(self).tiles.spec_height() == old(self).tiles.spec_height(),
            forall|qx: int, qy: int|
                final(self).tiles.spec_in_bounds(qx, qy) ==> {
                    &&& !inner(final(self).tiles.spec_width(), final(self).tiles.spec_height(), qx, qy)
                        ==> #[trigger] final(self).tiles.at(qx, qy) == old(self).tiles.at(qx, qy)
                    &&& inner(final(self).tiles.spec_width(), final(self).tiles.spec_height(), qx, qy)
                        ==> (final(self).tiles.at(qx, qy) == TileType::Floor || final(self).tiles.at(qx, qy) == TileType::Wall)
                },
    {
        let (w, h) = (self.tiles.width(), self.tiles.height());
        let mut y: i32 = 1;
        while y < h - 1
            invariant
                self.tiles.wf(),
                self.tiles.spec_width() == w,
                self.tiles.spec_height() == h,
                w >= 3,
                h >= 3,
                w * h <= i32::MAX,
                1 <= y <= h - 1,
                self.tiles@ == sweep(old(self).tiles@, w as int, h as int, fill_sparse, (y - 1) * (w - 2)),
                forall|qx: int, qy: int|
                    self.tiles.spec_in_bounds(qx, qy) ==> {
                        &&& !inner(w as int, h as int, qx, qy) ==> #[trigger] self.tiles.at(qx, qy) == old(self).tiles.at(qx, qy)
                        &&& (inner(w as int, h as int, qx, qy) && (qy < y)) ==> (self.tiles.at(qx, qy) == TileType::Floor || self.tiles.at(qx, qy) == TileType::Wall)
                    },
                self.depth == old(self).depth,
                self.stage == old(self).stage,
                self.stage_ok(),
                !self.done(),
            decreases h - y,
        {
            let mut x: i32 = 1;
            while x < w - 1
                invariant
                    self.tiles.wf(),
                    self.tiles.spec_width() == w,
                    self.tiles.spec_height() == h,
                    w >= 3,
                    h >= 3,
                    w * h <= i32::MAX,
                    1 <= x <= w - 1,
                    1 <= y < h - 1,
                    self.tiles@ == sweep(old(self).tiles@, w as int, h as int, fill_sparse, (y - 1) * (w - 2) + (x - 1)),
                    forall|qx: int, qy: int|
                        self.tiles.spec_in_bounds(qx, qy) ==> {
                            &&& !inner(w as int, h as int, qx, qy) ==> #[trigger] self.tiles.at(qx, qy) == old(self).tiles.at(qx, qy)
                            &&& (inner(w as int, h as int, qx, qy) && (qy < y || (qy == y && qx < x))) ==> (self.tiles.at(qx, qy) == TileType::Floor || self.tiles.at(qx, qy) == TileType::Wall)
                        },
                    self.depth == old(self).depth,
                    self.stage == old(self).stage,
                decreases w - x,
            {
                proof {
                    assert(w < i32::MAX - 1000 && h < i32::MAX - 1000) by (nonlinear_arith)
                        requires
                            w >= 3,
                            h >= 3,
                            w * h <= i32::MAX,
                    ;
                }
                let ghost k = (y - 1) * (w - 2) + (x - 1);
                proof {
                    assert(inner_cell(w as int, k) == (x as int, y as int)) by (nonlinear_arith)
                        requires
                            k == (y - 1) * (w - 2) + (x - 1),
                            1 <= x < w - 1,
                            1 <= y,
                    ;
                    lemma_cell_index_bounds(w as int, h as int, x as int, y as int);
                }
                let near = self.count_walls(x, y, 1);
                let wall = if fill_sparse {
                    near >= 5 || self.count_walls(x, y, 2) <= 2
                } else {
                    near >= 5
                };
                self.set_inner(x, y, if wall { TileType::Wall } else { TileType::Floor });
                proof {
                    assert(k + 1 > 0);
                    assert(sweep(old(self).tiles@, w as int, h as int, fill_sparse, k + 1) == self.tiles@);
                }
                x += 1;
            }
            proof {
                assert((y - 1) * (w - 2) + (w - 2) == y * (w - 2)) by (nonlinear_arith);
            }
            y += 1;
        }
        proof {
            assert((y - 1) * (w - 2) == (w - 2) * (h - 2)) by (nonlinear_arith)
                requires
                    y == h - 1,
            ;
        }
    }


    /// Finds the floor cell nearest the centre as the start, walls off what
    /// cannot be reached from it, puts the down stairs on the reachable cell
    /// farthest from it (the last such cell, row by row), and accepts the
    /// level exactly when two to three fifths of it is floor; otherwise, or
    /// where there is no floor at all, generation starts over.
    #[verifier::rlimit(100)]
    fn finalize(&mut self)
        requires
            old(self).wf(),
            old(self).stage == Stage::Finalize,
        ensures
            final(self).wf(),
            final(self).stage == Stage::Done || final(self).stage == Stage::Init,
            final(self).depth == old(self).depth,
            final(self).tiles.spec_width() == old(self).tiles.spec_width(),
            final(self).tiles.spec_height() == old(self).tiles.spec_height(),
            has_floor(old(self).spec_tiles()) ==> final(self).trimmed_from(old(self).spec_tiles()),
            !has_floor(old(self).spec_tiles()) ==> final(self).stage == Stage::Init && final(self).tiles == old(self).tiles,
    {
        let (w, h) = (self.tiles.width(), self.tiles.height());
        let n = self.tiles.len();
        let ghost t0g = self.tiles;
        let ghost t0 = self.tiles@;
        let mut bfs = BFS::new();
        let floors = floor_mask(&self.tiles);
        let center = Point { x: w / 2, y: h / 2 };
        let start = match self.find_start(&floors, &mut bfs) {
            Some(p) => p,
            None => {
                self.stage = Stage::Init;
                return;
            },
        };
        self.plp = start;
        let mut g = Grid::new(w, h, -1i32);
        let mut starts: Vec<Point> = Vec::new();
        starts.push(start);
        proof {
            assert(starts@ =~= seq![start]);
        }
        bfs.search(&starts, &mut g, &floors);
        self.seal(&g);
        proof {
            assert(w * h >= 9) by (nonlinear_arith)
                requires
                    w >= 3,
                    h >= 3,
            ;
        }
        let best = farthest(&g);
        self.tiles.data.set(best, TileType::DownStairs);
        let cnt = count_floor(&self.tiles);
        let ex = (best as i32) % w;
        let ey = (best as i32) / w;
        proof {
            lemma_index_cell(w as int, h as int, best as int);
            assert(cell_index(w as int, ex as int, ey as int) == best);
            lemma_cell_index_bounds(w as int, h as int, start.x as int, start.y as int);
            assert(passable(floors, start));
            assert(label(g, start) == 0) by {
                lemma_reach_source(floors, seq![start], 0);
            }
            assert(g@[cell_index(w as int, start.x as int, start.y as int)] <= g@[best as int]);
            assert forall|j: int| 0 <= j < t0.len() implies t0[j] != TileType::DownStairs by {
                lemma_index_cell(w as int, h as int, j);
                let c = cell_of(w as int, j);
                assert(t0g.at(c.x as int, c.y as int) == TileType::Floor || t0g.at(c.x as int, c.y as int) == TileType::Wall);
            }
            assert forall|j: int| 0 <= j < t0.len() implies self.tiles@[j] == if j == best {
                TileType::DownStairs
            } else if g@[j] == -1 {
                TileType::Wall
            } else {
                t0[j]
            } by {
            }
            assert forall|x: int, y: int|
                self.tiles.spec_in_bounds(x, y) && !inner(w as int, h as int, x, y) implies #[trigger] self.tiles.at(x, y)
                    == TileType::Wall by {
                lemma_cell_index_bounds(w as int, h as int, x, y);
                let j = cell_index(w as int, x, y);
                assert(t0g.at(x, y) == TileType::Wall);
                let p = Point { x: x as i32, y: y as i32 };
                if g@[j] >= 0 {
                    assert(label(g, p) >= 0);
                    lemma_labelled_floor(t0, floors, g, start, p);
                }
            }
        }
        self.exit = Point { x: ex, y: ey };
        if 5 * (cnt as u64) >= 2 * (n as u64) && 5 * (cnt as u64) <= 3 * (n as u64) {
            proof {
                lemma_finalize_accepted(t0, floors, g, self.tiles, start, best as int);
            }
            self.stage = Stage::Done;
        } else {
            self.stage = Stage::Init;
        }
        self.floors = floors;
        self.dist = g;
    }

    /// The floor cell nearest the centre in king's moves, found by a
    /// breadth-first search from the centre; `None` where there is no floor.
    fn find_start(&self, floors: &Grid<bool>, bfs: &mut BFS) -> (r: Option<Point>)
        requires
            self.tiles.wf(),
            self.tiles.spec_width() >= 3,
            self.tiles.spec_height() >= 3,
            self.tiles.spec_width() * self.tiles.spec_height() <= i32::MAX,
            floors.wf(),
            floors.spec_width() == self.tiles.spec_width(),
            floors.spec_height() == self.tiles.spec_height(),
            forall|i: int| 0 <= i < self.tiles@.len() ==> floors@[i] == (self.tiles@[i] == TileType::Floor),
        ensures
            ({
                let t0 = self.tiles;
                let center = Point { x: (t0.spec_width() / 2) as i32, y: (t0.spec_height() / 2) as i32 };
                match r {
                    None => !has_floor(t0),
                    Some(p) => {
                        &&& t0.spec_in_bounds(p.x as int, p.y as int)
                        &&& t0.at(p.x as int, p.y as int) == TileType::Floor
                        &&& passable(*floors, p)
                        &&& forall|c: Point|
                            t0.spec_in_bounds(c.x as int, c.y as int) && #[trigger] t0.at(c.x as int, c.y as int)
                                == TileType::Floor ==> cheb(center, p) <= cheb(center, c)
                    },
                }
            }),
    {
        let (w, h) = (self.tiles.width(), self.tiles.height());
        let ghost t0g = self.tiles;
        let mut g = Grid::new(w, h, -1i32);
        let all_open = Grid::new(w, h, true);
        let center = Point { x: w / 2, y: h / 2 };
        let mut sources: Vec<Point> = Vec::new();
        sources.push(center);
        proof {
            assert(sources@ =~= seq![center]);
        }
        let found = bfs.search_until(&sources, &mut g, &all_open, floors);
        proof {
            assert forall|c: Point| #[trigger] all_open.spec_in_bounds(c.x as int, c.y as int) implies reach(all_open, seq![center], cheb(center, c) as nat, c) by {
                lemma_open_reach(all_open, center, c);
            }
        }
        match found {
            Some(start) => {
                proof {
                    let l = label(g, start);
                    lemma_reach_cheb(all_open, center, l as nat, start);
                    lemma_cell_index_bounds(w as int, h as int, start.x as int, start.y as int);
                    assert forall|c: Point|
                        t0g.spec_in_bounds(c.x as int, c.y as int) && #[trigger] t0g.at(c.x as int, c.y as int)
                            == TileType::Floor implies cheb(center, start) <= cheb(center, c) by {
                        lemma_cell_index_bounds(w as int, h as int, c.x as int, c.y as int);
                        assert(all_open.spec_in_bounds(c.x as int, c.y as int));
                        assert(floors@[cell_index(w as int, c.x as int, c.y as int)]);
                        assert(passable(*floors, c));
                        assert(reach(all_open, seq![center], cheb(center, c) as nat, c));
                    }
                    assert(floors@[cell_index(w as int, start.x as int, start.y as int)]);
                }
                Some(start)
            },
            None => {
                proof {
                    assert forall|i: int| 0 <= i < t0g@.len() implies t0g@[i] != TileType::Floor by {
                        lemma_index_cell(w as int, h as int, i);
                        let c = cell_of(w as int, i);
                        assert(all_open.spec_in_bounds(c.x as int, c.y as int));
                        assert(reach(all_open, seq![center], cheb(center, c) as nat, c));
                        if t0g@[i] == TileType::Floor {
                            assert(floors@[i]);
                            assert(passable(*floors, c));
                        }
                    }
                }
                None
            },
        }
    }

    /// Walls every cell that `g` leaves unlabelled.
    fn seal(&mut self, g: &Grid<i32>)
        requires
            old(self).tiles.wf(),
            g.wf(),
            g@.len() == old(self).tiles@.len(),
        ensures
            final(self).tiles.wf(),
            final(self).tiles.spec_width() == old(self).tiles.spec_width(),
            final(self).tiles.spec_height() == old(self).tiles.spec_height(),
            final(self).depth == old(self).depth,
            final(self).stage == old(self).stage,
            final(self).plp == old(self).plp,
            forall|j: int|
                0 <= j < old(self).tiles@.len() ==> final(self).tiles@[j] == if g@[j] == -1 {
                    TileType::Wall
                } else {
                    old(self).tiles@[j]
                },
    {
        let n = self.tiles.len();
        let ghost t0 = self.tiles@;
        let mut i: usize = 0;
        while i < n
            invariant
                self.depth == old(self).depth,
                self.stage == old(self).stage,
                self.plp == old(self).plp,
                self.tiles.spec_width() == old(self).tiles.spec_width(),
                self.tiles.spec_height() == old(self).tiles.spec_height(),
                self.tiles.wf(),
                n == self.tiles@.len(),
                g@.len() == n,
                n == t0.len(),
                t0 == old(self).tiles@,
                i <= n,
                forall|j: int| 0 <= j < n ==> self.tiles@[j] == sealed(t0, g@, i as int, j),
            decreases n - i,
        {
            let ghost before = self.tiles@;
            if g.data[i] == -1 {
                self.tiles.data.set(i, TileType::Wall);
            }
            proof {
                assert forall|j: int| 0 <= j < n implies self.tiles@[j] == sealed(t0, g@, i + 1, j) by {
                    if j != i {
                        assert(self.tiles@[j] == before[j]);
                    } else if g@[j] == -1 {
                        assert(self.tiles@[j] == TileType::Wall);
                    } else {
                        assert(self.tiles@[j] == before[j]);
                        assert(before[j] == t0[j]);
                    }
                }
            }
            i += 1;
        }
    }




}

impl MapBuilder for CellularAutomata {
    open spec fn builder_ok(&self) -> bool {
        self.wf()
    }

    open spec fn finished(&self) -> bool {
        self.done()
    }

    open spec fn start(&self) -> Point {
        self.spec_plp()
    }

    open spec fn level_tiles(&self) -> Grid<TileType> {
        self.spec_tiles()
    }

    /// Advances generation by one stage; returns whether the level is finished.
    fn progress(&mut self) -> (r: bool)
        ensures
            final(self).wf(),
            r == final(self).done(),
            r ==> accepted(final(self).spec_tiles(), final(self).spec_plp()),
            final(self).spec_depth() == old(self).spec_depth(),
            final(self).spec_tiles().spec_width() == old(self).spec_tiles().spec_width(),
            final(self).spec_tiles().spec_height() == old(self).spec_tiles().spec_height(),
            old(self).phase() < 8 ==> final(self).phase() == old(self).phase() + 1,
            old(self).phase() == 8 ==> final(self).phase() == 9 || final(self).phase() == 0,
            old(self).phase() == 8 && has_floor(old(self).spec_tiles()) ==> final(self).trimmed_from(old(self).spec_tiles()),
            old(self).phase() == 8 && !has_floor(old(self).spec_tiles()) ==> !r && final(self).spec_tiles() == old(self).spec_tiles(),
            old(self).phase() == 9 ==> final(self).phase() == 9 && final(self).spec_tiles() == old(self).spec_tiles()
                && final(self).spec_plp() == old(self).spec_plp(),
            1 <= old(self).phase() <= 4 ==> final(self).spec_tiles()@ == sweep(
                old(self).spec_tiles()@,
                old(self).spec_tiles().spec_width(),
                old(self).spec_tiles().spec_height(),
                true,
                (old(self).spec_tiles().spec_width() - 2) * (old(self).spec_tiles().spec_height() - 2),
            ),
            5 <= old(self).phase() <= 7 ==> final(self).spec_tiles()@ == sweep(
                old(self).spec_tiles()@,
                old(self).spec_tiles().spec_width(),
                old(self).spec_tiles().spec_height(),
                false,
                (old(self).spec_tiles().spec_width() - 2) * (old(self).spec_tiles().spec_height() - 2),
            ),
    {
        match self.stage {
            Stage::Init => self.init(),
            Stage::IterationFirst(n) => self.iteration_first(n),
            Stage::IterationSecond(n) => self.iteration_second(n),
            Stage::Finalize => self.finalize(),
            Stage::Done => {},
        }
        match self.stage {
            Stage::Done => true,
            _ => false,
        }
    }

    fn player_pos(&self) -> (r: Point)
        ensures
            r == self.spec_plp(),
    {
        self.plp
    }

    fn intermediate(&self) -> (r: IntermediateMap<'_>)
        ensures
            r.spec_tiles() == self.spec_tiles(),
    {
        IntermediateMap::new(&self.tiles)
    }

    /// Hands the tiles over to a finished level, leaving an empty grid behind.
    fn build(&mut self) -> (r: LevelMap)
        ensures
            r.spec_tiles() == old(self).spec_tiles(),
            r.spec_depth() == old(self).spec_depth(),
            r.wf(),
    {
        let mut tiles = Grid::new(0, 0, TileType::Wall);
        std::mem::swap(&mut self.tiles, &mut tiles);
        LevelMap::from_grid(tiles, self.depth)
    }
}

} // verus!
