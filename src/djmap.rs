use vstd::prelude::*;
use crate::bfs::{BFS, exact_distances, label, all_unlabelled};
use crate::grid::{Grid, cell_index, lemma_cell_index_bounds};
use crate::irect::{IRect, Point};
use crate::map::{LevelMap, TileType, ViewMap};

verus! {

/// The neighbour offsets of a flow map, row by row.
pub open spec fn dj_offset(k: int) -> (int, int) {
    if k == 0 {
        (-1, -1)
    } else if k == 1 {
        (0, -1)
    } else if k == 2 {
        (1, -1)
    } else if k == 3 {
        (-1, 0)
    } else if k == 4 {
        (1, 0)
    } else if k == 5 {
        (-1, 1)
    } else if k == 6 {
        (0, 1)
    } else {
        (1, 1)
    }
}

fn dj_offset_at(k: usize) -> (r: (i32, i32))
    requires
        k < 8,
    ensures
        r.0 == dj_offset(k as int).0,
        r.1 == dj_offset(k as int).1,
{
    if k == 0 {
        (-1, -1)
    } else if k == 1 {
        (0, -1)
    } else if k == 2 {
        (1, -1)
    } else if k == 3 {
        (-1, 0)
    } else if k == 4 {
        (1, 0)
    } else if k == 5 {
        (-1, 1)
    } else if k == 6 {
        (0, 1)
    } else {
        (1, 1)
    }
}

/// The entries of `s` that hold a distance.
pub open spec fn set_labels(s: Seq<i32>) -> Seq<i32> {
    s.filter(|v: i32| v >= 0)
}

/// A distance field kept in a window around the player: each cell of the
/// window holds its hop distance from the player over floor, or -1.
pub struct DjMap {
    map: Grid<i32>,
    open: Grid<bool>,
    bounds: IRect,
    plp: Option<(i32, i32)>,
}

impl DjMap {
    pub closed spec fn spec_bounds(&self) -> IRect {
        self.bounds
    }

    pub closed spec fn spec_plp(&self) -> Option<(i32, i32)> {
        self.plp
    }

    pub closed spec fn spec_max_width(&self) -> int {
        self.map.spec_width()
    }

    pub closed spec fn spec_max_height(&self) -> int {
        self.map.spec_height()
    }

    /// The distance stored for the map cell `(x, y)` of the window.
    pub closed spec fn spec_get(&self, x: int, y: int) -> i32 {
        self.map.at(x - self.bounds.x, y - self.bounds.y)
    }

    /// The window is non-empty, fits the storage, and stays clear of the
    /// integer limits.
    pub closed spec fn wf(&self) -> bool {
        &&& self.map.wf()
        &&& self.open.wf()
        &&& self.open.spec_width() == self.map.spec_width()
        &&& self.open.spec_height() == self.map.spec_height()
        &&& self.map.spec_width() * self.map.spec_height() <= i32::MAX
        &&& self.bounds.x <= self.bounds.xx
        &&& self.bounds.y <= self.bounds.yy
        &&& self.bounds.xx - self.bounds.x < self.map.spec_width()
        &&& self.bounds.yy - self.bounds.y < self.map.spec_height()
        &&& i32::MIN < self.bounds.x
        &&& self.bounds.xx < i32::MAX
        &&& i32::MIN < self.bounds.y
        &&& self.bounds.yy < i32::MAX
    }

    /// A flow map whose window is `width` by `height`, nothing labelled.
    pub fn new(width: i32, height: i32) -> (r: DjMap)
        requires
            width >= 1,
            height >= 1,
            width * height <= i32::MAX,
        ensures
            r.wf(),
            r.spec_plp().is_none(),
            r.spec_max_width() == width,
            r.spec_max_height() == height,
            r.spec_bounds() == (IRect { x: 0, y: 0, xx: (width - 1) as i32, yy: (height - 1) as i32 }),
            all_unlabelled(r.spec_field()),
    {
        DjMap {
            bounds: IRect::new(0, 0, width, height),
            map: Grid::new(width, height, -1),
            open: Grid::new(width, height, false),
            plp: None,
        }
    }

    pub fn max_width(&self) -> (r: i32)
        ensures
            r == self.spec_max_width(),
    {
        self.map.width()
    }

    pub fn max_height(&self) -> (r: i32)
        ensures
            r == self.spec_max_height(),
    {
        self.map.height()
    }

    pub fn bounds(&self) -> (r: IRect)
        ensures
            r == self.spec_bounds(),
    {
        self.bounds
    }

    /// Whether the field was computed for a player elsewhere than `(x, y)`.
    pub fn needs_updating(&self, x: i32, y: i32) -> (r: bool)
        ensures
            r == (self.spec_plp() != Some((x, y))),
    {
        match self.plp {
            Some((px, py)) => px != x || py != y,
            None => true,
        }
    }

    /// Centres the window on `(x, y)`, clipped to `real_bounds`, records the
    /// player there and clears every distance.
    pub fn reset(&mut self, x: i32, y: i32, real_bounds: IRect)
        requires
            old(self).wf(),
            real_bounds.spec_contains(x as int, y as int),
            0 <= real_bounds.x,
            0 <= real_bounds.y,
            real_bounds.xx < i32::MAX - old(self).spec_max_width(),
            real_bounds.yy < i32::MAX - old(self).spec_max_height(),
        ensures
            final(self).wf(),
            final(self).spec_plp() == Some((x, y)),
            final(self).spec_max_width() == old(self).spec_max_width(),
            final(self).spec_max_height() == old(self).spec_max_height(),
            final(self).spec_bounds().spec_contains(x as int, y as int),
            forall|px: int, py: int|
                final(self).spec_bounds().spec_contains(px, py) <==> real_bounds.spec_contains(px, py)
                    && x - old(self).spec_max_width() / 2 <= px < x - old(self).spec_max_width() / 2
                    + old(self).spec_max_width() && y - old(self).spec_max_height() / 2 <= py < y
                    - old(self).spec_max_height() / 2 + old(self).spec_max_height(),
            forall|px: int, py: int|
                final(self).spec_bounds().spec_contains(px, py) ==> final(self).spec_get(px, py)
                    == -1,
            all_unlabelled(final(self).spec_field()),
    {
        self.plp = Some((x, y));
        let mw = self.map.width();
        let mh = self.map.height();
        let left = x - mw / 2;
        let top = y - mh / 2;
        let window = IRect::new(left, top, mw, mh);
        self.bounds = window.intersection(&real_bounds).unwrap();
        self.map.fill(-1);
        proof {
            assert forall|px: int, py: int| self.bounds.spec_contains(px, py) implies self.spec_get(px, py) == -1 by {
                assert(0 <= px - self.bounds.x < mw);
                assert(0 <= py - self.bounds.y < mh);
                lemma_cell_index_bounds(mw as int, mh as int, px - self.bounds.x, py - self.bounds.y);
                let idx = cell_index(mw as int, px - self.bounds.x, py - self.bounds.y);
                assert(self.map@.len() == mw * mh);
                assert(self.map@[idx] == -1);
                assert(self.map.at(px - self.bounds.x, py - self.bounds.y) == self.map@[idx]);
            }
        }
    }

    /// The distance stored for `(x, y)`, which lies in the window.
    pub fn get(&self, x: i32, y: i32) -> (r: i32)
        requires
            self.wf(),
            self.spec_bounds().spec_contains(x as int, y as int),
        ensures
            r == self.spec_get(x as int, y as int),
    {
        *self.map.get(x - self.bounds.x, y - self.bounds.y)
    }

    /// Stores distance `v` for `(x, y)`, which lies in the window.
    pub fn set(&mut self, x: i32, y: i32, v: i32)
        requires
            old(self).wf(),
            old(self).spec_bounds().spec_contains(x as int, y as int),
        ensures
            final(self).wf(),
            final(self).spec_bounds() == old(self).spec_bounds(),
            final(self).spec_plp() == old(self).spec_plp(),
            final(self).spec_get(x as int, y as int) == v,
            forall|px: int, py: int|
                old(self).spec_bounds().spec_contains(px, py) && (px != x || py != y) ==> #[trigger] final(self).spec_get(px, py)
                    == old(self).spec_get(px, py),
    {
        let (lx, ly) = (x - self.bounds.x, y - self.bounds.y);
        let ghost before = self.map;
        self.map.set(lx, ly, v);
        proof {
            let (mw, mh) = (self.map.spec_width(), self.map.spec_height());
            lemma_cell_index_bounds(mw, mh, lx as int, ly as int);
            assert forall|px: int, py: int|
                self.bounds.spec_contains(px, py) && (px != x || py != y) implies #[trigger] self.spec_get(px, py)
                    == before.at(px - self.bounds.x, py - self.bounds.y) by {
                lemma_cell_index_bounds(mw, mh, px - self.bounds.x, py - self.bounds.y);
                if cell_index(mw, px - self.bounds.x, py - self.bounds.y) == cell_index(mw, lx as int, ly as int) {
                    crate::grid::lemma_cell_index_injective(mw, mh, px - self.bounds.x, py - self.bounds.y, lx as int, ly as int);
                }
            }
        }
    }

    /// The window cells around `(x, y)` that hold a distance, with it.
    pub fn adjacent(&self, x: i32, y: i32) -> (r: Vec<(i32, i32, i32)>)
        requires
            self.wf(),
            i32::MIN < x < i32::MAX,
            i32::MIN < y < i32::MAX,
        ensures
            forall|i: int|
                0 <= i < r@.len() ==> {
                    let (nx, ny, d) = #[trigger] r@[i];
                    &&& -1 <= nx - x <= 1 && -1 <= ny - y <= 1 && (nx != x || ny != y)
                    &&& self.spec_bounds().spec_contains(nx as int, ny as int)
                    &&& d == self.spec_get(nx as int, ny as int)
                    &&& d >= 0
                },
            forall|k: int|
                0 <= k < 8 && self.spec_bounds().spec_contains(x + dj_offset(k).0, y + dj_offset(k).1)
                    && self.spec_get(x + (#[trigger] dj_offset(k)).0, y + dj_offset(k).1) >= 0
                    ==> exists|i: int|
                    0 <= i < r@.len() && r@[i].0 == x + dj_offset(k).0 && r@[i].1 == y + dj_offset(
                        k,
                    ).1,
    {
        let mut r: Vec<(i32, i32, i32)> = Vec::new();
        let mut k: usize = 0;
        while k < 8
            invariant
                self.wf(),
                i32::MIN < x < i32::MAX,
                i32::MIN < y < i32::MAX,
                k <= 8,
                forall|i: int|
                    0 <= i < r@.len() ==> {
                        let (nx, ny, d) = #[trigger] r@[i];
                        &&& -1 <= nx - x <= 1 && -1 <= ny - y <= 1 && (nx != x || ny != y)
                        &&& self.spec_bounds().spec_contains(nx as int, ny as int)
                        &&& d == self.spec_get(nx as int, ny as int)
                        &&& d >= 0
                    },
                forall|j: int|
                    0 <= j < k && self.spec_bounds().spec_contains(x + dj_offset(j).0, y + dj_offset(j).1)
                        && self.spec_get(x + (#[trigger] dj_offset(j)).0, y + dj_offset(j).1) >= 0
                        ==> exists|i: int|
                        0 <= i < r@.len() && r@[i].0 == x + dj_offset(j).0 && r@[i].1 == y
                            + dj_offset(j).1,
            decreases 8 - k,
        {
            let (dx, dy) = dj_offset_at(k);
            let (nx, ny) = (x + dx, y + dy);
            let ghost r0 = r@;
            if self.bounds.contains(nx, ny) {
                let d = self.get(nx, ny);
                if d >= 0 {
                    r.push((nx, ny, d));
                    proof {
                        assert(r@[r@.len() - 1] == (nx, ny, d));
                    }
                }
            }
            proof {
                assert forall|j: int|
                    0 <= j < k + 1 && self.spec_bounds().spec_contains(x + dj_offset(j).0, y + dj_offset(j).1)
                        && self.spec_get(x + (#[trigger] dj_offset(j)).0, y + dj_offset(j).1) >= 0
                    implies exists|i: int|
                        0 <= i < r@.len() && r@[i].0 == x + dj_offset(j).0 && r@[i].1 == y
                            + dj_offset(j).1 by {
                    if j < k {
                        let i = choose|i: int|
                            0 <= i < r0.len() && r0[i].0 == x + dj_offset(j).0 && r0[i].1 == y + dj_offset(j).1;
                        assert(r@[i] == r0[i]);
                    } else {
                        assert(r@[r@.len() - 1].0 == nx);
                    }
                }
            }
            k += 1;
        }
        r
    }

    /// The distances stored, those that are set, in storage order.
    pub fn iter(&self) -> (r: Vec<i32>)
        ensures
            r@ == set_labels(self.spec_field()@),
    {
        let mut r: Vec<i32> = Vec::new();
        let vals = self.map.iter();
        let mut i: usize = 0;
        while i < vals.len()
            invariant
                i <= vals@.len(),
                vals@ == self.map@,
                r@ == set_labels(vals@.subrange(0, i as int)),
            decreases vals@.len() - i,
        {
            proof {
                let next = vals@.subrange(0, i + 1);
                assert(next.drop_last() =~= vals@.subrange(0, i as int));
                assert(next.last() == vals@[i as int]);
                reveal(Seq::filter);
                assert(set_labels(next) == if vals@[i as int] >= 0 {
                    set_labels(vals@.subrange(0, i as int)).push(vals@[i as int])
                } else {
                    set_labels(vals@.subrange(0, i as int))
                });
            }
            if vals[i] >= 0 {
                r.push(vals[i]);
            }
            i += 1;
        }
        proof {
            assert(vals@.subrange(0, vals@.len() as int) =~= vals@);
        }
        r
    }
}

impl DjMap {
    /// The distances over the window's own coordinates, its corner at `(0, 0)`.
    pub closed spec fn spec_field(&self) -> Grid<i32> {
        self.map
    }

    /// Which window cells the last update let the search enter.
    pub closed spec fn spec_open(&self) -> Grid<bool> {
        self.open
    }

    /// Recomputes the field for a player at `(px, py)` on `level` unless it
    /// was computed for that cell already: the window is centred on the
    /// player, and every window cell gets its hop distance from the player
    /// over floor cells of the window, or -1.
    pub fn update(&mut self, bfs: &mut BFS, level: &LevelMap, px: i32, py: i32)
        requires
            old(self).wf(),
            level.wf(),
            level.view_bounds().spec_contains(px as int, py as int),
            level.view_bounds().xx < i32::MAX - old(self).spec_max_width(),
            level.view_bounds().yy < i32::MAX - old(self).spec_max_height(),
        ensures
            final(self).wf(),
            final(self).spec_plp() == Some((px, py)),
            final(self).spec_bounds() == old(self).spec_bounds() || old(self).spec_plp() != Some((px, py)),
            old(self).spec_plp() != Some((px, py)) ==> {
                let b = final(self).spec_bounds();
                let open = final(self).spec_open();
                &&& b.spec_contains(px as int, py as int)
                &&& forall|lx: int, ly: int|
                    open.spec_in_bounds(lx, ly) ==> (open.at(lx, ly) <==> b.spec_contains(
                        b.x + lx,
                        b.y + ly,
                    ) && level.view_tile(b.x + lx, b.y + ly) == TileType::Floor)
                &&& exact_distances(
                    final(self).spec_field(),
                    open,
                    seq![Point { x: (px - b.x) as i32, y: (py - b.y) as i32 }],
                )
            },
    {
        if !self.needs_updating(px, py) {
            return;
        }
        let level_bounds = level.bounds();
        self.reset(px, py, level_bounds);
        let (mw, mh) = (self.map.width(), self.map.height());
        let b = self.bounds;
        let mut ly: i32 = 0;
        while ly < mh
            invariant
                self.wf(),
                self.bounds == b,
                self.plp == Some((px, py)),
                self.map.spec_width() == mw,
                self.map.spec_height() == mh,
                all_unlabelled(self.map),
                level.wf(),
                forall|x: int, y: int| #[trigger] b.spec_contains(x, y) ==> level.view_bounds().spec_contains(x, y),
                0 <= ly <= mh,
                forall|x: int, y: int|
                    0 <= x < mw && 0 <= y < ly ==> (#[trigger] self.open.at(x, y) <==> b.spec_contains(
                        b.x + x,
                        b.y + y,
                    ) && level.view_tile(b.x + x, b.y + y) == TileType::Floor),
            decreases mh - ly,
        {
            let mut lx: i32 = 0;
            while lx < mw
                invariant
                    self.wf(),
                    self.bounds == b,
                    self.plp == Some((px, py)),
                    self.map.spec_width() == mw,
                    self.map.spec_height() == mh,
                    all_unlabelled(self.map),
                    level.wf(),
                    forall|x: int, y: int| #[trigger] b.spec_contains(x, y) ==> level.view_bounds().spec_contains(x, y),
                    0 <= lx <= mw,
                    0 <= ly < mh,
                    forall|x: int, y: int|
                        0 <= x < mw && 0 <= y < ly ==> (#[trigger] self.open.at(x, y) <==> b.spec_contains(
                            b.x + x,
                            b.y + y,
                        ) && level.view_tile(b.x + x, b.y + y) == TileType::Floor),
                    forall|x: int|
                        0 <= x < lx ==> (#[trigger] self.open.at(x, ly as int) <==> b.spec_contains(
                            b.x + x,
                            b.y + ly,
                        ) && level.view_tile(b.x + x, b.y + ly) == TileType::Floor),
                decreases mw - lx,
            {
                let (wx, wy) = (b.x as i64 + lx as i64, b.y as i64 + ly as i64);
                let inside = wx <= b.xx as i64 && wy <= b.yy as i64;
                let floor = inside && {
                    proof {
                        assert(b.spec_contains(wx as int, wy as int));
                    }
                    level.tile(wx as i32, wy as i32) == TileType::Floor
                };
                let ghost before = self.open;
                self.open.set(lx, ly, floor);
                proof {
                    assert forall|x: int, y: int| 0 <= x < mw && 0 <= y < mh && (x != lx || y != ly) implies #[trigger] self.open.at(x, y) == before.at(x, y) by {
                        lemma_cell_index_bounds(mw as int, mh as int, x, y);
                        lemma_cell_index_bounds(mw as int, mh as int, lx as int, ly as int);
                        if cell_index(mw as int, x, y) == cell_index(mw as int, lx as int, ly as int) {
                            crate::grid::lemma_cell_index_injective(mw as int, mh as int, x, y, lx as int, ly as int);
                        }
                    }
                    lemma_cell_index_bounds(mw as int, mh as int, lx as int, ly as int);
                }
                lx += 1;
            }
            ly += 1;
        }
        let mut sources: Vec<Point> = Vec::new();
        sources.push(Point { x: px - b.x, y: py - b.y });
        proof {
            assert(sources@ =~= seq![Point { x: (px - b.x) as i32, y: (py - b.y) as i32 }]);
        }
        bfs.search(&sources, &mut self.map, &self.open);
    }
}

/// A cell a monster at `(x, y)` may step to: beside it, inside the window
/// with a distance, on the level and not blocked.
pub open spec fn step_candidate(dj: &DjMap, level: &LevelMap, x: int, y: int, nx: int, ny: int) -> bool {
    &&& -1 <= nx - x <= 1
    &&& -1 <= ny - y <= 1
    &&& (nx != x || ny != y)
    &&& dj.spec_bounds().spec_contains(nx, ny)
    &&& dj.spec_get(nx, ny) >= 0
    &&& level.view_bounds().spec_contains(nx, ny)
    &&& !level.view_flags(nx, ny).blocked
}

/// Squared distance from `(x, y)` to `(px, py)`.
pub open spec fn sq_to(x: int, y: int, px: int, py: int) -> int {
    (x - px) * (x - px) + (y - py) * (y - py)
}

/// `(d1, e1)` comes no later than `(d2, e2)` in lexicographic order.
pub open spec fn lex_le(d1: int, e1: int, d2: int, e2: int) -> bool {
    d1 < d2 || (d1 == d2 && e1 <= e2)
}

impl DjMap {
    /// Where a monster at `(x, y)` steps toward the player at `(px, py)`:
    /// the free neighbour of least distance in the field, nearer the player
    /// in a straight line among equals, the first found among full ties;
    /// `None` where no neighbour is free.
    pub fn downhill_step(&self, level: &LevelMap, x: i32, y: i32, px: i32, py: i32) -> (r: Option<(i32, i32)>)
        requires
            self.wf(),
            level.wf(),
            level.view_bounds().spec_contains(x as int, y as int),
            level.view_bounds().spec_contains(px as int, py as int),
        ensures
            match r {
                Some((nx, ny)) => {
                    &&& step_candidate(self, level, x as int, y as int, nx as int, ny as int)
                    &&& forall|k: int|
                        0 <= k < 8 && #[trigger] step_candidate(
                            self,
                            level,
                            x as int,
                            y as int,
                            x + dj_offset(k).0,
                            y + dj_offset(k).1,
                        ) ==> lex_le(
                            self.spec_get(nx as int, ny as int) as int,
                            sq_to(nx as int, ny as int, px as int, py as int),
                            self.spec_get(x + dj_offset(k).0, y + dj_offset(k).1) as int,
                            sq_to(x + dj_offset(k).0, y + dj_offset(k).1, px as int, py as int),
                        )
                },
                None => forall|k: int|
                    0 <= k < 8 ==> !#[trigger] step_candidate(
                        self,
                        level,
                        x as int,
                        y as int,
                        x + dj_offset(k).0,
                        y + dj_offset(k).1,
                    ),
            },
    {
        let adj = self.adjacent(x, y);
        let lb = level.bounds();
        let mut best: Option<(i32, i32, i32, i64)> = None;
        let mut i: usize = 0;
        while i < adj.len()
            invariant
                self.wf(),
                level.wf(),
                lb == level.view_bounds(),
                level.view_bounds().spec_contains(x as int, y as int),
                level.view_bounds().spec_contains(px as int, py as int),
                i <= adj@.len(),
                forall|j: int|
                    0 <= j < adj@.len() ==> {
                        let (nx, ny, d) = #[trigger] adj@[j];
                        &&& -1 <= nx - x <= 1 && -1 <= ny - y <= 1 && (nx != x || ny != y)
                        &&& self.spec_bounds().spec_contains(nx as int, ny as int)
                        &&& d == self.spec_get(nx as int, ny as int)
                        &&& d >= 0
                    },
                match best {
                    Some((bx, by, bd, be)) => {
                        &&& step_candidate(self, level, x as int, y as int, bx as int, by as int)
                        &&& bd == self.spec_get(bx as int, by as int)
                        &&& be == sq_to(bx as int, by as int, px as int, py as int)
                        &&& forall|j: int|
                            0 <= j < i && step_candidate(
                                self,
                                level,
                                x as int,
                                y as int,
                                (#[trigger] adj@[j]).0 as int,
                                adj@[j].1 as int,
                            ) ==> lex_le(
                                bd as int,
                                be as int,
                                adj@[j].2 as int,
                                sq_to(adj@[j].0 as int, adj@[j].1 as int, px as int, py as int),
                            )
                    },
                    None => forall|j: int|
                        0 <= j < i ==> !step_candidate(
                            self,
                            level,
                            x as int,
                            y as int,
                            (#[trigger] adj@[j]).0 as int,
                            adj@[j].1 as int,
                        ),
                },
            decreases adj@.len() - i,
        {
            let (nx, ny, d) = adj[i];
            if lb.contains(nx, ny) && !level.tile_flags(nx, ny).blocked {
                let dx = nx as i64 - px as i64;
                let dy = ny as i64 - py as i64;
                proof {
                    assert(0 <= dx * dx <= 0x3fff_ffff_0000_0001) by (nonlinear_arith)
                        requires
                            -0x7fff_ffff <= dx <= 0x7fff_ffff,
                    ;
                    assert(0 <= dy * dy <= 0x3fff_ffff_0000_0001) by (nonlinear_arith)
                        requires
                            -0x7fff_ffff <= dy <= 0x7fff_ffff,
                    ;
                }
                let e = dx * dx + dy * dy;
                let better = match best {
                    Some((_, _, bd, be)) => d < bd || (d == bd && e < be),
                    None => true,
                };
                if better {
                    best = Some((nx, ny, d, e));
                }
            }
            i += 1;
        }
        match best {
            Some((bx, by, _, _)) => Some((bx, by)),
            None => None,
        }
    }
}

} // verus!
