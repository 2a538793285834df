use vstd::prelude::*;
use crate::builder::MapBuilder;
use crate::spawn::{distinct_cells, cell_in_box, pick_cells};
use std::collections::VecDeque;
use crate::astar::AStarPath;
use crate::base_map::{BaseMap, on_map};
use crate::grid::Grid;
use crate::irect::{IRect, Point};
use crate::map::{IntermediateMap, LevelMap, TileType};
use crate::rng::{random_range, random_ratio};
use crate::bfs::{adjacent_cells};
use crate::grid::{cell_index, lemma_cell_index_bounds, lemma_cell_index_injective};
use crate::astar::{is_path, consistent, admissible, lemma_consistent_admissible};
use crate::walk::{walkable, connected, in_box, lemma_connected_step, lemma_connected_mono, lemma_connected_self, lemma_connected_box};

verus! {

/// The smallest side a partition piece or a room may have.
pub const MIN_SIZE: i32 = 9;

/// Cost of stepping onto a floor cell while carving a corridor.
pub const FLOOR_STEP: u64 = 1;

/// Cost of stepping onto a cell that has to be carved.
pub const CARVE_STEP: u64 = 5;

/// `r` lies on a `w` by `h` map and both its sides are at least `MIN_SIZE`.
pub open spec fn rect_in(r: IRect, w: int, h: int) -> bool {
    &&& 0 <= r.x
    &&& r.x + MIN_SIZE - 1 <= r.xx < w
    &&& 0 <= r.y
    &&& r.y + MIN_SIZE - 1 <= r.yy < h
}

/// `a` lies inside `b`.
pub open spec fn rect_within(a: IRect, b: IRect) -> bool {
    b.x <= a.x && a.xx <= b.xx && b.y <= a.y && a.yy <= b.yy
}

/// `k` tenths of `v`, rounded down.
fn tenths(v: i32, k: i64) -> (r: i32)
    requires
        v >= 0,
        0 <= k <= 10,
    ensures
        r == v * k / 10,
        0 <= r <= v,
{
    proof {
        assert(0 <= v * k <= v * 10) by (nonlinear_arith)
            requires
                v >= 0,
                0 <= k <= 10,
        ;
    }
    (v as i64 * k / 10) as i32
}

/// Splits `r` in two across its longer-looking side, at a random place that
/// leaves both pieces at least `MIN_SIZE` and between three and seven tenths
/// of the whole; the two pieces share the line between them. Gives `None`
/// once neither side is at least `2 * MIN_SIZE + 1`. Which side is split,
/// where both could be, is drawn with chance `width / (width + height)` for
/// a split of the width.
pub fn split(r: IRect) -> (res: Option<(IRect, IRect)>)
    requires
        rect_in(r, i32::MAX as int, i32::MAX as int),
    ensures
        res.is_none() <==> (r.spec_width() - 1) / 2 < MIN_SIZE && (r.spec_height() - 1) / 2 < MIN_SIZE,
        res matches Some((a, b)) ==> {
            &&& rect_within(a, r) && rect_within(b, r)
            &&& rect_in(a, i32::MAX as int, i32::MAX as int)
            &&& rect_in(b, i32::MAX as int, i32::MAX as int)
            &&& a.x == r.x && a.y == r.y && b.xx == r.xx && b.yy == r.yy
            &&& ((a.yy == r.yy && b.y == r.y && b.x == a.xx) || (a.xx == r.xx && b.x == r.x && b.y
                == a.yy))
            &&& a.yy == r.yy && b.x == a.xx ==> {
                &&& a.spec_width() >= r.spec_width() * 3 / 10
                &&& a.spec_width() <= r.spec_width() * 7 / 10
                &&& a.spec_width() <= r.spec_width() - MIN_SIZE
            }
            &&& a.xx == r.xx && b.y == a.yy ==> {
                &&& a.spec_height() >= r.spec_height() * 3 / 10
                &&& a.spec_height() <= r.spec_height() * 7 / 10
                &&& a.spec_height() <= r.spec_height() - MIN_SIZE
            }
        },
{
    let width = r.width();
    let height = r.height();
    let roll = random_ratio(width as u32, (width as u32) + (height as u32));
    let (hw, hh) = ((width - 1) / 2, (height - 1) / 2);
    if hw >= MIN_SIZE && (hh < MIN_SIZE || roll) {
        let min_w = if MIN_SIZE >= tenths(width, 3) { MIN_SIZE } else { tenths(width, 3) };
        let max_w = if width - MIN_SIZE <= tenths(width, 7) { width - MIN_SIZE } else { tenths(width, 7) };
        let w = random_range(min_w, max_w);
        return Some((IRect::new(r.x, r.y, w, height), IRect::new(r.x + w - 1, r.y, width - w + 1, height)));
    }
    if hh >= MIN_SIZE && (hw < MIN_SIZE || !roll) {
        let min_h = if MIN_SIZE >= tenths(height, 3) { MIN_SIZE } else { tenths(height, 3) };
        let max_h = if height - MIN_SIZE <= tenths(height, 7) { height - MIN_SIZE } else { tenths(height, 7) };
        let h = random_range(min_h, max_h);
        return Some((IRect::new(r.x, r.y, width, h), IRect::new(r.x, r.y + h - 1, width, height - h + 1)));
    }
    None
}

/// Shrinks `r` to a random sub-rectangle whose sides are between half and
/// nine tenths of the old ones (never below `MIN_SIZE`), placed at a random
/// offset inside it.
pub fn trim_rect(r: &mut IRect)
    requires
        rect_in(*old(r), i32::MAX as int, i32::MAX as int),
    ensures
        rect_within(*final(r), *old(r)),
        rect_in(*final(r), i32::MAX as int, i32::MAX as int),
        final(r).spec_width() >= old(r).spec_width() / 2,
        final(r).spec_height() >= old(r).spec_height() / 2,
        final(r).spec_width() <= if old(r).spec_width() * 9 / 10 >= MIN_SIZE { old(r).spec_width() * 9 / 10 } else { MIN_SIZE as int },
        final(r).spec_height() <= if old(r).spec_height() * 9 / 10 >= MIN_SIZE { old(r).spec_height() * 9 / 10 } else { MIN_SIZE as int },
{
    let width = r.width();
    let height = r.height();
    let min_w = if MIN_SIZE >= tenths(width, 5) { MIN_SIZE } else { tenths(width, 5) };
    let min_h = if MIN_SIZE >= tenths(height, 5) { MIN_SIZE } else { tenths(height, 5) };
    let max_w = if MIN_SIZE >= tenths(width, 9) { MIN_SIZE } else { tenths(width, 9) };
    let max_h = if MIN_SIZE >= tenths(height, 9) { MIN_SIZE } else { tenths(height, 9) };
    let w = random_range(min_w, max_w);
    let h = random_range(min_h, max_h);
    let (wspace, hspace) = (width - w, height - h);
    let offx = random_range(0, wspace);
    let offy = random_range(0, hspace);
    r.x = r.x + offx;
    r.y = r.y + offy;
    r.xx = r.xx - (wspace - offx);
    r.yy = r.yy - (hspace - offy);
}

} // verus!

verus! {

/// The four side offsets in the order corridors try them.
pub open spec fn side_offset(k: int) -> (int, int) {
    if k == 0 {
        (1, 0)
    } else if k == 1 {
        (0, 1)
    } else if k == 2 {
        (-1, 0)
    } else {
        (0, -1)
    }
}

fn side_offset_at(k: usize) -> (r: (i32, i32))
    requires
        k < 4,
    ensures
        r.0 == side_offset(k as int).0,
        r.1 == side_offset(k as int).1,
{
    if k == 0 {
        (1, 0)
    } else if k == 1 {
        (0, 1)
    } else if k == 2 {
        (-1, 0)
    } else {
        (0, -1)
    }
}

/// The costs of carving a corridor through a level in progress: side steps
/// inside `bounds`, cheap onto floor and dear onto anything else.
pub struct CorridorMap<'a> {
    tiles: &'a Grid<TileType>,
    bounds: IRect,
}

impl<'a> CorridorMap<'a> {
    pub fn new(tiles: &'a Grid<TileType>, bounds: IRect) -> (r: CorridorMap<'a>)
        ensures
            r.spec_tiles() == *tiles,
            r.spec_bounds() == bounds,
    {
        CorridorMap { tiles, bounds }
    }

    pub closed spec fn spec_tiles(&self) -> Grid<TileType> {
        *self.tiles
    }

    pub closed spec fn spec_bounds(&self) -> IRect {
        self.bounds
    }

    /// The steps from `p` among the first `k` side offsets.
    pub open spec fn steps_upto(&self, p: Point, k: int) -> Seq<(Point, u64)>
        decreases k,
    {
        if k <= 0 {
            Seq::empty()
        } else {
            let prev = self.steps_upto(p, k - 1);
            let o = side_offset(k - 1);
            let n = Point { x: (p.x + o.0) as i32, y: (p.y + o.1) as i32 };
            if self.spec_bounds().spec_contains(n.x as int, n.y as int) {
                prev.push(
                    (
                        n,
                        if self.spec_tiles().at(n.x as int, n.y as int) == TileType::Floor {
                            FLOOR_STEP
                        } else {
                            CARVE_STEP
                        },
                    ),
                )
            } else {
                prev
            }
        }
    }
}

impl<'a> BaseMap for CorridorMap<'a> {
    open spec fn map_ok(&self) -> bool {
        &&& self.spec_tiles().wf()
        &&& 0 <= self.spec_bounds().x
        &&& 0 <= self.spec_bounds().y
        &&& self.spec_bounds().xx < self.spec_tiles().spec_width()
        &&& self.spec_bounds().yy < self.spec_tiles().spec_height()
    }

    open spec fn spec_size(&self) -> (int, int) {
        (self.spec_tiles().spec_width(), self.spec_tiles().spec_height())
    }

    open spec fn spec_opaque(&self, p: Point) -> bool {
        self.spec_tiles().at(p.x as int, p.y as int) == TileType::Wall
    }

    open spec fn spec_successors(&self, p: Point) -> Seq<(Point, u64)> {
        self.steps_upto(p, 4)
    }

    open spec fn spec_distance(&self, a: Point, b: Point) -> u64 {
        let s = b.x - a.x + b.y - a.y;
        (if s >= 0 { s } else { -s }) as u64
    }

    fn size(&self) -> (r: (i32, i32)) {
        (self.tiles.width(), self.tiles.height())
    }

    fn is_opaque(&self, p: Point) -> (r: bool) {
        *self.tiles.get(p.x, p.y) == TileType::Wall
    }

    fn distance(&self, a: Point, b: Point) -> (r: u64) {
        let s = b.x as i64 - a.x as i64 + b.y as i64 - a.y as i64;
        (if s >= 0 { s } else { -s }) as u64
    }

    fn successors(&self, p: Point) -> (r: Vec<(Point, u64)>) {
        let mut r: Vec<(Point, u64)> = Vec::new();
        let mut k: usize = 0;
        while k < 4
            invariant
                self.map_ok(),
                on_map(self.spec_size(), p),
                k <= 4,
                r@ == self.steps_upto(p, k as int),
                forall|i: int| 0 <= i < r@.len() ==> on_map(self.spec_size(), #[trigger] r@[i].0),
            decreases 4 - k,
        {
            let (dx, dy) = side_offset_at(k);
            let n = Point { x: p.x + dx, y: p.y + dy };
            if self.bounds.contains(n.x, n.y) {
                let cost = if *self.tiles.get(n.x, n.y) == TileType::Floor {
                    FLOOR_STEP
                } else {
                    CARVE_STEP
                };
                r.push((n, cost));
            }
            k += 1;
        }
        r
    }
}

/// Each step of a corridor map goes to a side neighbour inside its bounds.
proof fn lemma_steps_adjacent(cmap: &CorridorMap, p: Point, m: int)
    requires
        0 <= m <= 4,
        i32::MIN < p.x < i32::MAX,
        i32::MIN < p.y < i32::MAX,
    ensures
        forall|k: int|
            0 <= k < cmap.steps_upto(p, m).len() ==> adjacent_cells(p, (#[trigger] cmap.steps_upto(p, m)[k]).0)
                && cmap.spec_bounds().spec_contains(cmap.steps_upto(p, m)[k].0.x as int, cmap.steps_upto(p, m)[k].0.y as int),
    decreases m,
{
    if m > 0 {
        lemma_steps_adjacent(cmap, p, m - 1);
        let prev = cmap.steps_upto(p, m - 1);
        let cur = cmap.steps_upto(p, m);
        assert forall|k: int| 0 <= k < cur.len() implies adjacent_cells(p, (#[trigger] cur[k]).0)
            && cmap.spec_bounds().spec_contains(cur[k].0.x as int, cur[k].0.y as int) by {
            if k < prev.len() {
                assert(cur[k] == prev[k]);
            } else {
                let o = side_offset(m - 1);
                assert(cur[k].0 == Point { x: (p.x + o.0) as i32, y: (p.y + o.1) as i32 });
            }
        }
    }
}

/// Neither side of `r` is long enough to split.
pub open spec fn unsplittable(r: IRect) -> bool {
    (r.spec_width() - 1) / 2 < MIN_SIZE && (r.spec_height() - 1) / 2 < MIN_SIZE
}

/// The weight of a piece: splitting it gives two pieces of weight one less
/// in all.
pub open spec fn piece_weight(r: IRect) -> int {
    2 * (r.spec_width() - 1) * (r.spec_height() - 1) - 1
}

/// The total weight of the pieces waiting to be split.
pub open spec fn queue_weight(q: Seq<IRect>) -> int
    decreases q.len(),
{
    if q.len() == 0 {
        0
    } else {
        piece_weight(q[0]) + queue_weight(q.drop_first())
    }
}

proof fn lemma_queue_weight_push(q: Seq<IRect>, x: IRect)
    ensures
        queue_weight(q.push(x)) == queue_weight(q) + piece_weight(x),
    decreases q.len(),
{
    if q.len() == 0 {
        assert(q.push(x).drop_first() =~= Seq::<IRect>::empty());
        assert(q.push(x)[0] == x);
        assert(queue_weight(q.push(x).drop_first()) == 0);
        assert(queue_weight(q.push(x)) == piece_weight(x) + queue_weight(q.push(x).drop_first()));
    } else {
        assert(q.push(x).drop_first() =~= q.drop_first().push(x));
        assert(q.push(x)[0] == q[0]);
        lemma_queue_weight_push(q.drop_first(), x);
        assert(queue_weight(q.push(x)) == piece_weight(q[0]) + queue_weight(q.push(x).drop_first()));
    }
}

proof fn lemma_queue_weight_nonneg(q: Seq<IRect>)
    requires
        forall|i: int| 0 <= i < q.len() ==> rect_in(#[trigger] q[i], i32::MAX as int, i32::MAX as int),
    ensures
        queue_weight(q) >= 0,
    decreases q.len(),
{
    if q.len() > 0 {
        lemma_piece_weight_positive(q[0]);
        assert forall|i: int| 0 <= i < q.drop_first().len() implies rect_in(#[trigger] q.drop_first()[i], i32::MAX as int, i32::MAX as int) by {
            assert(q.drop_first()[i] == q[i + 1]);
        }
        lemma_queue_weight_nonneg(q.drop_first());
    }
}

proof fn lemma_piece_weight_positive(r: IRect)
    requires
        rect_in(r, i32::MAX as int, i32::MAX as int),
    ensures
        piece_weight(r) > 0,
{
    assert(2 * (r.spec_width() - 1) * (r.spec_height() - 1) >= 128) by (nonlinear_arith)
        requires
            r.spec_width() >= 9,
            r.spec_height() >= 9,
    ;
}

proof fn lemma_split_weight(r: IRect, a: IRect, b: IRect)
    requires
        a.x == r.x && a.y == r.y && b.xx == r.xx && b.yy == r.yy,
        (a.yy == r.yy && b.y == r.y && b.x == a.xx) || (a.xx == r.xx && b.x == r.x && b.y == a.yy),
    ensures
        piece_weight(a) + piece_weight(b) == piece_weight(r) - 1,
{
    if a.yy == r.yy && b.y == r.y && b.x == a.xx {
        assert(2 * (a.spec_width() - 1) * (r.spec_height() - 1) + 2 * (b.spec_width() - 1) * (r.spec_height() - 1)
            == 2 * (r.spec_width() - 1) * (r.spec_height() - 1)) by (nonlinear_arith)
            requires
                a.spec_width() - 1 + b.spec_width() - 1 == r.spec_width() - 1,
        ;
    } else {
        assert(2 * (r.spec_width() - 1) * (a.spec_height() - 1) + 2 * (r.spec_width() - 1) * (b.spec_height() - 1)
            == 2 * (r.spec_width() - 1) * (r.spec_height() - 1)) by (nonlinear_arith)
            requires
                a.spec_height() - 1 + b.spec_height() - 1 == r.spec_height() - 1,
        ;
    }
}

/// `q` is a cell of the path `p`.
pub open spec fn on_path(p: Seq<(Point, u64)>, q: Point) -> bool {
    exists|j: int| 0 <= j < p.len() && p[j].0 == q
}

/// `q` is one of `cells` from position `i` on.
pub open spec fn carved(cells: Seq<Point>, i: int, q: Point) -> bool {
    exists|j: int| i <= j < cells.len() && cells[j] == q
}

proof fn lemma_carve_step(
    t0: Grid<TileType>,
    t1: Grid<TileType>,
    t2: Grid<TileType>,
    cells: Seq<Point>,
    i: int,
    c: Point,
)
    requires
        0 <= i < cells.len(),
        cells[i] == c,
        forall|q: Point|
            t0.spec_in_bounds(q.x as int, q.y as int) ==> #[trigger] t1.at(q.x as int, q.y as int)
                == if carved(cells, i + 1, q) {
                TileType::Floor
            } else {
                t0.at(q.x as int, q.y as int)
            },
        forall|q: Point|
            t1.spec_in_bounds(q.x as int, q.y as int) ==> #[trigger] t2.at(q.x as int, q.y as int)
                == if q == c {
                TileType::Floor
            } else {
                t1.at(q.x as int, q.y as int)
            },
        t1.spec_width() == t0.spec_width(),
        t1.spec_height() == t0.spec_height(),
    ensures
        forall|q: Point|
            t0.spec_in_bounds(q.x as int, q.y as int) ==> #[trigger] t2.at(q.x as int, q.y as int)
                == if carved(cells, i, q) {
                TileType::Floor
            } else {
                t0.at(q.x as int, q.y as int)
            },
{
    assert forall|q: Point| t0.spec_in_bounds(q.x as int, q.y as int) implies #[trigger] t2.at(q.x as int, q.y as int)
        == if carved(cells, i, q) {
        TileType::Floor
    } else {
        t0.at(q.x as int, q.y as int)
    } by {
        assert(t1.spec_in_bounds(q.x as int, q.y as int));
        assert(t1.at(q.x as int, q.y as int) == if carved(cells, i + 1, q) {
            TileType::Floor
        } else {
            t0.at(q.x as int, q.y as int)
        });
        if q == c {
            assert(cells[i] == q);
        } else if carved(cells, i, q) {
            let j = choose|j: int| i <= j < cells.len() && cells[j] == q;
            assert(j != i);
            assert(carved(cells, i + 1, q));
        } else {
            if carved(cells, i + 1, q) {
                let j = choose|j: int| i + 1 <= j < cells.len() && cells[j] == q;
                assert(carved(cells, i, q));
            }
        }
    }
}

proof fn lemma_steps_facts(cmap: &CorridorMap, p: Point, m: int)
    requires
        0 <= m <= 4,
        i32::MIN < p.x < i32::MAX,
        i32::MIN < p.y < i32::MAX,
    ensures
        forall|k: int|
            0 <= k < cmap.steps_upto(p, m).len() ==> {
                let e = #[trigger] cmap.steps_upto(p, m)[k];
                &&& cmap.spec_bounds().spec_contains(e.0.x as int, e.0.y as int)
                &&& e.1 >= 1
                &&& (if e.0.x >= p.x { e.0.x - p.x } else { p.x - e.0.x }) + (if e.0.y >= p.y {
                    e.0.y - p.y
                } else {
                    p.y - e.0.y
                }) <= 1
            },
    decreases m,
{
    if m > 0 {
        lemma_steps_facts(cmap, p, m - 1);
        let prev = cmap.steps_upto(p, m - 1);
        let cur = cmap.steps_upto(p, m);
        assert forall|k: int| 0 <= k < cur.len() implies {
            let e = #[trigger] cur[k];
            &&& cmap.spec_bounds().spec_contains(e.0.x as int, e.0.y as int)
            &&& e.1 >= 1
            &&& (if e.0.x >= p.x { e.0.x - p.x } else { p.x - e.0.x }) + (if e.0.y >= p.y {
                e.0.y - p.y
            } else {
                p.y - e.0.y
            }) <= 1
        } by {
            if k < prev.len() {
                assert(cur[k] == prev[k]);
            } else {
                let o = side_offset(m - 1);
                assert(cur[k].0 == Point { x: (p.x + o.0) as i32, y: (p.y + o.1) as i32 });
            }
        }
    }
}

/// The corridor heuristic `|dx + dy|` is consistent: each step costs at
/// least one and changes `dx + dy` by one.
pub proof fn lemma_corridor_consistent(cmap: &CorridorMap, to: Point)
    requires
        cmap.map_ok(),
    ensures
        consistent(cmap, to),
        admissible(cmap, to),
{
    assert forall|a: Point, k: int|
        on_map(cmap.spec_size(), a) && 0 <= k < cmap.spec_successors(a).len() implies {
            let e = #[trigger] cmap.spec_successors(a)[k];
            &&& on_map(cmap.spec_size(), e.0)
            &&& cmap.spec_distance(a, to) <= e.1 + cmap.spec_distance(e.0, to)
        } by {
        lemma_steps_facts(cmap, a, 4);
        let e = cmap.steps_upto(a, 4)[k];
        assert(cmap.spec_bounds().spec_contains(e.0.x as int, e.0.y as int));
    }
    lemma_consistent_admissible(cmap, to);
}

/// The inner cells of room `r`, inside its walls.
pub open spec fn in_room(r: IRect, p: Point) -> bool {
    in_box(r.x + 1, r.y + 1, r.xx - 1, r.yy - 1, p)
}

/// The centre cell of room `r`.
pub open spec fn room_center(r: IRect) -> Point {
    Point { x: ((r.x + r.xx) / 2) as i32, y: ((r.y + r.yy) / 2) as i32 }
}

/// Every inner cell of `r` is walkable.
pub open spec fn room_open(tiles: Grid<TileType>, r: IRect) -> bool {
    forall|p: Point| #[trigger] in_room(r, p) ==> walkable(tiles, p)
}

/// What a finished partition level guarantees: the start is walkable, every
/// walkable cell can be reached from it, and the down stairs stand elsewhere.
pub open spec fn level_ok(tiles: Grid<TileType>, start: Point) -> bool {
    &&& walkable(tiles, start)
    &&& forall|p: Point| #[trigger] walkable(tiles, p) ==> connected(tiles, start, p)
    &&& exists|e: Point|
        #[trigger] tiles.spec_in_bounds(e.x as int, e.y as int) && tiles.at(e.x as int, e.y as int)
            == TileType::DownStairs && e != start
}

/// While corridors are dug: the first `i` rooms are joined to the start and
/// every walkable cell is joined to the start or lies in a room not yet
/// joined, whose inside is all walkable.
pub open spec fn corridor_inv(t: Grid<TileType>, rooms: Seq<IRect>, i: int) -> bool {
    let n = rooms.len();
    let start = room_center(rooms[0]);
    &&& n >= 1
    &&& room_open(t, rooms[0])
    &&& forall|j: int| 0 <= j < i ==> connected(t, start, room_center(#[trigger] rooms[j]))
    &&& forall|p: Point|
        #[trigger] walkable(t, p) ==> connected(t, start, p) || exists|k: int|
            i <= k < n && #[trigger] in_room(rooms[k], p)
    &&& forall|k: int| i <= k < n ==> room_open(t, #[trigger] rooms[k])
}

/// Filling a box with floor opens the box and closes nothing.
proof fn lemma_fill_floor(t1: Grid<TileType>, t2: Grid<TileType>, x0: int, y0: int, x1: int, y1: int)
    requires
        t2.spec_width() == t1.spec_width(),
        t2.spec_height() == t1.spec_height(),
        forall|q: Point|
            t1.spec_in_bounds(q.x as int, q.y as int) ==> #[trigger] t2.at(q.x as int, q.y as int) == if in_box(x0, y0, x1, y1, q) {
                TileType::Floor
            } else {
                t1.at(q.x as int, q.y as int)
            },
        0 <= x0,
        x1 < t1.spec_width(),
        0 <= y0,
        y1 < t1.spec_height(),
    ensures
        forall|q: Point| walkable(t1, q) ==> #[trigger] walkable(t2, q),
        forall|q: Point| in_box(x0, y0, x1, y1, q) ==> #[trigger] walkable(t2, q),
{
    assert forall|q: Point| walkable(t1, q) implies #[trigger] walkable(t2, q) by {
        assert(t2.at(q.x as int, q.y as int) == if in_box(x0, y0, x1, y1, q) {
            TileType::Floor
        } else {
            t1.at(q.x as int, q.y as int)
        });
    }
    assert forall|q: Point| in_box(x0, y0, x1, y1, q) implies #[trigger] walkable(t2, q) by {
        assert(t1.spec_in_bounds(q.x as int, q.y as int));
        assert(t2.at(q.x as int, q.y as int) == TileType::Floor);
    }
}

/// Consecutive cells of a corridor path are side neighbours inside the
/// corridor bounds.
proof fn lemma_path_steps(cm: &CorridorMap, res: Seq<(Point, u64)>, from: Point, to: Point, j: int)
    requires
        is_path(cm, res, from, to),
        cm.map_ok(),
        on_map(cm.spec_size(), from),
        0 <= j < res.len() - 1,
    ensures
        adjacent_cells(res[j + 1].0, res[j].0),
        cm.spec_bounds().spec_contains(res[j].0.x as int, res[j].0.y as int),
    decreases res.len() - j,
{
    if j + 1 < res.len() - 1 {
        lemma_path_steps(cm, res, from, to, j + 1);
    }
    let a = res[j + 1].0;
    let d = (res[j].1 - res[j + 1].1) as u64;
    assert(res[j + 1].1 <= res[j].1);
    assert(crate::astar::is_edge(cm, a, res[j].0, d));
    let kk = choose|kk: int|
        0 <= kk < cm.spec_successors(a).len() && #[trigger] cm.spec_successors(a)[kk] == (res[j].0, d);
    lemma_steps_adjacent(cm, a, 4);
    assert(cm.steps_upto(a, 4)[kk] == (res[j].0, d));
}

/// Opening a box of cells, one of which is then joined to the start,
/// keeps the corridor facts.
proof fn lemma_open_box(
    t1: Grid<TileType>,
    t2: Grid<TileType>,
    rooms: Seq<IRect>,
    i: int,
    x0: int,
    y0: int,
    x1: int,
    y1: int,
    anchor: Point,
)
    requires
        corridor_inv(t1, rooms, i),
        t1.wf(),
        t2.wf(),
        t2.spec_width() == t1.spec_width(),
        t2.spec_height() == t1.spec_height(),
        forall|q: Point|
            t1.spec_in_bounds(q.x as int, q.y as int) ==> #[trigger] t2.at(q.x as int, q.y as int) == if in_box(x0, y0, x1, y1, q) {
                TileType::Floor
            } else {
                t1.at(q.x as int, q.y as int)
            },
        0 <= x0 <= x1 < t1.spec_width(),
        0 <= y0 <= y1 < t1.spec_height(),
        in_box(x0, y0, x1, y1, anchor),
        connected(t2, room_center(rooms[0]), anchor),
    ensures
        corridor_inv(t2, rooms, i),
        forall|q: Point| walkable(t1, q) ==> #[trigger] walkable(t2, q),
        forall|q: Point| in_box(x0, y0, x1, y1, q) ==> #[trigger] walkable(t2, q),
{
    let start = room_center(rooms[0]);
    lemma_fill_floor(t1, t2, x0, y0, x1, y1);
    assert forall|k: int| i <= k < rooms.len() implies room_open(t2, #[trigger] rooms[k]) by {
        assert forall|p: Point| #[trigger] in_room(rooms[k], p) implies walkable(t2, p) by {
            assert(walkable(t1, p));
        }
    }
    assert(room_open(t2, rooms[0])) by {
        assert forall|p: Point| #[trigger] in_room(rooms[0], p) implies walkable(t2, p) by {
            assert(walkable(t1, p));
        }
    }
    assert forall|j: int| 0 <= j < i implies connected(t2, start, room_center(#[trigger] rooms[j])) by {
        lemma_connected_mono(t1, t2, start, room_center(rooms[j]));
    }
    assert forall|p: Point| #[trigger] walkable(t2, p) implies connected(t2, start, p) || exists|k: int|
        i <= k < rooms.len() && #[trigger] in_room(rooms[k], p) by {
        if in_box(x0, y0, x1, y1, p) {
            lemma_connected_box(t2, start, x0, y0, x1, y1, anchor, p);
        } else {
            assert(t1.spec_in_bounds(p.x as int, p.y as int));
            assert(walkable(t1, p));
            if connected(t1, start, p) {
                lemma_connected_mono(t1, t2, start, p);
            }
        }
    }
}

/// Once the centre of room `i` is joined, so is all of room `i`.
proof fn lemma_join_room(t: Grid<TileType>, rooms: Seq<IRect>, i: int)
    requires
        corridor_inv(t, rooms, i),
        0 <= i < rooms.len(),
        rect_in(rooms[i], t.spec_width(), t.spec_height()),
        connected(t, room_center(rooms[0]), room_center(rooms[i])),
    ensures
        corridor_inv(t, rooms, i + 1),
{
    let start = room_center(rooms[0]);
    let r = rooms[i];
    assert(room_open(t, r));
    assert forall|q: Point| in_box(r.x + 1, r.y + 1, r.xx - 1, r.yy - 1, q) implies #[trigger] walkable(t, q) by {
        assert(in_room(r, q));
    }
    assert(in_box(r.x + 1, r.y + 1, r.xx - 1, r.yy - 1, room_center(r)));
    assert forall|j: int| 0 <= j < i + 1 implies connected(t, start, room_center(#[trigger] rooms[j])) by {
    }
    assert forall|p: Point| #[trigger] walkable(t, p) implies connected(t, start, p) || exists|k: int|
        i + 1 <= k < rooms.len() && #[trigger] in_room(rooms[k], p) by {
        if !connected(t, start, p) {
            let k = choose|k: int| i <= k < rooms.len() && #[trigger] in_room(rooms[k], p);
            if k == i {
                lemma_connected_box(t, start, r.x + 1, r.y + 1, r.xx - 1, r.yy - 1, room_center(r), p);
            }
        }
    }
}

/// Writing a walkable tile keeps every walkable cell walkable.
proof fn lemma_write_open(t1: Grid<TileType>, t2: Grid<TileType>, x: int, y: int, t: TileType)
    requires
        t1.wf(),
        t2.wf(),
        t2.spec_width() == t1.spec_width(),
        t2.spec_height() == t1.spec_height(),
        t != TileType::Wall,
        forall|q: Point|
            t1.spec_in_bounds(q.x as int, q.y as int) ==> #[trigger] t2.at(q.x as int, q.y as int) == if q.x == x && q.y == y {
                t
            } else {
                t1.at(q.x as int, q.y as int)
            },
    ensures
        forall|q: Point| walkable(t1, q) ==> #[trigger] walkable(t2, q),
{
}

#[derive(PartialEq, Eq, Structural)]
enum Stage {
    Partition,
    TrimRooms,
    Corridors,
    Done,
}

/// A level generator by binary space partition: the map is split into
/// pieces, each piece gets a room, and neighbouring rooms in the partition
/// order are joined by carved corridors.
pub struct BSPGen {
    tiles: Grid<TileType>,
    split_queue: VecDeque<IRect>,
    rooms: Vec<IRect>,
    room_idx: usize,
    depth: i32,
    stage: Stage,
    pf_cache: AStarPath,
}

impl BSPGen {
    pub closed spec fn spec_tiles(&self) -> Grid<TileType> {
        self.tiles
    }

    pub closed spec fn spec_depth(&self) -> i32 {
        self.depth
    }

    pub closed spec fn done(&self) -> bool {
        self.stage == Stage::Done
    }

    /// The rooms found so far, in partition order.
    pub closed spec fn spec_rooms(&self) -> Seq<IRect> {
        if self.stage == Stage::Partition {
            self.rooms@ + self.split_queue@
        } else {
            self.rooms@
        }
    }

    /// The stage, counting down: 3 while partitioning, 2 while opening rooms,
    /// 1 while digging corridors, 0 once done.
    pub closed spec fn rank(&self) -> int {
        match self.stage {
            Stage::Partition => 3,
            Stage::TrimRooms => 2,
            Stage::Corridors => 1,
            Stage::Done => 0,
        }
    }

    /// The work left in the current stage: the weight of the pieces still to
    /// split, or the rooms still to open or join.
    pub closed spec fn remaining(&self) -> int {
        match self.stage {
            Stage::Partition => queue_weight(self.split_queue@),
            Stage::Done => 0,
            _ => self.rooms@.len() - self.room_idx,
        }
    }

    /// The path the last corridor search found, target first.
    pub closed spec fn spec_last_path(&self) -> Seq<(Point, u64)> {
        self.pf_cache.spec_result()
    }

    /// Where the player starts: the centre of the first room.
    pub closed spec fn spec_start(&self) -> Point {
        room_center(self.spec_rooms()[0])
    }

    closed spec fn stage_ok(&self) -> bool {
        let t = self.tiles;
        let rooms = self.rooms@;
        let n = rooms.len();
        let i = self.room_idx as int;
        let start = room_center(rooms[0]);
        match self.stage {
            Stage::Partition => self.split_queue@.len() >= 1 && forall|k: int|
                0 <= k < n ==> unsplittable(#[trigger] rooms[k]),
            Stage::TrimRooms => {
                &&& i < n
                &&& forall|p: Point|
                    #[trigger] walkable(t, p) ==> exists|k: int| 0 <= k < i && #[trigger] in_room(rooms[k], p)
                &&& forall|k: int| 0 <= k < i ==> room_open(t, #[trigger] rooms[k])
            },
            Stage::Corridors => 1 <= i < n && corridor_inv(t, rooms, i),
            Stage::Done => n >= 1 && level_ok(t, start),
        }
    }

    pub closed spec fn wf(&self) -> bool {
        self.shape_ok() && self.stage_ok()
    }

    /// Dimensions and room placement, whatever the stage.
    pub closed spec fn shape_ok(&self) -> bool {
        let w = self.tiles.spec_width();
        let h = self.tiles.spec_height();
        &&& self.tiles.wf()
        &&& w >= MIN_SIZE
        &&& h >= MIN_SIZE
        &&& w * h <= usize::MAX
        &&& self.stage != Stage::Partition ==> self.rooms@.len() >= 1
        &&& forall|i: int|
            0 <= i < self.split_queue@.len() ==> rect_in(#[trigger] self.split_queue@[i], w, h)
        &&& forall|i: int| 0 <= i < self.rooms@.len() ==> rect_in(#[trigger] self.rooms@[i], w, h)
    }

    /// A generator for a `width` by `height` level at `depth`.
    pub fn new(width: i32, height: i32, depth: i32) -> (r: BSPGen)
        requires
            width >= MIN_SIZE,
            height >= MIN_SIZE,
            width * height <= usize::MAX,
        ensures
            r.wf(),
            !r.done(),
            r.spec_depth() == depth,
            r.spec_tiles().spec_width() == width,
            r.spec_tiles().spec_height() == height,
            r.spec_rooms() == seq![IRect { x: 0, y: 0, xx: (width - 1) as i32, yy: (height - 1) as i32 }],
    {
        let mut split_queue: VecDeque<IRect> = VecDeque::new();
        split_queue.push_back(IRect::new(0, 0, width, height));
        let r = BSPGen {
            tiles: Grid::new(width, height, TileType::Floor),
            split_queue,
            rooms: Vec::new(),
            room_idx: 0,
            depth,
            stage: Stage::Partition,
            pf_cache: AStarPath::new(),
        };
        proof {
            assert(r.split_queue@ =~= seq![IRect { x: 0, y: 0, xx: (width - 1) as i32, yy: (height - 1) as i32 }]);
            assert(r.rooms@ + r.split_queue@ =~= r.split_queue@);
        }
        r
    }

    /// Sets the cell `(x, y)` to `t`.
    fn put(&mut self, x: i32, y: i32, t: TileType)
        requires
            old(self).tiles.wf(),
            old(self).tiles.spec_in_bounds(x as int, y as int),
        ensures
            final(self).tiles.wf(),
            final(self).tiles.spec_width() == old(self).tiles.spec_width(),
            final(self).tiles.spec_height() == old(self).tiles.spec_height(),
            forall|q: Point|
                old(self).tiles.spec_in_bounds(q.x as int, q.y as int) ==> #[trigger] final(self).tiles.at(
                    q.x as int,
                    q.y as int,
                ) == if q.x == x && q.y == y {
                    t
                } else {
                    old(self).tiles.at(q.x as int, q.y as int)
                },
            final(self).split_queue == old(self).split_queue,
            final(self).rooms == old(self).rooms,
            final(self).room_idx == old(self).room_idx,
            final(self).stage == old(self).stage,
            final(self).depth == old(self).depth,
            final(self).pf_cache == old(self).pf_cache,
    {
        let ghost before = self.tiles;
        self.tiles.set(x, y, t);
        proof {
            let w = before.spec_width();
            let h = before.spec_height();
            assert forall|q: Point| before.spec_in_bounds(q.x as int, q.y as int) implies #[trigger] self.tiles.at(
                q.x as int,
                q.y as int,
            ) == if q.x == x && q.y == y {
                t
            } else {
                before.at(q.x as int, q.y as int)
            } by {
                lemma_cell_index_bounds(w, h, q.x as int, q.y as int);
                lemma_cell_index_bounds(w, h, x as int, y as int);
                if cell_index(w, q.x as int, q.y as int) == cell_index(w, x as int, y as int) {
                    lemma_cell_index_injective(w, h, q.x as int, q.y as int, x as int, y as int);
                }
            }
        }
    }

    /// Sets every cell of `[x0, x1] x [y0, y1]` to `t`.
    fn fill(&mut self, x0: i32, y0: i32, x1: i32, y1: i32, t: TileType)
        requires
            old(self).tiles.wf(),
            0 <= x0 <= x1 + 1,
            x1 < old(self).tiles.spec_width(),
            0 <= y0 <= y1 + 1,
            y1 < old(self).tiles.spec_height(),
        ensures
            final(self).tiles.wf(),
            final(self).tiles.spec_width() == old(self).tiles.spec_width(),
            final(self).tiles.spec_height() == old(self).tiles.spec_height(),
            forall|q: Point|
                old(self).tiles.spec_in_bounds(q.x as int, q.y as int) ==> #[trigger] final(self).tiles.at(
                    q.x as int,
                    q.y as int,
                ) == if in_box(x0 as int, y0 as int, x1 as int, y1 as int, q) {
                    t
                } else {
                    old(self).tiles.at(q.x as int, q.y as int)
                },
            final(self).split_queue == old(self).split_queue,
            final(self).rooms == old(self).rooms,
            final(self).room_idx == old(self).room_idx,
            final(self).stage == old(self).stage,
            final(self).depth == old(self).depth,
            final(self).pf_cache == old(self).pf_cache,
    {
        let ghost t0 = self.tiles;
        let mut y = y0;
        while y <= y1
            invariant
                self.tiles.wf(),
                self.tiles.spec_width() == t0.spec_width(),
                self.tiles.spec_height() == t0.spec_height(),
                self.split_queue == old(self).split_queue,
                self.rooms == old(self).rooms,
                self.room_idx == old(self).room_idx,
                self.stage == old(self).stage,
                self.depth == old(self).depth,
                self.pf_cache == old(self).pf_cache,
                t0 == old(self).tiles,
                0 <= x0 <= x1 + 1,
                x1 < self.tiles.spec_width(),
                0 <= y0 <= y <= y1 + 1,
                y1 < self.tiles.spec_height(),
                forall|q: Point|
                    t0.spec_in_bounds(q.x as int, q.y as int) ==> #[trigger] self.tiles.at(q.x as int, q.y as int)
                        == if in_box(x0 as int, y0 as int, x1 as int, y - 1, q) {
                        t
                    } else {
                        t0.at(q.x as int, q.y as int)
                    },
            decreases y1 + 1 - y,
        {
            let mut x = x0;
            while x <= x1
                invariant
                    self.tiles.wf(),
                    self.tiles.spec_width() == t0.spec_width(),
                    self.tiles.spec_height() == t0.spec_height(),
                    self.split_queue == old(self).split_queue,
                    self.rooms == old(self).rooms,
                    self.room_idx == old(self).room_idx,
                    self.stage == old(self).stage,
                    self.depth == old(self).depth,
                    self.pf_cache == old(self).pf_cache,
                self.pf_cache == old(self).pf_cache,
                    t0 == old(self).tiles,
                    0 <= x0 <= x <= x1 + 1,
                    x1 < self.tiles.spec_width(),
                    0 <= y0 <= y <= y1,
                    y1 < self.tiles.spec_height(),
                    forall|q: Point|
                        t0.spec_in_bounds(q.x as int, q.y as int) ==> #[trigger] self.tiles.at(q.x as int, q.y as int)
                            == if in_box(x0 as int, y0 as int, x1 as int, y - 1, q) || (q.y == y && x0 <= q.x < x) {
                            t
                        } else {
                            t0.at(q.x as int, q.y as int)
                        },
                decreases x1 + 1 - x,
            {
                self.put(x, y, t);
                x += 1;
            }
            y += 1;
        }
    }

    /// Walls the border of `r`.
    fn create_walls(&mut self, r: &IRect)
        requires
            old(self).tiles.wf(),
            rect_in(*r, old(self).tiles.spec_width(), old(self).tiles.spec_height()),
        ensures
            final(self).tiles.wf(),
            final(self).tiles.spec_width() == old(self).tiles.spec_width(),
            final(self).tiles.spec_height() == old(self).tiles.spec_height(),
            final(self).split_queue == old(self).split_queue,
            final(self).rooms == old(self).rooms,
            final(self).room_idx == old(self).room_idx,
            final(self).stage == old(self).stage,
            final(self).depth == old(self).depth,
            final(self).pf_cache == old(self).pf_cache,
    {
        self.fill(r.x, r.y, r.xx, r.y, TileType::Wall);
        self.fill(r.x, r.yy, r.xx, r.yy, TileType::Wall);
        self.fill(r.x, r.y, r.x, r.yy, TileType::Wall);
        self.fill(r.xx, r.y, r.xx, r.yy, TileType::Wall);
    }
}

impl BSPGen {
    /// Takes the next piece off the queue: splits it in two, walling both
    /// halves, or keeps it as a room where it no longer splits; once the
    /// queue is empty, walls the whole map so that rooms can be opened.
    fn partition(&mut self)
        requires
            old(self).wf(),
            old(self).stage == Stage::Partition,
        ensures
            final(self).wf(),
            !final(self).done(),
            final(self).depth == old(self).depth,
            final(self).tiles.spec_width() == old(self).tiles.spec_width(),
            final(self).tiles.spec_height() == old(self).tiles.spec_height(),
            final(self).stage == Stage::Partition ==> queue_weight(final(self).split_queue@) < queue_weight(
                old(self).split_queue@,
            ),
            final(self).stage != Stage::Partition ==> {
                &&& final(self).stage == Stage::TrimRooms
                &&& final(self).room_idx == 0
                &&& forall|i: int|
                    0 <= i < final(self).rooms@.len() ==> unsplittable(#[trigger] final(self).rooms@[i])
                &&& forall|x: int, y: int|
                    final(self).tiles.spec_in_bounds(x, y) ==> #[trigger] final(self).tiles.at(x, y) == TileType::Wall
            },
    {
        let ghost w = self.tiles.spec_width();
        let ghost h = self.tiles.spec_height();
        let ghost q0 = self.split_queue@;
        let r = self.split_queue.pop_front().unwrap();
        proof {
            assert(q0[0] == r);
            assert(self.split_queue@ =~= q0.drop_first());
            assert forall|i: int| 0 <= i < self.split_queue@.len() implies rect_in(
                #[trigger] self.split_queue@[i],
                w,
                h,
            ) by {
                assert(self.split_queue@[i] == q0[i + 1]);
            }
            lemma_piece_weight_positive(r);
        }
        match split(r) {
            Some((r1, r2)) => {
                self.create_walls(&r1);
                self.create_walls(&r2);
                let ghost q1 = self.split_queue@;
                self.split_queue.push_back(r1);
                self.split_queue.push_back(r2);
                proof {
                    lemma_queue_weight_push(q1, r1);
                    lemma_queue_weight_push(q1.push(r1), r2);
                    lemma_split_weight(r, r1, r2);
                }
            },
            None => {
                self.rooms.push(r);
                if self.split_queue.len() == 0 {
                    let (tw, th) = (self.tiles.width(), self.tiles.height());
                    self.fill(0, 0, tw - 1, th - 1, TileType::Wall);
                    self.room_idx = 0;
                    self.stage = Stage::TrimRooms;
                    proof {
                        assert forall|p: Point| #[trigger] walkable(self.tiles, p) implies exists|k: int|
                            0 <= k < 0 && #[trigger] in_room(self.rooms@[k], p) by {
                            assert(in_box(0, 0, tw - 1, th - 1, p));
                        }
                        assert forall|x: int, y: int| self.tiles.spec_in_bounds(x, y) implies #[trigger] self.tiles.at(x, y)
                            == TileType::Wall by {
                            assert(in_box(0, 0, tw - 1, th - 1, Point { x: x as i32, y: y as i32 }));
                        }
                    }
                }
            },
        }
    }

    /// Shrinks the next piece to a room and opens its inside.
    fn trim_rooms(&mut self)
        requires
            old(self).wf(),
            old(self).stage == Stage::TrimRooms,
        ensures
            final(self).wf(),
            final(self).depth == old(self).depth,
            final(self).tiles.spec_width() == old(self).tiles.spec_width(),
            final(self).tiles.spec_height() == old(self).tiles.spec_height(),
            final(self).rooms@.len() == old(self).rooms@.len(),
            forall|j: int|
                0 <= j < old(self).rooms@.len() && j != old(self).room_idx ==> final(self).rooms@[j]
                    == old(self).rooms@[j],
            ({
                let o = old(self).rooms@[old(self).room_idx as int];
                let r = final(self).rooms@[old(self).room_idx as int];
                &&& rect_within(r, o)
                &&& r.spec_width() >= o.spec_width() / 2
                &&& r.spec_height() >= o.spec_height() / 2
                &&& r.spec_width() <= if o.spec_width() * 9 / 10 >= MIN_SIZE { o.spec_width() * 9 / 10 } else { MIN_SIZE as int }
                &&& r.spec_height() <= if o.spec_height() * 9 / 10 >= MIN_SIZE { o.spec_height() * 9 / 10 } else { MIN_SIZE as int }
                &&& room_open(final(self).tiles, r)
            }),
            old(self).room_idx + 1 < old(self).rooms@.len() ==> final(self).stage == Stage::TrimRooms
                && final(self).room_idx == old(self).room_idx + 1,
            old(self).room_idx + 1 == old(self).rooms@.len() && old(self).rooms@.len() >= 2 ==> final(self).stage
                == Stage::Corridors && final(self).room_idx == 1,
            old(self).rooms@.len() == 1 ==> final(self).stage == Stage::Done,
    {
        let ghost w = self.tiles.spec_width();
        let ghost h = self.tiles.spec_height();
        let i = self.room_idx;
        let ghost rooms0 = self.rooms@;
        let mut rect = self.rooms[i];
        trim_rect(&mut rect);
        self.rooms.set(i, rect);
        let ghost t1 = self.tiles;
        self.fill(rect.x + 1, rect.y + 1, rect.xx - 1, rect.yy - 1, TileType::Floor);
        let ghost t2 = self.tiles;
        proof {
            assert forall|q: Point| walkable(t1, q) implies #[trigger] walkable(t2, q) by {
                assert(t2.at(q.x as int, q.y as int) == if in_box(rect.x + 1, rect.y + 1, rect.xx - 1, rect.yy - 1, q) {
                    TileType::Floor
                } else {
                    t1.at(q.x as int, q.y as int)
                });
            }
            assert forall|k: int| 0 <= k < i + 1 implies room_open(t2, #[trigger] self.rooms@[k]) by {
                assert forall|p: Point| #[trigger] in_room(self.rooms@[k], p) implies walkable(t2, p) by {
                    if k < i {
                        assert(self.rooms@[k] == rooms0[k]);
                        assert(room_open(t1, rooms0[k]));
                        assert(walkable(t1, p));
                    } else {
                        assert(t1.spec_in_bounds(p.x as int, p.y as int));
                        assert(t2.at(p.x as int, p.y as int) == TileType::Floor);
                    }
                }
            }
            assert forall|p: Point| #[trigger] walkable(t2, p) implies exists|k: int|
                0 <= k < i + 1 && #[trigger] in_room(self.rooms@[k], p) by {
                if in_box(rect.x + 1, rect.y + 1, rect.xx - 1, rect.yy - 1, p) {
                    assert(in_room(self.rooms@[i as int], p));
                } else {
                    assert(t2.at(p.x as int, p.y as int) == t1.at(p.x as int, p.y as int));
                    assert(walkable(t1, p));
                    let k = choose|k: int| 0 <= k < i && #[trigger] in_room(rooms0[k], p);
                    assert(self.rooms@[k] == rooms0[k]);
                }
            }
            assert forall|j: int| 0 <= j < self.rooms@.len() implies rect_in(#[trigger] self.rooms@[j], w, h) by {
                if j != i {
                    assert(self.rooms@[j] == rooms0[j]);
                }
            }
        }
        let n_rooms = self.rooms.len();
        self.room_idx = i + 1;
        if self.room_idx >= n_rooms {
            let first = self.rooms[0];
            let ghost start = room_center(first);
            proof {
                assert(in_room(first, start));
                assert(walkable(t2, start));
                lemma_connected_self(t2, start);
                assert forall|q: Point| in_box(first.x + 1, first.y + 1, first.xx - 1, first.yy - 1, q) implies #[trigger] walkable(t2, q) by {
                    assert(in_room(first, q));
                }
            }
            if n_rooms >= 2 {
                self.stage = Stage::Corridors;
                self.room_idx = 1;
                proof {
                    assert forall|p: Point| #[trigger] walkable(t2, p) implies connected(t2, start, p) || exists|k: int|
                        1 <= k < n_rooms && #[trigger] in_room(self.rooms@[k], p) by {
                        let k = choose|k: int| 0 <= k < i + 1 && #[trigger] in_room(self.rooms@[k], p);
                        if k == 0 {
                            lemma_connected_box(t2, start, first.x + 1, first.y + 1, first.xx - 1, first.yy - 1, start, p);
                        }
                    }
                    assert forall|j: int| 0 <= j < 1 implies connected(t2, start, room_center(#[trigger] self.rooms@[j])) by {
                    }
                    assert(corridor_inv(t2, self.rooms@, 1));
                    assert(self.stage_ok());
                }
            } else {
                let ex = first.x + 1;
                let ey = first.y + 1;
                self.put(ex, ey, TileType::DownStairs);
                self.stage = Stage::Done;
                proof {
                    let t3 = self.tiles;
                    let e = Point { x: ex, y: ey };
                    lemma_write_open(t2, t3, ex as int, ey as int, TileType::DownStairs);
                    assert forall|q: Point| in_box(first.x + 1, first.y + 1, first.xx - 1, first.yy - 1, q) implies #[trigger] walkable(t3, q) by {
                        assert(walkable(t2, q));
                    }
                    lemma_connected_mono(t2, t3, start, start);
                    assert forall|p: Point| #[trigger] walkable(t3, p) implies connected(t3, start, p) by {
                        assert(t3.at(p.x as int, p.y as int) == if p.x == ex && p.y == ey {
                            TileType::DownStairs
                        } else {
                            t2.at(p.x as int, p.y as int)
                        });
                        if p != e {
                            assert(walkable(t2, p));
                            let k = choose|k: int| 0 <= k < i + 1 && #[trigger] in_room(self.rooms@[k], p);
                        }
                        lemma_connected_box(t3, start, first.x + 1, first.y + 1, first.xx - 1, first.yy - 1, start, p);
                    }
                    assert(t3.at(e.x as int, e.y as int) == TileType::DownStairs);
                    assert(e != start);
                    assert(t3.spec_in_bounds(e.x as int, e.y as int));
                    assert(in_box(first.x + 1, first.y + 1, first.xx - 1, first.yy - 1, start));
                    assert(walkable(t3, start));
                    assert(level_ok(t3, start));
                    assert(self.stage_ok());
                }
            }
        } else {
            proof {
                assert(self.stage_ok());
            }
        }
    }
}

impl BSPGen {
    /// Opens the single cell `c`, which touches the joined cell `prev` (or
    /// is itself joined), keeping the corridor facts.
    fn open_cell(&mut self, c: Point, prev: Point)
        requires
            old(self).wf(),
            old(self).stage == Stage::Corridors,
            old(self).tiles.spec_in_bounds(c.x as int, c.y as int),
            connected(old(self).tiles, old(self).spec_start(), prev),
            prev == c || adjacent_cells(prev, c),
        ensures
            final(self).wf(),
            final(self).stage == old(self).stage,
            final(self).rooms == old(self).rooms,
            final(self).room_idx == old(self).room_idx,
            final(self).depth == old(self).depth,
            final(self).pf_cache == old(self).pf_cache,
            final(self).tiles.spec_width() == old(self).tiles.spec_width(),
            final(self).tiles.spec_height() == old(self).tiles.spec_height(),
            forall|q: Point| walkable(old(self).tiles, q) ==> #[trigger] walkable(final(self).tiles, q),
            forall|q: Point| connected(old(self).tiles, old(self).spec_start(), q) ==> #[trigger] connected(final(self).tiles, old(self).spec_start(), q),
            connected(final(self).tiles, old(self).spec_start(), c),
            forall|q: Point|
                old(self).tiles.spec_in_bounds(q.x as int, q.y as int) ==> #[trigger] final(self).tiles.at(
                    q.x as int,
                    q.y as int,
                ) == if q == c {
                    TileType::Floor
                } else {
                    old(self).tiles.at(q.x as int, q.y as int)
                },
    {
        let ghost t1 = self.tiles;
        let ghost start = self.spec_start();
        self.fill(c.x, c.y, c.x, c.y, TileType::Floor);
        proof {
            let t2 = self.tiles;
            lemma_fill_floor(t1, t2, c.x as int, c.y as int, c.x as int, c.y as int);
            lemma_connected_mono(t1, t2, start, prev);
            if prev != c {
                lemma_connected_step(t2, start, prev, c);
            }
            lemma_open_box(t1, t2, self.rooms@, self.room_idx as int, c.x as int, c.y as int, c.x as int, c.y as int, c);
            assert forall|q: Point| connected(t1, start, q) implies #[trigger] connected(t2, start, q) by {
                lemma_connected_mono(t1, t2, start, q);
            }
            assert forall|q: Point| t1.spec_in_bounds(q.x as int, q.y as int) implies #[trigger] t2.at(
                q.x as int,
                q.y as int,
            ) == if q == c {
                TileType::Floor
            } else {
                t1.at(q.x as int, q.y as int)
            } by {
                assert(t2.at(q.x as int, q.y as int) == if in_box(c.x as int, c.y as int, c.x as int, c.y as int, q) {
                    TileType::Floor
                } else {
                    t1.at(q.x as int, q.y as int)
                });
            }
        }
    }

    /// Opens the box `[x0, x1] x [y0, y1]`, which holds the joined cell
    /// `anchor`, keeping the corridor facts.
    fn open_box(&mut self, x0: i32, y0: i32, x1: i32, y1: i32, anchor: Point)
        requires
            old(self).wf(),
            old(self).stage == Stage::Corridors,
            0 <= x0 <= x1 < old(self).tiles.spec_width(),
            0 <= y0 <= y1 < old(self).tiles.spec_height(),
            in_box(x0 as int, y0 as int, x1 as int, y1 as int, anchor),
            connected(old(self).tiles, old(self).spec_start(), anchor),
        ensures
            final(self).wf(),
            final(self).stage == old(self).stage,
            final(self).rooms == old(self).rooms,
            final(self).room_idx == old(self).room_idx,
            final(self).depth == old(self).depth,
            final(self).pf_cache == old(self).pf_cache,
            final(self).tiles.spec_width() == old(self).tiles.spec_width(),
            final(self).tiles.spec_height() == old(self).tiles.spec_height(),
            forall|q: Point| connected(old(self).tiles, old(self).spec_start(), q) ==> #[trigger] connected(final(self).tiles, old(self).spec_start(), q),
            forall|q: Point|
                in_box(x0 as int, y0 as int, x1 as int, y1 as int, q) ==> #[trigger] connected(
                    final(self).tiles,
                    old(self).spec_start(),
                    q,
                ),
    {
        let ghost t1 = self.tiles;
        let ghost start = self.spec_start();
        self.fill(x0, y0, x1, y1, TileType::Floor);
        proof {
            let t2 = self.tiles;
            lemma_fill_floor(t1, t2, x0 as int, y0 as int, x1 as int, y1 as int);
            lemma_connected_mono(t1, t2, start, anchor);
            lemma_open_box(t1, t2, self.rooms@, self.room_idx as int, x0 as int, y0 as int, x1 as int, y1 as int, anchor);
            assert forall|q: Point| connected(t1, start, q) implies #[trigger] connected(t2, start, q) by {
                lemma_connected_mono(t1, t2, start, q);
            }
            assert forall|q: Point| in_box(x0 as int, y0 as int, x1 as int, y1 as int, q) implies #[trigger] connected(t2, start, q) by {
                lemma_connected_box(t2, start, x0 as int, y0 as int, x1 as int, y1 as int, anchor, q);
            }
        }
    }

    /// Joins the next room to the one before it by the cheapest corridor,
    /// which reuses floor where it can; the last corridor gets the down
    /// stairs at its middle, or beside the start where that middle is the
    /// start.
    fn corridors(&mut self)
        requires
            old(self).wf(),
            old(self).stage == Stage::Corridors,
        ensures
            final(self).wf(),
            final(self).depth == old(self).depth,
            final(self).tiles.spec_width() == old(self).tiles.spec_width(),
            final(self).tiles.spec_height() == old(self).tiles.spec_height(),
            final(self).rooms == old(self).rooms,
            final(self).spec_start() == old(self).spec_start(),
            old(self).room_idx + 1 < old(self).rooms@.len() ==> final(self).stage == Stage::Corridors
                && final(self).room_idx == old(self).room_idx + 1,
            old(self).room_idx + 1 >= old(self).rooms@.len() ==> final(self).stage == Stage::Done,
            connected(
                final(self).tiles,
                old(self).spec_start(),
                room_center(old(self).rooms@[old(self).room_idx as int]),
            ),
            ({
                let p = final(self).pf_cache.spec_result();
                let last = old(self).room_idx + 1 >= old(self).rooms@.len();
                p.len() > 0 ==> {
                    &&& forall|q: Point|
                        old(self).tiles.spec_in_bounds(q.x as int, q.y as int) && !on_path(p, q) ==> #[trigger] final(self).tiles.at(q.x as int, q.y as int) == old(self).tiles.at(q.x as int, q.y as int) || (last
                            && final(self).tiles.at(q.x as int, q.y as int) == TileType::DownStairs)
                    &&& forall|q: Point| on_path(p, q) ==> #[trigger] walkable(final(self).tiles, q)
                    &&& last && p[(p.len() / 2) as int].0 != old(self).spec_start() ==> final(self).tiles.at(
                        p[(p.len() / 2) as int].0.x as int,
                        p[(p.len() / 2) as int].0.y as int,
                    ) == TileType::DownStairs
                }
            }),
    {
        let (tw, th) = (self.tiles.width(), self.tiles.height());
        let k = self.room_idx;
        let ra = self.rooms[k - 1];
        let rb = self.rooms[k];
        let (fx, fy) = ra.center();
        let (tx, ty) = rb.center();
        let from = Point { x: fx, y: fy };
        let to = Point { x: tx, y: ty };
        let ghost start = self.spec_start();
        proof {
            assert(rect_in(ra, tw as int, th as int));
            assert(rect_in(rb, tw as int, th as int));
            assert(from == room_center(ra));
            assert(to == room_center(rb));
            assert(connected(self.tiles, start, room_center(self.rooms@[k - 1])));
            assert(in_room(rb, to));
        }
        let bounds = IRect::new(1, 1, tw - 1, th - 1);
        let cmap = CorridorMap::new(&self.tiles, bounds);
        let ghost cm = cmap;
        self.pf_cache.compute(&cmap, from, to);
        let result = self.pf_cache.result();
        let ghost res = result@;
        let mut cells: Vec<Point> = Vec::new();
        let mut i: usize = 0;
        while i < result.len()
            invariant
                i <= res.len(),
                result@ == res,
                cells@.len() == i,
                forall|j: int| 0 <= j < i ==> cells@[j] == (#[trigger] res[j]).0,
            decreases res.len() - i,
        {
            cells.push(result[i].0);
            i += 1;
        }
        let m = cells.len();
        proof {
            if m > 0 {
                assert(is_path(&cm, res, from, to));
                assert(cells@[0] == to);
                assert(cells@[m - 1] == from);
                assert forall|j: int| 0 <= j < m - 1 implies adjacent_cells(cells@[j + 1], #[trigger] cells@[j])
                    && bounds.spec_contains(cells@[j].x as int, cells@[j].y as int) by {
                    lemma_path_steps(&cm, res, from, to, j);
                }
            }
        }
        let ghost t_before = self.tiles;
        self.carve(&cells, from, to, bounds);
        let ghost t_carved = self.tiles;
        proof {
            lemma_join_room(self.tiles, self.rooms@, k as int);
            assert(self.pf_cache.spec_result() == res);
            assert forall|q: Point| #[trigger] on_path(res, q) == cells@.contains(q) by {
                if on_path(res, q) {
                    let j = choose|j: int| 0 <= j < res.len() && res[j].0 == q;
                    assert(cells@[j] == q);
                }
                if cells@.contains(q) {
                    let j = choose|j: int| 0 <= j < cells@.len() && cells@[j] == q;
                    assert(res[j].0 == q);
                }
            }
            if m > 0 {
                assert forall|q: Point| on_path(res, q) implies #[trigger] walkable(t_carved, q) by {
                    let j = choose|j: int| 0 <= j < cells@.len() && cells@[j] == q;
                    assert(connected(t_carved, start, cells@[j]));
                    let path = choose|path: Seq<Point>| #[trigger] crate::walk::is_walkway(t_carved, path, start, q);
                    assert(walkable(t_carved, path[path.len() - 1]));
                }
            }
        }
        let n_rooms = self.rooms.len();
        self.room_idx = k + 1;
        if self.room_idx >= n_rooms {
            let hint = if m > 0 { cells[m / 2] } else { to };
            proof {
                if m > 0 {
                    assert(connected(self.tiles, start, cells@[(m / 2) as int]));
                }
            }
            self.finish(hint);
            proof {
                let t3 = self.tiles;
                lemma_join_room(t_carved, self.rooms@, k as int);
                assert forall|q: Point| on_path(res, q) implies #[trigger] walkable(t3, q) by {
                    assert(walkable(t_carved, q));
                    assert(t_carved.spec_in_bounds(q.x as int, q.y as int));
                }
                if m > 0 {
                    assert(res[(m / 2) as int].0 == cells@[(m / 2) as int]);
                }
            }
        }
    }

    /// Opens the cells of a corridor path, listed target first, from the
    /// joined cell `from` to `to`; where the path is empty, an L-shaped
    /// corridor is opened instead.
    #[verifier::rlimit(100)]
    fn carve(&mut self, cells: &Vec<Point>, from: Point, to: Point, bounds: IRect)
        requires
            old(self).wf(),
            old(self).stage == Stage::Corridors,
            bounds == (IRect { x: 1, y: 1, xx: (old(self).tiles.spec_width() - 1) as i32, yy: (old(self).tiles.spec_height() - 1) as i32 }),
            cells@.len() > 0 ==> cells@[0] == to && cells@[cells@.len() - 1] == from,
            forall|j: int| 0 <= j < cells@.len() - 1 ==> adjacent_cells(cells@[j + 1], #[trigger] cells@[j])
                && bounds.spec_contains(cells@[j].x as int, cells@[j].y as int),
            connected(old(self).tiles, old(self).spec_start(), from),
            old(self).tiles.spec_in_bounds(from.x as int, from.y as int),
            old(self).tiles.spec_in_bounds(to.x as int, to.y as int),
        ensures
            final(self).wf(),
            final(self).stage == old(self).stage,
            final(self).rooms == old(self).rooms,
            final(self).room_idx == old(self).room_idx,
            final(self).depth == old(self).depth,
            final(self).pf_cache == old(self).pf_cache,
            final(self).tiles.spec_width() == old(self).tiles.spec_width(),
            final(self).tiles.spec_height() == old(self).tiles.spec_height(),
            connected(final(self).tiles, old(self).spec_start(), to),
            forall|j: int| 0 <= j < cells@.len() ==> connected(final(self).tiles, old(self).spec_start(), #[trigger] cells@[j]),
            cells@.len() > 0 ==> forall|q: Point|
                old(self).tiles.spec_in_bounds(q.x as int, q.y as int) ==> #[trigger] final(self).tiles.at(
                    q.x as int,
                    q.y as int,
                ) == if cells@.contains(q) {
                    TileType::Floor
                } else {
                    old(self).tiles.at(q.x as int, q.y as int)
                },
    {
        let ghost start = self.spec_start();
        let ghost tw = self.tiles.spec_width();
        let ghost th = self.tiles.spec_height();
        let m = cells.len();
        let mut idx = m;
        while idx > 0
            invariant
                self.wf(),
                self.stage == Stage::Corridors,
                self.rooms == old(self).rooms,
                self.room_idx == old(self).room_idx,
                self.depth == old(self).depth,
                self.tiles.spec_width() == tw,
                self.tiles.spec_height() == th,
                self.spec_start() == start,
                bounds == (IRect { x: 1, y: 1, xx: (tw - 1) as i32, yy: (th - 1) as i32 }),
                idx <= m,
                m == cells@.len(),
                m > 0 ==> cells@[0] == to && cells@[m - 1] == from,
                forall|j: int| 0 <= j < m - 1 ==> adjacent_cells(cells@[j + 1], #[trigger] cells@[j])
                    && bounds.spec_contains(cells@[j].x as int, cells@[j].y as int),
                connected(self.tiles, start, from),
                forall|j: int| idx <= j < m ==> connected(self.tiles, start, #[trigger] cells@[j]),
                self.tiles.spec_in_bounds(from.x as int, from.y as int),
                tw == old(self).tiles.spec_width(),
                th == old(self).tiles.spec_height(),
                self.pf_cache == old(self).pf_cache,
                forall|q: Point|
                    old(self).tiles.spec_in_bounds(q.x as int, q.y as int) ==> #[trigger] self.tiles.at(
                        q.x as int,
                        q.y as int,
                    ) == if carved(cells@, idx as int, q) {
                        TileType::Floor
                    } else {
                        old(self).tiles.at(q.x as int, q.y as int)
                    },
            decreases idx,
        {
            idx -= 1;
            let c = cells[idx];
            let prev = if idx + 1 < m { cells[idx + 1] } else { from };
            let ghost t1 = self.tiles;
            proof {
                if idx + 1 < m {
                    assert(connected(t1, start, cells@[idx + 1]));
                }
            }
            self.open_cell(c, prev);
            proof {
                lemma_carve_step(old(self).tiles, t1, self.tiles, cells@, idx as int, c);
                assert forall|j: int| idx <= j < m implies connected(self.tiles, start, #[trigger] cells@[j]) by {
                    if j > idx {
                        assert(connected(t1, start, cells@[j]));
                    }
                }
            }
        }
        if m == 0 {
            let (fx, fy, tx, ty) = (from.x, from.y, to.x, to.y);
            let (lo, hi) = if fx <= tx { (fx, tx) } else { (tx, fx) };
            self.open_box(lo, fy, hi, fy, from);
            let corner = Point { x: tx, y: fy };
            let (lo2, hi2) = if fy <= ty { (fy, ty) } else { (ty, fy) };
            proof {
                assert(in_box(lo as int, fy as int, hi as int, fy as int, corner));
                assert(self.spec_start() == start);
                assert(connected(self.tiles, start, corner));
            }
            self.open_box(tx, lo2, tx, hi2, corner);
            proof {
                assert(self.spec_start() == start);
            }
            proof {
                assert(in_box(tx as int, lo2 as int, tx as int, hi2 as int, to));
                assert(connected(self.tiles, start, to));
            }
        } else {
            proof {
                assert forall|q: Point| #[trigger] carved(cells@, 0, q) == cells@.contains(q) by {
                    if cells@.contains(q) {
                        let j = choose|j: int| 0 <= j < cells@.len() && cells@[j] == q;
                    }
                }
                assert(connected(self.tiles, start, cells@[0]));
                assert(cells@[0] == to);
                assert(connected(self.tiles, start, to));
            }
        }
    }

    /// Puts the down stairs on the joined cell `hint`, or beside the start
    /// where `hint` is the start, and finishes the level.
    #[verifier::rlimit(60)]
    fn finish(&mut self, hint: Point)
        requires
            old(self).shape_ok(),
            old(self).stage == Stage::Corridors,
            corridor_inv(old(self).tiles, old(self).rooms@, old(self).rooms@.len() as int),
            connected(old(self).tiles, old(self).spec_start(), hint),
        ensures
            final(self).wf(),
            final(self).stage == Stage::Done,
            final(self).depth == old(self).depth,
            final(self).pf_cache == old(self).pf_cache,
            final(self).tiles.spec_width() == old(self).tiles.spec_width(),
            final(self).tiles.spec_height() == old(self).tiles.spec_height(),
            final(self).rooms == old(self).rooms,
            ({
                let st = old(self).spec_start();
                let sc = if hint == st { Point { x: (st.x + 1) as i32, y: st.y } } else { hint };
                forall|q: Point|
                    old(self).tiles.spec_in_bounds(q.x as int, q.y as int) ==> #[trigger] final(self).tiles.at(
                        q.x as int,
                        q.y as int,
                    ) == if q == sc {
                        TileType::DownStairs
                    } else {
                        old(self).tiles.at(q.x as int, q.y as int)
                    }
            }),
            forall|q: Point| connected(old(self).tiles, old(self).spec_start(), q) ==> #[trigger] connected(
                final(self).tiles,
                old(self).spec_start(),
                q,
            ),
    {
        let ghost start = self.spec_start();
        let first = self.rooms[0];
        let (sx0, sy0) = first.center();
        let mut stairs = hint;
        proof {
            assert(in_room(first, start));
            assert(room_open(self.tiles, first));
            assert forall|q: Point| in_box(first.x + 1, first.y + 1, first.xx - 1, first.yy - 1, q) implies #[trigger] walkable(self.tiles, q) by {
                assert(in_room(first, q));
            }
        }
        if stairs.x == sx0 && stairs.y == sy0 {
            stairs = Point { x: sx0 + 1, y: sy0 };
            proof {
                lemma_connected_self(self.tiles, start);
                lemma_connected_box(self.tiles, start, first.x + 1, first.y + 1, first.xx - 1, first.yy - 1, start, stairs);
            }
        }
        let ghost t2 = self.tiles;
        proof {
            let path = choose|path: Seq<Point>| #[trigger] crate::walk::is_walkway(t2, path, start, stairs);
            assert(walkable(t2, path[path.len() - 1]));
        }
        self.put(stairs.x, stairs.y, TileType::DownStairs);
        self.stage = Stage::Done;
        proof {
            let t3 = self.tiles;
            lemma_write_open(t2, t3, stairs.x as int, stairs.y as int, TileType::DownStairs);
            assert forall|q: Point| connected(t2, start, q) implies #[trigger] connected(t3, start, q) by {
                lemma_connected_mono(t2, t3, start, q);
            }
            assert(walkable(t2, start));
            assert(walkable(t3, start));
            assert forall|p: Point| #[trigger] walkable(t3, p) implies connected(t3, start, p) by {
                assert(t3.at(p.x as int, p.y as int) == if p.x == stairs.x && p.y == stairs.y {
                    TileType::DownStairs
                } else {
                    t2.at(p.x as int, p.y as int)
                });
                assert(walkable(t2, p));
                assert(connected(t2, start, p));
                lemma_connected_mono(t2, t3, start, p);
            }
            assert(t3.spec_in_bounds(stairs.x as int, stairs.y as int));
            assert(t3.at(stairs.x as int, stairs.y as int) == TileType::DownStairs);
            assert(stairs != start);
            assert(level_ok(t3, start));
        }
    }




}

impl MapBuilder for BSPGen {
    open spec fn builder_ok(&self) -> bool {
        self.wf()
    }

    open spec fn finished(&self) -> bool {
        self.done()
    }

    open spec fn start(&self) -> Point {
        self.spec_start()
    }

    open spec fn level_tiles(&self) -> Grid<TileType> {
        self.spec_tiles()
    }

    /// Advances generation by one piece, room or corridor; returns whether
    /// the level is finished.
    fn progress(&mut self) -> (r: bool)
        ensures
            final(self).wf(),
            r == final(self).done(),
            old(self).done() ==> final(self).done(),
            r ==> level_ok(final(self).spec_tiles(), final(self).spec_start()),
            final(self).spec_depth() == old(self).spec_depth(),
            final(self).spec_tiles().spec_width() == old(self).spec_tiles().spec_width(),
            final(self).spec_tiles().spec_height() == old(self).spec_tiles().spec_height(),
            !old(self).done() ==> final(self).rank() < old(self).rank() || (final(self).rank() == old(self).rank()
                && 0 <= final(self).remaining() < old(self).remaining()),
            old(self).rank() == 1 && final(self).done() ==> {
                let p = final(self).spec_last_path();
                let mid = p[(p.len() / 2) as int].0;
                p.len() > 0 && mid != final(self).spec_start() ==> final(self).spec_tiles().at(mid.x as int, mid.y as int)
                    == TileType::DownStairs
            },
    {
        proof {
            assert forall|i: int| 0 <= i < self.split_queue@.len() implies rect_in(#[trigger] self.split_queue@[i], i32::MAX as int, i32::MAX as int) by {
                assert(rect_in(self.split_queue@[i], self.tiles.spec_width(), self.tiles.spec_height()));
            }
        }
        let ghost before = *self;
        match self.stage {
            Stage::Partition => self.partition(),
            Stage::TrimRooms => self.trim_rooms(),
            Stage::Corridors => self.corridors(),
            Stage::Done => {},
        }
        proof {
            if self.stage == Stage::Partition {
                assert forall|i: int| 0 <= i < self.split_queue@.len() implies rect_in(#[trigger] self.split_queue@[i], i32::MAX as int, i32::MAX as int) by {
                    assert(rect_in(self.split_queue@[i], self.tiles.spec_width(), self.tiles.spec_height()));
                }
                lemma_queue_weight_nonneg(self.split_queue@);
            }
        }
        match self.stage {
            Stage::Done => true,
            _ => false,
        }
    }

    /// The player starts at the centre of the first room.
    fn player_pos(&self) -> (r: Point)
        ensures
            r == self.spec_start(),
    {
        let first = if self.rooms.len() > 0 {
            self.rooms[0]
        } else {
            self.split_queue[0]
        };
        let (x, y) = first.center();
        Point { x, y }
    }

    fn intermediate(&self) -> (r: IntermediateMap<'_>)
        ensures
            r.spec_tiles() == self.spec_tiles(),
    {
        IntermediateMap::new(&self.tiles)
    }

    /// Hands the tiles over to a finished level, leaving an empty grid behind.
    fn build(&mut self) -> (r: LevelMap)
        ensures
            r.spec_tiles() == old(self).spec_tiles(),
            r.spec_depth() == old(self).spec_depth(),
            r.wf(),
    {
        let mut tiles = Grid::new(0, 0, TileType::Wall);
        std::mem::swap(&mut self.tiles, &mut tiles);
        LevelMap::from_grid(tiles, self.depth)
    }
}


/// The most spawns a room gets on the first level; deeper levels get more.
pub const MAX_DEPTH1_SPAWNS: i32 = 4;

impl BSPGen {
    /// Some cell of `pts` lies inside room `k`.
    pub open spec fn room_has_point(&self, pts: Seq<(i32, i32)>, k: int) -> bool {
        exists|i: int| 0 <= i < pts.len() && #[trigger] cell_in_box(pts[i], self.spec_rooms()[k].x + 1, self.spec_rooms()[k].y + 1, self.spec_rooms()[k].xx - 1, self.spec_rooms()[k].yy - 1)
    }

    /// `c` lies inside one of the rooms after the first.
    pub open spec fn in_later_room(&self, c: (i32, i32)) -> bool {
        exists|k: int| 1 <= k < self.spec_rooms().len() && #[trigger] cell_in_box(c, self.spec_rooms()[k].x + 1, self.spec_rooms()[k].y + 1, self.spec_rooms()[k].xx - 1, self.spec_rooms()[k].yy - 1)
    }

    /// Where to spawn monsters and items: a number drawn once between 1 and
    /// `MAX_DEPTH1_SPAWNS` plus the depth, then that many distinct cells
    /// drawn in each room but the first (fewer where a room fills up).
    pub fn spawn_points(&self) -> (r: Vec<(i32, i32)>)
        requires
            self.wf(),
            self.done(),
            1 - MAX_DEPTH1_SPAWNS <= self.spec_depth() <= i32::MAX - MAX_DEPTH1_SPAWNS,
        ensures
            distinct_cells(r@),
            forall|i: int| 0 <= i < r@.len() ==> self.in_later_room(#[trigger] r@[i]),
            forall|k: int| 1 <= k < self.spec_rooms().len() ==> #[trigger] self.room_has_point(r@, k),
    {
        let num = random_range(1, MAX_DEPTH1_SPAWNS + self.depth);
        let mut pts: Vec<(i32, i32)> = Vec::new();
        let ghost mut owner: Seq<int> = Seq::empty();
        let mut k: usize = 1;
        while k < self.rooms.len()
            invariant
                self.wf(),
                self.done(),
                1 <= k,
                k <= self.rooms@.len() || pts@.len() == 0,
                self.spec_rooms() == self.rooms@,
                distinct_cells(pts@),
                owner.len() == pts@.len(),
                1 <= num,
                forall|kk: int| 1 <= kk < k && kk < self.spec_rooms().len() ==> #[trigger] self.room_has_point(pts@, kk),
                forall|i: int|
                    0 <= i < pts@.len() ==> 1 <= #[trigger] owner[i] < k && cell_in_box(
                        pts@[i],
                        self.spec_rooms()[owner[i]].x + 1, self.spec_rooms()[owner[i]].y + 1, self.spec_rooms()[owner[i]].xx - 1, self.spec_rooms()[owner[i]].yy - 1,
                    ),
            decreases self.rooms@.len() - k,
        {
            let r = self.rooms[k];
            let ghost before = pts@;
            pick_cells(&mut pts, r.x + 1, r.y + 1, r.xx - 1, r.yy - 1, num);
            proof {
                let added = Seq::new((pts@.len() - before.len()) as nat, |i: int| k as int);
                owner = owner + added;
                assert forall|i: int| 0 <= i < pts@.len() implies 1 <= #[trigger] owner[i] < k + 1 && cell_in_box(
                    pts@[i],
                    self.spec_rooms()[owner[i]].x + 1, self.spec_rooms()[owner[i]].y + 1, self.spec_rooms()[owner[i]].xx - 1, self.spec_rooms()[owner[i]].yy - 1,
                ) by {
                    if i < before.len() {
                        assert(pts@[i] == before[i]);
                    } else {
                        assert(owner[i] == k);
                    }
                }
                assert forall|kk: int| 1 <= kk < k + 1 && kk < self.spec_rooms().len() implies #[trigger] self.room_has_point(pts@, kk) by {
                    if kk < k {
                        assert(self.room_has_point(before, kk));
                        let j = choose|j: int| 0 <= j < before.len() && #[trigger] cell_in_box(before[j], self.spec_rooms()[kk].x + 1, self.spec_rooms()[kk].y + 1, self.spec_rooms()[kk].xx - 1, self.spec_rooms()[kk].yy - 1);
                        assert(pts@[j] == before[j]);
                    } else {
                        assert(self.spec_rooms()[k as int] == r);
                        let j = choose|j: int| 0 <= j < pts@.len() && #[trigger] cell_in_box(pts@[j], self.spec_rooms()[kk].x + 1, self.spec_rooms()[kk].y + 1, self.spec_rooms()[kk].xx - 1, self.spec_rooms()[kk].yy - 1);
                    }
                }
            }
            k += 1;
        }
        proof {
            assert forall|i: int| 0 <= i < pts@.len() implies self.in_later_room(#[trigger] pts@[i]) by {
                let w = owner[i];
                assert(cell_in_box(pts@[i], self.spec_rooms()[w].x + 1, self.spec_rooms()[w].y + 1, self.spec_rooms()[w].xx - 1, self.spec_rooms()[w].yy - 1));
            }
        }
        pts
    }
}

} // verus!
