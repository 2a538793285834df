use vstd::prelude::*;
use crate::base_map::{BaseMap, on_map};
use crate::astar::{consistent, admissible, lemma_consistent_admissible};
use crate::bfs::{offset, offset_at};
use crate::grid::{Grid, lemma_cell_index_bounds};
use crate::irect::{IRect, Point};

verus! {

/// What a map cell is made of.
#[derive(Clone, Copy, Debug, PartialEq, Eq, Structural)]
pub enum TileType {
    Floor,
    Wall,
    DownStairs,
}

/// Per-cell state kept by the simulation beside the tile itself.
#[derive(Clone, Copy, Debug, PartialEq, Eq, Structural)]
pub struct TileFlags {
    pub revealed: bool,
    pub visible: bool,
    pub blocked: bool,
    pub bloodstained: bool,
}

impl TileFlags {
    pub open spec fn revealed_spec() -> TileFlags {
        TileFlags { revealed: true, visible: false, blocked: false, bloodstained: false }
    }

    /// Flags of a cell that has been seen and holds nothing else.
    pub fn revealed() -> (r: TileFlags)
        ensures
            r == TileFlags::revealed_spec(),
    {
        TileFlags { revealed: true, visible: false, blocked: false, bloodstained: false }
    }
}

/// Read access to a map being shown: its bounds, tiles and flags.
pub trait ViewMap {
    spec fn view_ok(&self) -> bool;

    spec fn view_bounds(&self) -> IRect;

    spec fn view_tile(&self, x: int, y: int) -> TileType;

    spec fn view_flags(&self, x: int, y: int) -> TileFlags;

    fn bounds(&self) -> (r: IRect)
        requires
            self.view_ok(),
        ensures
            r == self.view_bounds(),
            r.x == 0,
            r.y == 0,
            r.xx >= -1,
            r.yy >= -1,
    ;

    fn tile(&self, x: i32, y: i32) -> (r: TileType)
        requires
            self.view_ok(),
            self.view_bounds().spec_contains(x as int, y as int),
        ensures
            r == self.view_tile(x as int, y as int),
    ;

    fn tile_flags(&self, x: i32, y: i32) -> (r: TileFlags)
        requires
            self.view_ok(),
            self.view_bounds().spec_contains(x as int, y as int),
        ensures
            r == self.view_flags(x as int, y as int),
    ;
}

/// Cost of a straight step between side-adjacent cells.
pub const STEP_COST: u64 = 10;

/// Cost of a diagonal step, the straight cost times the square root of two,
/// rounded down.
pub const DIAGONAL_COST: u64 = 14;

/// A finished level: its tiles, the flags of each cell and its depth.
pub struct LevelMap {
    tiles: Grid<TileType>,
    tile_flags: Grid<TileFlags>,
    depth: i32,
}

impl LevelMap {
    pub closed spec fn spec_tiles(&self) -> Grid<TileType> {
        self.tiles
    }

    pub closed spec fn spec_flags(&self) -> Grid<TileFlags> {
        self.tile_flags
    }

    pub closed spec fn spec_depth(&self) -> i32 {
        self.depth
    }

    /// Tiles and flags share their dimensions.
    pub open spec fn wf(&self) -> bool {
        &&& self.spec_tiles().wf()
        &&& self.spec_flags().wf()
        &&& self.spec_tiles().spec_width() == self.spec_flags().spec_width()
        &&& self.spec_tiles().spec_height() == self.spec_flags().spec_height()
    }

    /// The cell at `p` lies on the map and is not blocked.
    pub open spec fn spec_exit_valid(&self, p: Point) -> bool {
        &&& self.spec_tiles().spec_in_bounds(p.x as int, p.y as int)
        &&& !self.spec_flags().at(p.x as int, p.y as int).blocked
    }

    /// The neighbours of `p` among the first `k` offsets that may be entered,
    /// with their step costs.
    pub open spec fn successors_upto(&self, p: Point, k: int) -> Seq<(Point, u64)>
        decreases k,
    {
        if k <= 0 {
            Seq::empty()
        } else {
            let prev = self.successors_upto(p, k - 1);
            let o = offset(k - 1);
            let n = Point { x: (p.x + o.0) as i32, y: (p.y + o.1) as i32 };
            if self.spec_exit_valid(n) {
                prev.push((n, if o.0 * o.1 == 0 { STEP_COST } else { DIAGONAL_COST }))
            } else {
                prev
            }
        }
    }

    /// A map of `tiles` at `depth`; every cell is revealed, and walls block.
    pub fn from_grid(tiles: Grid<TileType>, depth: i32) -> (r: LevelMap)
        requires
            tiles.wf(),
        ensures
            r.wf(),
            r.spec_tiles() == tiles,
            r.spec_depth() == depth,
            forall|x: int, y: int|
                tiles.spec_in_bounds(x, y) ==> (#[trigger] r.spec_flags().at(x, y)).revealed
                    && !r.spec_flags().at(x, y).visible && !r.spec_flags().at(x, y).bloodstained
                    && (r.spec_flags().at(x, y).blocked <==> tiles.at(x, y) == TileType::Wall),
    {
        let (width, height) = (tiles.width(), tiles.height());
        let _cells = tiles.len();
        let flags = TileFlags::revealed();
        let mut inst = LevelMap {
            tiles,
            depth,
            tile_flags: Grid::new(width, height, flags),
        };
        let ghost flags0 = inst.tile_flags;
        inst.populate_blocked();
        proof {
            assert forall|x: int, y: int| tiles.spec_in_bounds(x, y) implies (
            #[trigger] inst.tile_flags.at(x, y)).revealed && !inst.tile_flags.at(x, y).visible
                && !inst.tile_flags.at(x, y).bloodstained && (inst.tile_flags.at(x, y).blocked
                <==> tiles.at(x, y) == TileType::Wall) by {
                lemma_cell_index_bounds(width as int, height as int, x, y);
                let idx = crate::grid::cell_index(width as int, x, y);
                assert(0 <= idx < flags0@.len());
                assert(flags0@[idx] == TileFlags::revealed_spec());
                assert(inst.tile_flags@[idx] == (TileFlags { blocked: tiles@[idx] == TileType::Wall, ..flags0@[idx] }));
                assert(flags0.at(x, y) == (TileFlags { revealed: true, visible: false, blocked: false, bloodstained: false }));
            }
        }
        inst
    }

    /// Marks exactly the wall cells as blocked, keeping the other flags.
    pub fn populate_blocked(&mut self)
        requires
            old(self).wf(),
        ensures
            final(self).wf(),
            final(self).spec_tiles() == old(self).spec_tiles(),
            final(self).spec_depth() == old(self).spec_depth(),
            final(self).spec_flags().spec_width() == old(self).spec_flags().spec_width(),
            final(self).spec_flags().spec_height() == old(self).spec_flags().spec_height(),
            forall|i: int|
                0 <= i < final(self).spec_flags()@.len() ==> (#[trigger] final(self).spec_flags()@[i])
                    == (TileFlags {
                    blocked: old(self).spec_tiles()@[i] == TileType::Wall,
                    ..old(self).spec_flags()@[i]
                }),
    {
        let n = self.tile_flags.data.len();
        let mut i: usize = 0;
        while i < n
            invariant
                self.wf(),
                n == self.tile_flags.data@.len(),
                self.tiles == old(self).tiles,
                self.depth == old(self).depth,
                self.tile_flags.width == old(self).tile_flags.width,
                self.tile_flags.height == old(self).tile_flags.height,
                self.tile_flags@.len() == old(self).tile_flags@.len(),
                i <= n,
                forall|j: int|
                    0 <= j < n ==> (#[trigger] self.tile_flags@[j]) == if j < i {
                        TileFlags { blocked: old(self).tiles@[j] == TileType::Wall, ..old(self).tile_flags@[j] }
                    } else {
                        old(self).tile_flags@[j]
                    },
            decreases n - i,
        {
            let f = self.tile_flags.data[i];
            let blocked = match self.tiles.data[i] {
                TileType::Wall => true,
                _ => false,
            };
            self.tile_flags.data.set(i, TileFlags { blocked, ..f });
            i += 1;
        }
    }

    pub fn set_tile(&mut self, x: i32, y: i32, tile: TileType)
        requires
            old(self).wf(),
            old(self).spec_tiles().spec_in_bounds(x as int, y as int),
        ensures
            final(self).wf(),
            final(self).spec_flags() == old(self).spec_flags(),
            final(self).spec_depth() == old(self).spec_depth(),
            final(self).spec_tiles().spec_width() == old(self).spec_tiles().spec_width(),
            final(self).spec_tiles().spec_height() == old(self).spec_tiles().spec_height(),
            final(self).spec_tiles()@ == old(self).spec_tiles()@.update(
                crate::grid::cell_index(old(self).spec_tiles().spec_width(), x as int, y as int),
                tile,
            ),
    {
        self.tiles.set(x, y, tile);
    }

    /// The flags of cell `(x, y)`, to change in place.
    pub fn tile_flags_mut(&mut self, x: i32, y: i32) -> (r: &mut TileFlags)
        requires
            old(self).wf(),
            old(self).spec_tiles().spec_in_bounds(x as int, y as int),
        ensures
            *r == old(self).spec_flags().at(x as int, y as int),
            final(self).spec_tiles() == old(self).spec_tiles(),
            final(self).spec_depth() == old(self).spec_depth(),
            final(self).spec_flags().spec_width() == old(self).spec_flags().spec_width(),
            final(self).spec_flags().spec_height() == old(self).spec_flags().spec_height(),
            final(self).spec_flags()@ == old(self).spec_flags()@.update(
                crate::grid::cell_index(old(self).spec_flags().spec_width(), x as int, y as int),
                *final(r),
            ),
    {
        self.tile_flags.get_mut(x, y)
    }

    /// Replaces the flags of cell `(x, y)`.
    pub fn set_tile_flags(&mut self, x: i32, y: i32, flags: TileFlags)
        requires
            old(self).wf(),
            old(self).spec_tiles().spec_in_bounds(x as int, y as int),
        ensures
            final(self).wf(),
            final(self).spec_tiles() == old(self).spec_tiles(),
            final(self).spec_depth() == old(self).spec_depth(),
            final(self).spec_flags().spec_width() == old(self).spec_flags().spec_width(),
            final(self).spec_flags().spec_height() == old(self).spec_flags().spec_height(),
            final(self).spec_flags()@ == old(self).spec_flags()@.update(
                crate::grid::cell_index(old(self).spec_flags().spec_width(), x as int, y as int),
                flags,
            ),
    {
        self.tile_flags.set(x, y, flags);
    }

    /// Clears the `visible` flag of every cell.
    pub fn reset_visible_tiles(&mut self)
        requires
            old(self).wf(),
        ensures
            final(self).wf(),
            final(self).spec_tiles() == old(self).spec_tiles(),
            final(self).spec_depth() == old(self).spec_depth(),
            final(self).spec_flags().spec_width() == old(self).spec_flags().spec_width(),
            final(self).spec_flags().spec_height() == old(self).spec_flags().spec_height(),
            forall|i: int|
                0 <= i < final(self).spec_flags()@.len() ==> (#[trigger] final(self).spec_flags()@[i])
                    == (TileFlags { visible: false, ..old(self).spec_flags()@[i] }),
    {
        let n = self.tile_flags.data.len();
        let mut i: usize = 0;
        while i < n
            invariant
                self.wf(),
                n == self.tile_flags.data@.len(),
                self.tiles == old(self).tiles,
                self.depth == old(self).depth,
                self.tile_flags.width == old(self).tile_flags.width,
                self.tile_flags.height == old(self).tile_flags.height,
                self.tile_flags@.len() == old(self).tile_flags@.len(),
                i <= n,
                forall|j: int|
                    0 <= j < n ==> (#[trigger] self.tile_flags@[j]) == if j < i {
                        TileFlags { visible: false, ..old(self).tile_flags@[j] }
                    } else {
                        old(self).tile_flags@[j]
                    },
            decreases n - i,
        {
            let f = self.tile_flags.data[i];
            self.tile_flags.data.set(i, TileFlags { visible: false, ..f });
            i += 1;
        }
    }

    pub fn depth(&self) -> (r: i32)
        ensures
            r == self.spec_depth(),
    {
        self.depth
    }

    fn is_exit_valid(&self, x: i32, y: i32) -> (r: bool)
        requires
            self.wf(),
        ensures
            r == self.spec_exit_valid(Point { x, y }),
    {
        0 <= x && x < self.tiles.width() && 0 <= y && y < self.tiles.height()
            && !self.tile_flags.get(x, y).blocked
    }
}

impl ViewMap for LevelMap {
    open spec fn view_ok(&self) -> bool {
        self.wf()
    }

    open spec fn view_bounds(&self) -> IRect {
        IRect { x: 0, y: 0, xx: (self.spec_tiles().spec_width() - 1) as i32, yy: (self.spec_tiles().spec_height() - 1) as i32 }
    }

    open spec fn view_tile(&self, x: int, y: int) -> TileType {
        self.spec_tiles().at(x, y)
    }

    open spec fn view_flags(&self, x: int, y: int) -> TileFlags {
        self.spec_flags().at(x, y)
    }

    fn bounds(&self) -> (r: IRect) {
        IRect::new(0, 0, self.tiles.width(), self.tiles.height())
    }

    fn tile(&self, x: i32, y: i32) -> (r: TileType) {
        *self.tiles.get(x, y)
    }

    fn tile_flags(&self, x: i32, y: i32) -> (r: TileFlags) {
        *self.tile_flags.get(x, y)
    }
}

} // verus!

verus! {

/// The cheapest cost of covering the offset `(dx, dy)` with straight steps of
/// cost `STEP_COST` and diagonal steps of cost `DIAGONAL_COST`.
pub open spec fn octile(dx: int, dy: int) -> int {
    let ax = if dx >= 0 { dx } else { -dx };
    let ay = if dy >= 0 { dy } else { -dy };
    let (hi, lo) = if ax >= ay { (ax, ay) } else { (ay, ax) };
    10 * hi + 4 * lo
}

impl BaseMap for LevelMap {
    open spec fn map_ok(&self) -> bool {
        self.wf()
    }

    open spec fn spec_size(&self) -> (int, int) {
        (self.spec_tiles().spec_width(), self.spec_tiles().spec_height())
    }

    open spec fn spec_opaque(&self, p: Point) -> bool {
        self.spec_tiles().at(p.x as int, p.y as int) == TileType::Wall
    }

    open spec fn spec_successors(&self, p: Point) -> Seq<(Point, u64)> {
        self.successors_upto(p, 8)
    }

    open spec fn spec_distance(&self, a: Point, b: Point) -> u64 {
        octile(b.x - a.x, b.y - a.y) as u64
    }

    fn size(&self) -> (r: (i32, i32)) {
        (self.tiles.width(), self.tiles.height())
    }

    fn is_opaque(&self, p: Point) -> (r: bool) {
        match self.tiles.get(p.x, p.y) {
            TileType::Wall => true,
            _ => false,
        }
    }

    fn distance(&self, a: Point, b: Point) -> (r: u64) {
        let dx = b.x as i64 - a.x as i64;
        let dy = b.y as i64 - a.y as i64;
        let ax = if dx >= 0 { dx } else { -dx };
        let ay = if dy >= 0 { dy } else { -dy };
        let (hi, lo) = if ax >= ay { (ax, ay) } else { (ay, ax) };
        assert(0 <= hi <= 0x1_0000_0000 && 0 <= lo <= 0x1_0000_0000);
        (10 * hi + 4 * lo) as u64
    }

    fn successors(&self, p: Point) -> (r: Vec<(Point, u64)>) {
        let mut r: Vec<(Point, u64)> = Vec::new();
        let mut k: usize = 0;
        while k < 8
            invariant
                self.wf(),
                on_map(self.spec_size(), p),
                k <= 8,
                r@ == self.successors_upto(p, k as int),
                forall|i: int| 0 <= i < r@.len() ==> on_map(self.spec_size(), #[trigger] r@[i].0),
            decreases 8 - k,
        {
            let (dx, dy) = offset_at(k);
            let n = Point { x: p.x + dx, y: p.y + dy };
            if self.is_exit_valid(n.x, n.y) {
                let cost = if dx * dy == 0 { STEP_COST } else { DIAGONAL_COST };
                r.push((n, cost));
            }
            k += 1;
        }
        r
    }
}

/// A read-only view of the tiles of a level still being generated; every
/// cell shows as revealed and visible.
pub struct IntermediateMap<'a> {
    tiles: &'a Grid<TileType>,
}

impl<'a> IntermediateMap<'a> {
    pub fn new(tiles: &'a Grid<TileType>) -> (r: IntermediateMap<'a>)
        ensures
            r.spec_tiles() == *tiles,
    {
        IntermediateMap { tiles }
    }

    pub closed spec fn spec_tiles(&self) -> Grid<TileType> {
        *self.tiles
    }
}

impl<'a> ViewMap for IntermediateMap<'a> {
    open spec fn view_ok(&self) -> bool {
        self.spec_tiles().wf()
    }

    open spec fn view_bounds(&self) -> IRect {
        IRect { x: 0, y: 0, xx: (self.spec_tiles().spec_width() - 1) as i32, yy: (self.spec_tiles().spec_height() - 1) as i32 }
    }

    open spec fn view_tile(&self, x: int, y: int) -> TileType {
        self.spec_tiles().at(x, y)
    }

    open spec fn view_flags(&self, x: int, y: int) -> TileFlags {
        TileFlags { revealed: true, visible: true, blocked: false, bloodstained: false }
    }

    fn bounds(&self) -> (r: IRect) {
        IRect::new(0, 0, self.tiles.width(), self.tiles.height())
    }

    fn tile(&self, x: i32, y: i32) -> (r: TileType) {
        *self.tiles.get(x, y)
    }

    fn tile_flags(&self, x: i32, y: i32) -> (r: TileFlags) {
        TileFlags { revealed: true, visible: true, blocked: false, bloodstained: false }
    }
}

proof fn lemma_octile_step(dx: int, dy: int, ox: int, oy: int)
    requires
        -1 <= ox <= 1,
        -1 <= oy <= 1,
    ensures
        octile(dx, dy) <= (if ox * oy == 0 { STEP_COST as int } else { DIAGONAL_COST as int }) + octile(
            dx - ox,
            dy - oy,
        ),
{
    assert(ox * oy == 0 <==> (ox == 0 || oy == 0)) by (nonlinear_arith)
        requires
            -1 <= ox <= 1,
            -1 <= oy <= 1,
    ;
}

proof fn lemma_successors_facts(map: &LevelMap, p: Point, m: int)
    requires
        0 <= m <= 8,
        on_map(map.spec_size(), p),
    ensures
        forall|k: int|
            0 <= k < map.successors_upto(p, m).len() ==> {
                let e = #[trigger] map.successors_upto(p, m)[k];
                &&& on_map(map.spec_size(), e.0)
                &&& -1 <= e.0.x - p.x <= 1
                &&& -1 <= e.0.y - p.y <= 1
                &&& e.1 == if (e.0.x - p.x) * (e.0.y - p.y) == 0 { STEP_COST } else { DIAGONAL_COST }
            },
    decreases m,
{
    if m > 0 {
        lemma_successors_facts(map, p, m - 1);
        let prev = map.successors_upto(p, m - 1);
        let cur = map.successors_upto(p, m);
        assert forall|k: int| 0 <= k < cur.len() implies {
            let e = #[trigger] cur[k];
            &&& on_map(map.spec_size(), e.0)
            &&& -1 <= e.0.x - p.x <= 1
            &&& -1 <= e.0.y - p.y <= 1
            &&& e.1 == if (e.0.x - p.x) * (e.0.y - p.y) == 0 { STEP_COST } else { DIAGONAL_COST }
        } by {
            if k < prev.len() {
                assert(cur[k] == prev[k]);
            } else {
                let o = offset(m - 1);
                assert(cur[k].0 == Point { x: (p.x + o.0) as i32, y: (p.y + o.1) as i32 });
            }
        }
    }
}

/// The octile heuristic is consistent on a level: a straight step costs
/// `STEP_COST` and a diagonal one `DIAGONAL_COST`, and neither lowers the
/// estimate by more.
pub proof fn lemma_level_consistent(map: &LevelMap, to: Point)
    requires
        map.wf(),
    ensures
        consistent(map, to),
        admissible(map, to),
{
    assert forall|a: Point, k: int|
        on_map(map.spec_size(), a) && 0 <= k < map.spec_successors(a).len() implies {
            let e = #[trigger] map.spec_successors(a)[k];
            &&& on_map(map.spec_size(), e.0)
            &&& map.spec_distance(a, to) <= e.1 + map.spec_distance(e.0, to)
        } by {
        lemma_successors_facts(map, a, 8);
        let e = map.successors_upto(a, 8)[k];
        lemma_octile_step(to.x - a.x, to.y - a.y, e.0.x - a.x, e.0.y - a.y);
        assert(to.x - e.0.x == (to.x - a.x) - (e.0.x - a.x));
    }
    lemma_consistent_admissible(map, to);
}

} // verus!
