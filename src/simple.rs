use vstd::prelude::*;
use crate::builder::MapBuilder;
use crate::spawn::{distinct_cells, cell_in_box, pick_cells};
use crate::grid::{Grid, cell_index, lemma_cell_index_bounds, lemma_cell_index_injective};
use crate::walk::in_box;
use crate::irect::{IRect, Point, div_trunc, lemma_center_inside};
use crate::map::{IntermediateMap, LevelMap, TileType};
use crate::rng::{random_range, random_ratio};

verus! {

/// How many placement attempts the simple generator makes.
pub const MAX_ROOMS: i32 = 30;

/// The smallest side of a room of the simple generator.
pub const MIN_ROOM: i32 = 6;

/// The largest side of a room of the simple generator.
pub const MAX_ROOM: i32 = 10;

/// A level generator that scatters non-overlapping rectangular rooms and
/// joins each new room to the previous one by an L-shaped corridor.
pub struct SimpleBuilder {
    tiles: Grid<TileType>,
    rooms: Vec<IRect>,
    plp: Point,
    depth: i32,
    room_idx: i32,
    done: bool,
}

/// `r` starts at least two cells from the top and left edges of a `w` by `h`
/// map and ends at least three cells from the bottom and right edges.
pub open spec fn room_in(r: IRect, w: int, h: int) -> bool {
    &&& 2 <= r.x <= r.xx <= w - 4
    &&& 2 <= r.y <= r.yy <= h - 4
}

impl SimpleBuilder {
    pub closed spec fn spec_tiles(&self) -> Grid<TileType> {
        self.tiles
    }

    pub closed spec fn spec_rooms(&self) -> Seq<IRect> {
        self.rooms@
    }

    pub closed spec fn spec_plp(&self) -> Point {
        self.plp
    }

    pub closed spec fn spec_depth(&self) -> i32 {
        self.depth
    }

    pub closed spec fn spec_room_idx(&self) -> i32 {
        self.room_idx
    }

    pub closed spec fn spec_done(&self) -> bool {
        self.done
    }

    /// Rooms lie inside the map and never overlap one another.
    pub closed spec fn wf(&self) -> bool {
        let w = self.tiles.spec_width();
        let h = self.tiles.spec_height();
        &&& self.tiles.wf()
        &&& w >= 2 * 2 + MAX_ROOM + 1
        &&& h >= 2 * 2 + MAX_ROOM + 1
        &&& 0 <= self.room_idx <= MAX_ROOMS
        &&& self.done ==> self.room_idx >= MAX_ROOMS
        &&& self.done ==> {
            let first = self.rooms@[0];
            let last = self.rooms@.last();
            &&& self.rooms@.len() >= 1
            &&& self.plp.x == div_trunc(first.x + first.xx, 2)
            &&& self.plp.y == div_trunc(first.y + first.yy, 2)
            &&& self.tiles.at(div_trunc(last.x + last.xx, 2), div_trunc(last.y + last.yy, 2)) == TileType::DownStairs
        }
        &&& forall|i: int| 0 <= i < self.rooms@.len() ==> room_in(#[trigger] self.rooms@[i], w, h)
        &&& forall|i: int, j: int|
            0 <= i < j < self.rooms@.len() ==> !(#[trigger] self.rooms@[i]).spec_overlaps(
                #[trigger] self.rooms@[j],
            )
    }

    pub fn new(width: i32, height: i32, depth: i32) -> (r: SimpleBuilder)
        requires
            width >= 2 * 2 + MAX_ROOM + 1,
            height >= 2 * 2 + MAX_ROOM + 1,
            width * height <= usize::MAX,
        ensures
            r.wf(),
            r.spec_depth() == depth,
            r.spec_rooms().len() == 0,
            r.spec_tiles().spec_width() == width,
            r.spec_tiles().spec_height() == height,
            forall|i: int| 0 <= i < r.spec_tiles()@.len() ==> r.spec_tiles()@[i] == TileType::Wall,
            r.spec_plp() == (Point { x: 0, y: 0 }),
            r.spec_room_idx() == 0,
            !r.spec_done(),
    {
        SimpleBuilder {
            tiles: Grid::new(width, height, TileType::Wall),
            depth,
            plp: Point { x: 0, y: 0 },
            rooms: Vec::new(),
            room_idx: 0,
            done: false,
        }
    }

    fn fill_floor(&mut self, x0: i32, y0: i32, x1: i32, y1: i32)
        requires
            old(self).tiles.wf(),
            0 <= x0 <= x1 + 1,
            x1 < old(self).tiles.spec_width(),
            0 <= y0 <= y1 + 1,
            y1 < old(self).tiles.spec_height(),
        ensures
            final(self).tiles.wf(),
            final(self).tiles.spec_width() == old(self).tiles.spec_width(),
            final(self).tiles.spec_height() == old(self).tiles.spec_height(),
            final(self).rooms == old(self).rooms,
            final(self).room_idx == old(self).room_idx,
            final(self).plp == old(self).plp,
            final(self).done == old(self).done,
            final(self).depth == old(self).depth,
            forall|q: Point|
                old(self).tiles.spec_in_bounds(q.x as int, q.y as int) ==> #[trigger] final(self).tiles.at(q.x as int, q.y as int)
                    == if in_box(x0 as int, y0 as int, x1 as int, y1 as int, q) {
                    TileType::Floor
                } else {
                    old(self).tiles.at(q.x as int, q.y as int)
                },
    {
        let mut y = y0;
        while y <= y1
            invariant
                self.tiles.wf(),
                self.tiles.spec_width() == old(self).tiles.spec_width(),
                self.tiles.spec_height() == old(self).tiles.spec_height(),
                self.rooms == old(self).rooms,
                self.room_idx == old(self).room_idx,
                self.plp == old(self).plp,
                self.done == old(self).done,
                self.depth == old(self).depth,
                0 <= x0 <= x1 + 1,
                x1 < self.tiles.spec_width(),
                0 <= y0 <= y <= y1 + 1,
                y1 < self.tiles.spec_height(),
                forall|q: Point|
                    old(self).tiles.spec_in_bounds(q.x as int, q.y as int) ==> #[trigger] self.tiles.at(q.x as int, q.y as int)
                        == if in_box(x0 as int, y0 as int, x1 as int, y - 1, q) {
                        TileType::Floor
                    } else {
                        old(self).tiles.at(q.x as int, q.y as int)
                    },
            decreases y1 + 1 - y,
        {
            let mut x = x0;
            while x <= x1
                invariant
                    self.tiles.wf(),
                    self.tiles.spec_width() == old(self).tiles.spec_width(),
                    self.tiles.spec_height() == old(self).tiles.spec_height(),
                    self.rooms == old(self).rooms,
                    self.room_idx == old(self).room_idx,
                    self.plp == old(self).plp,
                    self.done == old(self).done,
                    self.depth == old(self).depth,
                    0 <= x0 <= x <= x1 + 1,
                    x1 < self.tiles.spec_width(),
                    0 <= y0 <= y <= y1,
                    y1 < self.tiles.spec_height(),
                    forall|q: Point|
                        old(self).tiles.spec_in_bounds(q.x as int, q.y as int) ==> #[trigger] self.tiles.at(q.x as int, q.y as int)
                            == if in_box(x0 as int, y0 as int, x1 as int, y - 1, q) || (q.y == y && x0 <= q.x < x) {
                            TileType::Floor
                        } else {
                            old(self).tiles.at(q.x as int, q.y as int)
                        },
                decreases x1 + 1 - x,
            {
                let ghost before = self.tiles;
                self.tiles.set(x, y, TileType::Floor);
                proof {
                    let (w, h) = (before.spec_width(), before.spec_height());
                    assert forall|q: Point| old(self).tiles.spec_in_bounds(q.x as int, q.y as int) implies #[trigger] self.tiles.at(
                        q.x as int,
                        q.y as int,
                    ) == if in_box(x0 as int, y0 as int, x1 as int, y - 1, q) || (q.y == y && x0 <= q.x < x + 1) {
                        TileType::Floor
                    } else {
                        old(self).tiles.at(q.x as int, q.y as int)
                    } by {
                        lemma_cell_index_bounds(w, h, q.x as int, q.y as int);
                        lemma_cell_index_bounds(w, h, x as int, y as int);
                        assert(before.at(q.x as int, q.y as int) == if in_box(x0 as int, y0 as int, x1 as int, y - 1, q) || (q.y == y && x0 <= q.x < x) {
                            TileType::Floor
                        } else {
                            old(self).tiles.at(q.x as int, q.y as int)
                        });
                        if cell_index(w, q.x as int, q.y as int) == cell_index(w, x as int, y as int) {
                            lemma_cell_index_injective(w, h, q.x as int, q.y as int, x as int, y as int);
                        }
                    }
                }
                x += 1;
            }
            y += 1;
        }
    }

    /// Turns every cell of `r` into floor.
    fn create_room(&mut self, r: &IRect)
        requires
            old(self).tiles.wf(),
            room_in(*r, old(self).tiles.spec_width(), old(self).tiles.spec_height()),
        ensures
            final(self).tiles.wf(),
            final(self).tiles.spec_width() == old(self).tiles.spec_width(),
            final(self).tiles.spec_height() == old(self).tiles.spec_height(),
            final(self).rooms == old(self).rooms,
            final(self).room_idx == old(self).room_idx,
            final(self).plp == old(self).plp,
            final(self).done == old(self).done,
            final(self).depth == old(self).depth,
            forall|q: Point|
                old(self).tiles.spec_in_bounds(q.x as int, q.y as int) ==> #[trigger] final(self).tiles.at(q.x as int, q.y as int)
                    == if in_box(r.x as int, r.y as int, r.xx as int, r.yy as int, q) {
                    TileType::Floor
                } else {
                    old(self).tiles.at(q.x as int, q.y as int)
                },
    {
        self.fill_floor(r.x, r.y, r.xx, r.yy);
    }

    /// Carves floor along row `y` from `x` to `xx`, then along column `xx`
    /// from `y` to `yy`.
    fn create_corridor(&mut self, x: i32, y: i32, xx: i32, yy: i32)
        requires
            old(self).tiles.wf(),
            old(self).tiles.spec_in_bounds(x as int, y as int),
            old(self).tiles.spec_in_bounds(xx as int, yy as int),
        ensures
            final(self).tiles.wf(),
            final(self).tiles.spec_width() == old(self).tiles.spec_width(),
            final(self).tiles.spec_height() == old(self).tiles.spec_height(),
            final(self).rooms == old(self).rooms,
            final(self).room_idx == old(self).room_idx,
            final(self).plp == old(self).plp,
            final(self).done == old(self).done,
            final(self).depth == old(self).depth,
            forall|q: Point|
                old(self).tiles.spec_in_bounds(q.x as int, q.y as int) ==> #[trigger] final(self).tiles.at(
                    q.x as int,
                    q.y as int,
                ) == if (q.y == y && (x <= q.x <= xx || xx <= q.x <= x)) || (q.x == xx && (y <= q.y <= yy
                    || yy <= q.y <= y)) {
                    TileType::Floor
                } else {
                    old(self).tiles.at(q.x as int, q.y as int)
                },
    {
        let ghost t0 = self.tiles;
        let (lo, hi) = if x <= xx { (x, xx) } else { (xx, x) };
        self.fill_floor(lo, y, hi, y);
        let ghost t1 = self.tiles;
        let (lo2, hi2) = if y <= yy { (y, yy) } else { (yy, y) };
        self.fill_floor(xx, lo2, xx, hi2);
        proof {
            assert forall|q: Point| t0.spec_in_bounds(q.x as int, q.y as int) implies #[trigger] self.tiles.at(
                q.x as int,
                q.y as int,
            ) == if (q.y == y && (x <= q.x <= xx || xx <= q.x <= x)) || (q.x == xx && (y <= q.y <= yy
                || yy <= q.y <= y)) {
                TileType::Floor
            } else {
                t0.at(q.x as int, q.y as int)
            } by {
                assert(t1.at(q.x as int, q.y as int) == if in_box(lo as int, y as int, hi as int, y as int, q) {
                    TileType::Floor
                } else {
                    t0.at(q.x as int, q.y as int)
                });
            }
        }
    }

    /// Whether `r` overlaps a room already placed.
    fn overlaps_any(&self, r: &IRect) -> (b: bool)
        ensures
            b == exists|i: int| 0 <= i < self.rooms@.len() && (#[trigger] self.rooms@[i]).spec_overlaps(*r),
    {
        let mut i: usize = 0;
        while i < self.rooms.len()
            invariant
                i <= self.rooms@.len(),
                forall|j: int| 0 <= j < i ==> !(#[trigger] self.rooms@[j]).spec_overlaps(*r),
            decreases self.rooms@.len() - i,
        {
            if self.rooms[i].overlaps(r) {
                return true;
            }
            i += 1;
        }
        false
    }




}

impl MapBuilder for SimpleBuilder {
    open spec fn builder_ok(&self) -> bool {
        self.wf()
    }

    open spec fn finished(&self) -> bool {
        self.spec_done()
    }

    open spec fn start(&self) -> Point {
        self.spec_plp()
    }

    open spec fn level_tiles(&self) -> Grid<TileType> {
        self.spec_tiles()
    }

    /// Tries one random room; once the attempts are used up, puts the down
    /// stairs at the centre of the last room and the player at the centre of
    /// the first, and reports the level finished.
    fn progress(&mut self) -> (r: bool)
        ensures
            final(self).wf(),
            final(self).spec_depth() == old(self).spec_depth(),
            final(self).spec_tiles().spec_width() == old(self).spec_tiles().spec_width(),
            final(self).spec_tiles().spec_height() == old(self).spec_tiles().spec_height(),
            final(self).spec_rooms().len() >= 1,
            old(self).spec_rooms().is_prefix_of(final(self).spec_rooms()),
            final(self).spec_rooms().len() <= old(self).spec_rooms().len() + 1,
            r == (old(self).spec_room_idx() >= MAX_ROOMS),
            r == final(self).spec_done(),
            !r ==> final(self).spec_room_idx() == old(self).spec_room_idx() + 1,
            r ==> final(self).spec_room_idx() == old(self).spec_room_idx(),
            old(self).spec_done() ==> final(self).spec_tiles() == old(self).spec_tiles() && final(self).spec_rooms()
                == old(self).spec_rooms() && final(self).spec_plp() == old(self).spec_plp(),
            forall|i: int|
                0 <= i < final(self).spec_rooms().len() ==> room_in(
                    #[trigger] final(self).spec_rooms()[i],
                    final(self).spec_tiles().spec_width(),
                    final(self).spec_tiles().spec_height(),
                ),
            forall|i: int, j: int|
                0 <= i < j < final(self).spec_rooms().len() ==> !(#[trigger] final(self).spec_rooms()[i]).spec_overlaps(
                    #[trigger] final(self).spec_rooms()[j],
                ),
            r ==> {
                let first = final(self).spec_rooms()[0];
                let last = final(self).spec_rooms().last();
                &&& final(self).spec_plp().x == div_trunc(first.x + first.xx, 2)
                &&& final(self).spec_plp().y == div_trunc(first.y + first.yy, 2)
                &&& final(self).spec_tiles().at(div_trunc(last.x + last.xx, 2), div_trunc(last.y + last.yy, 2))
                    == TileType::DownStairs
            },
    {
        if self.done {
            return true;
        }
        let (width, height) = (self.tiles.width(), self.tiles.height());
        let w = random_range(MIN_ROOM, MAX_ROOM);
        let h = random_range(MIN_ROOM, MAX_ROOM);
        let x = random_range(2, width - 3 - w);
        let y = random_range(2, height - 3 - h);
        let new_room = IRect::new(x, y, w, h);
        let ghost rooms0 = self.rooms@;
        if !self.overlaps_any(&new_room) {
            self.create_room(&new_room);
            let n = self.rooms.len();
            if n > 0 {
                let prev = self.rooms[n - 1];
                let (px, py) = prev.center();
                let (nx, ny) = new_room.center();
                proof {
                    assert(room_in(prev, width as int, height as int));
                    lemma_center_inside(prev);
                    lemma_center_inside(new_room);
                }
                if random_ratio(1, 2) {
                    self.create_corridor(px, py, nx, ny);
                } else {
                    self.create_corridor(nx, ny, px, py);
                }
            }
            self.rooms.push(new_room);
            proof {
                assert(rooms0.is_prefix_of(self.rooms@));
                assert forall|i: int| 0 <= i < self.rooms@.len() implies room_in(#[trigger] self.rooms@[i], width as int, height as int) by {
                    if i < rooms0.len() {
                        assert(self.rooms@[i] == rooms0[i]);
                    }
                }
                assert forall|i: int, j: int|
                    0 <= i < j < self.rooms@.len() implies !(#[trigger] self.rooms@[i]).spec_overlaps(
                    #[trigger] self.rooms@[j],
                ) by {
                    if j == self.rooms@.len() - 1 {
                        assert(self.rooms@[j] == new_room);
                        assert(self.rooms@[i] == rooms0[i]);
                        assert(!rooms0[i].spec_overlaps(new_room));
                    } else {
                        assert(self.rooms@[i] == rooms0[i] && self.rooms@[j] == rooms0[j]);
                    }
                }
            }
        } else {
            proof {
                assert(rooms0.is_prefix_of(self.rooms@));
            }
        }
        if self.rooms.len() == 0 {
            proof {
                assert(false) by {
                    assert(!exists|i: int| 0 <= i < rooms0.len() && (#[trigger] rooms0[i]).spec_overlaps(new_room));
                }
            }
        }
        if self.room_idx >= MAX_ROOMS {
            let n = self.rooms.len();
            let last = self.rooms[n - 1];
            let (sx, sy) = last.center();
            proof {
                assert(room_in(last, width as int, height as int));
                lemma_center_inside(last);
            }
            self.tiles.set(sx, sy, TileType::DownStairs);
            proof {
                crate::grid::lemma_cell_index_bounds(width as int, height as int, sx as int, sy as int);
            }
            let (fx, fy) = self.rooms[0].center();
            self.plp = Point { x: fx, y: fy };
            self.done = true;
            true
        } else {
            self.room_idx += 1;
            false
        }
    }

    fn player_pos(&self) -> (r: Point)
        ensures
            r == self.spec_plp(),
    {
        self.plp
    }

    fn intermediate(&self) -> (r: IntermediateMap<'_>)
        ensures
            r.spec_tiles() == self.spec_tiles(),
    {
        IntermediateMap::new(&self.tiles)
    }

    /// Hands the tiles over to a finished level, leaving an empty grid behind.
    fn build(&mut self) -> (r: LevelMap)
        ensures
            r.spec_tiles() == old(self).spec_tiles(),
            r.spec_depth() == old(self).spec_depth(),
            r.wf(),
    {
        let mut tiles = Grid::new(0, 0, TileType::Wall);
        std::mem::swap(&mut self.tiles, &mut tiles);
        LevelMap::from_grid(tiles, self.depth)
    }
}


/// The most spawns a room gets on the first level; deeper levels get more.
pub const MAX_DEPTH1_SPAWNS: i32 = 4;

impl SimpleBuilder {
    /// Some cell of `pts` lies inside room `k`.
    pub open spec fn room_has_point(&self, pts: Seq<(i32, i32)>, k: int) -> bool {
        exists|i: int| 0 <= i < pts.len() && #[trigger] cell_in_box(pts[i], self.spec_rooms()[k].x as int, self.spec_rooms()[k].y as int, self.spec_rooms()[k].xx as int, self.spec_rooms()[k].yy as int)
    }

    /// `c` lies inside one of the rooms after the first.
    pub open spec fn in_later_room(&self, c: (i32, i32)) -> bool {
        exists|k: int| 1 <= k < self.spec_rooms().len() && #[trigger] cell_in_box(c, self.spec_rooms()[k].x as int, self.spec_rooms()[k].y as int, self.spec_rooms()[k].xx as int, self.spec_rooms()[k].yy as int)
    }

    /// Where to spawn monsters and items: a number drawn once between 1 and
    /// `MAX_DEPTH1_SPAWNS` plus the depth, then that many distinct cells
    /// drawn in each room but the first (fewer where a room fills up).
    pub fn spawn_points(&self) -> (r: Vec<(i32, i32)>)
        requires
            self.wf(),
            1 - MAX_DEPTH1_SPAWNS <= self.spec_depth() <= i32::MAX - MAX_DEPTH1_SPAWNS,
        ensures
            distinct_cells(r@),
            forall|i: int| 0 <= i < r@.len() ==> self.in_later_room(#[trigger] r@[i]),
            forall|k: int| 1 <= k < self.spec_rooms().len() ==> #[trigger] self.room_has_point(r@, k),
    {
        let num = random_range(1, MAX_DEPTH1_SPAWNS + self.depth);
        let mut pts: Vec<(i32, i32)> = Vec::new();
        let ghost mut owner: Seq<int> = Seq::empty();
        let mut k: usize = 1;
        while k < self.rooms.len()
            invariant
                self.wf(),
                1 <= k,
                k <= self.rooms@.len() || pts@.len() == 0,
                self.spec_rooms() == self.rooms@,
                distinct_cells(pts@),
                owner.len() == pts@.len(),
                1 <= num,
                forall|kk: int| 1 <= kk < k && kk < self.spec_rooms().len() ==> #[trigger] self.room_has_point(pts@, kk),
                forall|i: int|
                    0 <= i < pts@.len() ==> 1 <= #[trigger] owner[i] < k && cell_in_box(
                        pts@[i],
                        self.spec_rooms()[owner[i]].x as int, self.spec_rooms()[owner[i]].y as int, self.spec_rooms()[owner[i]].xx as int, self.spec_rooms()[owner[i]].yy as int,
                    ),
            decreases self.rooms@.len() - k,
        {
            let r = self.rooms[k];
            let ghost before = pts@;
            pick_cells(&mut pts, r.x, r.y, r.xx, r.yy, num);
            proof {
                let added = Seq::new((pts@.len() - before.len()) as nat, |i: int| k as int);
                owner = owner + added;
                assert forall|i: int| 0 <= i < pts@.len() implies 1 <= #[trigger] owner[i] < k + 1 && cell_in_box(
                    pts@[i],
                    self.spec_rooms()[owner[i]].x as int, self.spec_rooms()[owner[i]].y as int, self.spec_rooms()[owner[i]].xx as int, self.spec_rooms()[owner[i]].yy as int,
                ) by {
                    if i < before.len() {
                        assert(pts@[i] == before[i]);
                    } else {
                        assert(owner[i] == k);
                    }
                }
                assert forall|kk: int| 1 <= kk < k + 1 && kk < self.spec_rooms().len() implies #[trigger] self.room_has_point(pts@, kk) by {
                    if kk < k {
                        assert(self.room_has_point(before, kk));
                        let j = choose|j: int| 0 <= j < before.len() && #[trigger] cell_in_box(before[j], self.spec_rooms()[kk].x as int, self.spec_rooms()[kk].y as int, self.spec_rooms()[kk].xx as int, self.spec_rooms()[kk].yy as int);
                        assert(pts@[j] == before[j]);
                    } else {
                        assert(self.spec_rooms()[k as int] == r);
                        let j = choose|j: int| 0 <= j < pts@.len() && #[trigger] cell_in_box(pts@[j], self.spec_rooms()[kk].x as int, self.spec_rooms()[kk].y as int, self.spec_rooms()[kk].xx as int, self.spec_rooms()[kk].yy as int);
                    }
                }
            }
            k += 1;
        }
        proof {
            assert forall|i: int| 0 <= i < pts@.len() implies self.in_later_room(#[trigger] pts@[i]) by {
                let w = owner[i];
                assert(cell_in_box(pts@[i], self.spec_rooms()[w].x as int, self.spec_rooms()[w].y as int, self.spec_rooms()[w].xx as int, self.spec_rooms()[w].yy as int));
            }
        }
        pts
    }
}

} // verus!
