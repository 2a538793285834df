use vstd::prelude::*;
use crate::bfs::adjacent_cells;
use crate::grid::Grid;
use crate::irect::Point;
use crate::map::TileType;

verus! {

/// `p` is on the grid and not a wall.
pub open spec fn walkable(tiles: Grid<TileType>, p: Point) -> bool {
    tiles.spec_in_bounds(p.x as int, p.y as int) && tiles.at(p.x as int, p.y as int)
        != TileType::Wall
}

/// `path` leads from `a` to `b` through walkable cells, each adjacent to the last.
pub open spec fn is_walkway(tiles: Grid<TileType>, path: Seq<Point>, a: Point, b: Point) -> bool {
    &&& path.len() >= 1
    &&& path[0] == a
    &&& path.last() == b
    &&& forall|i: int| 0 <= i < path.len() ==> walkable(tiles, #[trigger] path[i])
    &&& forall|i: int| 1 <= i < path.len() ==> adjacent_cells(path[i - 1], #[trigger] path[i])
}

pub open spec fn connected(tiles: Grid<TileType>, a: Point, b: Point) -> bool {
    exists|path: Seq<Point>| #[trigger] is_walkway(tiles, path, a, b)
}

/// A walk to `a` extends to a walkable cell beside it.
pub proof fn lemma_connected_step(tiles: Grid<TileType>, s: Point, a: Point, b: Point)
    requires
        connected(tiles, s, a),
        adjacent_cells(a, b),
        walkable(tiles, b),
    ensures
        connected(tiles, s, b),
{
    let path = choose|path: Seq<Point>| #[trigger] is_walkway(tiles, path, s, a);
    let longer = path.push(b);
    assert forall|i: int| 0 <= i < longer.len() implies walkable(tiles, #[trigger] longer[i]) by {
        if i < path.len() {
            assert(longer[i] == path[i]);
        }
    }
    assert forall|i: int| 1 <= i < longer.len() implies adjacent_cells(longer[i - 1], #[trigger] longer[i]) by {
        if i < path.len() {
            assert(longer[i] == path[i] && longer[i - 1] == path[i - 1]);
        }
    }
    assert(longer[0] == path[0]);
    assert(is_walkway(tiles, longer, s, b));
}

/// Walks survive where no walkable cell stops being walkable.
pub proof fn lemma_connected_mono(t1: Grid<TileType>, t2: Grid<TileType>, s: Point, p: Point)
    requires
        connected(t1, s, p),
        forall|q: Point| walkable(t1, q) ==> #[trigger] walkable(t2, q),
    ensures
        connected(t2, s, p),
{
    let path = choose|path: Seq<Point>| #[trigger] is_walkway(t1, path, s, p);
    assert forall|i: int| 0 <= i < path.len() implies walkable(t2, #[trigger] path[i]) by {
        assert(walkable(t1, path[i]));
    }
    assert(is_walkway(t2, path, s, p));
}

/// A walkable cell is connected to itself.
pub proof fn lemma_connected_self(tiles: Grid<TileType>, s: Point)
    requires
        walkable(tiles, s),
    ensures
        connected(tiles, s, s),
{
    let path = seq![s];
    assert(is_walkway(tiles, path, s, s));
}

/// Every cell with `x0 <= x <= x1` and `y0 <= y <= y1`.
pub open spec fn in_box(x0: int, y0: int, x1: int, y1: int, p: Point) -> bool {
    x0 <= p.x <= x1 && y0 <= p.y <= y1
}

/// Within a box of walkable cells, a walk to one cell reaches every cell.
pub proof fn lemma_connected_box(
    tiles: Grid<TileType>,
    s: Point,
    x0: int,
    y0: int,
    x1: int,
    y1: int,
    c: Point,
    p: Point,
)
    requires
        connected(tiles, s, c),
        in_box(x0, y0, x1, y1, c),
        in_box(x0, y0, x1, y1, p),
        forall|q: Point| in_box(x0, y0, x1, y1, q) ==> #[trigger] walkable(tiles, q),
    ensures
        connected(tiles, s, p),
    decreases (if p.x >= c.x { p.x - c.x } else { c.x - p.x }) + (if p.y >= c.y { p.y - c.y } else { c.y - p.y }),
{
    if p != c {
        let q = if p.x > c.x {
            Point { x: (p.x - 1) as i32, y: p.y }
        } else if p.x < c.x {
            Point { x: (p.x + 1) as i32, y: p.y }
        } else if p.y > c.y {
            Point { x: p.x, y: (p.y - 1) as i32 }
        } else {
            Point { x: p.x, y: (p.y + 1) as i32 }
        };
        lemma_connected_box(tiles, s, x0, y0, x1, y1, c, q);
        assert(walkable(tiles, p));
        lemma_connected_step(tiles, s, q, p);
    }
}

} // verus!
