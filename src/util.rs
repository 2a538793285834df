use vstd::prelude::*;
use crate::bfs::{offset, offset_at};
use crate::map::{TileType, ViewMap};

verus! {

/// The eight cells around `(x, y)`, clockwise from the one above.
pub fn adjacent(x: i32, y: i32) -> (r: Vec<(i32, i32)>)
    requires
        i32::MIN < x < i32::MAX,
        i32::MIN < y < i32::MAX,
    ensures
        r@.len() == 8,
        forall|k: int|
            0 <= k < 8 ==> (#[trigger] r@[k]).0 == x + offset(k).0 && r@[k].1 == y + offset(k).1,
{
    let mut r: Vec<(i32, i32)> = Vec::new();
    let mut k: usize = 0;
    while k < 8
        invariant
            i32::MIN < x < i32::MAX,
            i32::MIN < y < i32::MAX,
            k <= 8,
            r@.len() == k,
            forall|j: int|
                0 <= j < k ==> (#[trigger] r@[j]).0 == x + offset(j).0 && r@[j].1 == y + offset(j).1,
        decreases 8 - k,
    {
        let (dx, dy) = offset_at(k);
        r.push((x + dx, y + dy));
        k += 1;
    }
    r
}

/// The code page 437 box-drawing glyphs for a wall, indexed by which of its
/// four side neighbours (up 1, down 2, left 4, right 8) are walls.
pub open spec fn wall_glyph_of(mask: int) -> u16 {
    let table = seq![9u16, 186, 186, 186, 205, 188, 187, 185, 205, 200, 201, 204, 205, 202, 203, 206];
    table[mask]
}

/// Whether `(x, y)` counts as wall when drawing a neighbouring wall: cells
/// off the map do, and so do revealed walls.
pub open spec fn joins<M: ViewMap>(map: &M, x: int, y: int) -> bool {
    !map.view_bounds().spec_contains(x, y) || (map.view_flags(x, y).revealed && map.view_tile(x, y)
        == TileType::Wall)
}

fn joins_at<M: ViewMap>(map: &M, x: i32, y: i32) -> (r: bool)
    requires
        map.view_ok(),
    ensures
        r == joins(map, x as int, y as int),
{
    let bounds = map.bounds();
    !bounds.contains(x, y) || (map.tile_flags(x, y).revealed && map.tile(x, y) == TileType::Wall)
}

/// The glyph that draws the wall at `(x, y)` so that it joins the walls
/// beside it.
pub fn wall_glyph<M: ViewMap>(map: &M, x: i32, y: i32) -> (r: u16)
    requires
        map.view_ok(),
        i32::MIN < x < i32::MAX,
        i32::MIN < y < i32::MAX,
    ensures
        r == wall_glyph_of(
            (if joins(map, x as int, y - 1) { 1int } else { 0 }) + (if joins(map, x as int, y + 1) {
                2int
            } else {
                0
            }) + (if joins(map, x - 1, y as int) { 4int } else { 0 }) + (if joins(
                map,
                x + 1,
                y as int,
            ) {
                8int
            } else {
                0
            }),
        ),
{
    let mut mask: usize = 0;
    if joins_at(map, x, y - 1) {
        mask = mask + 1;
    }
    if joins_at(map, x, y + 1) {
        mask = mask + 2;
    }
    if joins_at(map, x - 1, y) {
        mask = mask + 4;
    }
    if joins_at(map, x + 1, y) {
        mask = mask + 8;
    }
    let table: [u16; 16] = [9, 186, 186, 186, 205, 188, 187, 185, 205, 200, 201, 204, 205, 202, 203, 206];
    proof {
        assert(table@ =~= seq![9u16, 186, 186, 186, 205, 188, 187, 185, 205, 200, 201, 204, 205, 202, 203, 206]);
    }
    table[mask]
}

} // verus!
