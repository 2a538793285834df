use dungeon_alg::djmap::DjMap;
use dungeon_alg::bfs::BFS;
use dungeon_alg::grid::Grid;
use dungeon_alg::irect::{IRect, Point};
use dungeon_alg::map::{IntermediateMap, LevelMap, TileFlags, TileType, ViewMap};
use dungeon_alg::random_table::RandomTable;
use dungeon_alg::util::{adjacent, wall_glyph};

#[test]
fn irect_basics() {
    let r = IRect::new(2, 3, 4, 5);
    assert_eq!((r.x, r.y, r.xx, r.yy), (2, 3, 5, 7));
    assert_eq!(r.width(), 4);
    assert_eq!(r.height(), 5);
    assert_eq!(r.center(), (3, 5));
    assert!(r.contains(5, 7));
    assert!(!r.contains(6, 7));
    let o = IRect::new(5, 7, 3, 3);
    assert!(r.overlaps(&o));
    assert_eq!(r.intersection(&o), Some(IRect::new(5, 7, 1, 1)));
    assert_eq!(r.intersection(&IRect::new(6, 0, 2, 2)), None);
    assert_eq!(IRect::new(-3, -3, 2, 2).center(), (-2, -2));
}

#[test]
fn grid_get_set_resize() {
    let mut g = Grid::new(3, 2, 7);
    g.set(2, 1, 9);
    *g.get_mut(0, 1) = 4;
    assert_eq!(*g.get(2, 1), 9);
    assert_eq!(g.iter().to_vec(), vec![7, 7, 7, 4, 7, 9]);
    g.resize(4, 2, 0);
    assert_eq!(g.iter().to_vec(), vec![7, 7, 7, 4, 7, 9, 0, 0]);
    assert_eq!((g.width(), g.height()), (4, 2));
    g.fill(1);
    assert_eq!(g.iter().to_vec(), vec![1; 8]);
}

#[test]
fn adjacent_lists_eight_neighbours_clockwise() {
    assert_eq!(
        adjacent(5, 5),
        vec![(5, 4), (6, 4), (6, 5), (6, 6), (5, 6), (4, 6), (4, 5), (4, 4)]
    );
}

#[test]
fn random_table_select_follows_weights() {
    let mut t = RandomTable::new();
    t.add('a', 2);
    t.add('b', 0);
    t.add('c', 3);
    assert_eq!(*t.select(1), 'a');
    assert_eq!(*t.select(2), 'a');
    assert_eq!(*t.select(3), 'c');
    assert_eq!(*t.select(5), 'c');
    for _ in 0..50 {
        assert_ne!(*t.roll(), 'b');
    }
    t.extend(vec![('d', 5)]);
    assert_eq!(*t.select(6), 'd');
    t.clear();
    t.add('z', 1);
    assert_eq!(*t.roll(), 'z');
}

#[test]
fn random_table_roll_reaches_every_weighted_entry() {
    let mut t = RandomTable::new();
    t.add(1, 1);
    t.add(2, 1);
    let mut seen = [false; 3];
    for _ in 0..200 {
        seen[*t.roll() as usize] = true;
    }
    assert!(seen[1] && seen[2]);
}

#[test]
fn djmap_update_labels_window() {
    let mut tiles = Grid::new(10, 10, TileType::Floor);
    for y in 0..10 {
        tiles.set(6, y, TileType::Wall);
    }
    let level = LevelMap::from_grid(tiles, 1);
    let mut dj = DjMap::new(6, 6);
    assert_eq!((dj.max_width(), dj.max_height()), (6, 6));
    let mut bfs = BFS::new();
    assert!(dj.needs_updating(2, 2));
    dj.update(&mut bfs, &level, 2, 2);
    assert!(!dj.needs_updating(2, 2));
    assert_eq!(dj.bounds(), IRect::new(0, 0, 5, 5));
    assert_eq!(dj.get(2, 2), 0);
    assert_eq!(dj.get(4, 4), 2);
    assert_eq!(dj.get(0, 0), 2);
    let adj = dj.adjacent(2, 2);
    assert_eq!(adj.len(), 8);
    assert!(adj.iter().all(|&(_, _, d)| d == 1));
    dj.update(&mut bfs, &level, 8, 8);
    assert_eq!(dj.bounds(), IRect::new(5, 5, 5, 5));
    assert_eq!(dj.get(8, 8), 0);
    assert_eq!(dj.get(6, 6), -1);
    assert_eq!(dj.get(5, 5), -1);
    assert_eq!(dj.iter().len(), 15);
}

#[test]
fn level_map_flags_and_glyphs() {
    let mut tiles = Grid::new(3, 3, TileType::Floor);
    tiles.set(1, 0, TileType::Wall);
    tiles.set(1, 1, TileType::Wall);
    let mut level = LevelMap::from_grid(tiles, 4);
    assert!(level.tile_flags(1, 1).blocked);
    assert!(!level.tile_flags(0, 0).blocked);
    assert_eq!(level.tile_flags(0, 0), TileFlags::revealed());
    assert_eq!(wall_glyph(&level, 1, 1), 186);
    assert_eq!(wall_glyph(&level, 1, 0), 186);
    level.set_tile(0, 1, TileType::Wall);
    level.populate_blocked();
    assert!(level.tile_flags(0, 1).blocked);
    assert_eq!(wall_glyph(&level, 1, 1), 188);
    level.set_tile_flags(2, 2, TileFlags { revealed: true, visible: true, blocked: false, bloodstained: true });
    level.reset_visible_tiles();
    assert!(!level.tile_flags(2, 2).visible);
    assert!(level.tile_flags(2, 2).bloodstained);
    let raw = Grid::new(2, 2, TileType::DownStairs);
    let view = IntermediateMap::new(&raw);
    assert_eq!(view.tile(1, 1), TileType::DownStairs);
    assert!(view.tile_flags(0, 0).visible);
    assert_eq!(view.bounds(), IRect::new(0, 0, 2, 2));
    let _ = Point::new(0, 0);
}

#[test]
fn irect_iter_lists_cells_row_by_row() {
    let r = IRect::new(1, 2, 3, 2);
    assert_eq!(r.iter(), vec![(1, 2), (2, 2), (3, 2), (1, 3), (2, 3), (3, 3)]);
    assert!(IRect::new(0, 0, 0, 4).iter().is_empty());
}

#[test]
fn tile_flags_mut_changes_one_cell() {
    let mut level = LevelMap::from_grid(Grid::new(3, 2, TileType::Floor), 2);
    level.tile_flags_mut(2, 1).bloodstained = true;
    assert!(level.tile_flags(2, 1).bloodstained);
    assert!(!level.tile_flags(1, 1).bloodstained);
}

#[test]
fn downhill_step_moves_toward_player() {
    let mut tiles = Grid::new(9, 9, TileType::Floor);
    tiles.set(4, 3, TileType::Wall);
    let level = LevelMap::from_grid(tiles, 1);
    let mut dj = DjMap::new(9, 9);
    let mut bfs = BFS::new();
    dj.update(&mut bfs, &level, 4, 1);
    assert_eq!(dj.downhill_step(&level, 4, 5, 4, 1), Some((4, 4)));
    assert_eq!(dj.downhill_step(&level, 4, 2, 4, 1), Some((4, 1)));
    let mut walled = Grid::new(3, 3, TileType::Wall);
    walled.set(1, 1, TileType::Floor);
    let cell = LevelMap::from_grid(walled, 1);
    let mut small = DjMap::new(3, 3);
    small.update(&mut bfs, &cell, 1, 1);
    assert_eq!(small.downhill_step(&cell, 1, 1, 1, 1), None);
}
