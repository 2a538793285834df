use dungeon_alg::astar::AStarPath;
use dungeon_alg::bfs::BFS;
use dungeon_alg::bsp::CorridorMap;
use dungeon_alg::grid::Grid;
use dungeon_alg::irect::{IRect, Point};
use dungeon_alg::map::{LevelMap, TileType};
use std::collections::BinaryHeap;
use std::cmp::Reverse;

fn open_grid(w: i32, h: i32) -> Grid<TileType> {
    Grid::new(w, h, TileType::Floor)
}

/// A small deterministic pseudo-random sequence for building test maps.
struct Lcg(u64);

impl Lcg {
    fn next(&mut self) -> u64 {
        self.0 = self.0.wrapping_mul(6364136223846793005).wrapping_add(1442695040888963407);
        self.0 >> 33
    }
}

fn corridor_costs(tiles: &Grid<TileType>, x: i32, y: i32) -> Vec<(i32, i32, u64)> {
    let mut out = Vec::new();
    for (dx, dy) in [(1, 0), (0, 1), (-1, 0), (0, -1)] {
        let (nx, ny) = (x + dx, y + dy);
        if nx >= 1 && ny >= 1 && nx < tiles.width() && ny < tiles.height() {
            let c = if *tiles.get(nx, ny) == TileType::Floor { 1 } else { 5 };
            out.push((nx, ny, c));
        }
    }
    out
}

fn dijkstra(tiles: &Grid<TileType>, from: (i32, i32), to: (i32, i32)) -> Option<u64> {
    let w = tiles.width();
    let h = tiles.height();
    let mut dist = vec![u64::MAX; (w * h) as usize];
    let mut heap = BinaryHeap::new();
    dist[(from.1 * w + from.0) as usize] = 0;
    heap.push(Reverse((0u64, from.0, from.1)));
    while let Some(Reverse((d, x, y))) = heap.pop() {
        if d > dist[(y * w + x) as usize] {
            continue;
        }
        for (nx, ny, c) in corridor_costs(tiles, x, y) {
            let nd = d + c;
            let i = (ny * w + nx) as usize;
            if nd < dist[i] {
                dist[i] = nd;
                heap.push(Reverse((nd, nx, ny)));
            }
        }
    }
    let d = dist[(to.1 * w + to.0) as usize];
    if d == u64::MAX { None } else { Some(d) }
}

#[test]
fn corridor_of_three_gives_reversed_path() {
    let tiles = open_grid(3, 1);
    let cmap = CorridorMap::new(&tiles, IRect::new(0, 0, 3, 1));
    let mut astar = AStarPath::new();
    astar.compute(&cmap, Point::new(0, 0), Point::new(2, 0));
    let expected = vec![(Point::new(2, 0), 2u64), (Point::new(1, 0), 1), (Point::new(0, 0), 0)];
    assert_eq!(astar.result().to_vec(), expected);
}

#[test]
fn path_to_self_is_single_cell() {
    let tiles = open_grid(4, 4);
    let cmap = CorridorMap::new(&tiles, IRect::new(0, 0, 4, 4));
    let mut astar = AStarPath::new();
    astar.compute(&cmap, Point::new(1, 1), Point::new(1, 1));
    assert_eq!(astar.result().to_vec(), vec![(Point::new(1, 1), 0u64)]);
}

#[test]
fn astar_matches_dijkstra_on_random_grids() {
    let mut rng = Lcg(7);
    for _ in 0..40 {
        let (w, h) = (12, 9);
        let mut tiles = Grid::new(w, h, TileType::Floor);
        for y in 0..h {
            for x in 0..w {
                if rng.next() % 3 == 0 {
                    tiles.set(x, y, TileType::Wall);
                }
            }
        }
        let from = (1 + (rng.next() % 10) as i32, 1 + (rng.next() % 7) as i32);
        let to = (1 + (rng.next() % 10) as i32, 1 + (rng.next() % 7) as i32);
        let cmap = CorridorMap::new(&tiles, IRect::new(1, 1, w - 1, h - 1));
        let mut astar = AStarPath::new();
        astar.compute(&cmap, Point::new(from.0, from.1), Point::new(to.0, to.1));
        let path = astar.result().to_vec();
        let best = dijkstra(&tiles, from, to).unwrap();
        assert_eq!(path[0].0, Point::new(to.0, to.1));
        assert_eq!(path[path.len() - 1], (Point::new(from.0, from.1), 0));
        assert_eq!(path[0].1, best);
    }
}

#[test]
fn same_query_twice_gives_same_path() {
    let mut tiles = Grid::new(10, 10, TileType::Floor);
    for y in 0..8 {
        tiles.set(5, y, TileType::Wall);
    }
    let cmap = CorridorMap::new(&tiles, IRect::new(1, 1, 9, 9));
    let mut astar = AStarPath::new();
    astar.compute(&cmap, Point::new(2, 2), Point::new(8, 2));
    let first = astar.result().to_vec();
    astar.compute(&cmap, Point::new(3, 7), Point::new(7, 1));
    astar.compute(&cmap, Point::new(2, 2), Point::new(8, 2));
    assert_eq!(astar.result().to_vec(), first);
    let mut fresh = AStarPath::new();
    fresh.compute(&cmap, Point::new(2, 2), Point::new(8, 2));
    assert_eq!(fresh.result().to_vec(), first);
}

#[test]
fn unreachable_target_gives_empty_path() {
    let mut tiles = Grid::new(7, 5, TileType::Floor);
    for y in 0..5 {
        tiles.set(3, y, TileType::Wall);
    }
    let level = LevelMap::from_grid(tiles, 1);
    let mut astar = AStarPath::new();
    astar.compute(&level, Point::new(1, 2), Point::new(5, 2));
    assert!(astar.result().is_empty());
}

#[test]
fn level_map_path_uses_diagonal_costs() {
    let level = LevelMap::from_grid(open_grid(5, 5), 1);
    let mut astar = AStarPath::new();
    astar.compute(&level, Point::new(0, 0), Point::new(3, 3));
    let path = astar.result().to_vec();
    assert_eq!(path.len(), 4);
    assert_eq!(path[0], (Point::new(3, 3), 42));
    assert_eq!(path[3], (Point::new(0, 0), 0));
}

fn bfs_labels(w: i32, h: i32, walls: &[(i32, i32)], sources: Vec<Point>) -> Grid<i32> {
    let mut open = Grid::new(w, h, true);
    for (x, y) in walls {
        open.set(*x, *y, false);
    }
    let mut labels = Grid::new(w, h, -1);
    let mut bfs = BFS::new();
    bfs.search(&sources, &mut labels, &open);
    labels
}

#[test]
fn bfs_labels_hop_distances() {
    let labels = bfs_labels(5, 3, &[(2, 0), (2, 1)], vec![Point::new(0, 0)]);
    let expected = [
        [0, 1, -9, 4, 4],
        [1, 1, -9, 3, 4],
        [2, 2, 2, 3, 4],
    ];
    for y in 0..3 {
        for x in 0..5 {
            let e = expected[y as usize][x as usize];
            let e = if e == -9 { -1 } else { e };
            assert_eq!(*labels.get(x, y), e, "cell ({x}, {y})");
        }
    }
}

#[test]
fn bfs_leaves_enclosed_cells_unreached() {
    let walls = [(3, 0), (3, 1), (3, 2), (3, 3)];
    let labels = bfs_labels(6, 4, &walls, vec![Point::new(0, 0)]);
    for y in 0..4 {
        assert_eq!(*labels.get(4, y), -1);
        assert_eq!(*labels.get(5, y), -1);
        assert_eq!(*labels.get(3, y), -1);
    }
    assert_eq!(*labels.get(2, 3), 3);
}

#[test]
fn bfs_uses_nearest_source() {
    let labels = bfs_labels(7, 1, &[], vec![Point::new(0, 0), Point::new(6, 0)]);
    let got: Vec<i32> = (0..7).map(|x| *labels.get(x, 0)).collect();
    assert_eq!(got, vec![0, 1, 2, 3, 2, 1, 0]);
}

#[test]
fn search_until_finds_nearest_target() {
    let open = Grid::new(6, 6, true);
    let mut target = Grid::new(6, 6, false);
    target.set(5, 5, true);
    target.set(2, 4, true);
    let mut labels = Grid::new(6, 6, -1);
    let mut bfs = BFS::new();
    let found = bfs.search_until(&vec![Point::new(2, 1)], &mut labels, &open, &target);
    assert_eq!(found, Some(Point::new(2, 4)));
    assert_eq!(*labels.get(2, 4), 3);
}

#[test]
fn search_until_without_target_is_none() {
    let open = Grid::new(4, 4, true);
    let target = Grid::new(4, 4, false);
    let mut labels = Grid::new(4, 4, -1);
    let mut bfs = BFS::new();
    assert_eq!(bfs.search_until(&vec![Point::new(0, 0)], &mut labels, &open, &target), None);
}
