use dungeon_alg::bsp::{split, trim_rect, BSPGen, MIN_SIZE};
use dungeon_alg::builder::MapBuilder;
use dungeon_alg::cellular::CellularAutomata;
use dungeon_alg::grid::Grid;
use dungeon_alg::irect::{IRect, Point};
use dungeon_alg::map::{TileType, ViewMap};
use dungeon_alg::simple::SimpleBuilder;
use std::collections::VecDeque;

fn walkable(tiles: &Grid<TileType>, x: i32, y: i32) -> bool {
    x >= 0 && y >= 0 && x < tiles.width() && y < tiles.height() && *tiles.get(x, y) != TileType::Wall
}

fn reachable_from(tiles: &Grid<TileType>, start: Point) -> Vec<Vec<bool>> {
    let (w, h) = (tiles.width(), tiles.height());
    let mut seen = vec![vec![false; w as usize]; h as usize];
    let mut q = VecDeque::new();
    seen[start.y as usize][start.x as usize] = true;
    q.push_back((start.x, start.y));
    while let Some((x, y)) = q.pop_front() {
        for dy in -1..=1 {
            for dx in -1..=1 {
                let (nx, ny) = (x + dx, y + dy);
                if walkable(tiles, nx, ny) && !seen[ny as usize][nx as usize] {
                    seen[ny as usize][nx as usize] = true;
                    q.push_back((nx, ny));
                }
            }
        }
    }
    seen
}

fn copy_tiles<M: ViewMap>(view: &M) -> Grid<TileType> {
    let b = view.bounds();
    let mut g = Grid::new(b.width(), b.height(), TileType::Wall);
    for y in 0..b.height() {
        for x in 0..b.width() {
            g.set(x, y, view.tile(x, y));
        }
    }
    g
}

#[test]
fn cellular_levels_are_connected_with_distinct_stairs_and_balanced_floor() {
    for _ in 0..5 {
        let mut gen = CellularAutomata::new(20, 15, 1);
        let mut steps = 0;
        while !gen.progress() {
            steps += 1;
            assert!(steps < 100_000);
        }
        let tiles = copy_tiles(&gen.intermediate());
        let start = gen.player_pos();
        assert!(walkable(&tiles, start.x, start.y));
        let seen = reachable_from(&tiles, start);
        let mut floor = 0;
        let mut stairs = Vec::new();
        for y in 0..15 {
            for x in 0..20 {
                let t = *tiles.get(x, y);
                if t != TileType::Wall {
                    assert!(seen[y as usize][x as usize], "({x}, {y}) cut off");
                }
                if t == TileType::Floor {
                    floor += 1;
                }
                if t == TileType::DownStairs {
                    stairs.push((x, y));
                }
            }
        }
        assert_eq!(stairs.len(), 1);
        assert_ne!(stairs[0], (start.x, start.y));
        assert!(5 * floor >= 2 * 20 * 15 && 5 * floor <= 3 * 20 * 15, "floor {}", floor);
        let level = gen.build();
        assert_eq!(level.depth(), 1);
    }
}

#[test]
fn split_keeps_pieces_large_enough() {
    let mut widths = std::collections::HashSet::new();
    for _ in 0..200 {
        let r = IRect::new(0, 0, 80, 50);
        let (a, b) = split(r).unwrap();
        for p in [a, b] {
            assert!(p.width() >= MIN_SIZE && p.height() >= MIN_SIZE);
            assert!(p.x >= 0 && p.y >= 0 && p.xx <= 79 && p.yy <= 49);
        }
        assert!((a.xx == b.x && a.yy == 49) || (a.yy == b.y && a.xx == 79));
        widths.insert((a.width(), a.height()));
    }
    assert!(widths.len() > 1);
}

#[test]
fn split_refuses_small_rect() {
    assert!(split(IRect::new(3, 4, 18, 18)).is_none());
    assert!(split(IRect::new(3, 4, 19, 18)).is_some());
}

#[test]
fn trim_rect_stays_inside() {
    let mut shapes = std::collections::HashSet::new();
    for _ in 0..200 {
        let outer = IRect::new(10, 5, 30, 20);
        let mut r = outer;
        trim_rect(&mut r);
        assert!(r.x >= outer.x && r.xx <= outer.xx && r.y >= outer.y && r.yy <= outer.yy);
        assert!(r.width() >= 15 && r.width() <= 27);
        assert!(r.height() >= 10 && r.height() <= 18);
        shapes.insert((r.x, r.y, r.xx, r.yy));
    }
    assert!(shapes.len() > 1);
}

#[test]
fn bsp_generator_finishes_with_stairs() {
    let mut gen = BSPGen::new(80, 50, 2);
    let mut steps = 0;
    while !gen.progress() {
        steps += 1;
        assert!(steps < 10_000);
    }
    let tiles = copy_tiles(&gen.intermediate());
    let start = gen.player_pos();
    assert!(walkable(&tiles, start.x, start.y));
    let seen = reachable_from(&tiles, start);
    let mut stairs = Vec::new();
    for y in 0..50 {
        for x in 0..80 {
            if *tiles.get(x, y) != TileType::Wall {
                assert!(seen[y as usize][x as usize], "({x}, {y}) cut off");
            }
            if *tiles.get(x, y) == TileType::DownStairs {
                stairs.push((x, y));
            }
        }
    }
    assert_eq!(stairs.len(), 1);
    assert_ne!(stairs[0], (start.x, start.y));
    let level = gen.build();
    assert_eq!(level.depth(), 2);
}

#[test]
fn bsp_generator_on_one_room_map() {
    let mut gen = BSPGen::new(12, 10, 1);
    while !gen.progress() {}
    let tiles = copy_tiles(&gen.intermediate());
    let start = gen.player_pos();
    assert!(walkable(&tiles, start.x, start.y));
    let mut stairs = Vec::new();
    for y in 0..10 {
        for x in 0..12 {
            if *tiles.get(x, y) == TileType::DownStairs {
                stairs.push((x, y));
            }
        }
    }
    assert_eq!(stairs.len(), 1);
    assert_ne!(stairs[0], (start.x, start.y));
}

#[test]
fn simple_builder_places_rooms_and_stairs() {
    let mut gen = SimpleBuilder::new(80, 50, 3);
    let mut steps = 0;
    while !gen.progress() {
        steps += 1;
    }
    assert_eq!(steps, 30);
    let tiles = copy_tiles(&gen.intermediate());
    let start = gen.player_pos();
    assert_eq!(*tiles.get(start.x, start.y), TileType::Floor);
    let seen = reachable_from(&tiles, start);
    for y in 0..50 {
        for x in 0..80 {
            if *tiles.get(x, y) != TileType::Wall {
                assert!(seen[y as usize][x as usize]);
            }
        }
    }
}

#[test]
fn spawn_points_are_distinct_and_inside_later_rooms() {
    let mut gen = BSPGen::new(80, 50, 2);
    while !gen.progress() {}
    let pts = gen.spawn_points();
    let set: std::collections::HashSet<(i32, i32)> = pts.iter().cloned().collect();
    assert_eq!(set.len(), pts.len());
    assert!(!pts.is_empty());
    let tiles = copy_tiles(&gen.intermediate());
    for (x, y) in &pts {
        assert!(walkable(&tiles, *x, *y));
    }

    let mut simple = SimpleBuilder::new(80, 50, 1);
    while !simple.progress() {}
    let pts = simple.spawn_points();
    let set: std::collections::HashSet<(i32, i32)> = pts.iter().cloned().collect();
    assert_eq!(set.len(), pts.len());
    let tiles = copy_tiles(&simple.intermediate());
    for (x, y) in &pts {
        assert!(walkable(&tiles, *x, *y));
    }
}

#[test]
fn finished_simple_builder_stays_finished() {
    let mut gen = SimpleBuilder::new(40, 30, 1);
    while !gen.progress() {}
    let before = copy_tiles(&gen.intermediate());
    let start = gen.player_pos();
    assert!(gen.progress());
    let after = copy_tiles(&gen.intermediate());
    assert_eq!(before.iter().to_vec(), after.iter().to_vec());
    assert_eq!(gen.player_pos(), start);
}

#[test]
fn cellular_start_is_nearest_floor_to_centre() {
    let mut gen = CellularAutomata::new(20, 15, 1);
    while !gen.progress() {}
    let tiles = copy_tiles(&gen.intermediate());
    let start = gen.player_pos();
    let cheb = |x: i32, y: i32| (x - 10).abs().max((y - 7).abs());
    let d = cheb(start.x, start.y);
    for y in 0..15 {
        for x in 0..20 {
            if *tiles.get(x, y) == TileType::Floor || *tiles.get(x, y) == TileType::DownStairs {
                assert!(cheb(x, y) >= d);
            }
        }
    }
    for x in 0..20 {
        assert_eq!(*tiles.get(x, 0), TileType::Wall);
        assert_eq!(*tiles.get(x, 14), TileType::Wall);
    }
}
