use dungeon_alg::fov::compute_fov;
use dungeon_alg::grid::Grid;
use dungeon_alg::irect::Point;
use dungeon_alg::map::{LevelMap, TileType};
use std::collections::HashSet;

fn level(w: i32, h: i32, walls: &[(i32, i32)]) -> LevelMap {
    let mut tiles = Grid::new(w, h, TileType::Floor);
    for (x, y) in walls {
        tiles.set(*x, *y, TileType::Wall);
    }
    LevelMap::from_grid(tiles, 1)
}

#[test]
fn open_five_by_five_sees_every_cell_once() {
    let map = level(5, 5, &[]);
    let seen = compute_fov(Point::new(2, 2), 10, &map);
    assert_eq!(seen.len(), 25);
    let distinct: HashSet<(i32, i32)> = seen.iter().map(|p| (p.x, p.y)).collect();
    assert_eq!(distinct.len(), 25);
    assert_eq!(seen[0], Point::new(2, 2));
}

#[test]
fn fov_stays_within_range() {
    let map = level(31, 31, &[(10, 10), (20, 12), (15, 18)]);
    for range in [0, 1, 3, 7, 12] {
        let seen = compute_fov(Point::new(15, 15), range, &map);
        for p in &seen {
            let (dx, dy) = (p.x - 15, p.y - 15);
            assert!(dx * dx + dy * dy <= range * range, "{:?} at range {}", p, range);
        }
    }
}

#[test]
fn range_zero_sees_only_origin() {
    let map = level(5, 5, &[]);
    assert_eq!(compute_fov(Point::new(1, 3), 0, &map), vec![Point::new(1, 3)]);
}

#[test]
fn wall_hides_cells_behind_it() {
    let walls: Vec<(i32, i32)> = (0..9).map(|y| (4, y)).collect();
    let map = level(9, 9, &walls);
    let seen: HashSet<(i32, i32)> = compute_fov(Point::new(2, 4), 8, &map).iter().map(|p| (p.x, p.y)).collect();
    assert!(seen.contains(&(4, 4)));
    assert!(seen.contains(&(3, 4)));
    for y in 0..9 {
        assert!(!seen.contains(&(5, y)));
        assert!(!seen.contains(&(7, y)));
    }
}

#[test]
fn fov_is_symmetric_between_floor_cells() {
    let walls = [(3, 3), (4, 3), (7, 5), (8, 8), (2, 7), (6, 1)];
    let map = level(11, 11, &walls);
    let floor: Vec<(i32, i32)> = (0..11)
        .flat_map(|y| (0..11).map(move |x| (x, y)))
        .filter(|c| !walls.contains(c))
        .collect();
    let views: Vec<HashSet<(i32, i32)>> = floor
        .iter()
        .map(|&(x, y)| compute_fov(Point::new(x, y), 20, &map).iter().map(|p| (p.x, p.y)).collect())
        .collect();
    for (i, a) in floor.iter().enumerate() {
        for (j, b) in floor.iter().enumerate() {
            assert_eq!(views[i].contains(b), views[j].contains(a), "{:?} and {:?}", a, b);
        }
    }
}

#[test]
fn neighbours_are_seen_even_when_walled_in() {
    let walls = [(1, 1), (2, 1), (3, 1), (1, 2), (3, 2), (1, 3), (2, 3), (3, 3)];
    let map = level(5, 5, &walls);
    let seen: HashSet<(i32, i32)> = compute_fov(Point::new(2, 2), 2, &map).iter().map(|p| (p.x, p.y)).collect();
    for w in walls.iter() {
        assert!(seen.contains(w));
    }
    assert_eq!(seen.len(), 9);
    assert_eq!(compute_fov(Point::new(2, 2), 1, &map), vec![Point::new(2, 2)]);
}

#[test]
fn open_disc_is_seen_whole() {
    let map = level(21, 21, &[]);
    let seen: HashSet<(i32, i32)> = compute_fov(Point::new(10, 10), 7, &map).iter().map(|p| (p.x, p.y)).collect();
    for y in 0..21 {
        for x in 0..21 {
            let (dx, dy): (i32, i32) = (x - 10, y - 10);
            if dx * dx + dy * dy <= 49 && dx.abs() < 7 && dy.abs() < 7 {
                assert!(seen.contains(&(x, y)), "({x}, {y})");
            }
        }
    }
}
