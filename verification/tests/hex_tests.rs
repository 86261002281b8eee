use hex_tactics::hex::{hex_count, Direction, Hex};
use hex_tactics::hex_grid::HexGrid;

#[test]
fn cube_constraint() {
    let h = Hex::axial(3, -1);
    assert_eq!(h.s, -2);
    assert_eq!(h.q + h.r + h.s, 0);
}

#[test]
fn distance_and_length() {
    let a = Hex::axial(0, 0);
    let b = Hex::axial(3, -1);
    assert_eq!(a.distance(b), 3);
    assert_eq!(b.length(), 3);
}

#[test]
fn neighbors_count() {
    let h = Hex::origin();
    assert_eq!(h.neighbors().len(), 6);
    for n in h.neighbors() {
        assert_eq!(h.distance(n), 1);
    }
}

#[test]
fn ring_sizes() {
    let center = Hex::origin();
    assert_eq!(center.ring(0).len(), 0);
    assert_eq!(center.ring(1).len(), 6);
    assert_eq!(center.ring(2).len(), 12);
    assert_eq!(center.ring(3).len(), 18);
}

#[test]
fn spiral_size() {
    let center = Hex::origin();
    assert_eq!(center.spiral(0).len(), 1);
    assert_eq!(center.spiral(1).len(), 7);
    assert_eq!(center.spiral(2).len(), 19);
}

#[test]
fn hex_count_formula() {
    assert_eq!(hex_count(0), 1);
    assert_eq!(hex_count(1), 7);
    assert_eq!(hex_count(2), 19);
    assert_eq!(hex_count(3), 37);
}

#[test]
fn grid_bounds() {
    let grid: HexGrid<()> = HexGrid::new(2);
    assert_eq!(grid.len(), 19);
    assert!(grid.contains(Hex::origin()));
    assert!(grid.contains(Hex::axial(2, 0)));
    assert!(!grid.contains(Hex::axial(3, 0)));
}

#[test]
fn grid_insert_get() {
    let mut grid = HexGrid::new(2);
    assert!(grid.insert(Hex::origin(), 42).is_none());
    assert_eq!(grid.get(Hex::origin()), Some(&42));
    assert!(grid.insert(Hex::axial(5, 0), 99).is_none()); // out of bounds
    assert_eq!(grid.get(Hex::axial(5, 0)), None);
}

#[test]
fn grid_neighbors_at_edge() {
    let grid: HexGrid<()> = HexGrid::new(1);
    // edge hex has fewer in-bounds neighbors than center
    let edge_neighbors = grid.neighbors(Hex::axial(1, 0));
    assert!(edge_neighbors.len() < 6);
    // center always has all 6 (for radius >= 1)
    let center_neighbors = grid.neighbors(Hex::origin());
    assert_eq!(center_neighbors.len(), 6);
}

#[test]
fn direction_opposite() {
    assert_eq!(Direction::E.opposite(), Direction::W);
    assert_eq!(Direction::NE.opposite(), Direction::SW);
    assert_eq!(Direction::NW.opposite(), Direction::SE);
}

#[test]
fn astar_straight_path() {
    let grid: HexGrid<()> = HexGrid::new(3);
    let start = Hex::axial(-2, 0);
    let goal = Hex::axial(2, 0);
    let path = grid.astar(start, goal, |_| true).unwrap();
    assert_eq!(path.first(), Some(&start));
    assert_eq!(path.last(), Some(&goal));
    assert_eq!(path.len(), 5); // distance is 4, path has 5 nodes
}

#[test]
fn astar_same_start_and_goal() {
    let grid: HexGrid<()> = HexGrid::new(2);
    let path = grid.astar(Hex::origin(), Hex::origin(), |_| true).unwrap();
    assert_eq!(path, vec![Hex::origin()]);
}

#[test]
fn astar_blocked() {
    let grid: HexGrid<()> = HexGrid::new(2);
    let start = Hex::axial(-2, 0);
    let goal = Hex::axial(2, 0);
    // block everything — no path possible
    let path = grid.astar(start, goal, |_| false);
    assert!(path.is_none());
}

#[test]
fn astar_around_obstacle() {
    let grid: HexGrid<()> = HexGrid::new(3);
    let start = Hex::axial(-1, 0);
    let goal = Hex::axial(1, 0);
    let wall = Hex::origin();
    let path = grid.astar(start, goal, |h| h != wall).unwrap();
    assert!(!path.contains(&wall));
    assert_eq!(path.first(), Some(&start));
    assert_eq!(path.last(), Some(&goal));
}

#[test]
fn astar_out_of_bounds() {
    let grid: HexGrid<()> = HexGrid::new(1);
    let result = grid.astar(Hex::origin(), Hex::axial(5, 0), |_| true);
    assert!(result.is_none());
}

#[test]
fn hex_arithmetic() {
    let a = Hex::axial(2, -1);
    let b = Hex::axial(-1, 3);
    assert_eq!(a.add(b), Hex::axial(1, 2));
    assert_eq!(a.sub(b), Hex::axial(3, -4));
    assert_eq!(a.neg(), Hex::axial(-2, 1));
    assert_eq!(a.scale(3), Hex::axial(6, -3));
    assert_eq!(Hex::new(1, 2, -3), Hex::axial(1, 2));
}

#[test]
fn neighbor_then_opposite_returns() {
    let h = Hex::axial(3, -1);
    for d in Direction::all() {
        assert_eq!(d.opposite().opposite(), d);
        assert_ne!(d.opposite(), d);
        assert_eq!(h.neighbor(d).neighbor(d.opposite()), h);
    }
    // Near the edge of `i32` only the direction taken has to stay in range.
    let edge = Hex::axial(i32::MAX, -i32::MAX);
    assert_eq!(edge.neighbor(Direction::W).neighbor(Direction::E), edge);
}

#[test]
fn astar_never_asks_about_goal() {
    let grid: HexGrid<()> = HexGrid::new(3);
    let start = Hex::axial(-2, 0);
    let goal = Hex::axial(2, 0);
    let asked = std::cell::RefCell::new(Vec::new());
    let path = grid
        .astar(start, goal, |h| {
            asked.borrow_mut().push(h);
            true
        })
        .unwrap();
    assert_eq!(path.len(), 5);
    let asked = asked.into_inner();
    assert!(!asked.is_empty());
    assert!(!asked.contains(&goal));
    assert!(!asked.contains(&start));
    assert!(asked.iter().all(|&h| grid.contains(h)));
    for (i, h) in asked.iter().enumerate() {
        assert!(!asked[..i].contains(h));
    }
}

#[test]
fn astar_asks_nothing_without_a_search() {
    let grid: HexGrid<()> = HexGrid::new(2);
    let here = Hex::axial(1, 0);
    let same = grid.astar(here, here, |_: Hex| -> bool { panic!("asked") });
    assert_eq!(same, Some(vec![here]));
    let off = grid.astar(Hex::origin(), Hex::axial(5, 0), |_: Hex| -> bool { panic!("asked") });
    assert!(off.is_none());
}

#[test]
fn astar_ignores_endpoint_flags() {
    let grid: HexGrid<()> = HexGrid::new(3);
    let start = Hex::axial(-1, 0);
    let goal = Hex::axial(1, 0);
    let open = grid.astar(start, goal, |_| true).unwrap();
    let ends_blocked = grid.astar(start, goal, |h| h != start && h != goal).unwrap();
    assert_eq!(open.len(), 3);
    assert_eq!(ends_blocked, open);
}

#[test]
fn find_path_ignores_endpoint_flags() {
    let grid: HexGrid<()> = HexGrid::new(2);
    let start = Hex::axial(-2, 0);
    let goal = Hex::axial(2, 0);
    let cells = grid.positions();
    let all: Vec<bool> = vec![true; cells.len()];
    let ends_blocked: Vec<bool> = cells.iter().map(|&h| h != start && h != goal).collect();
    let a = grid.find_path(start, goal, &all).unwrap();
    let b = grid.find_path(start, goal, &ends_blocked).unwrap();
    assert_eq!(a.len(), 5);
    assert_eq!(b, a);
}
