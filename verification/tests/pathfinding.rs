use sindri::pathfinding::{nearest_walkable, AStarPathfinder, reconstruct, CellMap, GridNode, PathfindingGrid, PathfindingMode};

fn n(x: i32, y: i32) -> GridNode {
    GridNode::new(x, y)
}

#[test]
fn grid_node_manhattan_distance() {
    assert_eq!(n(1, 2).manhattan_distance(&n(4, -2)), 7);
    assert_eq!(n(0, 0).manhattan_distance(&n(0, 0)), 0);
}

#[test]
fn new_grid_is_all_walkable_and_out_of_bounds_is_solid() {
    let g = PathfindingGrid::new(3, 2);
    assert_eq!(g.width(), 3);
    assert_eq!(g.height(), 2);
    assert!(g.is_walkable(&n(2, 1)));
    assert!(!g.is_walkable(&n(3, 0)));
    assert!(g.is_solid(&n(-1, 0)));
    assert!(!g.is_valid(&n(0, 2)));
    assert!(g.is_valid(&n(0, 1)));
    assert_eq!(g.walkable_slice().len(), 6);
}

#[test]
fn set_walkable_and_area() {
    let mut g = PathfindingGrid::new(4, 4);
    g.set_walkable(n(1, 1), false);
    assert!(g.is_solid(&n(1, 1)));
    g.set_walkable(n(9, 9), false);
    g.set_area_walkable(2, 2, 5, 5, false);
    assert!(g.is_solid(&n(3, 3)));
    assert!(g.is_solid(&n(2, 3)));
    assert!(g.is_walkable(&n(1, 2)));
    g.fill(true);
    assert!(g.walkable_slice().iter().all(|w| *w));
}

#[test]
fn neighbors_avoid_corner_cutting() {
    let mut g = PathfindingGrid::new(3, 3);
    g.set_walkable(n(1, 0), false);
    let nb8 = g.get_neighbors(&n(1, 1), PathfindingMode::TopDown8);
    // (0,-1) blocked, so the two upper diagonals are cut.
    assert_eq!(nb8, vec![n(0, 1), n(2, 1), n(0, 2), n(1, 2), n(2, 2)]);
    let nb4 = g.get_neighbors(&n(1, 1), PathfindingMode::TopDown4);
    assert_eq!(nb4, vec![n(2, 1), n(1, 2), n(0, 1)]);
}

#[test]
fn find_path_straight_line() {
    let g = PathfindingGrid::new(5, 1);
    let p = AStarPathfinder::find_path_grid(&g, n(0, 0), n(4, 0), PathfindingMode::TopDown8).unwrap();
    assert_eq!(p, vec![n(0, 0), n(1, 0), n(2, 0), n(3, 0), n(4, 0)]);
}

#[test]
fn find_path_same_cell() {
    let g = PathfindingGrid::new(2, 2);
    assert_eq!(AStarPathfinder::find_path_grid(&g, n(1, 1), n(1, 1), PathfindingMode::TopDown4), Some(vec![n(1, 1)]));
}

#[test]
fn find_path_around_wall() {
    let mut g = PathfindingGrid::new(3, 3);
    g.set_walkable(n(1, 0), false);
    g.set_walkable(n(1, 1), false);
    let p = AStarPathfinder::find_path_grid(&g, n(0, 0), n(2, 0), PathfindingMode::TopDown4).unwrap();
    assert_eq!(p.first(), Some(&n(0, 0)));
    assert_eq!(p.last(), Some(&n(2, 0)));
    assert_eq!(p.len(), 7);
    for w in p.windows(2) {
        assert_eq!(w[0].manhattan_distance(&w[1]), 1);
        assert!(g.is_walkable(&w[1]));
    }
}

#[test]
fn find_path_none_when_blocked_or_unwalkable() {
    let mut g = PathfindingGrid::new(3, 1);
    g.set_walkable(n(1, 0), false);
    assert_eq!(AStarPathfinder::find_path_grid(&g, n(0, 0), n(2, 0), PathfindingMode::TopDown8), None);
    assert_eq!(AStarPathfinder::find_path_grid(&g, n(1, 0), n(2, 0), PathfindingMode::TopDown8), None);
    assert_eq!(AStarPathfinder::find_path_grid(&g, n(0, 0), n(5, 0), PathfindingMode::TopDown8), None);
}

#[test]
fn nearest_walkable_search() {
    let mut g = PathfindingGrid::new(3, 3);
    assert_eq!(nearest_walkable(&g, n(1, 1)), Some(n(1, 1)));
    g.set_walkable(n(1, 1), false);
    // Left neighbor is the first direction searched.
    assert_eq!(nearest_walkable(&g, n(1, 1)), Some(n(0, 1)));
    g.fill(false);
    assert_eq!(nearest_walkable(&g, n(1, 1)), None);
}

#[test]
fn reconstruct_follows_links() {
    let mut came: CellMap<GridNode> = CellMap::new(3, 1);
    came.insert(n(1, 0), n(0, 0));
    came.insert(n(2, 0), n(1, 0));
    assert_eq!(reconstruct(&came, n(0, 0), n(2, 0)), vec![n(0, 0), n(1, 0), n(2, 0)]);
    assert_eq!(came.get(n(2, 0)), Some(&n(1, 0)));
    assert!(came.get(n(0, 0)).is_none());
    assert!(came.is_in_bounds(n(2, 0)));
    assert!(!came.is_in_bounds(n(3, 0)));
}

#[test]
fn pathfinding_mode_default_is_topdown8() {
    assert_eq!(PathfindingMode::default(), PathfindingMode::TopDown8);
}

fn path_cost(p: &[GridNode]) -> i32 {
    let mut c = 0;
    for w in p.windows(2) {
        let diagonal = (w[1].x - w[0].x).abs() == 1 && (w[1].y - w[0].y).abs() == 1;
        c += if diagonal { 14 } else { 10 };
    }
    c
}

#[test]
fn find_path_is_cheapest() {
    let g = PathfindingGrid::new(6, 6);
    let p = AStarPathfinder::find_path_grid(&g, n(0, 0), n(4, 4), PathfindingMode::TopDown8).unwrap();
    assert_eq!(path_cost(&p), 56);
    assert_eq!(p.len(), 5);
    let q = AStarPathfinder::find_path_grid(&g, n(0, 0), n(3, 2), PathfindingMode::TopDown4).unwrap();
    assert_eq!(path_cost(&q), 50);
    let mut h = PathfindingGrid::new(5, 5);
    h.set_area_walkable(2, 0, 1, 4, false);
    let r = AStarPathfinder::find_path_grid(&h, n(0, 0), n(4, 0), PathfindingMode::TopDown8).unwrap();
    // around the wall through its only gap at (2, 4): 44 + 10 + 10 + 44
    assert_eq!(path_cost(&r), 108);
    assert!(r.contains(&n(2, 4)));
}

#[test]
fn nearest_walkable_finds_far_cell_in_small_grid() {
    let mut g = PathfindingGrid::new(16, 16);
    g.fill(false);
    assert_eq!(nearest_walkable(&g, n(0, 0)), None);
    g.set_walkable(n(15, 15), true);
    assert_eq!(nearest_walkable(&g, n(0, 0)), Some(n(15, 15)));
}

#[test]
fn find_path_moves_blocked_ends_to_nearest_walkable_cells() {
    let mut g = PathfindingGrid::new(5, 1);
    g.set_walkable(n(0, 0), false);
    g.set_walkable(n(4, 0), false);
    let p = AStarPathfinder::find_path(&g, n(0, 0), n(4, 0), PathfindingMode::TopDown4).unwrap();
    assert_eq!(p, vec![n(1, 0), n(2, 0), n(3, 0)]);
    // Walkable ends are kept as they are.
    let q = AStarPathfinder::find_path(&g, n(2, 0), n(3, 0), PathfindingMode::TopDown4).unwrap();
    assert_eq!(q, vec![n(2, 0), n(3, 0)]);
}

#[test]
fn nearest_walkable_takes_a_cell_at_the_least_king_distance() {
    let mut g = PathfindingGrid::new(5, 5);
    g.fill(false);
    g.set_walkable(n(4, 4), true);
    g.set_walkable(n(0, 3), true);
    // (0, 3) and (4, 4) are both 2 king moves from (2, 2); the search
    // reaches (0, 3) first.
    assert_eq!(nearest_walkable(&g, n(2, 2)), Some(n(0, 3)));
    g.set_walkable(n(3, 3), true);
    assert_eq!(nearest_walkable(&g, n(2, 2)), Some(n(3, 3)));
}

#[test]
fn find_path_snaps_a_start_several_cells_from_open_ground() {
    let mut g = PathfindingGrid::new(20, 20);
    g.fill(false);
    g.set_walkable(n(13, 10), true);
    g.set_walkable(n(14, 10), true);
    g.set_walkable(n(15, 10), true);
    assert_eq!(nearest_walkable(&g, n(10, 10)), Some(n(13, 10)));
    let p = AStarPathfinder::find_path(&g, n(10, 10), n(15, 10), PathfindingMode::TopDown4).unwrap();
    assert_eq!(p, vec![n(13, 10), n(14, 10), n(15, 10)]);
}
