use sindri::grid::{Grid, GridCoord, GridPathfinding};

fn c(x: i32, y: i32) -> GridCoord {
    GridCoord::new(x, y)
}

#[test]
fn grid_coord_manhattan() {
    assert_eq!(c(0, 0).manhattan_distance(&c(3, -4)), 7);
}

#[test]
fn new_get_set() {
    let mut g = Grid::new(3, 2, 0u8);
    assert_eq!(g.width(), 3);
    assert_eq!(g.height(), 2);
    assert_eq!(g.get(c(2, 1)), Some(&0));
    assert!(g.set(c(2, 1), 5));
    assert_eq!(g.get(c(2, 1)), Some(&5));
    assert!(!g.set(c(3, 0), 1));
    assert_eq!(g.get(c(-1, 0)), None);
    if let Some(v) = g.get_mut(c(0, 0)) {
        *v = 9;
    }
    assert_eq!(g.get(c(0, 0)), Some(&9));
    assert!(g.is_valid(&c(0, 1)));
    assert!(!g.is_valid(&c(0, 2)));
}

#[test]
fn neighbors_in_scan_order() {
    let g = Grid::new(3, 3, ());
    assert_eq!(g.neighbors_4(&c(1, 1)), vec![c(1, 0), c(2, 1), c(1, 2), c(0, 1)]);
    assert_eq!(g.neighbors_4(&c(0, 0)), vec![c(1, 0), c(0, 1)]);
    assert_eq!(g.neighbors_8(&c(0, 0)), vec![c(1, 0), c(0, 1), c(1, 1)]);
    assert_eq!(g.neighbors_8(&c(1, 1)).len(), 8);
}

#[test]
fn iteration_is_row_major() {
    let mut g = Grid::new(2, 2, 0i32);
    g.set(c(1, 0), 1);
    g.set(c(0, 1), 2);
    assert_eq!(g.iter_coords(), vec![c(0, 0), c(1, 0), c(0, 1), c(1, 1)]);
    let idx = g.iter_mut_indices();
    assert_eq!(idx[3], (c(1, 1), 3));
    let cells: Vec<(GridCoord, i32)> = g.iter().into_iter().map(|(k, v)| (k, *v)).collect();
    assert_eq!(cells, vec![(c(0, 0), 0), (c(1, 0), 1), (c(0, 1), 2), (c(1, 1), 0)]);
}

#[test]
fn bool_grid_walkability() {
    let mut g = Grid::new(2, 1, true);
    g.set(c(1, 0), false);
    assert!(g.walkable(&c(0, 0)));
    assert!(!g.walkable(&c(1, 0)));
    assert!(!g.walkable(&c(2, 0)));
    assert!(GridPathfinding::is_walkable(&g, &c(0, 0)));
    assert!(!GridPathfinding::is_walkable(&g, &c(-1, 0)));
}
