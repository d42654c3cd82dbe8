use sindri::pathfinding::{GridNode, PathfindingGrid};
use sindri::platform::{EdgeKind, PlatformEdge, PlatformGraph, PlatformNode, PlatformPathfinder};

/// A 5x4 grid whose bottom row is solid but for a gap at x = 2.
fn gap_grid() -> PathfindingGrid {
    let mut g = PathfindingGrid::new(5, 4);
    for x in 0..5 {
        if x != 2 {
            g.set_walkable(GridNode::new(x, 3), false);
        }
    }
    g
}

fn build(grid: &PathfindingGrid, range: i32) -> PlatformGraph {
    let fall_grid = grid.clone();
    PlatformGraph::build(
        grid,
        range,
        move |x: i32, y: i32| {
            let mut yy = y;
            while fall_grid.is_walkable(&GridNode::new(x, yy + 1)) {
                yy += 1;
            }
            if fall_grid.is_walkable(&GridNode::new(x, yy)) { Some((x, yy)) } else { None }
        },
        |x: i32, y: i32, dx: i32| vec![(x + dx, y)],
    )
}

#[test]
fn ground_nodes_in_row_major_order() {
    let g = gap_grid();
    let graph = build(&g, 2);
    let cells: Vec<(i32, i32)> = graph.nodes.iter().map(|n| (n.grid_x, n.grid_y)).collect();
    assert_eq!(cells, vec![(0, 2), (1, 2), (3, 2), (4, 2), (2, 3)]);
    assert_eq!(graph.edges.len(), 5);
    assert_eq!(graph.node_index().get(GridNode::new(3, 2)), Some(&2));
    assert!(graph.node_index().get(GridNode::new(2, 2)).is_none());
}

#[test]
fn walk_fall_and_jump_edges() {
    let g = gap_grid();
    let graph = build(&g, 2);
    assert_eq!(
        graph.edges[1],
        vec![
            PlatformEdge { to: 0, kind: EdgeKind::Walk, cost: 10 },
            PlatformEdge { to: 4, kind: EdgeKind::Fall, cost: 20 },
            PlatformEdge { to: 0, kind: EdgeKind::Jump, cost: 31 },
            PlatformEdge { to: 2, kind: EdgeKind::Jump, cost: 32 },
        ]
    );
    // The node at the bottom of the gap has no way out.
    assert!(graph.edges[4].is_empty());
}

#[test]
fn jump_edges_are_not_duplicated() {
    let g = gap_grid();
    let graph = PlatformGraph::build(&g, 2, |_x: i32, _y: i32| None, |_x: i32, _y: i32, _dx: i32| vec![(4, 2), (4, 2)]);
    let jumps: Vec<&PlatformEdge> = graph.edges[0].iter().filter(|e| e.kind == EdgeKind::Jump).collect();
    // Offsets -2 and -1 come first, so the only jump edge costs 30 + 2.
    assert_eq!(jumps.len(), 1);
    assert_eq!(jumps[0].to, 3);
    assert_eq!(jumps[0].cost, 32);
    // No jump edge from a node to itself.
    assert!(graph.edges[3].iter().all(|e| !(e.kind == EdgeKind::Jump && e.to == 3)));
}

#[test]
fn no_jumps_without_range() {
    let g = gap_grid();
    let graph = build(&g, 0);
    assert!(graph.edges.iter().flatten().all(|e| e.kind != EdgeKind::Jump));
}

#[test]
fn nearest_node_cases() {
    let g = gap_grid();
    let graph = build(&g, 2);
    assert_eq!(graph.nearest_node(1, 2), Some(1));
    // Looking down from (2, 0): the first node met is (1, 2).
    assert_eq!(graph.nearest_node(2, 0), Some(1));
    // Far away: the closest node in straight-line distance.
    assert_eq!(graph.nearest_node(100, 100), Some(3));
    let empty = PlatformGraph::default();
    assert_eq!(empty.nearest_node(0, 0), None);
}

#[test]
fn find_path_over_the_gap() {
    let g = gap_grid();
    let graph = build(&g, 2);
    assert_eq!(PlatformPathfinder::find_path_nodes(&graph, 0, 3), Some(vec![0, 1, 2, 3]));
    assert_eq!(PlatformPathfinder::find_path_nodes(&graph, 2, 2), Some(vec![2]));
    // Nothing leaves the bottom of the gap.
    assert_eq!(PlatformPathfinder::find_path_nodes(&graph, 4, 0), None);
}

#[test]
fn find_path_between_cells() {
    let g = gap_grid();
    let graph = build(&g, 2);
    assert_eq!(PlatformPathfinder::find_path(&graph, GridNode::new(0, 0), GridNode::new(4, 0)), Some(vec![0, 1, 2]));
    assert_eq!(PlatformPathfinder::find_path(&graph, GridNode::new(1, 2), GridNode::new(1, 2)), Some(vec![1, 1]));
    let empty = PlatformGraph::default();
    assert_eq!(PlatformPathfinder::find_path(&empty, GridNode::new(0, 0), GridNode::new(1, 1)), None);
}

#[test]
fn platform_node_fields() {
    let n = PlatformNode { grid_x: 3, grid_y: 4 };
    assert_eq!(n.grid_x + n.grid_y, 7);
}
