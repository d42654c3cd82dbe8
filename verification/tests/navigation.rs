use sindri::navigation::NavGridComponent;
use sindri::pathfinding::{GridNode, PathfindingMode};
use sindri::render::{TextureHandle, Tilemap};

#[test]
fn topdown_grids_start_walkable() {
    let c = NavGridComponent::new_topdown(3, 2);
    assert_eq!(c.mode, PathfindingMode::TopDown8);
    assert!(c.grid.walkable_slice().iter().all(|w| *w));
    assert!(c.platform_graph.is_none());
    assert!(!c.graph_dirty);
    let c4 = NavGridComponent::new_topdown4(1, 1);
    assert_eq!(c4.mode, PathfindingMode::TopDown4);
}

#[test]
fn tilemap_blocks_listed_tiles() {
    let mut map = Tilemap::new(TextureHandle(1), (4, 4), (3, 2));
    map.set_tile(0, 0, 1); // tileset index 0
    map.set_tile(1, 0, 3); // tileset index 2
    map.set_tile(2, 1, 2); // tileset index 1
    let mut c = NavGridComponent::new_topdown(1, 1);
    c.build_from_tilemap(&map, &[0, 1]);
    assert_eq!((c.grid.width(), c.grid.height()), (3, 2));
    assert!(c.grid.is_solid(&GridNode::new(0, 0)));
    assert!(c.grid.is_walkable(&GridNode::new(1, 0)));
    assert!(c.grid.is_solid(&GridNode::new(2, 1)));
    assert!(c.grid.is_walkable(&GridNode::new(0, 1)));
    // Not a platformer: nothing becomes dirty.
    assert!(!c.graph_dirty);
}

#[test]
fn blocked_test_sets_walkability() {
    let mut c = NavGridComponent::new_topdown(3, 3);
    c.build_from_blocked(|x: i32, y: i32| x == y);
    assert!(c.grid.is_solid(&GridNode::new(1, 1)));
    assert!(c.grid.is_walkable(&GridNode::new(1, 0)));
}

#[test]
fn platformer_builds_graph_and_tracks_staleness() {
    let mut c = NavGridComponent::new_platformer(3, 2, 1, |_x: i32, _y: i32| None, |_x: i32, _y: i32, _dx: i32| Vec::new());
    assert_eq!(c.mode, PathfindingMode::Platformer);
    // Ground is the bottom row (the cells below it are out of bounds).
    assert_eq!(c.platform_graph.as_ref().unwrap().nodes.len(), 3);
    assert!(!c.graph_dirty);
    c.mark_dirty();
    assert!(c.graph_dirty);
    c.grid.set_walkable(GridNode::new(1, 1), false);
    c.rebuild_platform_graph(1, |_x: i32, _y: i32| None, |_x: i32, _y: i32, _dx: i32| Vec::new());
    assert!(!c.graph_dirty);
    // (1, 0) now stands on the blocked cell.
    assert_eq!(c.platform_graph.as_ref().unwrap().nodes.len(), 3);
}
