//! The navigation-grid component: a walkability grid, how agents move on it,
//! and (for platformers) the platform graph built from it.
use vstd::prelude::*;
use crate::pathfinding::{GridNode, PathfindingGrid, PathfindingMode, cell_index};
use crate::platform::{PlatformGraph, fall_is_function, jump_is_function, edges_from};
use crate::render::Tilemap;

verus! {

/// Navigation grid for pathfinding; any entity that holds one is a
/// pathfinding authority.
pub struct NavGridComponent {
    pub grid: PathfindingGrid,
    pub mode: PathfindingMode,
    /// Pre-built platform graph (only `Some` in platformer mode).
    pub platform_graph: Option<PlatformGraph>,
    /// The platform graph is stale and needs `rebuild_platform_graph()`.
    pub graph_dirty: bool,
}

/// The built graph is the platform graph of `grid` for these moves.
pub open spec fn is_platform_graph_of<F: Fn(i32, i32) -> Option<(i32, i32)>, J: Fn(i32, i32, i32) -> Vec<(i32, i32)>>(
    graph: PlatformGraph,
    grid: &PathfindingGrid,
    max_jump_range: i32,
    fall: F,
    jump: J,
) -> bool {
    &&& graph.wf()
    &&& graph.nodes_of(grid)
    &&& graph.edge_lists().len() == graph.node_list().len()
    &&& forall|s: int| 0 <= s < graph.node_list().len() ==> #[trigger] graph.edge_lists()[s]
        == edges_from(grid, graph.index_of(), fall, jump, max_jump_range as int, graph.node_list()[s], s as usize)
}

/// Tile `t` blocks its cell: it is not empty and its tileset index
/// (`id - 1`) is among `blocked`.
pub open spec fn tile_blocks(t: crate::render::Tile, blocked: Seq<u32>) -> bool {
    t.id != 0 && blocked.contains((t.id - 1) as u32)
}

impl NavGridComponent {
    /// A top-down 8-directional nav grid of `width` x `height` walkable cells.
    pub fn new_topdown(width: usize, height: usize) -> (c: Self)
        requires
            width * height <= usize::MAX,
            width <= i32::MAX,
            height <= i32::MAX,
        ensures
            c.grid.wf(),
            c.grid.width_spec() == width,
            c.grid.height_spec() == height,
            forall|i: int| 0 <= i < c.grid.cells().len() ==> #[trigger] c.grid.cells()[i],
            c.mode == PathfindingMode::TopDown8,
            c.platform_graph is None,
            !c.graph_dirty,
    {
        NavGridComponent { grid: PathfindingGrid::new(width, height), mode: PathfindingMode::TopDown8, platform_graph: None, graph_dirty: false }
    }

    /// A top-down 4-directional nav grid of `width` x `height` walkable cells.
    pub fn new_topdown4(width: usize, height: usize) -> (c: Self)
        requires
            width * height <= usize::MAX,
            width <= i32::MAX,
            height <= i32::MAX,
        ensures
            c.grid.wf(),
            c.grid.width_spec() == width,
            c.grid.height_spec() == height,
            forall|i: int| 0 <= i < c.grid.cells().len() ==> #[trigger] c.grid.cells()[i],
            c.mode == PathfindingMode::TopDown4,
            c.platform_graph is None,
            !c.graph_dirty,
    {
        NavGridComponent { grid: PathfindingGrid::new(width, height), mode: PathfindingMode::TopDown4, platform_graph: None, graph_dirty: false }
    }

    /// A platformer nav grid of `width` x `height` walkable cells, with its
    /// platform graph built (see `PlatformGraph::build`).
    pub fn new_platformer<F: Fn(i32, i32) -> Option<(i32, i32)>, J: Fn(i32, i32, i32) -> Vec<(i32, i32)>>(
        width: usize,
        height: usize,
        max_jump_range: i32,
        fall: F,
        jump: J,
    ) -> (c: Self)
        requires
            width * height <= usize::MAX,
            width <= i32::MAX,
            height <= i32::MAX,
            -i32::MAX <= max_jump_range <= i32::MAX - 30,
            forall|x: i32, y: i32| call_requires(fall, (x, y)),
            forall|x: i32, y: i32, dx: i32| call_requires(jump, (x, y, dx)),
            fall_is_function(fall),
            jump_is_function(jump),
        ensures
            c.grid.wf(),
            c.grid.width_spec() == width,
            c.grid.height_spec() == height,
            forall|i: int| 0 <= i < c.grid.cells().len() ==> #[trigger] c.grid.cells()[i],
            c.mode == PathfindingMode::Platformer,
            c.platform_graph matches Some(g) && is_platform_graph_of(g, &c.grid, max_jump_range, fall, jump),
            !c.graph_dirty,
    {
        let mut c = NavGridComponent {
            grid: PathfindingGrid::new(width, height),
            mode: PathfindingMode::Platformer,
            platform_graph: None,
            graph_dirty: true,
        };
        c.rebuild_platform_graph(max_jump_range, fall, jump);
        c
    }

    /// (Re)build the platform graph from the current grid; nothing happens
    /// outside platformer mode.
    pub fn rebuild_platform_graph<F: Fn(i32, i32) -> Option<(i32, i32)>, J: Fn(i32, i32, i32) -> Vec<(i32, i32)>>(
        &mut self,
        max_jump_range: i32,
        fall: F,
        jump: J,
    )
        requires
            old(self).grid.wf(),
            -i32::MAX <= max_jump_range <= i32::MAX - 30,
            forall|x: i32, y: i32| call_requires(fall, (x, y)),
            forall|x: i32, y: i32, dx: i32| call_requires(jump, (x, y, dx)),
            fall_is_function(fall),
            jump_is_function(jump),
        ensures
            final(self).grid == old(self).grid,
            final(self).mode == old(self).mode,
            old(self).mode != PathfindingMode::Platformer ==> *final(self) == *old(self),
            old(self).mode == PathfindingMode::Platformer ==> {
                &&& final(self).platform_graph matches Some(g) && is_platform_graph_of(g, &old(self).grid, max_jump_range, fall, jump)
                &&& !final(self).graph_dirty
            },
    {
        if self.mode == PathfindingMode::Platformer {
            let g = PlatformGraph::build(&self.grid, max_jump_range, fall, jump);
            self.platform_graph = Some(g);
            self.graph_dirty = false;
        }
    }

    /// Mark the platform graph as needing a rebuild (platformer mode only).
    pub fn mark_dirty(&mut self)
        ensures
            final(self).grid == old(self).grid,
            final(self).mode == old(self).mode,
            final(self).platform_graph == old(self).platform_graph,
            final(self).graph_dirty == (old(self).graph_dirty || old(self).mode == PathfindingMode::Platformer),
    {
        if self.mode == PathfindingMode::Platformer {
            self.graph_dirty = true;
        }
    }

    /// Build walkability from a tile map: the grid takes the map's size and a
    /// cell is blocked exactly when its tile is not empty and the tile's
    /// tileset index (`id - 1`) is listed in `blocked_tile_indices`.
    pub fn build_from_tilemap(&mut self, tilemap: &Tilemap, blocked_tile_indices: &[u32])
        requires
            tilemap.wf(),
            tilemap.map_size.0 <= i32::MAX,
            tilemap.map_size.1 <= i32::MAX,
        ensures
            final(self).grid.wf(),
            final(self).grid.width_spec() == tilemap.map_size.0,
            final(self).grid.height_spec() == tilemap.map_size.1,
            forall|x: int, y: int| 0 <= x < tilemap.map_size.0 && 0 <= y < tilemap.map_size.1 ==>
                #[trigger] final(self).grid.walkable_at(x, y) == !tile_blocks(tilemap.tile_at(x, y), blocked_tile_indices@),
            final(self).mode == old(self).mode,
            final(self).platform_graph == old(self).platform_graph,
            final(self).graph_dirty == (old(self).graph_dirty || old(self).mode == PathfindingMode::Platformer),
    {
        let (cols, rows) = tilemap.map_size;
        let mut grid = PathfindingGrid::new(cols as usize, rows as usize);
        proof {
            grid.lemma_wf();
            assert forall|cx: int, cy: int| 0 <= cx < cols && 0 <= cy < rows implies #[trigger] grid.walkable_at(cx, cy) by {
                crate::pathfinding::lemma_cell_index(cols as int, rows as int, cx, cy);
                let i = cell_index(cols as int, cx, cy);
                assert(0 <= i < grid.cells().len());
                assert(grid.cells()[i]);
            }
        }
        let mut y: u32 = 0;
        while y < rows
            invariant
                tilemap.wf(),
                cols == tilemap.map_size.0,
                rows == tilemap.map_size.1,
                cols <= i32::MAX,
                rows <= i32::MAX,
                y <= rows,
                grid.wf(),
                grid.width_spec() == cols,
                grid.height_spec() == rows,
                forall|cx: int, cy: int| 0 <= cx < cols && 0 <= cy < rows ==> #[trigger] grid.walkable_at(cx, cy)
                    == (cy >= y || !tile_blocks(tilemap.tile_at(cx, cy), blocked_tile_indices@)),
            decreases rows - y,
        {
            let mut x: u32 = 0;
            while x < cols
                invariant
                    tilemap.wf(),
                    cols == tilemap.map_size.0,
                    rows == tilemap.map_size.1,
                    cols <= i32::MAX,
                    rows <= i32::MAX,
                    y < rows,
                    x <= cols,
                    grid.wf(),
                    grid.width_spec() == cols,
                    grid.height_spec() == rows,
                    forall|cx: int, cy: int| 0 <= cx < cols && 0 <= cy < rows ==> #[trigger] grid.walkable_at(cx, cy)
                        == (cy > y || (cy == y && cx >= x) || !tile_blocks(tilemap.tile_at(cx, cy), blocked_tile_indices@)),
                decreases cols - x,
            {
                if let Some(tile) = tilemap.get_tile(x, y) {
                    if !tile.is_empty() && slice_contains(blocked_tile_indices, tile.id - 1) {
                        let ghost before = grid;
                        let node = GridNode::new(x as i32, y as i32);
                        assert(node.x as int == x && node.y as int == y);
                        grid.set_walkable(node, false);
                        proof {
                            assert(tile_blocks(tilemap.tile_at(x as int, y as int), blocked_tile_indices@));
                            assert forall|cx: int, cy: int| 0 <= cx < cols && 0 <= cy < rows implies #[trigger] grid.walkable_at(cx, cy)
                                == (cy > y || (cy == y && cx >= x + 1) || !tile_blocks(tilemap.tile_at(cx, cy), blocked_tile_indices@)) by {
                                lemma_set_cell(before, grid, x as int, y as int, false, cx, cy);
                            }
                        }
                    }
                }
                x = x + 1;
            }
            y = y + 1;
        }
        self.grid = grid;
        self.mark_dirty();
    }

    /// Build walkability from a blocking test: each cell (x, y) is walkable
    /// exactly when `blocked(x, y)` says it is not blocked.
    pub fn build_from_blocked<B: Fn(i32, i32) -> bool>(&mut self, blocked: B)
        requires
            old(self).grid.wf(),
            forall|x: i32, y: i32| call_requires(blocked, (x, y)),
        ensures
            final(self).grid.wf(),
            final(self).grid.width_spec() == old(self).grid.width_spec(),
            final(self).grid.height_spec() == old(self).grid.height_spec(),
            forall|x: int, y: int| 0 <= x < final(self).grid.width_spec() && 0 <= y < final(self).grid.height_spec() ==>
                call_ensures(blocked, (x as i32, y as i32), !#[trigger] final(self).grid.walkable_at(x, y)),
            final(self).mode == old(self).mode,
            final(self).platform_graph == old(self).platform_graph,
            final(self).graph_dirty == (old(self).graph_dirty || old(self).mode == PathfindingMode::Platformer),
    {
        let ghost w0 = self.grid.width_spec();
        let ghost h0 = self.grid.height_spec();
        proof {
            self.grid.lemma_wf();
        }
        let hi = self.grid.height() as i32;
        let wi = self.grid.width() as i32;
        let mut y: i32 = 0;
        while y < hi
            invariant
                self.grid.wf(),
                self.grid.width_spec() == w0,
                self.grid.height_spec() == h0,
                wi == w0,
                hi == h0,
                0 <= y <= hi,
                forall|x: i32, y: i32| call_requires(blocked, (x, y)),
                forall|cx: int, cy: int| 0 <= cx < wi && 0 <= cy < y ==>
                    call_ensures(blocked, (cx as i32, cy as i32), !#[trigger] self.grid.walkable_at(cx, cy)),
                self.mode == old(self).mode,
                self.platform_graph == old(self).platform_graph,
                self.graph_dirty == old(self).graph_dirty,
            decreases hi - y,
        {
            let mut x: i32 = 0;
            while x < wi
                invariant
                    self.grid.wf(),
                    self.grid.width_spec() == w0,
                    self.grid.height_spec() == h0,
                    wi == w0,
                    hi == h0,
                    0 <= y < hi,
                    0 <= x <= wi,
                    forall|x: i32, y: i32| call_requires(blocked, (x, y)),
                    forall|cx: int, cy: int| 0 <= cx < wi && 0 <= cy < hi && (cy < y || (cy == y && cx < x)) ==>
                        call_ensures(blocked, (cx as i32, cy as i32), !#[trigger] self.grid.walkable_at(cx, cy)),
                    self.mode == old(self).mode,
                    self.platform_graph == old(self).platform_graph,
                    self.graph_dirty == old(self).graph_dirty,
                decreases wi - x,
            {
                let b = blocked(x, y);
                let ghost before = self.grid;
                self.grid.set_walkable(GridNode::new(x, y), !b);
                proof {
                    assert forall|cx: int, cy: int| 0 <= cx < wi && 0 <= cy < hi && (cy < y || (cy == y && cx < x + 1)) implies
                        call_ensures(blocked, (cx as i32, cy as i32), !#[trigger] self.grid.walkable_at(cx, cy)) by {
                        lemma_set_cell(before, self.grid, x as int, y as int, !b, cx, cy);
                        if cx != x || cy != y {
                            assert(call_ensures(blocked, (cx as i32, cy as i32), !before.walkable_at(cx, cy)));
                        }
                    }
                }
                x = x + 1;
            }
            y = y + 1;
        }
        self.mark_dirty();
    }
}

/// Setting one cell changes the walkability of that cell only.
proof fn lemma_set_cell(before: PathfindingGrid, after: PathfindingGrid, x: int, y: int, v: bool, cx: int, cy: int)
    requires
        before.wf(),
        after.width_spec() == before.width_spec(),
        after.height_spec() == before.height_spec(),
        before.valid(x, y),
        before.valid(cx, cy),
        after.cells() == before.cells().update(cell_index(before.width_spec() as int, x, y), v),
    ensures
        after.walkable_at(cx, cy) == (if cx == x && cy == y { v } else { before.walkable_at(cx, cy) }),
{
    let w = before.width_spec() as int;
    let h = before.height_spec() as int;
    before.lemma_wf();
    crate::pathfinding::lemma_cell_index(w, h, cx, cy);
    crate::pathfinding::lemma_cell_index(w, h, x, y);
    if cx != x || cy != y {
        if cell_index(w, cx, cy) == cell_index(w, x, y) {
            crate::pathfinding::lemma_cell_index_injective(w, cx, cy, x, y);
        }
    }
}

/// Whether `s` holds `v`.
fn slice_contains(s: &[u32], v: u32) -> (b: bool)
    ensures
        b == s@.contains(v),
{
    let mut i: usize = 0;
    while i < s.len()
        invariant
            i <= s@.len(),
            forall|j: int| 0 <= j < i ==> s@[j] != v,
        decreases s@.len() - i,
    {
        if s[i] == v {
            return true;
        }
        i = i + 1;
    }
    false
}

} // verus!
