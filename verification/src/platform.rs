//! Platformer pathfinding: a reachability graph over the ground cells of a
//! walkability grid (walk, fall and jump moves), and A* search over it.
//!
//! The jump and fall arcs come from a physics simulation on floats; the graph
//! builder takes them as functions from cells to landing cells, so that all
//! the decisions made on cells are verified here.
use vstd::prelude::*;
use crate::pathfinding::{
    GridNode, CellMap, PathfindingGrid, abs_int, trail, trail_done, lemma_trail_shape, lemma_trail_done_mono,
    count_true, lemma_count_true_none, lemma_count_true_bound, lemma_count_true_set,
};

verus! {

/// A single node in the platform reachability graph.
#[derive(Clone, Copy, Debug, PartialEq, Eq, Structural)]
pub struct PlatformNode {
    pub grid_x: i32,
    pub grid_y: i32,
}

/// How two platform nodes are connected.
#[derive(Clone, Copy, Debug, PartialEq, Eq, Structural)]
pub enum EdgeKind {
    Walk,
    Fall,
    Jump,
}

/// A directed edge in the platform graph.
#[derive(Clone, Copy, Debug, PartialEq, Eq, Structural)]
pub struct PlatformEdge {
    pub to: usize,
    pub kind: EdgeKind,
    pub cost: i32,
}

/// Pre-computed reachability graph for platformer pathfinding.
///
/// Nodes are ground cells (a walkable cell whose cell below is solid or out
/// of bounds). Edges represent walk, fall and jump moves.
#[derive(Debug)]
pub struct PlatformGraph {
    pub nodes: Vec<PlatformNode>,
    node_index: CellMap<usize>,
    pub edges: Vec<Vec<PlatformEdge>>,
}

/// Cell (x, y) is walkable and the cell below it is not.
pub open spec fn is_ground(grid: &PathfindingGrid, x: int, y: int) -> bool {
    grid.walkable_at(x, y) && !grid.walkable_at(x, y + 1)
}

/// Cell `a` comes before cell `b` in row-major order.
pub open spec fn row_major_before(a: PlatformNode, b: PlatformNode) -> bool {
    a.grid_y < b.grid_y || (a.grid_y == b.grid_y && a.grid_x < b.grid_x)
}

pub open spec fn cell_of(n: PlatformNode) -> GridNode {
    GridNode { x: n.grid_x, y: n.grid_y }
}

/// `nodes` and `index` agree: the index maps each node's cell to its
/// position, and nothing else.
pub open spec fn index_agrees(nodes: Seq<PlatformNode>, index: Map<GridNode, usize>) -> bool {
    &&& forall|c: GridNode| #[trigger] index.contains_key(c) ==> index[c] < nodes.len() && cell_of(nodes[index[c] as int]) == c
    &&& forall|i: int| 0 <= i < nodes.len() ==> index.contains_key(#[trigger] cell_of(nodes[i]))
}

/// The nodes are ground cells of `grid` in strictly increasing row-major order.
pub open spec fn sorted_ground(grid: &PathfindingGrid, nodes: Seq<PlatformNode>) -> bool {
    &&& forall|i: int| 0 <= i < nodes.len() ==> is_ground(grid, #[trigger] nodes[i].grid_x as int, nodes[i].grid_y as int)
    &&& forall|i: int, j: int| 0 <= i < j < nodes.len() ==> row_major_before(#[trigger] nodes[i], #[trigger] nodes[j])
}

impl PlatformGraph {
    /// Where each node's cell is found in `nodes`.
    pub closed spec fn index_of(&self) -> Map<GridNode, usize> {
        self.node_index.entries()
    }

    /// The nodes, in order.
    pub closed spec fn node_list(&self) -> Seq<PlatformNode> {
        self.nodes@
    }

    /// The outgoing edges of each node.
    pub closed spec fn edge_lists(&self) -> Seq<Seq<PlatformEdge>> {
        self.edges@.map_values(|v: Vec<PlatformEdge>| v@)
    }

    /// What a well-formed graph guarantees: the node index agrees with the
    /// node list, each node has its edge list, and every edge leads to a node.
    pub proof fn lemma_wf(&self)
        requires
            self.wf(),
        ensures
            index_agrees(self.node_list(), self.index_of()),
            self.edge_lists().len() == self.node_list().len(),
            forall|i: int, k: int| 0 <= i < self.edge_lists().len() && 0 <= k < self.edge_lists()[i].len()
                ==> #[trigger] self.edge_lists()[i][k].to < self.node_list().len(),
    {
        assert forall|i: int, k: int| 0 <= i < self.edge_lists().len() && 0 <= k < self.edge_lists()[i].len()
            implies #[trigger] self.edge_lists()[i][k].to < self.node_list().len() by {
            assert(self.edge_lists()[i] == self.edges@[i]@);
        }
    }

    pub closed spec fn wf(&self) -> bool {
        &&& self.node_index.wf()
        &&& index_agrees(self.nodes@, self.node_index.entries())
        &&& self.edges@.len() == self.nodes@.len()
        &&& forall|i: int, k: int| 0 <= i < self.edges@.len() && 0 <= k < self.edges@[i]@.len()
            ==> #[trigger] self.edges@[i]@[k].to < self.nodes@.len()
    }

    /// The nodes are exactly the ground cells of `grid`, in row-major order.
    pub open spec fn nodes_of(&self, grid: &PathfindingGrid) -> bool {
        &&& sorted_ground(grid, self.node_list())
        &&& forall|c: GridNode| #[trigger] self.index_of().contains_key(c) <==> is_ground(grid, c.x as int, c.y as int)
    }
}

/// Collect the ground cells of `grid` in row-major order, with their index.
fn collect_ground(grid: &PathfindingGrid) -> (r: (Vec<PlatformNode>, CellMap<usize>))
    requires
        grid.wf(),
    ensures
        r.1.wf(),
        r.1.width_spec() == grid.width_spec(),
        r.1.height_spec() == grid.height_spec(),
        index_agrees(r.0@, r.1.entries()),
        sorted_ground(grid, r.0@),
        forall|c: GridNode| #[trigger] r.1.entries().contains_key(c) <==> is_ground(grid, c.x as int, c.y as int),
{
    proof {
        grid.lemma_wf();
    }
    let n_cells = grid.walkable_slice().len();
    let w = grid.width();
    let h = grid.height();
    let mut nodes: Vec<PlatformNode> = Vec::new();
    let mut index: CellMap<usize> = CellMap::new(w, h);
    let wi = w as i32;
    let hi = h as i32;
    let mut y: i32 = 0;
    while y < hi
        invariant
            grid.wf(),
            wi == grid.width_spec(),
            hi == grid.height_spec(),
            0 <= y <= hi,
            index.wf(),
            index.width_spec() == grid.width_spec(),
            index.height_spec() == grid.height_spec(),
            index_agrees(nodes@, index.entries()),
            sorted_ground(grid, nodes@),
            forall|i: int| 0 <= i < nodes@.len() ==> #[trigger] nodes@[i].grid_y < y,
            forall|c: GridNode| #[trigger] index.entries().contains_key(c) <==> (is_ground(grid, c.x as int, c.y as int) && c.y < y),
        decreases hi - y,
    {
        let mut x: i32 = 0;
        while x < wi
            invariant
                grid.wf(),
                wi == grid.width_spec(),
                hi == grid.height_spec(),
                0 <= y < hi,
                0 <= x <= wi,
                index.wf(),
                index.width_spec() == grid.width_spec(),
                index.height_spec() == grid.height_spec(),
                index_agrees(nodes@, index.entries()),
                sorted_ground(grid, nodes@),
                forall|i: int| 0 <= i < nodes@.len() ==> row_major_before(#[trigger] nodes@[i], PlatformNode { grid_x: x, grid_y: y }),
                forall|c: GridNode| #[trigger] index.entries().contains_key(c) <==> (is_ground(grid, c.x as int, c.y as int)
                    && (c.y < y || (c.y == y && c.x < x))),
            decreases wi - x,
        {
            if grid.is_walkable(&GridNode::new(x, y)) && grid.is_solid(&GridNode::new(x, y + 1)) {
                let ghost before = nodes@;
                let ghost idx0 = index.entries();
                let i = nodes.len();
                let node = PlatformNode { grid_x: x, grid_y: y };
                nodes.push(node);
                index.insert(GridNode::new(x, y), i);
                proof {
                    let c_new = GridNode { x, y };
                    assert(cell_of(node) == c_new);
                    assert forall|c: GridNode| #[trigger] index.entries().contains_key(c) implies
                        index.entries()[c] < nodes@.len() && cell_of(nodes@[index.entries()[c] as int]) == c by {
                        if c != c_new {
                            assert(idx0.contains_key(c));
                        }
                    }
                    assert forall|k: int| 0 <= k < nodes@.len() implies index.entries().contains_key(#[trigger] cell_of(nodes@[k])) by {
                        if k < before.len() {
                            assert(idx0.contains_key(cell_of(before[k])));
                        }
                    }
                    assert forall|a: int, b: int| 0 <= a < b < nodes@.len() implies row_major_before(#[trigger] nodes@[a], #[trigger] nodes@[b]) by {
                        if b == before.len() {
                            assert(row_major_before(before[a], node));
                        }
                    }
                }
            }
            x = x + 1;
        }
        y = y + 1;
    }
    proof {
        assert forall|c: GridNode| #[trigger] index.entries().contains_key(c) <==> is_ground(grid, c.x as int, c.y as int) by {
            if is_ground(grid, c.x as int, c.y as int) {
                assert(c.y < hi);
            }
        }
    }
    (nodes, index)
}

/// The landing cell that `fall` gives for a fall starting at (x, y).
pub open spec fn fall_landing<F: Fn(i32, i32) -> Option<(i32, i32)>>(fall: F, x: i32, y: i32) -> Option<(i32, i32)> {
    choose|r: Option<(i32, i32)>| call_ensures(fall, (x, y), r)
}

/// The landing cells that `jump` gives for a jump from (x, y) that moves
/// `dx` cells sideways.
pub open spec fn jump_landings<J: Fn(i32, i32, i32) -> Vec<(i32, i32)>>(jump: J, x: i32, y: i32, dx: i32) -> Seq<(i32, i32)> {
    (choose|r: Vec<(i32, i32)>| call_ensures(jump, (x, y, dx), r))@
}

/// `fall` gives one answer for each cell.
pub open spec fn fall_is_function<F: Fn(i32, i32) -> Option<(i32, i32)>>(fall: F) -> bool {
    forall|x: i32, y: i32, r1: Option<(i32, i32)>, r2: Option<(i32, i32)>|
        #[trigger] call_ensures(fall, (x, y), r1) && #[trigger] call_ensures(fall, (x, y), r2) ==> r1 == r2
}

/// `jump` gives one answer for each cell and offset.
pub open spec fn jump_is_function<J: Fn(i32, i32, i32) -> Vec<(i32, i32)>>(jump: J) -> bool {
    forall|x: i32, y: i32, dx: i32, r1: Vec<(i32, i32)>, r2: Vec<(i32, i32)>|
        #[trigger] call_ensures(jump, (x, y, dx), r1) && #[trigger] call_ensures(jump, (x, y, dx), r2) ==> r1@ == r2@
}

proof fn lemma_fall_result<F: Fn(i32, i32) -> Option<(i32, i32)>>(fall: F, x: i32, y: i32, r: Option<(i32, i32)>)
    requires
        fall_is_function(fall),
        call_ensures(fall, (x, y), r),
    ensures
        fall_landing(fall, x, y) == r,
{
    let c = choose|c: Option<(i32, i32)>| call_ensures(fall, (x, y), c);
    assert(call_ensures(fall, (x, y), c));
}

proof fn lemma_jump_result<J: Fn(i32, i32, i32) -> Vec<(i32, i32)>>(jump: J, x: i32, y: i32, dx: i32, r: Vec<(i32, i32)>)
    requires
        jump_is_function(jump),
        call_ensures(jump, (x, y, dx), r),
    ensures
        jump_landings(jump, x, y, dx) == r@,
{
    let c = choose|c: Vec<(i32, i32)>| call_ensures(jump, (x, y, dx), c);
    assert(call_ensures(jump, (x, y, dx), c));
}

/// The walk or fall edge (if any) for a step `dx` to the side of (sx, sy):
/// a walk (cost 10) onto a neighboring ground cell, else, if that cell is
/// open air, a fall (cost 20) to where `fall` lands when that is ground.
pub open spec fn step_edge<F: Fn(i32, i32) -> Option<(i32, i32)>>(
    grid: &PathfindingGrid,
    index: Map<GridNode, usize>,
    fall: F,
    sx: i32,
    sy: i32,
    dx: i32,
) -> Seq<PlatformEdge> {
    let nx = (sx + dx) as i32;
    let c = GridNode { x: nx, y: sy };
    if index.contains_key(c) {
        seq![PlatformEdge { to: index[c], kind: EdgeKind::Walk, cost: 10 }]
    } else if grid.walkable_at(nx as int, sy as int) {
        match fall_landing(fall, nx, sy) {
            Some(l) => if index.contains_key(GridNode { x: l.0, y: l.1 }) {
                seq![PlatformEdge { to: index[GridNode { x: l.0, y: l.1 }], kind: EdgeKind::Fall, cost: 20 }]
            } else {
                Seq::empty()
            },
            None => Seq::empty(),
        }
    } else {
        Seq::empty()
    }
}

/// `acc` already holds a jump edge to node `dst`.
pub open spec fn has_jump_to(acc: Seq<PlatformEdge>, dst: usize) -> bool {
    exists|k: int| 0 <= k < acc.len() && (#[trigger] acc[k]).to == dst && acc[k].kind == EdgeKind::Jump
}

/// Add a jump edge from node `src` to the landing cell `t` of a jump `dx`
/// cells wide (cost 30 + |dx|), if `t` is a node other than `src` that
/// `acc` has no jump edge to yet.
pub open spec fn jump_add(index: Map<GridNode, usize>, src: usize, acc: Seq<PlatformEdge>, t: (i32, i32), dx: int) -> Seq<PlatformEdge> {
    let c = GridNode { x: t.0, y: t.1 };
    if index.contains_key(c) && index[c] != src && !has_jump_to(acc, index[c]) {
        acc.push(PlatformEdge { to: index[c], kind: EdgeKind::Jump, cost: (30 + abs_int(dx)) as i32 })
    } else {
        acc
    }
}

/// `jump_add` applied to the first `k` landing cells of `ts`, in order.
pub open spec fn jump_add_all(index: Map<GridNode, usize>, src: usize, acc: Seq<PlatformEdge>, ts: Seq<(i32, i32)>, dx: int, k: nat) -> Seq<PlatformEdge>
    decreases k,
{
    if k == 0 {
        acc
    } else {
        jump_add(index, src, jump_add_all(index, src, acc, ts, dx, (k - 1) as nat), ts[k - 1], dx)
    }
}

/// The jump edges for every offset in `lo..d` but 0, in increasing order
/// of the offset, added to `acc`.
pub open spec fn jump_edges<J: Fn(i32, i32, i32) -> Vec<(i32, i32)>>(
    index: Map<GridNode, usize>,
    jump: J,
    n: PlatformNode,
    src: usize,
    acc: Seq<PlatformEdge>,
    lo: int,
    d: int,
) -> Seq<PlatformEdge>
    decreases d - lo,
{
    if d <= lo {
        acc
    } else {
        let prev = jump_edges(index, jump, n, src, acc, lo, d - 1);
        if d - 1 == 0 {
            prev
        } else {
            let ts = jump_landings(jump, n.grid_x, n.grid_y, (d - 1) as i32);
            jump_add_all(index, src, prev, ts, d - 1, ts.len())
        }
    }
}

/// The outgoing edges of node `src` at cell `n`: the step to the left, the
/// step to the right, then the jumps for offsets -range..=range but 0.
pub open spec fn edges_from<F: Fn(i32, i32) -> Option<(i32, i32)>, J: Fn(i32, i32, i32) -> Vec<(i32, i32)>>(
    grid: &PathfindingGrid,
    index: Map<GridNode, usize>,
    fall: F,
    jump: J,
    range: int,
    n: PlatformNode,
    src: usize,
) -> Seq<PlatformEdge> {
    let steps = step_edge(grid, index, fall, n.grid_x, n.grid_y, -1i32) + step_edge(grid, index, fall, n.grid_x, n.grid_y, 1i32);
    jump_edges(index, jump, n, src, steps, -range, range + 1)
}

/// The edge (if any) for a step `dx` to the side of (sx, sy); see `step_edge`.
fn step_edge_exec<F: Fn(i32, i32) -> Option<(i32, i32)>>(
    grid: &PathfindingGrid,
    index: &CellMap<usize>,
    nodes: &Vec<PlatformNode>,
    sx: i32,
    sy: i32,
    dx: i32,
    fall: &F,
) -> (r: Option<PlatformEdge>)
    requires
        grid.wf(),
        index.wf(),
        index_agrees(nodes@, index.entries()),
        dx == -1 || dx == 1,
        0 <= sx < grid.width_spec(),
        forall|x: i32, y: i32| call_requires(*fall, (x, y)),
        fall_is_function(*fall),
    ensures
        (match r {
            Some(e) => seq![e],
            None => Seq::empty(),
        }) == step_edge(grid, index.entries(), *fall, sx, sy, dx),
        r matches Some(e) ==> e.to < nodes@.len(),
{
    proof {
        grid.lemma_wf();
    }
    let nx = sx + dx;
    let c = GridNode::new(nx, sy);
    match index.get(c) {
        Some(i) => {
            proof {
                assert(index.entries().contains_key(c));
            }
            return Some(PlatformEdge { to: *i, kind: EdgeKind::Walk, cost: 10 });
        },
        None => {},
    }
    if !grid.is_walkable(&c) {
        return None;
    }
    let landed = fall(nx, sy);
    proof {
        lemma_fall_result(*fall, nx, sy, landed);
    }
    match landed {
        Some(l) => {
            let lc = GridNode::new(l.0, l.1);
            match index.get(lc) {
                Some(i) => {
                    proof {
                        assert(index.entries().contains_key(lc));
                    }
                    Some(PlatformEdge { to: *i, kind: EdgeKind::Fall, cost: 20 })
                },
                None => None,
            }
        },
        None => None,
    }
}

/// Whether `acc` holds a jump edge to `dst`.
fn has_jump_exec(acc: &Vec<PlatformEdge>, dst: usize) -> (b: bool)
    ensures
        b == has_jump_to(acc@, dst),
{
    let mut k: usize = 0;
    while k < acc.len()
        invariant
            k <= acc@.len(),
            forall|j: int| 0 <= j < k ==> !((#[trigger] acc@[j]).to == dst && acc@[j].kind == EdgeKind::Jump),
        decreases acc@.len() - k,
    {
        if acc[k].to == dst && acc[k].kind == EdgeKind::Jump {
            return true;
        }
        k = k + 1;
    }
    false
}

/// Add the jump edges from node `src` to the landing cells `ts` of a jump
/// `dx` cells wide (see `jump_add`).
fn add_jumps(index: &CellMap<usize>, nodes: &Vec<PlatformNode>, src: usize, acc: &mut Vec<PlatformEdge>, ts: &Vec<(i32, i32)>, dx: i32)
    requires
        index.wf(),
        index_agrees(nodes@, index.entries()),
        -(i32::MAX - 30) <= dx <= i32::MAX - 30,
        forall|k: int| 0 <= k < old(acc)@.len() ==> (#[trigger] old(acc)@[k]).to < nodes@.len(),
    ensures
        final(acc)@ == jump_add_all(index.entries(), src, old(acc)@, ts@, dx as int, ts@.len()),
        forall|k: int| 0 <= k < final(acc)@.len() ==> (#[trigger] final(acc)@[k]).to < nodes@.len(),
{
    let cost: i32 = 30 + if dx < 0 { -dx } else { dx };
    let mut k: usize = 0;
    while k < ts.len()
        invariant
            index.wf(),
            index_agrees(nodes@, index.entries()),
            k <= ts@.len(),
            cost == 30 + abs_int(dx as int),
            acc@ == jump_add_all(index.entries(), src, old(acc)@, ts@, dx as int, k as nat),
            forall|j: int| 0 <= j < acc@.len() ==> (#[trigger] acc@[j]).to < nodes@.len(),
        decreases ts@.len() - k,
    {
        let t = ts[k];
        let c = GridNode::new(t.0, t.1);
        match index.get(c) {
            Some(i) => {
                let dst = *i;
                proof {
                    assert(index.entries().contains_key(c));
                }
                if dst != src && !has_jump_exec(acc, dst) {
                    acc.push(PlatformEdge { to: dst, kind: EdgeKind::Jump, cost });
                }
            },
            None => {},
        }
        k = k + 1;
    }
}

/// The outgoing edges of node `src` (see `edges_from`).
fn edges_for<F: Fn(i32, i32) -> Option<(i32, i32)>, J: Fn(i32, i32, i32) -> Vec<(i32, i32)>>(
    grid: &PathfindingGrid,
    index: &CellMap<usize>,
    nodes: &Vec<PlatformNode>,
    src: usize,
    range: i32,
    fall: &F,
    jump: &J,
) -> (r: Vec<PlatformEdge>)
    requires
        grid.wf(),
        index.wf(),
        index_agrees(nodes@, index.entries()),
        sorted_ground(grid, nodes@),
        src < nodes@.len(),
        -i32::MAX <= range <= i32::MAX - 30,
        forall|x: i32, y: i32| call_requires(*fall, (x, y)),
        forall|x: i32, y: i32, dx: i32| call_requires(*jump, (x, y, dx)),
        fall_is_function(*fall),
        jump_is_function(*jump),
    ensures
        r@ == edges_from(grid, index.entries(), *fall, *jump, range as int, nodes@[src as int], src),
        forall|k: int| 0 <= k < r@.len() ==> (#[trigger] r@[k]).to < nodes@.len(),
{
    let n = nodes[src];
    proof {
        assert(is_ground(grid, n.grid_x as int, n.grid_y as int));
    }
    let mut acc: Vec<PlatformEdge> = Vec::new();
    let left = step_edge_exec(grid, index, nodes, n.grid_x, n.grid_y, -1, fall);
    match left {
        Some(e) => {
            acc.push(e);
        },
        None => {},
    }
    let right = step_edge_exec(grid, index, nodes, n.grid_x, n.grid_y, 1, fall);
    match right {
        Some(e) => {
            acc.push(e);
        },
        None => {},
    }
    let ghost steps = acc@;
    proof {
        assert(steps == step_edge(grid, index.entries(), *fall, n.grid_x, n.grid_y, -1i32) + step_edge(grid, index.entries(), *fall, n.grid_x, n.grid_y, 1i32));
    }
    let lo: i32 = -range;
    let mut dx: i32 = lo;
    if lo <= range {
        while dx <= range
            invariant
                index.wf(),
                index_agrees(nodes@, index.entries()),
                -i32::MAX <= range <= i32::MAX - 30,
                lo == -range,
                lo <= dx <= range + 1,
                src < nodes@.len(),
                n == nodes@[src as int],
                forall|x: i32, y: i32, dx: i32| call_requires(*jump, (x, y, dx)),
                jump_is_function(*jump),
                acc@ == jump_edges(index.entries(), *jump, n, src, steps, lo as int, dx as int),
                forall|j: int| 0 <= j < acc@.len() ==> (#[trigger] acc@[j]).to < nodes@.len(),
            decreases range + 1 - dx,
        {
            if dx != 0 {
                let ts = jump(n.grid_x, n.grid_y, dx);
                proof {
                    lemma_jump_result(*jump, n.grid_x, n.grid_y, dx, ts);
                }
                add_jumps(index, nodes, src, &mut acc, &ts, dx);
            }
            dx = dx + 1;
        }
    }
    acc
}

impl PlatformGraph {
    /// Build a platform graph from a walkability grid.
    ///
    /// The nodes are the ground cells in row-major order. From each node,
    /// for a step to the left and then to the right: a walk edge (cost 10)
    /// onto a neighboring ground cell, or, where that cell is open air, a
    /// fall edge (cost 20) to the ground cell that `fall` lands on. Then, for
    /// each offset `dx` in `-max_jump_range..=max_jump_range` but 0, a jump
    /// edge (cost 30 + |dx|) to each ground cell among the landing cells of
    /// `jump` that is not the node itself and that no earlier jump edge of
    /// the node reaches.
    ///
    /// `fall(x, y)` gives the landing cell of a fall from (x, y), and
    /// `jump(x, y, dx)` the landing cells of a jump from (x, y) that moves
    /// `dx` cells sideways; each must give one answer for each input.
    pub fn build<F: Fn(i32, i32) -> Option<(i32, i32)>, J: Fn(i32, i32, i32) -> Vec<(i32, i32)>>(
        grid: &PathfindingGrid,
        max_jump_range: i32,
        fall: F,
        jump: J,
    ) -> (graph: Self)
        requires
            grid.wf(),
            -i32::MAX <= max_jump_range <= i32::MAX - 30,
            forall|x: i32, y: i32| call_requires(fall, (x, y)),
            forall|x: i32, y: i32, dx: i32| call_requires(jump, (x, y, dx)),
            fall_is_function(fall),
            jump_is_function(jump),
        ensures
            graph.wf(),
            graph.nodes_of(grid),
            index_agrees(graph.node_list(), graph.index_of()),
            graph.edge_lists().len() == graph.node_list().len(),
            forall|s: int| 0 <= s < graph.node_list().len() ==> #[trigger] graph.edge_lists()[s]
                == edges_from(grid, graph.index_of(), fall, jump, max_jump_range as int, graph.node_list()[s], s as usize),
    {
        let (nodes, node_index) = collect_ground(grid);
        let mut edges: Vec<Vec<PlatformEdge>> = Vec::new();
        let mut s: usize = 0;
        while s < nodes.len()
            invariant
                grid.wf(),
                node_index.wf(),
                index_agrees(nodes@, node_index.entries()),
                sorted_ground(grid, nodes@),
                -i32::MAX <= max_jump_range <= i32::MAX - 30,
                forall|x: i32, y: i32| call_requires(fall, (x, y)),
                forall|x: i32, y: i32, dx: i32| call_requires(jump, (x, y, dx)),
                fall_is_function(fall),
                jump_is_function(jump),
                s <= nodes@.len(),
                edges@.len() == s,
                forall|i: int| 0 <= i < s ==> (#[trigger] edges@[i])@
                    == edges_from(grid, node_index.entries(), fall, jump, max_jump_range as int, nodes@[i], i as usize),
                forall|i: int, k: int| 0 <= i < edges@.len() && 0 <= k < edges@[i]@.len()
                    ==> #[trigger] edges@[i]@[k].to < nodes@.len(),
            decreases nodes@.len() - s,
        {
            let e = edges_for(grid, &node_index, &nodes, s, max_jump_range, &fall, &jump);
            edges.push(e);
            s = s + 1;
        }
        let graph = PlatformGraph { nodes, node_index, edges };
        proof {
            assert forall|i: int| 0 <= i < graph.node_list().len() implies #[trigger] graph.edge_lists()[i]
                == edges_from(grid, graph.index_of(), fall, jump, max_jump_range as int, graph.node_list()[i], i as usize) by {
                assert(graph.edges@[i]@ == graph.edge_lists()[i]);
            }
        }
        graph
    }
}

/// The node at cell (x, y), if there is one.
pub open spec fn node_at(index: Map<GridNode, usize>, x: int, y: int) -> Option<usize> {
    if i32::MIN <= x <= i32::MAX && i32::MIN <= y <= i32::MAX && index.contains_key(GridNode { x: x as i32, y: y as i32 }) {
        Some(index[GridNode { x: x as i32, y: y as i32 }])
    } else {
        None
    }
}

/// The first node met when looking at the cells (gx - 1, gy + dy),
/// (gx, gy + dy), (gx + 1, gy + dy) for dy = d, d + 1, ..., n - 1.
pub open spec fn search_down(index: Map<GridNode, usize>, gx: int, gy: int, d: int, n: int) -> Option<usize>
    decreases n - d,
{
    if d >= n {
        None
    } else if node_at(index, gx - 1, gy + d) is Some {
        node_at(index, gx - 1, gy + d)
    } else if node_at(index, gx, gy + d) is Some {
        node_at(index, gx, gy + d)
    } else if node_at(index, gx + 1, gy + d) is Some {
        node_at(index, gx + 1, gy + d)
    } else {
        search_down(index, gx, gy, d + 1, n)
    }
}

/// The squared distance from node `n` to cell (gx, gy).
pub open spec fn dist2(n: PlatformNode, gx: int, gy: int) -> int {
    (n.grid_x - gx) * (n.grid_x - gx) + (n.grid_y - gy) * (n.grid_y - gy)
}

/// Node `i` is the first of the nodes closest to (gx, gy).
pub open spec fn is_first_nearest(nodes: Seq<PlatformNode>, gx: int, gy: int, i: int) -> bool {
    &&& 0 <= i < nodes.len()
    &&& forall|j: int| 0 <= j < nodes.len() ==> dist2(#[trigger] nodes[j], gx, gy) >= dist2(nodes[i], gx, gy)
    &&& forall|j: int| 0 <= j < i ==> dist2(#[trigger] nodes[j], gx, gy) > dist2(nodes[i], gx, gy)
}

/// The node that `nearest_node` picks for cell (gx, gy).
pub open spec fn nearest_spec(graph: &PlatformGraph, gx: int, gy: int) -> Option<usize> {
    let index = graph.index_of();
    let nodes = graph.node_list();
    if node_at(index, gx, gy) is Some {
        node_at(index, gx, gy)
    } else if search_down(index, gx, gy, 0, nodes.len() as int) is Some {
        search_down(index, gx, gy, 0, nodes.len() as int)
    } else if nodes.len() == 0 {
        None
    } else {
        Some((choose|i: int| is_first_nearest(nodes, gx, gy, i)) as usize)
    }
}

/// At most one node is the first of the nodes closest to a cell.
proof fn lemma_first_nearest_unique(nodes: Seq<PlatformNode>, gx: int, gy: int, i: int, j: int)
    requires
        is_first_nearest(nodes, gx, gy, i),
        is_first_nearest(nodes, gx, gy, j),
    ensures
        i == j,
{
    if i < j {
        assert(dist2(nodes[i], gx, gy) > dist2(nodes[j], gx, gy));
    } else if j < i {
        assert(dist2(nodes[j], gx, gy) > dist2(nodes[i], gx, gy));
    }
}

impl PlatformGraph {
    /// The index from cells to nodes.
    pub fn node_index(&self) -> (r: &CellMap<usize>)
        ensures
            r.entries() == self.index_of(),
            self.wf() ==> r.wf(),
    {
        &self.node_index
    }

    /// The node at cell (x, y), if there is one.
    fn node_at_exec(&self, x: i64, y: i64) -> (r: Option<usize>)
        requires
            self.wf(),
        ensures
            r == node_at(self.index_of(), x as int, y as int),
    {
        if x < i32::MIN as i64 || x > i32::MAX as i64 || y < i32::MIN as i64 || y > i32::MAX as i64 {
            return None;
        }
        let c = GridNode::new(x as i32, y as i32);
        match self.node_index.get(c) {
            Some(i) => Some(*i),
            None => None,
        }
    }

    /// Find the nearest ground node to an arbitrary grid position: the node
    /// at (gx, gy) itself; else the first node found looking downward, row
    /// by row (as many rows as there are nodes), at the cell below and its
    /// left and right neighbors; else the first of the nodes closest in
    /// straight-line distance; `None` for a graph without nodes.
    pub fn nearest_node(&self, gx: i32, gy: i32) -> (r: Option<usize>)
        requires
            self.wf(),
            self.node_list().len() <= i32::MAX,
        ensures
            node_at(self.index_of(), gx as int, gy as int) is Some ==> r == node_at(self.index_of(), gx as int, gy as int),
            node_at(self.index_of(), gx as int, gy as int) is None
                && search_down(self.index_of(), gx as int, gy as int, 0, self.node_list().len() as int) is Some
                ==> r == search_down(self.index_of(), gx as int, gy as int, 0, self.node_list().len() as int),
            node_at(self.index_of(), gx as int, gy as int) is None
                && search_down(self.index_of(), gx as int, gy as int, 0, self.node_list().len() as int) is None
                ==> (match r {
                    Some(i) => is_first_nearest(self.node_list(), gx as int, gy as int, i as int),
                    None => self.node_list().len() == 0,
                }),
            r == nearest_spec(self, gx as int, gy as int),
            r matches Some(i) ==> i < self.node_list().len(),
            r is None <==> self.node_list().len() == 0,
    {
        let here = self.node_at_exec(gx as i64, gy as i64);
        if here.is_some() {
            return here;
        }
        let n: i64 = self.nodes.len() as i64;
        let x: i64 = gx as i64;
        let y: i64 = gy as i64;
        let mut dy: i64 = 0;
        while dy < n
            invariant
                self.wf(),
                0 <= dy <= n,
                n == self.node_list().len(),
                n <= i32::MAX,
                x == gx,
                y == gy,
                node_at(self.index_of(), gx as int, gy as int) is None,
                search_down(self.index_of(), x as int, y as int, 0, n as int)
                    == search_down(self.index_of(), x as int, y as int, dy as int, n as int),
            decreases n - dy,
        {
            let a = self.node_at_exec(x - 1, y + dy);
            if a.is_some() {
                return a;
            }
            let b = self.node_at_exec(x, y + dy);
            if b.is_some() {
                return b;
            }
            let c = self.node_at_exec(x + 1, y + dy);
            if c.is_some() {
                return c;
            }
            dy = dy + 1;
        }
        if self.nodes.len() == 0 {
            return None;
        }
        let mut best: usize = 0;
        let n0 = self.nodes[0];
        let mut best_d: i128 = sq_dist(n0, gx, gy);
        let mut i: usize = 1;
        while i < self.nodes.len()
            invariant
                self.nodes@.len() > 0,
                1 <= i <= self.nodes@.len(),
                best < i,
                best_d == dist2(self.nodes@[best as int], gx as int, gy as int),
                forall|j: int| 0 <= j < i ==> dist2(#[trigger] self.nodes@[j], gx as int, gy as int) >= best_d,
                forall|j: int| 0 <= j < best ==> dist2(#[trigger] self.nodes@[j], gx as int, gy as int) > best_d,
            decreases self.nodes@.len() - i,
        {
            let d = sq_dist(self.nodes[i], gx, gy);
            if d < best_d {
                best = i;
                best_d = d;
            }
            i = i + 1;
        }
        proof {
            let nodes = self.node_list();
            assert(is_first_nearest(nodes, gx as int, gy as int, best as int));
            let c = choose|i: int| is_first_nearest(nodes, gx as int, gy as int, i);
            lemma_first_nearest_unique(nodes, gx as int, gy as int, c, best as int);
        }
        Some(best)
    }
}

/// The squared distance from node `n` to cell (gx, gy), computed exactly.
fn sq_dist(n: PlatformNode, gx: i32, gy: i32) -> (d: i128)
    ensures
        d == dist2(n, gx as int, gy as int),
{
    let dx: i128 = n.grid_x as i128 - gx as i128;
    let dy: i128 = n.grid_y as i128 - gy as i128;
    assert(0 <= dx * dx <= 0x1_0000_0000 * 0x1_0000_0000) by (nonlinear_arith)
        requires
            -0x1_0000_0000 <= dx <= 0x1_0000_0000,
    ;
    assert(0 <= dy * dy <= 0x1_0000_0000 * 0x1_0000_0000) by (nonlinear_arith)
        requires
            -0x1_0000_0000 <= dy <= 0x1_0000_0000,
    ;
    dx * dx + dy * dy
}

/// The graph has an edge from node `a` to node `b`.
pub open spec fn has_edge(edges: Seq<Seq<PlatformEdge>>, a: int, b: int) -> bool {
    exists|k: int| 0 <= k < edges[a].len() && (#[trigger] edges[a][k]).to == b
}

/// `p` is a walk through the graph from node `s` to node `t` along edges.
pub open spec fn is_graph_path(graph: &PlatformGraph, p: Seq<usize>, s: usize, t: usize) -> bool {
    &&& p.len() >= 1
    &&& p[0] == s
    &&& p.last() == t
    &&& forall|i: int| 0 <= i < p.len() ==> #[trigger] p[i] < graph.node_list().len()
    &&& forall|i: int| 0 <= i < p.len() - 1 ==> has_edge(graph.edge_lists(), #[trigger] p[i] as int, p[i + 1] as int)
}

/// The entries of a vector of optional values, by position.
pub open spec fn opt_map<V>(s: Seq<Option<V>>) -> Map<usize, V> {
    Map::new(|i: usize| (i as int) < s.len() && s[i as int] is Some, |i: usize| s[i as int].unwrap())
}

/// The largest size of an edge cost.
pub open spec fn cost_bound() -> int {
    0x8000_0000
}

/// Every node with a cost is `start` or has a link back; a link goes to a
/// node closed before (by the closing order `order`) along an edge; costs
/// stay within `cc` edges' worth; closed nodes have costs.
pub open spec fn psearch_inv(
    edges: Seq<Seq<PlatformEdge>>,
    n: int,
    start: usize,
    came: Map<usize, usize>,
    g: Map<usize, i64>,
    closed: Seq<bool>,
    order: Seq<int>,
    cc: nat,
) -> bool {
    &&& closed.len() == n
    &&& order.len() == n
    &&& start < n
    &&& g.contains_key(start)
    &&& g[start] == 0
    &&& !came.contains_key(start)
    &&& forall|i: usize| #[trigger] g.contains_key(i) ==> {
        &&& i < n
        &&& -(cc * cost_bound()) <= g[i] <= cc * cost_bound()
        &&& (i == start || came.contains_key(i))
    }
    &&& forall|i: usize| #[trigger] came.contains_key(i) ==> {
        &&& g.contains_key(i)
        &&& came[i] < n
        &&& closed[came[i] as int]
        &&& order[came[i] as int] < cc
        &&& (closed[i as int] ==> order[came[i] as int] < order[i as int])
        &&& has_edge(edges, came[i] as int, i as int)
    }
    &&& forall|i: int| 0 <= i < n && #[trigger] closed[i] ==> g.contains_key(i as usize) && 0 <= order[i] < cc
}

pub open spec fn popen_has(open: Seq<(usize, i64)>, i: usize) -> bool {
    exists|j: int| 0 <= j < open.len() && #[trigger] open[j].0 == i
}

/// Every node with a cost is closed or waiting in `open`; the targets of
/// the edges of every closed node (but the first `m` only, for `current`)
/// have a cost; `goal` is not closed.
pub open spec fn pfrontier_inv(
    edges: Seq<Seq<PlatformEdge>>,
    n: int,
    goal: usize,
    g: Map<usize, i64>,
    closed: Seq<bool>,
    open: Seq<(usize, i64)>,
    current: int,
    m: int,
) -> bool {
    &&& forall|i: usize| #[trigger] g.contains_key(i) ==> closed[i as int] || popen_has(open, i)
    &&& forall|i: int, k: int| #![trigger closed[i], edges[i][k]]
        0 <= i < n && closed[i] && 0 <= k < edges[i].len() && (i != current || k < m)
        ==> g.contains_key(edges[i][k].to)
    &&& !closed[goal as int]
}

/// The measure that falls along the links: the closing position of a
/// closed node, `cc` for any other.
pub open spec fn link_rank(closed: Seq<bool>, order: Seq<int>, cc: nat, i: usize) -> nat {
    if (i as int) < closed.len() && closed[i as int] && order[i as int] >= 0 {
        order[i as int] as nat
    } else {
        cc
    }
}

proof fn lemma_psearch_trail(
    edges: Seq<Seq<PlatformEdge>>,
    n: int,
    start: usize,
    came: Map<usize, usize>,
    g: Map<usize, i64>,
    closed: Seq<bool>,
    order: Seq<int>,
    cc: nat,
    i: usize,
)
    requires
        psearch_inv(edges, n, start, came, g, closed, order, cc),
        g.contains_key(i),
    ensures
        trail_done(came, start, i, link_rank(closed, order, cc, i)),
    decreases link_rank(closed, order, cc, i),
{
    if i == start || !came.contains_key(i) {
    } else {
        let p = came[i];
        assert(g.contains_key(p));
        lemma_psearch_trail(edges, n, start, came, g, closed, order, cc, p);
        lemma_trail_done_mono(came, start, p, link_rank(closed, order, cc, p), (link_rank(closed, order, cc, i) - 1) as nat);
    }
}

/// The path handed back at the goal is a walk from `start` to `goal`.
proof fn lemma_pgoal_path(
    graph: &PlatformGraph,
    start: usize,
    goal: usize,
    came: Map<usize, usize>,
    g: Map<usize, i64>,
    closed: Seq<bool>,
    order: Seq<int>,
    cc: nat,
    path: Seq<usize>,
    fuel: nat,
)
    requires
        psearch_inv(graph.edge_lists(), graph.node_list().len() as int, start, came, g, closed, order, cc),
        g.contains_key(goal),
        trail_done(came, start, goal, fuel),
        path == trail(came, start, goal, fuel).reverse(),
    ensures
        is_graph_path(graph, path, start, goal),
{
    lemma_trail_shape(came, start, goal, fuel);
    let t = trail(came, start, goal, fuel);
    let n = graph.node_list().len() as int;
    if t.last() != start {
        assert(g.contains_key(t.last())) by {
            if t.len() > 1 {
                assert(t[t.len() - 2] != start);
                assert(came.contains_key(t[t.len() - 2]));
            }
        }
    }
    assert(path[0] == t[t.len() - 1]);
    assert(path.last() == t[0]);
    assert forall|i: int| 0 <= i < path.len() implies #[trigger] path[i] < n by {
        let a = t.len() - 1 - i;
        assert(path[i] == t[a]);
        if a == 0 {
            assert(g.contains_key(goal));
        } else {
            assert(came.contains_key(t[a - 1]));
            assert(came[t[a - 1]] == t[a]);
        }
    }
    assert forall|i: int| 0 <= i < path.len() - 1 implies has_edge(graph.edge_lists(), #[trigger] path[i] as int, path[i + 1] as int) by {
        let a = t.len() - 2 - i;
        assert(path[i] == t[a + 1]);
        assert(path[i + 1] == t[a]);
        assert(t[a] != start);
        assert(came.contains_key(t[a]));
        assert(came[t[a]] == t[a + 1]);
    }
}

/// Every node of a walk from `start` has a cost once the search is exhausted.
proof fn lemma_ppath_costed(
    graph: &PlatformGraph,
    start: usize,
    goal: usize,
    came: Map<usize, usize>,
    g: Map<usize, i64>,
    closed: Seq<bool>,
    order: Seq<int>,
    cc: nat,
    path: Seq<usize>,
    i: int,
)
    requires
        psearch_inv(graph.edge_lists(), graph.node_list().len() as int, start, came, g, closed, order, cc),
        pfrontier_inv(graph.edge_lists(), graph.node_list().len() as int, goal, g, closed, Seq::empty(), goal as int, 0),
        is_graph_path(graph, path, start, goal),
        0 <= i < path.len(),
    ensures
        g.contains_key(path[i]),
    decreases i,
{
    let edges = graph.edge_lists();
    if i > 0 {
        lemma_ppath_costed(graph, start, goal, came, g, closed, order, cc, path, i - 1);
        let a = path[i - 1] as int;
        assert(has_edge(edges, path[i - 1] as int, path[i] as int));
        let k = choose|k: int| 0 <= k < edges[a].len() && (#[trigger] edges[a][k]).to == path[i];
        assert(closed[a] || popen_has(Seq::<(usize, i64)>::empty(), path[i - 1]));
        assert(path[i - 1] < graph.node_list().len());
        assert(g.contains_key(edges[a][k].to));
    }
}

/// With nothing left to explore, no walk leads from `start` to `goal`.
proof fn lemma_pexhausted(
    graph: &PlatformGraph,
    start: usize,
    goal: usize,
    came: Map<usize, usize>,
    g: Map<usize, i64>,
    closed: Seq<bool>,
    order: Seq<int>,
    cc: nat,
    path: Seq<usize>,
)
    requires
        psearch_inv(graph.edge_lists(), graph.node_list().len() as int, start, came, g, closed, order, cc),
        pfrontier_inv(graph.edge_lists(), graph.node_list().len() as int, goal, g, closed, Seq::empty(), goal as int, 0),
    ensures
        !is_graph_path(graph, path, start, goal),
{
    if is_graph_path(graph, path, start, goal) {
        lemma_ppath_costed(graph, start, goal, came, g, closed, order, cc, path, path.len() - 1);
        assert(closed[goal as int] || popen_has(Seq::<(usize, i64)>::empty(), goal));
    }
}

/// Closing one more node (the `cc`-th) keeps the search invariant.
proof fn lemma_pclose_node(
    edges: Seq<Seq<PlatformEdge>>,
    n: int,
    start: usize,
    came: Map<usize, usize>,
    g: Map<usize, i64>,
    closed: Seq<bool>,
    order: Seq<int>,
    cc: nat,
    current: usize,
)
    requires
        psearch_inv(edges, n, start, came, g, closed, order, cc),
        g.contains_key(current),
        !closed[current as int],
    ensures
        psearch_inv(edges, n, start, came, g, closed.update(current as int, true), order.update(current as int, cc as int), cc + 1),
{
    let c2 = closed.update(current as int, true);
    let o2 = order.update(current as int, cc as int);
    assert forall|i: usize| #[trigger] g.contains_key(i) implies -((cc + 1) * cost_bound()) <= g[i] <= (cc + 1) * cost_bound() by {
        assert(-(cc * cost_bound()) <= g[i] <= cc * cost_bound());
    }
    assert forall|i: usize| #[trigger] came.contains_key(i) implies {
        &&& c2[came[i] as int]
        &&& o2[came[i] as int] < cc + 1
        &&& (c2[i as int] ==> o2[came[i] as int] < o2[i as int])
    } by {
        assert(closed[came[i] as int]);
        assert(came[i] != current);
    }
    assert forall|i: int| 0 <= i < n && #[trigger] c2[i] implies g.contains_key(i as usize) && 0 <= o2[i] < cc + 1 by {
        if i != current as int {
            assert(closed[i]);
        }
    }
}

/// Linking a not-yet-closed target `nb` of an edge of the closed node
/// `current` with cost `t` keeps the search invariant.
proof fn lemma_prelax_step(
    edges: Seq<Seq<PlatformEdge>>,
    n: int,
    start: usize,
    came: Map<usize, usize>,
    g: Map<usize, i64>,
    closed: Seq<bool>,
    order: Seq<int>,
    cc: nat,
    current: usize,
    nb: usize,
    t: i64,
)
    requires
        psearch_inv(edges, n, start, came, g, closed, order, cc),
        current < n,
        closed[current as int],
        closed[start as int],
        nb < n,
        !closed[nb as int],
        has_edge(edges, current as int, nb as int),
        -(cc * cost_bound()) <= t <= cc * cost_bound(),
    ensures
        psearch_inv(edges, n, start, came.insert(nb, current), g.insert(nb, t), closed, order, cc),
{
    let came1 = came.insert(nb, current);
    let g1 = g.insert(nb, t);
    assert(nb != start);
    assert forall|i: usize| #[trigger] came1.contains_key(i) implies {
        &&& g1.contains_key(i)
        &&& came1[i] < n
        &&& closed[came1[i] as int]
        &&& order[came1[i] as int] < cc
        &&& (closed[i as int] ==> order[came1[i] as int] < order[i as int])
        &&& has_edge(edges, came1[i] as int, i as int)
    } by {
        if i == nb {
            assert(g.contains_key(current));
        }
    }
    assert forall|i: usize| #[trigger] g1.contains_key(i) implies {
        &&& i < n
        &&& -(cc * cost_bound()) <= g1[i] <= cc * cost_bound()
        &&& (i == start || came1.contains_key(i))
    } by {
        if i != nb {
            assert(g.contains_key(i));
        }
    }
    assert forall|i: int| 0 <= i < n && #[trigger] closed[i] implies g1.contains_key(i as usize) && 0 <= order[i] < cc by {
        assert(g.contains_key(i as usize));
    }
}

/// A target of `current`'s `m`-th edge that already has a cost extends the
/// frontier invariant by one.
proof fn lemma_pfrontier_skip(
    edges: Seq<Seq<PlatformEdge>>,
    n: int,
    goal: usize,
    g: Map<usize, i64>,
    closed: Seq<bool>,
    open: Seq<(usize, i64)>,
    current: int,
    m: int,
)
    requires
        pfrontier_inv(edges, n, goal, g, closed, open, current, m),
        0 <= m < edges[current].len(),
        g.contains_key(edges[current][m].to),
    ensures
        pfrontier_inv(edges, n, goal, g, closed, open, current, m + 1),
{
    assert forall|i: int, k: int| #![trigger closed[i], edges[i][k]]
        0 <= i < n && closed[i] && 0 <= k < edges[i].len() && (i != current || k < m + 1)
        implies g.contains_key(edges[i][k].to) by {
        if i == current && k == m {
        } else {
        }
    }
}

/// Giving a cost to the target `nb` of `current`'s `m`-th edge and queueing
/// it extends the frontier invariant by one.
proof fn lemma_pfrontier_insert(
    edges: Seq<Seq<PlatformEdge>>,
    n: int,
    goal: usize,
    g: Map<usize, i64>,
    closed: Seq<bool>,
    open: Seq<(usize, i64)>,
    current: int,
    m: int,
    nb: usize,
    t: i64,
    f: i64,
)
    requires
        pfrontier_inv(edges, n, goal, g, closed, open, current, m),
        0 <= m < edges[current].len(),
        edges[current][m].to == nb,
    ensures
        pfrontier_inv(edges, n, goal, g.insert(nb, t), closed, open.push((nb, f)), current, m + 1),
{
    let g1 = g.insert(nb, t);
    let o1 = open.push((nb, f));
    assert forall|i: usize| #[trigger] g1.contains_key(i) implies closed[i as int] || popen_has(o1, i) by {
        if i == nb {
            assert(o1[open.len() as int].0 == nb);
        } else if !closed[i as int] {
            assert(popen_has(open, i));
            let j = choose|j: int| 0 <= j < open.len() && #[trigger] open[j].0 == i;
            assert(o1[j].0 == i);
        }
    }
    assert forall|i: int, k: int| #![trigger closed[i], edges[i][k]]
        0 <= i < n && closed[i] && 0 <= k < edges[i].len() && (i != current || k < m + 1)
        implies g1.contains_key(edges[i][k].to) by {
        if i == current && k == m {
        } else {
            assert(g.contains_key(edges[i][k].to));
        }
    }
}

/// Removing the entry `b` of `open` (for `current`) and closing `current`
/// keeps the frontier invariant, with `current`'s edges still to visit.
proof fn lemma_pfrontier_close(
    edges: Seq<Seq<PlatformEdge>>,
    n: int,
    goal: usize,
    g: Map<usize, i64>,
    closed: Seq<bool>,
    open: Seq<(usize, i64)>,
    b: int,
    current: usize,
)
    requires
        pfrontier_inv(edges, n, goal, g, closed, open, goal as int, 0),
        closed.len() == n,
        0 <= b < open.len(),
        open[b].0 == current,
        current != goal,
        current < n,
        goal < n,
        forall|i: usize| #[trigger] g.contains_key(i) ==> i < n,
    ensures
        pfrontier_inv(edges, n, goal, g, closed.update(current as int, true), open.remove(b), current as int, 0),
{
    let c2 = closed.update(current as int, true);
    let o2 = open.remove(b);
    assert forall|i: usize| #[trigger] g.contains_key(i) implies c2[i as int] || popen_has(o2, i) by {
        if i != current {
            if popen_has(open, i) {
                let j = choose|j: int| 0 <= j < open.len() && #[trigger] open[j].0 == i;
                assert(j != b);
                if j < b {
                    assert(o2[j].0 == i);
                } else {
                    assert(o2[j - 1].0 == i);
                }
            }
        }
    }
    assert forall|i: int, k: int| #![trigger c2[i], edges[i][k]]
        0 <= i < n && c2[i] && 0 <= k < edges[i].len() && (i != current as int || k < 0)
        implies g.contains_key(edges[i][k].to) by {
        assert(closed[i]);
    }
}

/// Dropping the entry `b` of `open` for a node that is closed already keeps
/// the frontier invariant.
proof fn lemma_pfrontier_drop(
    edges: Seq<Seq<PlatformEdge>>,
    n: int,
    goal: usize,
    g: Map<usize, i64>,
    closed: Seq<bool>,
    open: Seq<(usize, i64)>,
    b: int,
)
    requires
        pfrontier_inv(edges, n, goal, g, closed, open, goal as int, 0),
        0 <= b < open.len(),
        closed[open[b].0 as int],
    ensures
        pfrontier_inv(edges, n, goal, g, closed, open.remove(b), goal as int, 0),
{
    let o2 = open.remove(b);
    assert forall|i: usize| #[trigger] g.contains_key(i) implies closed[i as int] || popen_has(o2, i) by {
        if !closed[i as int] {
            let j = choose|j: int| 0 <= j < open.len() && #[trigger] open[j].0 == i;
            assert(j != b);
            if j < b {
                assert(o2[j].0 == i);
            } else {
                assert(o2[j - 1].0 == i);
            }
        }
    }
}

proof fn lemma_opt_map_update<V>(s: Seq<Option<V>>, i: usize, v: V)
    requires
        (i as int) < s.len(),
    ensures
        opt_map(s.update(i as int, Some(v))) == opt_map(s).insert(i, v),
{
    assert(opt_map(s.update(i as int, Some(v))) =~= opt_map(s).insert(i, v));
}

/// Remove and return the entry of `open` with the lowest estimated cost.
fn pop_cheapest(open: &mut Vec<(usize, i64)>) -> (e: (usize, i64))
    requires
        old(open)@.len() > 0,
    ensures
        exists|b: int| 0 <= b < old(open)@.len() && e == old(open)@[b] && final(open)@ == old(open)@.remove(b),
        forall|j: int| 0 <= j < old(open)@.len() ==> e.1 <= #[trigger] old(open)@[j].1,
{
    let mut best: usize = 0;
    let mut j: usize = 1;
    while j < open.len()
        invariant
            open@.len() > 0,
            best < open@.len(),
            1 <= j <= open@.len(),
            forall|i: int| 0 <= i < j ==> open@[best as int].1 <= #[trigger] open@[i].1,
        decreases open@.len() - j,
    {
        if open[j].1 < open[best].1 {
            best = j;
        }
        j = j + 1;
    }
    let ghost before = open@;
    let e = open.remove(best);
    assert(before[best as int] == e);
    e
}

/// Follow the links back from `goal`, stopping at `start` or at a node
/// without a link, and return the nodes met in the forward order.
fn reconstruct_nodes(came: &Vec<Option<usize>>, start: usize, goal: usize) -> (path: Vec<usize>)
    requires
        exists|fuel: nat| trail_done(opt_map(came@), start, goal, fuel),
    ensures
        exists|fuel: nat| trail_done(opt_map(came@), start, goal, fuel)
            && path@ == #[trigger] trail(opt_map(came@), start, goal, fuel).reverse(),
{
    let ghost cm = opt_map(came@);
    let ghost fuel: nat = choose|fuel: nat| trail_done(cm, start, goal, fuel);
    let mut path: Vec<usize> = Vec::new();
    let mut current = goal;
    let ghost mut left: nat = fuel;
    loop
        invariant_except_break
            trail_done(cm, start, current, left),
            trail(cm, start, goal, fuel) == path@ + trail(cm, start, current, left),
        invariant
            cm == opt_map(came@),
            trail_done(cm, start, goal, fuel),
        ensures
            trail(cm, start, goal, fuel) == path@,
        decreases left,
    {
        path.push(current);
        if current == start {
            assert(trail(cm, start, current, left) == seq![current]);
            assert(trail(cm, start, goal, fuel) =~= path@);
            break;
        }
        let link = if current < came.len() { came[current] } else { None };
        match link {
            Some(prev) => {
                proof {
                    assert(cm.contains_key(current));
                    assert(left > 0);
                    let rest = trail(cm, start, prev, (left - 1) as nat);
                    assert(trail(cm, start, current, left) == seq![current] + rest);
                    assert(trail(cm, start, goal, fuel) =~= path@ + rest);
                    left = (left - 1) as nat;
                }
                current = prev;
            },
            None => {
                assert(!cm.contains_key(current));
                assert(trail(cm, start, current, left) == seq![current]);
                assert(trail(cm, start, goal, fuel) =~= path@);
                break;
            },
        }
    }
    let ghost forward = path@;
    let mut i: usize = 0;
    let n = path.len();
    let mut rev: Vec<usize> = Vec::new();
    while i < n
        invariant
            n == path@.len(),
            path@ == forward,
            i <= n,
            rev@.len() == i,
            forall|j: int| 0 <= j < i ==> rev@[j] == forward[n - 1 - j],
        decreases n - i,
    {
        rev.push(path[n - 1 - i]);
        i = i + 1;
    }
    assert(rev@ =~= forward.reverse());
    rev
}

/// Ten times the Manhattan distance between two nodes.
fn node_heuristic(a: PlatformNode, b: PlatformNode) -> (h: i64)
    ensures
        h == 10 * (crate::pathfinding::abs_int(a.grid_x - b.grid_x) + crate::pathfinding::abs_int(a.grid_y - b.grid_y)),
        0 <= h <= 10 * 0x2_0000_0000,
{
    let dx: i64 = a.grid_x as i64 - b.grid_x as i64;
    let dy: i64 = a.grid_y as i64 - b.grid_y as i64;
    let ax: i64 = if dx < 0 { -dx } else { dx };
    let ay: i64 = if dy < 0 { -dy } else { dy };
    (ax + ay) * 10
}

/// Relax every edge of the just-closed node `current` (cost `gc`).
#[verifier::spinoff_prover]
fn relax_edges(
    graph: &PlatformGraph,
    start: usize,
    goal: usize,
    current: usize,
    gc: i64,
    came: &mut Vec<Option<usize>>,
    g: &mut Vec<Option<i64>>,
    closed: &Vec<bool>,
    open: &mut Vec<(usize, i64)>,
    Ghost(order): Ghost<Seq<int>>,
    Ghost(cc): Ghost<nat>,
)
    requires
        graph.wf(),
        graph.node_list().len() <= i32::MAX,
        goal < graph.node_list().len(),
        current < graph.node_list().len(),
        old(came)@.len() == graph.node_list().len(),
        old(g)@.len() == graph.node_list().len(),
        1 <= cc <= graph.node_list().len(),
        closed@[current as int],
        closed@[start as int],
        opt_map(old(g)@).contains_key(current),
        opt_map(old(g)@)[current] == gc,
        -((cc - 1) * cost_bound()) <= gc <= (cc - 1) * cost_bound(),
        psearch_inv(graph.edge_lists(), graph.node_list().len() as int, start, opt_map(old(came)@), opt_map(old(g)@), closed@, order, cc),
        forall|j: int| 0 <= j < old(open)@.len() ==> opt_map(old(g)@).contains_key(#[trigger] old(open)@[j].0),
        pfrontier_inv(graph.edge_lists(), graph.node_list().len() as int, goal, opt_map(old(g)@), closed@, old(open)@, current as int, 0),
        pcost_inv(graph, start, goal, opt_map(old(came)@), opt_map(old(g)@), closed@, old(open)@, current as int, 0, cc),
    ensures
        final(came)@.len() == graph.node_list().len(),
        final(g)@.len() == graph.node_list().len(),
        psearch_inv(graph.edge_lists(), graph.node_list().len() as int, start, opt_map(final(came)@), opt_map(final(g)@), closed@, order, cc),
        forall|j: int| 0 <= j < final(open)@.len() ==> opt_map(final(g)@).contains_key(#[trigger] final(open)@[j].0),
        pfrontier_inv(graph.edge_lists(), graph.node_list().len() as int, goal, opt_map(final(g)@), closed@, final(open)@,
            current as int, graph.edge_lists()[current as int].len() as int),
        pcost_inv(graph, start, goal, opt_map(final(came)@), opt_map(final(g)@), closed@, final(open)@,
            current as int, graph.edge_lists()[current as int].len() as int, cc),
{
    let ghost n = graph.node_list().len() as int;
    let ghost edges = graph.edge_lists();
    let list = &graph.edges[current];
    assert(list@ == edges[current as int]);
    let target = graph.nodes[goal];
    let mut m: usize = 0;
    while m < list.len()
        invariant
            graph.wf(),
            n == graph.node_list().len(),
            n <= i32::MAX,
            edges == graph.edge_lists(),
            list@ == edges[current as int],
            goal < n,
            current < n,
            came@.len() == n,
            g@.len() == n,
            closed@.len() == n,
            1 <= cc <= n,
            closed@[current as int],
            closed@[start as int],
            opt_map(g@).contains_key(current),
            opt_map(g@)[current] == gc,
            -((cc - 1) * cost_bound()) <= gc <= (cc - 1) * cost_bound(),
            m <= list@.len(),
            psearch_inv(edges, n, start, opt_map(came@), opt_map(g@), closed@, order, cc),
            forall|j: int| 0 <= j < open@.len() ==> opt_map(g@).contains_key(#[trigger] open@[j].0),
            pfrontier_inv(edges, n, goal, opt_map(g@), closed@, open@, current as int, m as int),
            pcost_inv(graph, start, goal, opt_map(came@), opt_map(g@), closed@, open@, current as int, m as int, cc),
            target == graph.node_list()[goal as int],
        decreases list@.len() - m,
    {
        let e = list[m];
        let nb = e.to;
        proof {
            assert(edges[current as int][m as int].to < n);
            assert(has_edge(edges, current as int, nb as int));
        }
        let ghost gm = opt_map(g@);
        let ghost cm = opt_map(came@);
        let ghost open0 = open@;
        if closed[nb] {
            proof {
                assert(gm.contains_key(nb));
                lemma_pfrontier_skip(edges, n, goal, gm, closed@, open@, current as int, m as int);
                lemma_pcost_skip(graph, start, goal, cm, gm, closed@, open@, current, m as int, cc);
            }
        } else {
            proof {
                assert(-(cc * cost_bound()) <= gc + e.cost <= cc * cost_bound()) by (nonlinear_arith)
                    requires
                        -((cc - 1) * cost_bound()) <= gc <= (cc - 1) * cost_bound(),
                        -cost_bound() <= e.cost < cost_bound(),
                ;
                assert(cc * cost_bound() <= 0x8000_0000 * 0x8000_0000) by (nonlinear_arith)
                    requires
                        cc <= 0x8000_0000,
                ;
            }
            let tentative: i64 = gc + e.cost as i64;
            let better = match g[nb] {
                Some(old_g) => tentative < old_g,
                None => true,
            };
            if better {
                proof {
                    lemma_opt_map_update(came@, nb, current);
                    lemma_opt_map_update(g@, nb, tentative);
                }
                came.set(nb, Some(current));
                g.set(nb, Some(tentative));
                let h = node_heuristic(graph.nodes[nb], target);
                open.push((nb, tentative + h));
                proof {
                    assert forall|i: usize| #[trigger] cm.contains_key(i) implies closed@[cm[i] as int] by {}
                    lemma_pcost_insert(graph, start, goal, cm, gm, closed@, open0, current, m as int, cc, nb, tentative, (tentative + h) as i64);
                    lemma_prelax_step(edges, n, start, cm, gm, closed@, order, cc, current, nb, tentative);
                    lemma_pfrontier_insert(edges, n, goal, gm, closed@, open0, current as int, m as int, nb, tentative, (tentative + h) as i64);
                    assert forall|j: int| 0 <= j < open@.len() implies opt_map(g@).contains_key(#[trigger] open@[j].0) by {
                        if j < open0.len() {
                            assert(gm.contains_key(open0[j].0));
                        }
                    }
                }
            } else {
                proof {
                    lemma_pfrontier_skip(edges, n, goal, gm, closed@, open@, current as int, m as int);
                    lemma_pcost_skip(graph, start, goal, cm, gm, closed@, open@, current, m as int, cc);
                }
            }
        }
        m = m + 1;
    }
}

/// The cheapest cost of an edge among `es` that leads to node `b`, if one does.
pub open spec fn step_min(es: Seq<PlatformEdge>, b: usize) -> Option<int>
    decreases es.len(),
{
    if es.len() == 0 {
        None
    } else {
        let rest = step_min(es.drop_last(), b);
        let e = es.last();
        if e.to == b {
            match rest {
                Some(c) => Some(if (e.cost as int) < c { e.cost as int } else { c }),
                None => Some(e.cost as int),
            }
        } else {
            rest
        }
    }
}

/// The cost of the walk `p`: for each step, the cheapest edge taking it.
pub open spec fn path_cost(edges: Seq<Seq<PlatformEdge>>, p: Seq<usize>) -> int
    decreases p.len(),
{
    if p.len() <= 1 {
        0
    } else {
        path_cost(edges, p.drop_last()) + match step_min(edges[p[p.len() - 2] as int], p[p.len() - 1]) {
            Some(c) => c,
            None => 0,
        }
    }
}

/// Ten times the Manhattan distance between nodes `a` and `b`: the search's
/// estimate of the cost from `a` to `b`.
pub open spec fn est(nodes: Seq<PlatformNode>, a: int, b: int) -> int {
    10 * (abs_int(nodes[a].grid_x - nodes[b].grid_x) + abs_int(nodes[a].grid_y - nodes[b].grid_y))
}

/// No edge costs less than ten times the Manhattan distance it covers, so the
/// search's estimate never overshoots.
pub open spec fn costs_cover_distance(graph: &PlatformGraph) -> bool {
    forall|a: int, k: int| 0 <= a < graph.edge_lists().len() && 0 <= k < graph.edge_lists()[a].len()
        ==> #[trigger] graph.edge_lists()[a][k].cost >= est(graph.node_list(), a, graph.edge_lists()[a][k].to as int)
}

/// No walk from `start` to `v` costs less than `c`.
pub open spec fn no_cheaper_path(graph: &PlatformGraph, start: usize, v: usize, c: int) -> bool {
    forall|p: Seq<usize>| #[trigger] is_graph_path(graph, p, start, v) ==> c <= path_cost(graph.edge_lists(), p)
}

/// What `step_min` picks: an edge to `b` exists exactly when it is `Some`,
/// its value is the cost of one such edge and no such edge is cheaper.
proof fn lemma_step_min(es: Seq<PlatformEdge>, b: usize)
    ensures
        step_min(es, b) is Some <==> exists|k: int| 0 <= k < es.len() && (#[trigger] es[k]).to == b,
        step_min(es, b) matches Some(c) ==> exists|k: int| 0 <= k < es.len() && (#[trigger] es[k]).to == b && es[k].cost == c,
        step_min(es, b) matches Some(c) ==> forall|k: int| 0 <= k < es.len() && (#[trigger] es[k]).to == b ==> c <= es[k].cost,
    decreases es.len(),
{
    if es.len() > 0 {
        let r = es.drop_last();
        lemma_step_min(r, b);
        assert forall|k: int| 0 <= k < r.len() implies #[trigger] r[k] == es[k] by {}
        let last = es.len() - 1;
        if step_min(es, b) is Some {
            if step_min(r, b) is Some {
                let k = choose|k: int| 0 <= k < r.len() && (#[trigger] r[k]).to == b && r[k].cost == step_min(r, b)->0;
                assert(es[k] == r[k]);
            }
        }
        if exists|k: int| 0 <= k < es.len() && (#[trigger] es[k]).to == b {
            let k = choose|k: int| 0 <= k < es.len() && (#[trigger] es[k]).to == b;
            if k < r.len() {
                assert(r[k] == es[k]);
            }
        }
        assert forall|k: int| 0 <= k < es.len() && (#[trigger] es[k]).to == b implies step_min(es, b)->0 <= es[k].cost by {
            if k < r.len() {
                assert(r[k] == es[k]);
            }
        }
    }
}

/// A walk's cost splits at any of its nodes.
proof fn lemma_path_split(edges: Seq<Seq<PlatformEdge>>, p: Seq<usize>, j: int)
    requires
        0 <= j < p.len(),
    ensures
        path_cost(edges, p) == path_cost(edges, p.take(j + 1)) + path_cost(edges, p.subrange(j, p.len() as int)),
    decreases p.len(),
{
    if j == p.len() - 1 {
        assert(p.take(j + 1) =~= p);
        assert(p.subrange(j, p.len() as int).len() == 1);
    } else {
        let q = p.drop_last();
        lemma_path_split(edges, q, j);
        assert(q.take(j + 1) =~= p.take(j + 1));
        let r = p.subrange(j, p.len() as int);
        assert(r.drop_last() =~= q.subrange(j, q.len() as int));
        assert(r[r.len() - 2] == p[p.len() - 2]);
        assert(r[r.len() - 1] == p[p.len() - 1]);
    }
}

/// Along a walk, the estimate to `goal` falls by no more than the walk
/// costs, and the walk costs no less than nothing.
proof fn lemma_path_consistent(graph: &PlatformGraph, p: Seq<usize>, goal: int)
    requires
        graph.wf(),
        costs_cover_distance(graph),
        p.len() >= 1,
        forall|i: int| 0 <= i < p.len() ==> #[trigger] p[i] < graph.node_list().len(),
        forall|i: int| 0 <= i < p.len() - 1 ==> has_edge(graph.edge_lists(), #[trigger] p[i] as int, p[i + 1] as int),
    ensures
        est(graph.node_list(), p[0] as int, goal) <= path_cost(graph.edge_lists(), p) + est(graph.node_list(), p.last() as int, goal),
        path_cost(graph.edge_lists(), p) >= 0,
    decreases p.len(),
{
    if p.len() > 1 {
        let q = p.drop_last();
        assert forall|i: int| 0 <= i < q.len() implies #[trigger] q[i] < graph.node_list().len() by {
            assert(q[i] == p[i]);
        }
        assert forall|i: int| 0 <= i < q.len() - 1 implies has_edge(graph.edge_lists(), #[trigger] q[i] as int, q[i + 1] as int) by {
            assert(q[i] == p[i] && q[i + 1] == p[i + 1]);
        }
        lemma_path_consistent(graph, q, goal);
        let a = p[p.len() - 2];
        let b = p[p.len() - 1];
        assert(has_edge(graph.edge_lists(), a as int, b as int));
        graph.lemma_wf();
        let es = graph.edge_lists()[a as int];
        lemma_step_min(es, b);
        let k = choose|k: int| 0 <= k < es.len() && (#[trigger] es[k]).to == b && es[k].cost == step_min(es, b)->0;
        assert(graph.edge_lists()[a as int][k].cost >= est(graph.node_list(), a as int, b as int));
    }
}

/// The first node of a walk that is not closed, when the walk starts closed
/// and ends open.
proof fn lemma_pfirst_open(closed: Seq<bool>, p: Seq<usize>, i: int) -> (j: int)
    requires
        0 <= i < p.len(),
        closed[p[i] as int],
        !closed[p.last() as int],
    ensures
        i < j < p.len(),
        closed[p[j - 1] as int],
        !closed[p[j] as int],
    decreases p.len() - i,
{
    if !closed[p[i + 1] as int] {
        i + 1
    } else {
        lemma_pfirst_open(closed, p, i + 1)
    }
}

/// A walk splits at its `j`-th node into two walks and one step between them.
proof fn lemma_path_parts(graph: &PlatformGraph, p: Seq<usize>, s: usize, t: usize, j: int)
    requires
        is_graph_path(graph, p, s, t),
        0 < j < p.len(),
    ensures
        is_graph_path(graph, p.take(j), s, p[j - 1]),
        is_graph_path(graph, p.subrange(j, p.len() as int), p[j], t),
        has_edge(graph.edge_lists(), p[j - 1] as int, p[j] as int),
        path_cost(graph.edge_lists(), p) == path_cost(graph.edge_lists(), p.take(j))
            + (match step_min(graph.edge_lists()[p[j - 1] as int], p[j]) { Some(c) => c, None => 0 })
            + path_cost(graph.edge_lists(), p.subrange(j, p.len() as int)),
{
    let pa = p.take(j);
    let q = p.subrange(j, p.len() as int);
    assert forall|i: int| 0 <= i < pa.len() implies #[trigger] pa[i] < graph.node_list().len() by {
        assert(pa[i] == p[i]);
    }
    assert forall|i: int| 0 <= i < pa.len() - 1 implies has_edge(graph.edge_lists(), #[trigger] pa[i] as int, pa[i + 1] as int) by {
        assert(pa[i] == p[i] && pa[i + 1] == p[i + 1]);
    }
    assert forall|i: int| 0 <= i < q.len() implies #[trigger] q[i] < graph.node_list().len() by {
        assert(q[i] == p[i + j]);
    }
    assert forall|i: int| 0 <= i < q.len() - 1 implies has_edge(graph.edge_lists(), #[trigger] q[i] as int, q[i + 1] as int) by {
        assert(q[i] == p[i + j] && q[i + 1] == p[i + j + 1]);
    }
    assert(has_edge(graph.edge_lists(), p[j - 1] as int, p[j] as int));
    lemma_path_split(graph.edge_lists(), p, j);
    let pc = p.take(j + 1);
    assert(pc.drop_last() =~= pa);
}

/// `open` holds an entry for node `i` with estimate `f`.
pub open spec fn popen_entry(open: Seq<(usize, i64)>, i: usize, f: int) -> bool {
    exists|j: int| 0 <= j < open.len() && (#[trigger] open[j]).0 == i && open[j].1 == f
}

/// The costs of the search are those of real walks: each link costs at
/// least its cheapest edge; closed nodes have their cheapest cost (when the
/// estimate never overshoots); the edges of closed nodes (but the first `m`
/// of `current`'s) lead to no costlier open node; once `start` is closed,
/// every open node has an entry with its current estimate and no entry of
/// an open node underestimates.
#[verifier::opaque]
pub open spec fn pcost_inv(
    graph: &PlatformGraph,
    start: usize,
    goal: usize,
    came: Map<usize, usize>,
    g: Map<usize, i64>,
    closed: Seq<bool>,
    open: Seq<(usize, i64)>,
    current: int,
    m: int,
    cc: nat,
) -> bool {
    let edges = graph.edge_lists();
    let nodes = graph.node_list();
    let n = nodes.len() as int;
    &&& forall|i: usize| #[trigger] came.contains_key(i) ==> step_min(edges[came[i] as int], i) is Some
        && g[i] >= g[came[i]] + step_min(edges[came[i] as int], i)->0
    &&& costs_cover_distance(graph) ==> forall|v: int| 0 <= v < n && #[trigger] closed[v]
        ==> no_cheaper_path(graph, start, v as usize, g[v as usize] as int)
    &&& forall|a: int, k: int| #![trigger closed[a], edges[a][k]]
        0 <= a < n && closed[a] && 0 <= k < edges[a].len() && (a != current || k < m) && !closed[edges[a][k].to as int]
        ==> g[edges[a][k].to] <= g[a as usize] + edges[a][k].cost
    &&& cc > 0 ==> forall|i: usize| #[trigger] g.contains_key(i) && !closed[i as int]
        ==> popen_entry(open, i, g[i] + est(nodes, i as int, goal as int))
    &&& cc > 0 ==> forall|j: int| 0 <= j < open.len() && !closed[open[j].0 as int]
        ==> #[trigger] open[j].1 >= g[open[j].0] + est(nodes, open[j].0 as int, goal as int)
}

/// The cost invariant holds at the start of the search.
proof fn lemma_pcost_init(graph: &PlatformGraph, start: usize, goal: usize, g: Map<usize, i64>, closed: Seq<bool>, open: Seq<(usize, i64)>)
    requires
        forall|i: int| 0 <= i < closed.len() ==> !closed[i],
        closed.len() == graph.node_list().len(),
    ensures
        pcost_inv(graph, start, goal, Map::empty(), g, closed, open, goal as int, 0, 0),
{
    reveal(pcost_inv);
}

/// One walk from `start` to the node `u` taken from `open` with the lowest
/// estimate costs no less than `u`'s cost.
proof fn lemma_ppop_walk(
    graph: &PlatformGraph,
    start: usize,
    goal: usize,
    came: Map<usize, usize>,
    g: Map<usize, i64>,
    closed: Seq<bool>,
    open: Seq<(usize, i64)>,
    cc: nat,
    b: int,
    p: Seq<usize>,
)
    requires
        graph.wf(),
        costs_cover_distance(graph),
        closed.len() == graph.node_list().len(),
        goal < graph.node_list().len(),
        pfrontier_inv(graph.edge_lists(), graph.node_list().len() as int, goal, g, closed, open, goal as int, 0),
        pcost_inv(graph, start, goal, came, g, closed, open, goal as int, 0, cc),
        cc > 0,
        closed[start as int],
        0 <= b < open.len(),
        !closed[open[b].0 as int],
        forall|j: int| 0 <= j < open.len() ==> open[b].1 <= #[trigger] open[j].1,
        is_graph_path(graph, p, start, open[b].0),
    ensures
        g[open[b].0] <= path_cost(graph.edge_lists(), p),
{
    let edges = graph.edge_lists();
    let nodes = graph.node_list();
    let n = nodes.len() as int;
    let u = open[b].0;
    let j = lemma_pfirst_open(closed, p, 0);
    let a = p[j - 1];
    let c = p[j];
    lemma_path_parts(graph, p, start, u, j);
    let pa = p.take(j);
    let q = p.subrange(j, p.len() as int);
    let es = edges[a as int];
    lemma_step_min(es, c);
    let k = choose|k: int| 0 <= k < es.len() && (#[trigger] es[k]).to == c && es[k].cost == step_min(es, c)->0;
    assert(a < n);
    assert(edges[a as int][k].to == c);
    assert(a != goal);
    assert(g.contains_key(edges[a as int][k].to));
    assert(g[a] <= path_cost(edges, pa)) by {
        reveal(pcost_inv);
        assert(closed[a as int]);
    }
    assert(g[c] <= g[a] + edges[a as int][k].cost) by {
        reveal(pcost_inv);
    }
    assert(popen_entry(open, c, g[c] + est(nodes, c as int, goal as int))) by {
        reveal(pcost_inv);
    }
    assert(open[b].1 >= g[u] + est(nodes, u as int, goal as int)) by {
        reveal(pcost_inv);
    }
    let e = choose|e: int| 0 <= e < open.len() && (#[trigger] open[e]).0 == c && open[e].1 == g[c] + est(nodes, c as int, goal as int);
    assert(open[b].1 <= open[e].1);
    lemma_path_consistent(graph, q, goal as int);
}

/// The node taken from `open` with the lowest estimate has its cheapest cost.
proof fn lemma_ppop_optimal(
    graph: &PlatformGraph,
    start: usize,
    goal: usize,
    came: Map<usize, usize>,
    g: Map<usize, i64>,
    closed: Seq<bool>,
    open: Seq<(usize, i64)>,
    cc: nat,
    b: int,
)
    requires
        graph.wf(),
        costs_cover_distance(graph),
        closed.len() == graph.node_list().len(),
        goal < graph.node_list().len(),
        pfrontier_inv(graph.edge_lists(), graph.node_list().len() as int, goal, g, closed, open, goal as int, 0),
        pcost_inv(graph, start, goal, came, g, closed, open, goal as int, 0, cc),
        cc > 0,
        closed[start as int],
        0 <= b < open.len(),
        !closed[open[b].0 as int],
        forall|j: int| 0 <= j < open.len() ==> open[b].1 <= #[trigger] open[j].1,
    ensures
        no_cheaper_path(graph, start, open[b].0, g[open[b].0] as int),
{
    assert forall|p: Seq<usize>| #[trigger] is_graph_path(graph, p, start, open[b].0)
        implies g[open[b].0] <= path_cost(graph.edge_lists(), p) by {
        lemma_ppop_walk(graph, start, goal, came, g, closed, open, cc, b, p);
    }
}

/// Dropping the entry `b` of `open` for a node that is closed already keeps
/// the cost invariant.
proof fn lemma_pcost_drop(
    graph: &PlatformGraph,
    start: usize,
    goal: usize,
    came: Map<usize, usize>,
    g: Map<usize, i64>,
    closed: Seq<bool>,
    open: Seq<(usize, i64)>,
    cc: nat,
    b: int,
)
    requires
        pcost_inv(graph, start, goal, came, g, closed, open, goal as int, 0, cc),
        0 <= b < open.len(),
        closed[open[b].0 as int],
    ensures
        pcost_inv(graph, start, goal, came, g, closed, open.remove(b), goal as int, 0, cc),
{
    reveal(pcost_inv);
    let o2 = open.remove(b);
    let nodes = graph.node_list();
    if cc > 0 {
        assert forall|i: usize| #[trigger] g.contains_key(i) && !closed[i as int]
            implies popen_entry(o2, i, g[i] + est(nodes, i as int, goal as int)) by {
            let j = choose|j: int| 0 <= j < open.len() && (#[trigger] open[j]).0 == i && open[j].1 == g[i] + est(nodes, i as int, goal as int);
            assert(j != b);
            if j < b {
                assert(o2[j] == open[j]);
            } else {
                assert(o2[j - 1] == open[j]);
            }
        }
        assert forall|j: int| 0 <= j < o2.len() && !closed[o2[j].0 as int]
            implies #[trigger] o2[j].1 >= g[o2[j].0] + est(nodes, o2[j].0 as int, goal as int) by {
            if j < b {
                assert(o2[j] == open[j]);
            } else {
                assert(o2[j] == open[j + 1]);
            }
        }
    }
}

/// Removing the entry `b` (for `current`) from `open` and closing `current`
/// at its cheapest cost keeps the cost invariant, with `current`'s edges
/// still to visit.
proof fn lemma_pcost_close(
    graph: &PlatformGraph,
    start: usize,
    goal: usize,
    came: Map<usize, usize>,
    g: Map<usize, i64>,
    closed: Seq<bool>,
    open: Seq<(usize, i64)>,
    cc: nat,
    b: int,
    current: usize,
)
    requires
        pcost_inv(graph, start, goal, came, g, closed, open, goal as int, 0, cc),
        closed.len() == graph.node_list().len(),
        current < graph.node_list().len(),
        0 <= b < open.len(),
        open[b].0 == current,
        !closed[current as int],
        g.contains_key(current),
        costs_cover_distance(graph) ==> no_cheaper_path(graph, start, current, g[current] as int),
        cc == 0 ==> forall|i: usize| #[trigger] g.contains_key(i) ==> i == start,
        cc == 0 ==> forall|j: int| 0 <= j < open.len() ==> (#[trigger] open[j]).0 == start,
        cc == 0 ==> current == start,
        !closed[goal as int],
        graph.wf(),
        forall|i: usize| #[trigger] g.contains_key(i) ==> i < graph.node_list().len(),
        forall|j: int| 0 <= j < open.len() ==> g.contains_key(#[trigger] open[j].0),
    ensures
        pcost_inv(graph, start, goal, came, g, closed.update(current as int, true), open.remove(b), current as int, 0, cc + 1),
{
    reveal(pcost_inv);
    let c2 = closed.update(current as int, true);
    let o2 = open.remove(b);
    let edges = graph.edge_lists();
    let nodes = graph.node_list();
    let n = nodes.len() as int;
    graph.lemma_wf();
    if costs_cover_distance(graph) {
        assert forall|v: int| 0 <= v < n && #[trigger] c2[v] implies no_cheaper_path(graph, start, v as usize, g[v as usize] as int) by {
            if v != current as int {
                assert(closed[v]);
            }
        }
    }
    assert forall|a: int, k: int| #![trigger c2[a], edges[a][k]]
        0 <= a < n && c2[a] && 0 <= k < edges[a].len() && (a != current as int || k < 0) && !c2[edges[a][k].to as int]
        implies g[edges[a][k].to] <= g[a as usize] + edges[a][k].cost by {
        assert(a != current as int);
        assert(closed[a]);
        assert(a != goal as int);
        assert(edges[a][k].to < n);
        assert(!closed[edges[a][k].to as int]);
    }
    assert forall|i: usize| #[trigger] g.contains_key(i) && !c2[i as int]
        implies popen_entry(o2, i, g[i] + est(nodes, i as int, goal as int)) by {
        if cc == 0 {
            assert(i == start);
            assert(c2[current as int]);
        } else {
            assert(i < n);
            assert(i != current);
            assert(!closed[i as int]);
            assert(popen_entry(open, i, g[i] + est(nodes, i as int, goal as int)));
            let j = choose|j: int| 0 <= j < open.len() && (#[trigger] open[j]).0 == i && open[j].1 == g[i] + est(nodes, i as int, goal as int);
            assert(j != b);
            if j < b {
                assert(o2[j] == open[j]);
            } else {
                assert(o2[j - 1] == open[j]);
            }
        }
    }
    assert forall|j: int| 0 <= j < o2.len() && !c2[o2[j].0 as int]
        implies #[trigger] o2[j].1 >= g[o2[j].0] + est(nodes, o2[j].0 as int, goal as int) by {
        if cc == 0 {
            if j < b {
                assert(o2[j] == open[j]);
            } else {
                assert(o2[j] == open[j + 1]);
            }
            assert(c2[current as int]);
        } else if j < b {
            assert(o2[j] == open[j]);
            assert(g.contains_key(open[j].0));
        } else {
            assert(o2[j] == open[j + 1]);
            assert(g.contains_key(open[j + 1].0));
        }
    }
}

/// Linking the target `nb` of `current`'s `m`-th edge at the cost of that
/// edge, when that beats `nb`'s cost, and queueing it with its estimate
/// keeps the cost invariant and covers one more edge.
proof fn lemma_pcost_insert(
    graph: &PlatformGraph,
    start: usize,
    goal: usize,
    came: Map<usize, usize>,
    g: Map<usize, i64>,
    closed: Seq<bool>,
    open: Seq<(usize, i64)>,
    current: usize,
    m: int,
    cc: nat,
    nb: usize,
    t: i64,
    f: i64,
)
    requires
        graph.wf(),
        pcost_inv(graph, start, goal, came, g, closed, open, current as int, m, cc),
        pfrontier_inv(graph.edge_lists(), graph.node_list().len() as int, goal, g, closed, open, current as int, m),
        closed.len() == graph.node_list().len(),
        cc > 0,
        current < graph.node_list().len(),
        closed[current as int],
        g.contains_key(current),
        0 <= m < graph.edge_lists()[current as int].len(),
        graph.edge_lists()[current as int][m].to == nb,
        !closed[nb as int],
        t == g[current] + graph.edge_lists()[current as int][m].cost,
        g.contains_key(nb) ==> t < g[nb],
        f == t + est(graph.node_list(), nb as int, goal as int),
        forall|i: usize| #[trigger] came.contains_key(i) ==> closed[came[i] as int],
        forall|j: int| 0 <= j < open.len() ==> g.contains_key(#[trigger] open[j].0),
        nb < graph.node_list().len(),
        graph.node_list().len() <= i32::MAX,
    ensures
        pcost_inv(graph, start, goal, came.insert(nb, current), g.insert(nb, t), closed, open.push((nb, f)), current as int, m + 1, cc),
{
    reveal(pcost_inv);
    graph.lemma_wf();
    let edges = graph.edge_lists();
    let nodes = graph.node_list();
    let n = nodes.len() as int;
    let came1 = came.insert(nb, current);
    let g1 = g.insert(nb, t);
    let o1 = open.push((nb, f));
    assert(nb != current);
    let es = edges[current as int];
    lemma_step_min(es, nb);
    assert(es[m].to == nb);
    assert forall|i: usize| #[trigger] came1.contains_key(i) implies step_min(edges[came1[i] as int], i) is Some
        && g1[i] >= g1[came1[i]] + step_min(edges[came1[i] as int], i)->0 by {
        if i != nb {
            assert(came.contains_key(i));
            assert(closed[came[i] as int]);
            assert(came[i] != nb);
        } else {
            assert(came1[i] == current);
            assert(step_min(es, nb)->0 <= es[m].cost);
        }
    }
    if costs_cover_distance(graph) {
        assert forall|v: int| 0 <= v < n && #[trigger] closed[v] implies no_cheaper_path(graph, start, v as usize, g1[v as usize] as int) by {
            assert(v != nb as int);
            assert(v as usize != nb);
            assert(g1[v as usize] == g[v as usize]);
            assert(no_cheaper_path(graph, start, v as usize, g[v as usize] as int));
        }
    }
    assert forall|a: int, k: int| #![trigger closed[a], edges[a][k]]
        0 <= a < n && closed[a] && 0 <= k < edges[a].len() && (a != current as int || k < m + 1) && !closed[edges[a][k].to as int]
        implies g1[edges[a][k].to] <= g1[a as usize] + edges[a][k].cost by {
        assert(a != nb as int);
        assert(a as usize != nb);
        assert(g1[a as usize] == g[a as usize]);
        assert(edges[a][k].to < n);
        if a == current as int && k == m {
        } else {
            assert(a != current as int || k < m);
            if edges[a][k].to == nb {
                assert(g.contains_key(edges[a][k].to));
            }
        }
    }
    assert forall|i: usize| #[trigger] g1.contains_key(i) && !closed[i as int]
        implies popen_entry(o1, i, g1[i] + est(nodes, i as int, goal as int)) by {
        if i == nb {
            assert(o1[open.len() as int] == (nb, f));
        } else {
            let j = choose|j: int| 0 <= j < open.len() && (#[trigger] open[j]).0 == i && open[j].1 == g[i] + est(nodes, i as int, goal as int);
            assert(o1[j] == open[j]);
        }
    }
    assert forall|j: int| 0 <= j < o1.len() && !closed[o1[j].0 as int]
        implies #[trigger] o1[j].1 >= g1[o1[j].0] + est(nodes, o1[j].0 as int, goal as int) by {
        if j < open.len() {
            assert(o1[j] == open[j]);
            assert(g.contains_key(open[j].0));
        }
    }
}

/// A target of `current`'s `m`-th edge that is closed, or whose cost that
/// edge does not beat, extends the cost invariant by one edge.
proof fn lemma_pcost_skip(
    graph: &PlatformGraph,
    start: usize,
    goal: usize,
    came: Map<usize, usize>,
    g: Map<usize, i64>,
    closed: Seq<bool>,
    open: Seq<(usize, i64)>,
    current: usize,
    m: int,
    cc: nat,
)
    requires
        pcost_inv(graph, start, goal, came, g, closed, open, current as int, m, cc),
        0 <= m < graph.edge_lists()[current as int].len(),
        closed[graph.edge_lists()[current as int][m].to as int]
            || g[graph.edge_lists()[current as int][m].to] <= g[current] + graph.edge_lists()[current as int][m].cost,
    ensures
        pcost_inv(graph, start, goal, came, g, closed, open, current as int, m + 1, cc),
{
    reveal(pcost_inv);
}

/// Following the links back from a costed node gives a walk that costs no
/// more than that node's cost.
proof fn lemma_ptrail_cost(
    graph: &PlatformGraph,
    start: usize,
    goal: usize,
    came: Map<usize, usize>,
    g: Map<usize, i64>,
    closed: Seq<bool>,
    open: Seq<(usize, i64)>,
    current: int,
    m: int,
    cc: nat,
    order: Seq<int>,
    v: usize,
    fuel: nat,
)
    requires
        psearch_inv(graph.edge_lists(), graph.node_list().len() as int, start, came, g, closed, order, cc),
        pcost_inv(graph, start, goal, came, g, closed, open, current, m, cc),
        g.contains_key(v),
        trail_done(came, start, v, fuel),
    ensures
        path_cost(graph.edge_lists(), trail(came, start, v, fuel).reverse()) <= g[v],
    decreases fuel,
{
    reveal(pcost_inv);
    if v == start || !came.contains_key(v) || fuel == 0 {
        assert(trail(came, start, v, fuel) == seq![v]);
        assert(trail(came, start, v, fuel).reverse() =~= seq![v]);
        if v != start {
            assert(came.contains_key(v));
        }
    } else {
        let p = came[v];
        lemma_ptrail_cost(graph, start, goal, came, g, closed, open, current, m, cc, order, p, (fuel - 1) as nat);
        lemma_trail_shape(came, start, p, (fuel - 1) as nat);
        let rest = trail(came, start, p, (fuel - 1) as nat);
        let t = trail(came, start, v, fuel);
        assert(t == seq![v] + rest);
        let rv = t.reverse();
        assert(rv.drop_last() =~= rest.reverse());
        assert(rv[rv.len() - 1] == v);
        assert(rv[rv.len() - 2] == rest[0]);
    }
}

/// Once every edge of the closed node `current` is visited, the cost
/// invariant holds with no node left half visited.
proof fn lemma_pcost_finish(
    graph: &PlatformGraph,
    start: usize,
    goal: usize,
    came: Map<usize, usize>,
    g: Map<usize, i64>,
    closed: Seq<bool>,
    open: Seq<(usize, i64)>,
    current: usize,
    cc: nat,
)
    requires
        pcost_inv(graph, start, goal, came, g, closed, open, current as int, graph.edge_lists()[current as int].len() as int, cc),
        !closed[goal as int],
    ensures
        pcost_inv(graph, start, goal, came, g, closed, open, goal as int, 0, cc),
{
    reveal(pcost_inv);
}

/// Pathfinder over a `PlatformGraph`.
pub struct PlatformPathfinder;

impl PlatformPathfinder {
    /// Search the graph from node `start` to node `goal` (A* with the edge
    /// costs and ten times the Manhattan distance to `goal` as estimate).
    /// Gives the nodes of a walk from `start` to `goal` along edges, or
    /// `None` when no such walk exists.
    #[verifier::spinoff_prover]
    #[verifier::rlimit(50)]
    pub fn find_path_nodes(graph: &PlatformGraph, start: usize, goal: usize) -> (r: Option<Vec<usize>>)
        requires
            graph.wf(),
            graph.node_list().len() <= i32::MAX,
            start < graph.node_list().len(),
            goal < graph.node_list().len(),
        ensures
            start == goal ==> (r matches Some(p) && p@ == seq![start]),
            r matches Some(p) ==> is_graph_path(graph, p@, start, goal),
            r is None ==> !exists|p: Seq<usize>| is_graph_path(graph, p, start, goal),
            costs_cover_distance(graph) ==> (r matches Some(p) ==> forall|q: Seq<usize>| #[trigger] is_graph_path(graph, q, start, goal)
                ==> path_cost(graph.edge_lists(), p@) <= path_cost(graph.edge_lists(), q)),
    {
        let ghost edges = graph.edge_lists();
        let n = graph.nodes.len();
        let ghost nn = n as int;
        let mut came: Vec<Option<usize>> = Vec::new();
        let mut g: Vec<Option<i64>> = Vec::new();
        let mut closed: Vec<bool> = Vec::new();
        let mut k: usize = 0;
        while k < n
            invariant
                k <= n,
                came@.len() == k,
                g@.len() == k,
                closed@.len() == k,
                forall|j: int| 0 <= j < k ==> (#[trigger] came@[j]) is None,
                forall|j: int| 0 <= j < k ==> (#[trigger] g@[j]) is None,
                forall|j: int| 0 <= j < k ==> !(#[trigger] closed@[j]),
            decreases n - k,
        {
            came.push(None);
            g.push(None);
            closed.push(false);
            k = k + 1;
        }
        proof {
            lemma_opt_map_update(g@, start, 0i64);
            assert(opt_map(came@) =~= Map::<usize, usize>::empty());
            assert(opt_map(g@) =~= Map::<usize, i64>::empty());
        }
        g.set(start, Some(0));
        assert(opt_map(g@) == Map::<usize, i64>::empty().insert(start, 0i64));
        let mut open: Vec<(usize, i64)> = Vec::new();
        open.push((start, 0));
        let ghost mut order: Seq<int> = Seq::new(nn as nat, |i: int| 0int);
        let ghost mut cc: nat = 0;
        proof {
            lemma_count_true_none(closed@);
            assert(psearch_inv(edges, nn, start, opt_map(came@), opt_map(g@), closed@, order, cc));
            assert forall|i: usize| #[trigger] opt_map(g@).contains_key(i) implies closed@[i as int] || popen_has(open@, i) by {
                assert(open@[0].0 == start);
            }
            assert(pfrontier_inv(edges, nn, goal, opt_map(g@), closed@, open@, goal as int, 0));
            lemma_pcost_init(graph, start, goal, opt_map(g@), closed@, open@);
        }
        while open.len() > 0
            invariant
                graph.wf(),
                edges == graph.edge_lists(),
                n == graph.node_list().len(),
                nn == n,
                n <= i32::MAX,
                start < n,
                goal < n,
                came@.len() == n,
                g@.len() == n,
                closed@.len() == n,
                count_true(closed@) == cc,
                cc <= n,
                cc == 0 ==> forall|j: int| 0 <= j < open@.len() ==> (#[trigger] open@[j]).0 == start,
                cc > 0 ==> closed@[start as int],
                cc > 0 ==> start != goal,
                psearch_inv(edges, nn, start, opt_map(came@), opt_map(g@), closed@, order, cc),
                forall|j: int| 0 <= j < open@.len() ==> opt_map(g@).contains_key(#[trigger] open@[j].0),
                pfrontier_inv(edges, nn, goal, opt_map(g@), closed@, open@, goal as int, 0),
                pcost_inv(graph, start, goal, opt_map(came@), opt_map(g@), closed@, open@, goal as int, 0, cc),
                cc == 0 ==> forall|j: int| 0 <= j < nn ==> !(#[trigger] closed@[j]),
            decreases n - cc, open@.len(),
        {
            let ghost open0 = open@;
            let e = pop_cheapest(&mut open);
            let current = e.0;
            let ghost b = choose|b: int| 0 <= b < open0.len() && e == open0[b] && open@ == open0.remove(b);
            proof {
                assert(opt_map(g@).contains_key(open0[b].0));
                assert forall|i: int| 0 <= i < open@.len() implies opt_map(g@).contains_key(#[trigger] open@[i].0) by {
                    if i < b {
                        assert(open@[i] == open0[i]);
                    } else {
                        assert(open@[i] == open0[i + 1]);
                    }
                    assert(opt_map(g@).contains_key(open0[i].0) || true);
                }
            }
            if current == goal {
                proof {
                    lemma_psearch_trail(edges, nn, start, opt_map(came@), opt_map(g@), closed@, order, cc, goal);
                }
                let path = reconstruct_nodes(&came, start, goal);
                proof {
                    let cm = opt_map(came@);
                    let fuel = choose|fuel: nat| trail_done(cm, start, goal, fuel) && path@ == #[trigger] trail(cm, start, goal, fuel).reverse();
                    lemma_pgoal_path(graph, start, goal, cm, opt_map(g@), closed@, order, cc, path@, fuel);
                    if start == goal {
                        assert(trail(cm, start, goal, fuel) == seq![goal]);
                        assert(path@ =~= seq![start]);
                    }
                    let gm = opt_map(g@);
                    lemma_ptrail_cost(graph, start, goal, cm, gm, closed@, open0, goal as int, 0, cc, order, goal, fuel);
                    if costs_cover_distance(graph) {
                        assert forall|q: Seq<usize>| #[trigger] is_graph_path(graph, q, start, goal)
                            implies path_cost(graph.edge_lists(), path@) <= path_cost(graph.edge_lists(), q) by {
                            if cc > 0 {
                                assert(!closed@[open0[b].0 as int]);
                                lemma_ppop_optimal(graph, start, goal, cm, gm, closed@, open0, cc, b);
                            } else {
                                assert(open0[b].0 == start);
                                lemma_path_consistent(graph, q, goal as int);
                            }
                        }
                    }
                }
                return Some(path);
            }
            if closed[current] {
                proof {
                    lemma_pfrontier_drop(edges, nn, goal, opt_map(g@), closed@, open0, b);
                    lemma_pcost_drop(graph, start, goal, opt_map(came@), opt_map(g@), closed@, open0, cc, b);
                }
                continue;
            }
            let ghost gm = opt_map(g@);
            proof {
                if cc == 0 {
                    assert(open0[b].0 == start);
                }
                lemma_count_true_set(closed@, current as int);
                lemma_count_true_bound(closed@.update(current as int, true));
                lemma_pclose_node(edges, nn, start, opt_map(came@), gm, closed@, order, cc, current);
                lemma_pfrontier_close(edges, nn, goal, gm, closed@, open0, b, current);
                if costs_cover_distance(graph) {
                    if cc > 0 {
                        lemma_ppop_optimal(graph, start, goal, opt_map(came@), gm, closed@, open0, cc, b);
                    } else {
                        assert forall|q: Seq<usize>| #[trigger] is_graph_path(graph, q, start, current)
                            implies gm[current] <= path_cost(graph.edge_lists(), q) by {
                            lemma_path_consistent(graph, q, goal as int);
                        }
                    }
                }
                if cc == 0 {
                    assert forall|i: usize| #[trigger] gm.contains_key(i) implies i == start by {
                        if i != start {
                            assert(opt_map(came@).contains_key(i));
                        }
                    }
                }
                lemma_pcost_close(graph, start, goal, opt_map(came@), gm, closed@, open0, cc, b, current);
            }
            closed.set(current, true);
            proof {
                order = order.update(current as int, cc as int);
                cc = cc + 1;
            }
            let gc: i64 = match g[current] {
                Some(v) => v,
                None => 0,
            };
            relax_edges(graph, start, goal, current, gc, &mut came, &mut g, &closed, &mut open, Ghost(order), Ghost(cc));
            proof {
                lemma_pcost_finish(graph, start, goal, opt_map(came@), opt_map(g@), closed@, open@, current, cc);
                let gv = opt_map(g@);
                assert forall|i: int, k: int| #![trigger closed@[i], edges[i][k]]
                    0 <= i < nn && closed@[i] && 0 <= k < edges[i].len() && (i != goal as int || k < 0)
                    implies gv.contains_key(edges[i][k].to) by {
                }
            }
        }
        proof {
            assert forall|p: Seq<usize>| !is_graph_path(graph, p, start, goal) by {
                lemma_pexhausted(graph, start, goal, opt_map(came@), opt_map(g@), closed@, order, cc, p);
            }
        }
        None
    }
}

impl PlatformPathfinder {
    /// Find a path through the platform graph between the nodes nearest to
    /// the cells `start` and `goal` (see `nearest_node`): `None` when the
    /// graph has no nodes; both nodes (the same one twice) when they
    /// coincide; else the nodes of a walk along edges from the first to the
    /// second (see `find_path_nodes`), or `None` when there is none.
    pub fn find_path(graph: &PlatformGraph, start: GridNode, goal: GridNode) -> (r: Option<Vec<usize>>)
        requires
            graph.wf(),
            graph.node_list().len() <= i32::MAX,
        ensures
            nearest_spec(graph, start.x as int, start.y as int) is None ==> r is None,
            nearest_spec(graph, goal.x as int, goal.y as int) is None ==> r is None,
            (nearest_spec(graph, start.x as int, start.y as int), nearest_spec(graph, goal.x as int, goal.y as int))
                matches (Some(s), Some(t)) ==> {
                &&& s == t ==> (r matches Some(p) && p@ == seq![s, s])
                &&& s != t ==> (r matches Some(p) ==> is_graph_path(graph, p@, s, t))
                &&& s != t && r is None ==> !exists|p: Seq<usize>| is_graph_path(graph, p, s, t)
                &&& s != t && costs_cover_distance(graph) ==> (r matches Some(p) ==> forall|q: Seq<usize>|
                    #[trigger] is_graph_path(graph, q, s, t) ==> path_cost(graph.edge_lists(), p@) <= path_cost(graph.edge_lists(), q))
            },
            graph.node_list().len() == 0 ==> r is None,
            graph.node_list().len() > 0 ==> nearest_spec(graph, start.x as int, start.y as int) is Some
                && nearest_spec(graph, goal.x as int, goal.y as int) is Some,
    {
        let s = match graph.nearest_node(start.x, start.y) {
            Some(i) => i,
            None => {
                return None;
            },
        };
        let t = match graph.nearest_node(goal.x, goal.y) {
            Some(i) => i,
            None => {
                return None;
            },
        };
        proof {
            assert(s < graph.node_list().len()) by {
                let nodes = graph.node_list();
                let idx = graph.index_of();
                if node_at(idx, start.x as int, start.y as int) is Some {
                    assert(idx.contains_key(GridNode { x: start.x, y: start.y }));
                } else if search_down(idx, start.x as int, start.y as int, 0, nodes.len() as int) is Some {
                    lemma_search_down_node(graph, start.x as int, start.y as int, 0, nodes.len() as int);
                }
            }
            assert(t < graph.node_list().len()) by {
                let nodes = graph.node_list();
                let idx = graph.index_of();
                if node_at(idx, goal.x as int, goal.y as int) is Some {
                    assert(idx.contains_key(GridNode { x: goal.x, y: goal.y }));
                } else if search_down(idx, goal.x as int, goal.y as int, 0, nodes.len() as int) is Some {
                    lemma_search_down_node(graph, goal.x as int, goal.y as int, 0, nodes.len() as int);
                }
            }
        }
        if s == t {
            let mut v: Vec<usize> = Vec::new();
            v.push(s);
            v.push(t);
            return Some(v);
        }
        Self::find_path_nodes(graph, s, t)
    }
}

/// What the downward search finds is a node.
proof fn lemma_search_down_node(graph: &PlatformGraph, gx: int, gy: int, d: int, n: int)
    requires
        graph.wf(),
        search_down(graph.index_of(), gx, gy, d, n) is Some,
    ensures
        search_down(graph.index_of(), gx, gy, d, n).unwrap() < graph.node_list().len(),
    decreases n - d,
{
    reveal(PlatformGraph::wf);
    let idx = graph.index_of();
    if d < n && node_at(idx, gx - 1, gy + d) is None && node_at(idx, gx, gy + d) is None && node_at(idx, gx + 1, gy + d) is None {
        lemma_search_down_node(graph, gx, gy, d + 1, n);
    }
}

impl Default for PlatformGraph {
    /// An empty graph.
    fn default() -> (g: Self)
        ensures
            g.wf(),
            g.node_list() == Seq::<PlatformNode>::empty(),
            g.edge_lists() == Seq::<Seq<PlatformEdge>>::empty(),
            g.index_of() == Map::<GridNode, usize>::empty(),
    {
        let g = PlatformGraph { nodes: Vec::new(), node_index: CellMap::new(0, 0), edges: Vec::new() };
        assert(g.edge_lists() =~= Seq::<Seq<PlatformEdge>>::empty());
        g
    }
}

} // verus!
