//! A* pathfinding on walkability grids (top-down 4/8-directional) and on
//! platform reachability graphs.
use vstd::prelude::*;

verus! {

/// How movement is modeled on a nav grid.
#[derive(Clone, Copy, Debug, PartialEq, Eq, Structural)]
pub enum PathfindingMode {
    /// 8-directional movement (standard top-down RPG / twin-stick).
    TopDown8,
    /// 4-directional cardinal movement (top-down roguelike / grid strategy).
    TopDown4,
    /// Platform-game movement (walk, fall and jump arcs over a platform graph);
    /// on the grid itself it moves as `TopDown8`.
    Platformer,
}

impl Default for PathfindingMode {
    fn default() -> (m: Self)
        ensures
            m == PathfindingMode::TopDown8,
    {
        PathfindingMode::TopDown8
    }
}

/// Integer grid coordinate used during pathfinding.
#[derive(Clone, Copy, Debug, PartialEq, Eq, Structural, Hash)]
pub struct GridNode {
    pub x: i32,
    pub y: i32,
}

pub open spec fn abs_int(v: int) -> int {
    if v < 0 { -v } else { v }
}

pub open spec fn manhattan(a: GridNode, b: GridNode) -> int {
    abs_int(a.x - b.x) + abs_int(a.y - b.y)
}

impl GridNode {
    pub fn new(x: i32, y: i32) -> (n: Self)
        ensures
            n.x == x && n.y == y,
    {
        GridNode { x, y }
    }

    /// Manhattan distance to another node.
    pub fn manhattan_distance(&self, other: &GridNode) -> (d: i32)
        requires
            manhattan(*self, *other) <= i32::MAX,
        ensures
            d == manhattan(*self, *other),
    {
        let dx: i64 = self.x as i64 - other.x as i64;
        let dy: i64 = self.y as i64 - other.y as i64;
        let ax: i64 = if dx < 0 { -dx } else { dx };
        let ay: i64 = if dy < 0 { -dy } else { dy };
        (ax + ay) as i32
    }
}

/// Row-major position of cell (x, y) in a grid `width` cells wide.
pub open spec fn cell_index(width: int, x: int, y: int) -> int {
    y * width + x
}

pub proof fn lemma_cell_index(width: int, height: int, x: int, y: int)
    requires
        0 <= x < width,
        0 <= y < height,
    ensures
        0 <= cell_index(width, x, y) < width * height,
{
    assert(0 <= y * width) by (nonlinear_arith)
        requires
            0 <= y,
            0 <= width,
    ;
    assert(y * width + x < width * height) by (nonlinear_arith)
        requires
            0 <= x < width,
            0 <= y < height,
    ;
}

/// Distinct cells have distinct positions.
pub proof fn lemma_cell_index_injective(width: int, x1: int, y1: int, x2: int, y2: int)
    requires
        0 <= x1 < width,
        0 <= x2 < width,
        0 <= y1,
        0 <= y2,
        cell_index(width, x1, y1) == cell_index(width, x2, y2),
    ensures
        x1 == x2 && y1 == y2,
{
    if y1 < y2 {
        assert(y1 * width + width <= y2 * width) by (nonlinear_arith)
            requires
                y1 < y2,
                0 <= width,
        ;
    } else if y2 < y1 {
        assert(y2 * width + width <= y1 * width) by (nonlinear_arith)
            requires
                y2 < y1,
                0 <= width,
        ;
    }
}

/// A map from the cells of a grid to values.
#[derive(Debug)]
pub struct CellMap<V> {
    width: usize,
    height: usize,
    cells: Vec<Option<V>>,
}

impl<V> CellMap<V> {
    pub closed spec fn wf(&self) -> bool {
        &&& self.cells@.len() == self.width * self.height
        &&& self.width <= i32::MAX
        &&& self.height <= i32::MAX
    }

    pub closed spec fn width_spec(&self) -> nat {
        self.width as nat
    }

    pub closed spec fn height_spec(&self) -> nat {
        self.height as nat
    }

    pub open spec fn in_bounds(&self, n: GridNode) -> bool {
        0 <= n.x < self.width_spec() && 0 <= n.y < self.height_spec()
    }

    /// The map's entries, by node.
    pub closed spec fn entries(&self) -> Map<GridNode, V> {
        Map::new(
            |n: GridNode| self.in_bounds(n) && self.cells@[cell_index(self.width as int, n.x as int, n.y as int)] is Some,
            |n: GridNode| self.cells@[cell_index(self.width as int, n.x as int, n.y as int)].unwrap(),
        )
    }

    /// An empty map over a `width` x `height` grid.
    pub fn new(width: usize, height: usize) -> (m: Self)
        requires
            width * height <= usize::MAX,
            width <= i32::MAX,
            height <= i32::MAX,
        ensures
            m.wf(),
            m.width_spec() == width,
            m.height_spec() == height,
            m.entries() == Map::<GridNode, V>::empty(),
    {
        let n = width * height;
        let mut cells: Vec<Option<V>> = Vec::new();
        let mut i: usize = 0;
        while i < n
            invariant
                i <= n,
                cells@.len() == i,
                forall|j: int| 0 <= j < i ==> cells@[j] is None,
            decreases n - i,
        {
            cells.push(None);
            i = i + 1;
        }
        let m = CellMap { width, height, cells };
        assert forall|q: GridNode| !#[trigger] m.entries().contains_key(q) by {
            if m.in_bounds(q) {
                lemma_cell_index(width as int, height as int, q.x as int, q.y as int);
            }
        }
        assert(m.entries() =~= Map::<GridNode, V>::empty());
        m
    }

    /// Position of an in-bounds node.
    fn index(&self, n: GridNode) -> (i: usize)
        requires
            self.wf(),
            self.in_bounds(n),
        ensures
            i == cell_index(self.width as int, n.x as int, n.y as int),
            i < self.cells@.len(),
    {
        proof {
            lemma_cell_index(self.width as int, self.height as int, n.x as int, n.y as int);
            assert((n.y as usize) as int == n.y as int);
            assert((n.x as usize) as int == n.x as int);
        }
        let len = self.cells.len();
        let yy = n.y as usize;
        let xx = n.x as usize;
        assert(yy * self.width <= yy * self.width + xx < len);
        assert(yy * self.width + xx == cell_index(self.width as int, n.x as int, n.y as int));
        yy * self.width + xx
    }

    pub fn is_in_bounds(&self, n: GridNode) -> (b: bool)
        requires
            self.wf(),
        ensures
            b == self.in_bounds(n),
    {
        n.x >= 0 && (n.x as usize) < self.width && n.y >= 0 && (n.y as usize) < self.height
    }

    pub fn get(&self, n: GridNode) -> (r: Option<&V>)
        requires
            self.wf(),
        ensures
            match r {
                Some(v) => self.entries().contains_key(n) && *v == self.entries()[n],
                None => !self.entries().contains_key(n),
            },
    {
        if !self.is_in_bounds(n) {
            return None;
        }
        let i = self.index(n);
        match &self.cells[i] {
            Some(v) => Some(v),
            None => None,
        }
    }

    pub fn insert(&mut self, n: GridNode, v: V)
        requires
            old(self).wf(),
            old(self).in_bounds(n),
        ensures
            final(self).wf(),
            final(self).width_spec() == old(self).width_spec(),
            final(self).height_spec() == old(self).height_spec(),
            final(self).entries() == old(self).entries().insert(n, v),
    {
        let i = self.index(n);
        self.cells.set(i, Some(v));
        proof {
            assert forall|m: GridNode| #[trigger] self.entries().contains_key(m) == old(self).entries().insert(n, v).contains_key(m)
                && (self.entries().contains_key(m) ==> self.entries()[m] == old(self).entries().insert(n, v)[m]) by {
                if self.in_bounds(m) {
                    lemma_cell_index(self.width as int, self.height as int, m.x as int, m.y as int);
                    if m != n && cell_index(self.width as int, m.x as int, m.y as int) == i {
                        lemma_cell_index_injective(self.width as int, m.x as int, m.y as int, n.x as int, n.y as int);
                    }
                }
            }
            assert(self.entries() =~= old(self).entries().insert(n, v));
        }
    }
}

/// Walkability grid that drives top-down A* and serves as input to the
/// platform graph builder.
#[derive(Clone, Debug)]
pub struct PathfindingGrid {
    width: usize,
    height: usize,
    /// Row-major: `[y * width + x]`; `true` = walkable.
    walkable: Vec<bool>,
}

impl PathfindingGrid {
    pub closed spec fn wf(&self) -> bool {
        &&& self.walkable@.len() == self.width * self.height
        &&& self.width <= i32::MAX
        &&& self.height <= i32::MAX
    }

    pub closed spec fn width_spec(&self) -> nat {
        self.width as nat
    }

    pub closed spec fn height_spec(&self) -> nat {
        self.height as nat
    }

    /// The walkability flags, row by row.
    pub closed spec fn cells(&self) -> Seq<bool> {
        self.walkable@
    }

    pub open spec fn valid(&self, x: int, y: int) -> bool {
        0 <= x < self.width_spec() && 0 <= y < self.height_spec()
    }

    /// Cell (x, y) is inside the grid and walkable.
    pub open spec fn walkable_at(&self, x: int, y: int) -> bool {
        self.valid(x, y) && self.cells()[cell_index(self.width_spec() as int, x, y)]
    }

    pub proof fn lemma_wf(&self)
        requires
            self.wf(),
        ensures
            self.cells().len() == self.width_spec() * self.height_spec(),
            self.width_spec() <= i32::MAX,
            self.height_spec() <= i32::MAX,
    {
    }

    /// A grid of `width` x `height` cells, all walkable.
    pub fn new(width: usize, height: usize) -> (g: Self)
        requires
            width * height <= usize::MAX,
            width <= i32::MAX,
            height <= i32::MAX,
        ensures
            g.wf(),
            g.width_spec() == width,
            g.height_spec() == height,
            forall|i: int| 0 <= i < g.cells().len() ==> #[trigger] g.cells()[i],
    {
        let n = width * height;
        let mut walkable: Vec<bool> = Vec::new();
        let mut i: usize = 0;
        while i < n
            invariant
                i <= n,
                walkable@.len() == i,
                forall|j: int| 0 <= j < i ==> walkable@[j],
            decreases n - i,
        {
            walkable.push(true);
            i = i + 1;
        }
        PathfindingGrid { width, height, walkable }
    }

    pub fn width(&self) -> (w: usize)
        ensures
            w == self.width_spec(),
    {
        self.width
    }

    pub fn height(&self) -> (h: usize)
        ensures
            h == self.height_spec(),
    {
        self.height
    }

    pub fn is_valid(&self, node: &GridNode) -> (b: bool)
        requires
            self.wf(),
        ensures
            b == self.valid(node.x as int, node.y as int),
    {
        node.x >= 0 && node.x < self.width as i32 && node.y >= 0 && node.y < self.height as i32
    }

    fn index(&self, node: &GridNode) -> (i: usize)
        requires
            self.wf(),
            self.valid(node.x as int, node.y as int),
        ensures
            i == cell_index(self.width_spec() as int, node.x as int, node.y as int),
            i < self.cells().len(),
    {
        proof {
            lemma_cell_index(self.width as int, self.height as int, node.x as int, node.y as int);
        }
        let len = self.walkable.len();
        let yy = node.y as usize;
        let xx = node.x as usize;
        assert(yy * self.width <= yy * self.width + xx < len);
        assert(yy * self.width + xx == cell_index(self.width as int, node.x as int, node.y as int));
        yy * self.width + xx
    }

    pub fn is_walkable(&self, node: &GridNode) -> (b: bool)
        requires
            self.wf(),
        ensures
            b == self.walkable_at(node.x as int, node.y as int),
    {
        if !self.is_valid(node) {
            return false;
        }
        self.walkable[self.index(node)]
    }

    /// Returns `true` if the cell is not walkable; out-of-bounds counts as solid.
    pub fn is_solid(&self, node: &GridNode) -> (b: bool)
        requires
            self.wf(),
        ensures
            b == !self.walkable_at(node.x as int, node.y as int),
    {
        if !self.is_valid(node) {
            return true;
        }
        !self.walkable[self.index(node)]
    }

    pub fn set_walkable(&mut self, node: GridNode, walkable: bool)
        requires
            old(self).wf(),
        ensures
            final(self).wf(),
            final(self).width_spec() == old(self).width_spec(),
            final(self).height_spec() == old(self).height_spec(),
            old(self).valid(node.x as int, node.y as int) ==> final(self).cells() == old(self).cells().update(
                cell_index(old(self).width_spec() as int, node.x as int, node.y as int),
                walkable,
            ),
            !old(self).valid(node.x as int, node.y as int) ==> final(self).cells() == old(self).cells(),
    {
        if self.is_valid(&node) {
            let idx = self.index(&node);
            self.walkable.set(idx, walkable);
        }
    }

    /// Set every cell of the rectangle at (x, y) of the given size (cells
    /// outside the grid are skipped).
    pub fn set_area_walkable(&mut self, x: i32, y: i32, width: i32, height: i32, walkable: bool)
        requires
            old(self).wf(),
            width <= 0 || x + width - 1 <= i32::MAX,
            height <= 0 || y + height - 1 <= i32::MAX,
        ensures
            final(self).wf(),
            final(self).width_spec() == old(self).width_spec(),
            final(self).height_spec() == old(self).height_spec(),
            final(self).cells().len() == old(self).cells().len(),
            forall|cx: int, cy: int| #![trigger cell_index(old(self).width_spec() as int, cx, cy)]
                old(self).valid(cx, cy) ==> final(self).cells()[cell_index(old(self).width_spec() as int, cx, cy)]
                    == (if x <= cx < x + width && y <= cy < y + height { walkable } else {
                    old(self).cells()[cell_index(old(self).width_spec() as int, cx, cy)]
                }),
    {
        let ghost w = self.width as int;
        let ghost h = self.height as int;
        let mut dy: i32 = 0;
        while dy < height
            invariant
                self.wf(),
                self.width_spec() == w,
                self.height_spec() == h,
                w == old(self).width_spec(),
                h == old(self).height_spec(),
                self.cells().len() == old(self).cells().len(),
                0 <= dy,
                height <= 0 ==> dy == 0,
                height <= 0 || dy <= height,
                height <= 0 || y + height - 1 <= i32::MAX,
                width <= 0 || x + width - 1 <= i32::MAX,
                forall|cx: int, cy: int| #![trigger cell_index(w, cx, cy)]
                    0 <= cx < w && 0 <= cy < h ==> self.cells()[cell_index(w, cx, cy)]
                        == (if x <= cx < x + width && y <= cy < y + dy { walkable } else {
                        old(self).cells()[cell_index(w, cx, cy)]
                    }),
            decreases height - dy,
        {
            let mut dx: i32 = 0;
            while dx < width
                invariant
                    self.wf(),
                    self.width_spec() == w,
                    self.height_spec() == h,
                    self.cells().len() == old(self).cells().len(),
                    0 <= dx,
                    dx <= width || (width <= 0 && dx == 0),
                    0 <= dy < height,
                    y + height - 1 <= i32::MAX,
                    width <= 0 || x + width - 1 <= i32::MAX,
                    forall|cx: int, cy: int| #![trigger cell_index(w, cx, cy)]
                        0 <= cx < w && 0 <= cy < h ==> self.cells()[cell_index(w, cx, cy)]
                            == (if (x <= cx < x + width && y <= cy < y + dy) || (x <= cx < x + dx && cy == y + dy) {
                            walkable
                        } else {
                            old(self).cells()[cell_index(w, cx, cy)]
                        }),
                decreases width - dx,
            {
                let node = GridNode::new(x + dx, y + dy);
                let ghost before = self.cells();
                self.set_walkable(node, walkable);
                proof {
                    let ni = cell_index(w, node.x as int, node.y as int);
                    assert forall|cx: int, cy: int| #![trigger cell_index(w, cx, cy)]
                        0 <= cx < w && 0 <= cy < h implies self.cells()[cell_index(w, cx, cy)]
                            == (if (x <= cx < x + width && y <= cy < y + dy) || (x <= cx < x + dx + 1 && cy == y + dy) {
                            walkable
                        } else {
                            old(self).cells()[cell_index(w, cx, cy)]
                        }) by {
                        lemma_cell_index(w, h, cx, cy);
                        let ci = cell_index(w, cx, cy);
                        assert(before[ci] == (if (x <= cx < x + width && y <= cy < y + dy) || (x <= cx < x + dx && cy == y + dy) {
                            walkable
                        } else {
                            old(self).cells()[ci]
                        }));
                        if self.valid(node.x as int, node.y as int) {
                            lemma_cell_index(w, h, node.x as int, node.y as int);
                            assert(self.cells() == before.update(ni, walkable));
                            if ci == ni {
                                lemma_cell_index_injective(w, cx, cy, node.x as int, node.y as int);
                                assert(self.cells()[ci] == walkable);
                            } else {
                                assert(self.cells()[ci] == before[ci]);
                                assert(!(cx == node.x && cy == node.y));
                            }
                        } else {
                            assert(self.cells()[ci] == before[ci]);
                        }
                    }
                }
                dx = dx + 1;
            }
            proof {
                assert forall|cx: int, cy: int| #![trigger cell_index(w, cx, cy)]
                    0 <= cx < w && 0 <= cy < h implies self.cells()[cell_index(w, cx, cy)]
                        == (if x <= cx < x + width && y <= cy < y + dy + 1 { walkable } else {
                        old(self).cells()[cell_index(w, cx, cy)]
                    }) by {
                    if width <= 0 {
                        assert(!(x <= cx < x + width));
                    }
                }
            }
            dy = dy + 1;
        }
        proof {
            assert forall|cx: int, cy: int| #![trigger cell_index(old(self).width_spec() as int, cx, cy)]
                old(self).valid(cx, cy) implies self.cells()[cell_index(old(self).width_spec() as int, cx, cy)]
                    == (if x <= cx < x + width && y <= cy < y + height { walkable } else {
                    old(self).cells()[cell_index(old(self).width_spec() as int, cx, cy)]
                }) by {
                assert(0 <= cx < w && 0 <= cy < h);
                assert(cell_index(w, cx, cy) == cell_index(old(self).width_spec() as int, cx, cy));
                assert(self.cells()[cell_index(w, cx, cy)] == (if x <= cx < x + width && y <= cy < y + dy { walkable } else {
                        old(self).cells()[cell_index(w, cx, cy)]
                    }));
                if height > 0 {
                    assert(dy == height);
                }
                if height <= 0 {
                    assert(!(y <= cy < y + height));
                }
            }
        }
    }

    /// Fill the entire grid with a single walkability value.
    pub fn fill(&mut self, walkable: bool)
        requires
            old(self).wf(),
        ensures
            final(self).wf(),
            final(self).width_spec() == old(self).width_spec(),
            final(self).height_spec() == old(self).height_spec(),
            final(self).cells().len() == old(self).cells().len(),
            forall|i: int| 0 <= i < final(self).cells().len() ==> #[trigger] final(self).cells()[i] == walkable,
    {
        let n = self.walkable.len();
        let mut i: usize = 0;
        while i < n
            invariant
                self.wf(),
                self.width_spec() == old(self).width_spec(),
                self.height_spec() == old(self).height_spec(),
                n == self.cells().len(),
                i <= n,
                forall|j: int| 0 <= j < i ==> #[trigger] self.cells()[j] == walkable,
            decreases n - i,
        {
            self.walkable.set(i, walkable);
            i = i + 1;
        }
    }

    /// Raw access to the walkable flags (for serialisation / gizmo rendering).
    pub fn walkable_slice(&self) -> (s: &[bool])
        ensures
            s@ == self.cells(),
    {
        self.walkable.as_slice()
    }
}

/// The 8 directions in the order the neighbor scan visits them.
pub open spec fn dirs8() -> Seq<(i32, i32)> {
    seq![(-1i32, -1i32), (0i32, -1i32), (1i32, -1i32), (-1i32, 0i32), (1i32, 0i32), (-1i32, 1i32), (0i32, 1i32), (1i32, 1i32)]
}

/// The 4 cardinal directions in scan order.
pub open spec fn dirs4() -> Seq<(i32, i32)> {
    seq![(0i32, -1i32), (1i32, 0i32), (0i32, 1i32), (-1i32, 0i32)]
}

/// `n` moved by `d`.
pub open spec fn shift(n: GridNode, d: (i32, i32)) -> GridNode {
    GridNode { x: (n.x + d.0) as i32, y: (n.y + d.1) as i32 }
}

/// Coordinates one step away from `n` do not overflow.
pub open spec fn interior(n: GridNode) -> bool {
    i32::MIN < n.x < i32::MAX && i32::MIN < n.y < i32::MAX
}

impl PathfindingGrid {
    /// An 8-directional move from `n` by `d` lands on a walkable cell without
    /// cutting a corner.
    pub open spec fn step8_ok(&self, n: GridNode, d: (i32, i32)) -> bool {
        &&& self.walkable_at(n.x + d.0, n.y + d.1)
        &&& (d.0 != 0 && d.1 != 0 ==> self.walkable_at(n.x + d.0, n.y as int) && self.walkable_at(n.x as int, n.y + d.1))
    }

    pub open spec fn step4_ok(&self, n: GridNode, d: (i32, i32)) -> bool {
        self.walkable_at(n.x + d.0, n.y + d.1)
    }

    /// The 8-directional neighbors of `n`, in scan order.
    pub open spec fn neighbors8(&self, n: GridNode) -> Seq<GridNode> {
        dirs8().filter(|d: (i32, i32)| self.step8_ok(n, d)).map_values(|d: (i32, i32)| shift(n, d))
    }

    /// The 4-directional neighbors of `n`, in scan order.
    pub open spec fn neighbors4(&self, n: GridNode) -> Seq<GridNode> {
        dirs4().filter(|d: (i32, i32)| self.step4_ok(n, d)).map_values(|d: (i32, i32)| shift(n, d))
    }

    /// The cells reachable from `n` in one move under `mode`.
    #[verifier::opaque]
    pub open spec fn neighbors_spec(&self, n: GridNode, mode: PathfindingMode) -> Seq<GridNode> {
        match mode {
            PathfindingMode::TopDown4 => self.neighbors4(n),
            _ => self.neighbors8(n),
        }
    }

    fn neighbors_topdown8(&self, node: &GridNode) -> (r: Vec<GridNode>)
        requires
            self.wf(),
            interior(*node),
        ensures
            r@ == self.neighbors8(*node),
    {
        let dirs: [(i32, i32); 8] = [(-1, -1), (0, -1), (1, -1), (-1, 0), (1, 0), (-1, 1), (0, 1), (1, 1)];
        assert(dirs@ =~= dirs8());
        let ghost p = |d: (i32, i32)| self.step8_ok(*node, d);
        let ghost f = |d: (i32, i32)| shift(*node, d);
        let mut result: Vec<GridNode> = Vec::new();
        let mut i: usize = 0;
        while i < 8
            invariant
                self.wf(),
                interior(*node),
                dirs@ == dirs8(),
                p == (|d: (i32, i32)| self.step8_ok(*node, d)),
                f == (|d: (i32, i32)| shift(*node, d)),
                i <= 8,
                result@ == dirs8().take(i as int).filter(p).map_values(f),
            decreases 8 - i,
        {
            let (dx, dy) = dirs[i];
            let nb = GridNode::new(node.x + dx, node.y + dy);
            let mut ok = self.is_walkable(&nb);
            if ok && dx != 0 && dy != 0 {
                if !self.is_walkable(&GridNode::new(node.x + dx, node.y)) || !self.is_walkable(&GridNode::new(node.x, node.y + dy)) {
                    ok = false;
                }
            }
            proof {
                reveal_with_fuel(Seq::<_>::filter, 1);
                assert(dirs8().take(i + 1).drop_last() =~= dirs8().take(i as int));
                assert(ok == p(dirs8()[i as int]));
            }
            if ok {
                result.push(nb);
                assert(dirs8().take(i + 1).filter(p) == dirs8().take(i as int).filter(p).push(dirs8()[i as int]));
                assert(result@ =~= dirs8().take(i + 1).filter(p).map_values(f));
            } else {
                assert(dirs8().take(i + 1).filter(p) == dirs8().take(i as int).filter(p));
            }
            i = i + 1;
        }
        assert(dirs8().take(8) =~= dirs8());
        result
    }

    fn neighbors_topdown4(&self, node: &GridNode) -> (r: Vec<GridNode>)
        requires
            self.wf(),
            interior(*node),
        ensures
            r@ == self.neighbors4(*node),
    {
        let dirs: [(i32, i32); 4] = [(0, -1), (1, 0), (0, 1), (-1, 0)];
        assert(dirs@ =~= dirs4());
        let ghost p = |d: (i32, i32)| self.step4_ok(*node, d);
        let ghost f = |d: (i32, i32)| shift(*node, d);
        let mut result: Vec<GridNode> = Vec::new();
        let mut i: usize = 0;
        while i < 4
            invariant
                self.wf(),
                interior(*node),
                dirs@ == dirs4(),
                p == (|d: (i32, i32)| self.step4_ok(*node, d)),
                f == (|d: (i32, i32)| shift(*node, d)),
                i <= 4,
                result@ == dirs4().take(i as int).filter(p).map_values(f),
            decreases 4 - i,
        {
            let (dx, dy) = dirs[i];
            let nb = GridNode::new(node.x + dx, node.y + dy);
            let ok = self.is_walkable(&nb);
            proof {
                reveal_with_fuel(Seq::<_>::filter, 1);
                assert(dirs4().take(i + 1).drop_last() =~= dirs4().take(i as int));
                assert(ok == p(dirs4()[i as int]));
            }
            if ok {
                result.push(nb);
                assert(dirs4().take(i + 1).filter(p) == dirs4().take(i as int).filter(p).push(dirs4()[i as int]));
                assert(result@ =~= dirs4().take(i + 1).filter(p).map_values(f));
            } else {
                assert(dirs4().take(i + 1).filter(p) == dirs4().take(i as int).filter(p));
            }
            i = i + 1;
        }
        assert(dirs4().take(4) =~= dirs4());
        result
    }

    /// The cells reachable from `node` in one move under `mode`.
    pub fn get_neighbors(&self, node: &GridNode, mode: PathfindingMode) -> (r: Vec<GridNode>)
        requires
            self.wf(),
            interior(*node),
        ensures
            r@ == self.neighbors_spec(*node, mode),
    {
        reveal(PathfindingGrid::neighbors_spec);
        match mode {
            PathfindingMode::TopDown4 => self.neighbors_topdown4(node),
            _ => self.neighbors_topdown8(node),
        }
    }
}

/// The walk from `n` following `came` links, stopping at `start`, at a node
/// without a link, or after `fuel` links.
pub open spec fn trail<K>(came: Map<K, K>, start: K, n: K, fuel: nat) -> Seq<K>
    decreases fuel,
{
    if n == start || !came.contains_key(n) || fuel == 0 {
        seq![n]
    } else {
        seq![n] + trail(came, start, came[n], (fuel - 1) as nat)
    }
}

/// Following `came` links from `n` stops (at `start` or at a node without a
/// link) within `fuel` links.
pub open spec fn trail_done<K>(came: Map<K, K>, start: K, n: K, fuel: nat) -> bool
    decreases fuel,
{
    if n == start || !came.contains_key(n) {
        true
    } else if fuel == 0 {
        false
    } else {
        trail_done(came, start, came[n], (fuel - 1) as nat)
    }
}

pub proof fn lemma_trail_shape<K>(came: Map<K, K>, start: K, n: K, fuel: nat)
    requires
        trail_done(came, start, n, fuel),
    ensures
        trail(came, start, n, fuel).len() >= 1,
        trail(came, start, n, fuel)[0] == n,
        ({
            let t = trail(came, start, n, fuel);
            t.last() == start || !came.contains_key(t.last())
        }),
        forall|i: int| 0 <= i < trail(came, start, n, fuel).len() - 1 ==> {
            &&& #[trigger] trail(came, start, n, fuel)[i] != start
            &&& came.contains_key(trail(came, start, n, fuel)[i])
            &&& came[trail(came, start, n, fuel)[i]] == trail(came, start, n, fuel)[i + 1]
        },
    decreases fuel,
{
    if n == start || !came.contains_key(n) || fuel == 0 {
    } else {
        let p = came[n];
        lemma_trail_shape(came, start, p, (fuel - 1) as nat);
        let t = trail(came, start, n, fuel);
        let rest = trail(came, start, p, (fuel - 1) as nat);
        assert(t == seq![n] + rest);
        assert forall|i: int| 0 <= i < t.len() - 1 implies {
            &&& #[trigger] t[i] != start
            &&& came.contains_key(t[i])
            &&& came[t[i]] == t[i + 1]
        } by {
            if i == 0 {
                assert(t[1] == rest[0]);
            } else {
                assert(t[i] == rest[i - 1]);
                assert(t[i + 1] == rest[i]);
            }
        }
    }
}

pub proof fn lemma_trail_done_mono<K>(came: Map<K, K>, start: K, n: K, f1: nat, f2: nat)
    requires
        trail_done(came, start, n, f1),
        f1 <= f2,
    ensures
        trail_done(came, start, n, f2),
        trail(came, start, n, f1) == trail(came, start, n, f2),
    decreases f1,
{
    if n == start || !came.contains_key(n) {
    } else {
        lemma_trail_done_mono(came, start, came[n], (f1 - 1) as nat, (f2 - 1) as nat);
    }
}

/// Get the path from `start` to `goal` by following the `came_from` links back
/// from `goal`, stopping at `start` or at a node without a link.
pub fn reconstruct(came_from: &CellMap<GridNode>, start: GridNode, goal: GridNode) -> (path: Vec<GridNode>)
    requires
        came_from.wf(),
        exists|fuel: nat| trail_done(came_from.entries(), start, goal, fuel),
    ensures
        exists|fuel: nat| trail_done(came_from.entries(), start, goal, fuel)
            && path@ == #[trigger] trail(came_from.entries(), start, goal, fuel).reverse(),
{
    let ghost came = came_from.entries();
    let ghost fuel: nat = choose|fuel: nat| trail_done(came, start, goal, fuel);
    let mut path: Vec<GridNode> = Vec::new();
    let mut current = goal;
    let ghost mut left: nat = fuel;
    loop
        invariant_except_break
            trail_done(came, start, current, left),
            trail(came, start, goal, fuel) == path@ + trail(came, start, current, left),
        invariant
            came_from.wf(),
            came == came_from.entries(),
            trail_done(came, start, goal, fuel),
        ensures
            trail(came, start, goal, fuel) == path@,
        decreases left,
    {
        path.push(current);
        if current.x == start.x && current.y == start.y {
            assert(current == start);
            assert(trail(came, start, current, left) == seq![current]);
            assert(trail(came, start, goal, fuel) =~= path@);
            break;
        }
        match came_from.get(current) {
            Some(prev) => {
                let prev = *prev;
                proof {
                    assert(left > 0);
                    let rest = trail(came, start, prev, (left - 1) as nat);
                    assert(trail(came, start, current, left) == seq![current] + rest);
                    assert(trail(came, start, goal, fuel) =~= path@ + rest);
                    left = (left - 1) as nat;
                }
                current = prev;
            },
            None => {
                assert(trail(came, start, current, left) == seq![current]);
                assert(trail(came, start, goal, fuel) =~= path@);
                break;
            },
        }
    }
    let ghost forward = path@;
    let mut i: usize = 0;
    let n = path.len();
    let mut rev: Vec<GridNode> = Vec::new();
    while i < n
        invariant
            n == path@.len(),
            path@ == forward,
            i <= n,
            rev@.len() == i,
            forall|j: int| 0 <= j < i ==> rev@[j] == forward[n - 1 - j],
        decreases n - i,
    {
        rev.push(path[n - 1 - i]);
        i = i + 1;
    }
    assert(rev@ =~= forward.reverse());
    assert(rev@ == trail(came, start, goal, fuel).reverse());
    rev
}

/// `path` is a walk from `start` to `goal` in which each node is a neighbor
/// (under `mode`) of the one before it.
pub open spec fn is_path(grid: &PathfindingGrid, mode: PathfindingMode, path: Seq<GridNode>, start: GridNode, goal: GridNode) -> bool {
    &&& path.len() >= 1
    &&& path[0] == start
    &&& path.last() == goal
    &&& forall|i: int| 0 <= i < path.len() - 1 ==> grid.neighbors_spec(#[trigger] path[i], mode).contains(path[i + 1])
}

pub proof fn lemma_neighbor_walkable(grid: &PathfindingGrid, n: GridNode, mode: PathfindingMode, j: int)
    requires
        grid.wf(),
        interior(n),
        0 <= j < grid.neighbors_spec(n, mode).len(),
    ensures
        grid.walkable_at(grid.neighbors_spec(n, mode)[j].x as int, grid.neighbors_spec(n, mode)[j].y as int),
{
    reveal(PathfindingGrid::neighbors_spec);
    match mode {
        PathfindingMode::TopDown4 => {
            let pr = |d: (i32, i32)| grid.step4_ok(n, d);
            let fl = dirs4().filter(pr);
            dirs4().lemma_filter_pred(pr, j);
            assert(pr(fl[j]));
        },
        _ => {
            let pr = |d: (i32, i32)| grid.step8_ok(n, d);
            let fl = dirs8().filter(pr);
            dirs8().lemma_filter_pred(pr, j);
            assert(pr(fl[j]));
        },
    }
}

/// The number of `true` entries.
pub open spec fn count_true(s: Seq<bool>) -> nat
    decreases s.len(),
{
    if s.len() == 0 {
        0
    } else {
        count_true(s.drop_last()) + (if s.last() { 1nat } else { 0nat })
    }
}

pub proof fn lemma_count_true_none(s: Seq<bool>)
    requires
        forall|j: int| 0 <= j < s.len() ==> !s[j],
    ensures
        count_true(s) == 0,
    decreases s.len(),
{
    if s.len() > 0 {
        lemma_count_true_none(s.drop_last());
    }
}

pub proof fn lemma_count_true_bound(s: Seq<bool>)
    ensures
        count_true(s) <= s.len(),
    decreases s.len(),
{
    if s.len() > 0 {
        lemma_count_true_bound(s.drop_last());
    }
}

pub proof fn lemma_count_true_set(s: Seq<bool>, i: int)
    requires
        0 <= i < s.len(),
        !s[i],
    ensures
        count_true(s.update(i, true)) == count_true(s) + 1,
    decreases s.len(),
{
    let t = s.update(i, true);
    if i == s.len() - 1 {
        assert(t.drop_last() =~= s.drop_last());
    } else {
        lemma_count_true_set(s.drop_last(), i);
        assert(t.drop_last() =~= s.drop_last().update(i, true));
    }
}

/// Every node with a cost is `start` or has a link, costs stay within bounds,
/// and each link goes back to a closed node at least 10 cheaper that reaches
/// it in one move.
pub open spec fn search_inv(
    grid: &PathfindingGrid,
    mode: PathfindingMode,
    start: GridNode,
    came: Map<GridNode, GridNode>,
    g: Map<GridNode, i32>,
    closed: Seq<bool>,
    cc: nat,
) -> bool {
    let w = grid.width_spec() as int;
    &&& g.contains_key(start)
    &&& g[start] == 0
    &&& !came.contains_key(start)
    &&& forall|n: GridNode| #[trigger] g.contains_key(n) ==> {
        &&& 0 <= g[n] <= 14 * cc
        &&& (n == start || came.contains_key(n))
        &&& grid.walkable_at(n.x as int, n.y as int)
    }
    &&& forall|n: GridNode| #[trigger] came.contains_key(n) ==> {
        &&& g.contains_key(n)
        &&& g.contains_key(came[n])
        &&& grid.walkable_at(came[n].x as int, came[n].y as int)
        &&& closed[cell_index(w, came[n].x as int, came[n].y as int)]
        &&& g[came[n]] + 10 <= g[n]
        &&& grid.neighbors_spec(came[n], mode).contains(n)
    }
    &&& forall|n: GridNode| grid.valid(n.x as int, n.y as int) && #[trigger] closed[cell_index(w, n.x as int, n.y as int)]
        ==> g.contains_key(n)
}

pub proof fn lemma_search_trail(
    grid: &PathfindingGrid,
    mode: PathfindingMode,
    start: GridNode,
    came: Map<GridNode, GridNode>,
    g: Map<GridNode, i32>,
    closed: Seq<bool>,
    cc: nat,
    n: GridNode,
)
    requires
        search_inv(grid, mode, start, came, g, closed, cc),
        g.contains_key(n),
    ensures
        trail_done(came, start, n, g[n] as nat),
    decreases g[n],
{
    if n == start || !came.contains_key(n) {
    } else {
        let p = came[n];
        lemma_search_trail(grid, mode, start, came, g, closed, cc, p);
        lemma_trail_done_mono(came, start, p, g[p] as nat, (g[n] - 1) as nat);
    }
}

/// Remove and return the entry of `open` with the lowest estimated cost.
fn pop_min(open: &mut Vec<(GridNode, i32)>) -> (e: (GridNode, i32))
    requires
        old(open)@.len() > 0,
    ensures
        exists|b: int| 0 <= b < old(open)@.len() && e == old(open)@[b] && final(open)@ == old(open)@.remove(b),
        forall|j: int| 0 <= j < old(open)@.len() ==> e.1 <= #[trigger] old(open)@[j].1,
{
    let mut best: usize = 0;
    let mut j: usize = 1;
    while j < open.len()
        invariant
            open@.len() > 0,
            best < open@.len(),
            1 <= j <= open@.len(),
            forall|i: int| 0 <= i < j ==> open@[best as int].1 <= #[trigger] open@[i].1,
        decreases open@.len() - j,
    {
        if open[j].1 < open[best].1 {
            best = j;
        }
        j = j + 1;
    }
    let ghost before = open@;
    let e = open.remove(best);
    assert(before[best as int] == e);
    e
}

pub open spec fn open_has(open: Seq<(GridNode, i32)>, n: GridNode) -> bool {
    exists|j: int| 0 <= j < open.len() && #[trigger] open[j].0 == n
}

/// Every node with a cost is closed or waiting in `open`; the neighbors of
/// every closed node (but the first `m` only, for `current`) have a cost;
/// `goal` is not closed.
pub open spec fn frontier_inv(
    grid: &PathfindingGrid,
    mode: PathfindingMode,
    goal: GridNode,
    g: Map<GridNode, i32>,
    closed: Seq<bool>,
    open: Seq<(GridNode, i32)>,
    current: GridNode,
    m: int,
) -> bool {
    let w = grid.width_spec() as int;
    &&& forall|n: GridNode| #[trigger] g.contains_key(n) ==> closed[cell_index(w, n.x as int, n.y as int)] || open_has(open, n)
    &&& forall|n: GridNode, j: int| #![trigger closed[cell_index(w, n.x as int, n.y as int)], grid.neighbors_spec(n, mode)[j]]
        grid.valid(n.x as int, n.y as int) && closed[cell_index(w, n.x as int, n.y as int)]
        && 0 <= j < grid.neighbors_spec(n, mode).len() && (n != current || j < m)
        ==> g.contains_key(grid.neighbors_spec(n, mode)[j])
    &&& !closed[cell_index(w, goal.x as int, goal.y as int)]
}

/// Every node of a walk from `start` has a cost once the search is exhausted.
proof fn lemma_path_costed(
    grid: &PathfindingGrid,
    mode: PathfindingMode,
    start: GridNode,
    goal: GridNode,
    came: Map<GridNode, GridNode>,
    g: Map<GridNode, i32>,
    closed: Seq<bool>,
    cc: nat,
    path: Seq<GridNode>,
    i: int,
)
    requires
        grid.wf(),
        search_inv(grid, mode, start, came, g, closed, cc),
        frontier_inv(grid, mode, goal, g, closed, Seq::empty(), goal, 0),
        is_path(grid, mode, path, start, goal),
        0 <= i < path.len(),
    ensures
        g.contains_key(path[i]),
    decreases i,
{
    let w = grid.width_spec() as int;
    if i > 0 {
        lemma_path_costed(grid, mode, start, goal, came, g, closed, cc, path, i - 1);
        let n = path[i - 1];
        assert(grid.neighbors_spec(path[i - 1], mode).contains(path[i]));
        let j = choose|j: int| 0 <= j < grid.neighbors_spec(n, mode).len() && grid.neighbors_spec(n, mode)[j] == path[i];
        assert(closed[cell_index(w, n.x as int, n.y as int)] || open_has(Seq::<(GridNode, i32)>::empty(), n));
        assert(g.contains_key(grid.neighbors_spec(n, mode)[j]));
    }
}

/// With nothing left to explore, no walk leads from `start` to `goal`.
proof fn lemma_exhausted(
    grid: &PathfindingGrid,
    mode: PathfindingMode,
    start: GridNode,
    goal: GridNode,
    came: Map<GridNode, GridNode>,
    g: Map<GridNode, i32>,
    closed: Seq<bool>,
    cc: nat,
    path: Seq<GridNode>,
)
    requires
        grid.wf(),
        closed.len() == grid.width_spec() * grid.height_spec(),
        search_inv(grid, mode, start, came, g, closed, cc),
        frontier_inv(grid, mode, goal, g, closed, Seq::empty(), goal, 0),
    ensures
        !is_path(grid, mode, path, start, goal),
{
    if !is_path(grid, mode, path, start, goal) {
        return;
    }
    let w = grid.width_spec() as int;
    lemma_path_costed(grid, mode, start, goal, came, g, closed, cc, path, path.len() - 1);
    assert(g.contains_key(path[path.len() - 1]));
    assert(closed[cell_index(w, goal.x as int, goal.y as int)] || open_has(Seq::<(GridNode, i32)>::empty(), goal));
}

/// The path handed back at the goal is a walk from `start` to `goal`.
proof fn lemma_goal_path(
    grid: &PathfindingGrid,
    mode: PathfindingMode,
    start: GridNode,
    goal: GridNode,
    came: Map<GridNode, GridNode>,
    g: Map<GridNode, i32>,
    closed: Seq<bool>,
    cc: nat,
    path: Seq<GridNode>,
    fuel: nat,
)
    requires
        search_inv(grid, mode, start, came, g, closed, cc),
        g.contains_key(goal),
        trail_done(came, start, goal, fuel),
        path == trail(came, start, goal, fuel).reverse(),
    ensures
        is_path(grid, mode, path, start, goal),
{
    lemma_trail_shape(came, start, goal, fuel);
    let t = trail(came, start, goal, fuel);
    if t.last() != start {
        assert(g.contains_key(t.last())) by {
            if t.len() > 1 {
                assert(t[t.len() - 2] != start);
                assert(came.contains_key(t[t.len() - 2]));
            }
        }
    }
    assert(path[0] == t[t.len() - 1]);
    assert(path.last() == t[0]);
    assert forall|i: int| 0 <= i < path.len() - 1 implies grid.neighbors_spec(#[trigger] path[i], mode).contains(path[i + 1]) by {
        let a = t.len() - 2 - i;
        assert(path[i] == t[a + 1]);
        assert(path[i + 1] == t[a]);
        assert(t[a] != start);
        assert(came.contains_key(t[a]));
        assert(came[t[a]] == t[a + 1]);
    }
}

/// Closing one more node keeps the search invariant.
proof fn lemma_close_node(
    grid: &PathfindingGrid,
    mode: PathfindingMode,
    start: GridNode,
    came: Map<GridNode, GridNode>,
    g: Map<GridNode, i32>,
    closed: Seq<bool>,
    cc: nat,
    current: GridNode,
)
    requires
        grid.wf(),
        closed.len() == grid.width_spec() * grid.height_spec(),
        search_inv(grid, mode, start, came, g, closed, cc),
        g.contains_key(current),
    ensures
        search_inv(grid, mode, start, came, g,
            closed.update(cell_index(grid.width_spec() as int, current.x as int, current.y as int), true), cc + 1),
{
    let w = grid.width_spec() as int;
    let hgt = grid.height_spec() as int;
    let ci = cell_index(w, current.x as int, current.y as int);
    lemma_cell_index(w, hgt, current.x as int, current.y as int);
    let c2 = closed.update(ci, true);
    assert forall|n: GridNode| #[trigger] g.contains_key(n) implies 0 <= g[n] <= 14 * (cc + 1) by {
        assert(g[n] <= 14 * cc);
    }
    assert forall|n: GridNode| #[trigger] came.contains_key(n) implies c2[cell_index(w, came[n].x as int, came[n].y as int)] by {
        let p = came[n];
        lemma_cell_index(w, hgt, p.x as int, p.y as int);
        assert(closed[cell_index(w, p.x as int, p.y as int)]);
    }
    assert forall|n: GridNode| grid.valid(n.x as int, n.y as int) && #[trigger] c2[cell_index(w, n.x as int, n.y as int)]
        implies g.contains_key(n) by {
        lemma_cell_index(w, hgt, n.x as int, n.y as int);
        if n != current {
            if cell_index(w, n.x as int, n.y as int) == ci {
                lemma_cell_index_injective(w, n.x as int, n.y as int, current.x as int, current.y as int);
            }
            assert(closed[cell_index(w, n.x as int, n.y as int)]);
        }
    }
}

/// Linking a not-yet-closed neighbor `nb` of the closed node `current`
/// with cost `t` keeps the search invariant.
proof fn lemma_relax_step(
    grid: &PathfindingGrid,
    mode: PathfindingMode,
    start: GridNode,
    came: Map<GridNode, GridNode>,
    g: Map<GridNode, i32>,
    closed: Seq<bool>,
    cc: nat,
    current: GridNode,
    nb: GridNode,
    t: i32,
)
    requires
        grid.wf(),
        closed.len() == grid.width_spec() * grid.height_spec(),
        search_inv(grid, mode, start, came, g, closed, cc),
        g.contains_key(current),
        closed[cell_index(grid.width_spec() as int, current.x as int, current.y as int)],
        grid.walkable_at(nb.x as int, nb.y as int),
        !closed[cell_index(grid.width_spec() as int, nb.x as int, nb.y as int)],
        grid.neighbors_spec(current, mode).contains(nb),
        g[current] + 10 <= t <= 14 * cc,
        g.contains_key(nb) ==> t < g[nb],
    ensures
        search_inv(grid, mode, start, came.insert(nb, current), g.insert(nb, t), closed, cc),
{
    let w = grid.width_spec() as int;
    let hgt = grid.height_spec() as int;
    let came1 = came.insert(nb, current);
    let g1 = g.insert(nb, t);
    assert(nb != start) by {
        if nb == start {
            assert(g[current] >= 0);
        }
    }
    assert(nb != current);
    assert forall|n: GridNode| #[trigger] came1.contains_key(n) implies {
        &&& g1.contains_key(n)
        &&& g1.contains_key(came1[n])
        &&& grid.walkable_at(came1[n].x as int, came1[n].y as int)
        &&& closed[cell_index(w, came1[n].x as int, came1[n].y as int)]
        &&& g1[came1[n]] + 10 <= g1[n]
        &&& grid.neighbors_spec(came1[n], mode).contains(n)
    } by {
        if n != nb {
            let p = came[n];
            assert(closed[cell_index(w, p.x as int, p.y as int)]);
            if p == nb {
                assert(false);
            }
        }
    }
    assert forall|n: GridNode| #[trigger] g1.contains_key(n) implies {
        &&& 0 <= g1[n] <= 14 * cc
        &&& (n == start || came1.contains_key(n))
        &&& grid.walkable_at(n.x as int, n.y as int)
    } by {
        if n != nb {
            assert(g.contains_key(n));
        }
    }
}

/// A neighbor of `current` that already has a cost extends the frontier invariant by one.
proof fn lemma_frontier_skip(
    grid: &PathfindingGrid,
    mode: PathfindingMode,
    goal: GridNode,
    g: Map<GridNode, i32>,
    closed: Seq<bool>,
    open: Seq<(GridNode, i32)>,
    current: GridNode,
    m: int,
)
    requires
        frontier_inv(grid, mode, goal, g, closed, open, current, m),
        0 <= m < grid.neighbors_spec(current, mode).len(),
        g.contains_key(grid.neighbors_spec(current, mode)[m]),
    ensures
        frontier_inv(grid, mode, goal, g, closed, open, current, m + 1),
{
    let w = grid.width_spec() as int;
    assert forall|n: GridNode, j: int| #![trigger closed[cell_index(w, n.x as int, n.y as int)], grid.neighbors_spec(n, mode)[j]]
        grid.valid(n.x as int, n.y as int) && closed[cell_index(w, n.x as int, n.y as int)]
        && 0 <= j < grid.neighbors_spec(n, mode).len() && (n != current || j < m + 1)
        implies g.contains_key(grid.neighbors_spec(n, mode)[j]) by {
        if n == current && j == m {
        } else {
        }
    }
}

/// Giving a cost to the `m`-th neighbor `nb` of `current` and queueing it
/// extends the frontier invariant by one.
proof fn lemma_frontier_insert(
    grid: &PathfindingGrid,
    mode: PathfindingMode,
    goal: GridNode,
    g: Map<GridNode, i32>,
    closed: Seq<bool>,
    open: Seq<(GridNode, i32)>,
    current: GridNode,
    m: int,
    nb: GridNode,
    t: i32,
    f: i32,
)
    requires
        frontier_inv(grid, mode, goal, g, closed, open, current, m),
        0 <= m < grid.neighbors_spec(current, mode).len(),
        grid.neighbors_spec(current, mode)[m] == nb,
    ensures
        frontier_inv(grid, mode, goal, g.insert(nb, t), closed, open.push((nb, f)), current, m + 1),
{
    let w = grid.width_spec() as int;
    let g1 = g.insert(nb, t);
    let o1 = open.push((nb, f));
    assert forall|n: GridNode| #[trigger] g1.contains_key(n) implies closed[cell_index(w, n.x as int, n.y as int)] || open_has(o1, n) by {
        if n == nb {
            assert(o1[open.len() as int].0 == nb);
        } else if !closed[cell_index(w, n.x as int, n.y as int)] {
            assert(open_has(open, n));
            let j = choose|j: int| 0 <= j < open.len() && #[trigger] open[j].0 == n;
            assert(o1[j].0 == n);
        }
    }
    assert forall|n: GridNode, j: int| #![trigger closed[cell_index(w, n.x as int, n.y as int)], grid.neighbors_spec(n, mode)[j]]
        grid.valid(n.x as int, n.y as int) && closed[cell_index(w, n.x as int, n.y as int)]
        && 0 <= j < grid.neighbors_spec(n, mode).len() && (n != current || j < m + 1)
        implies g1.contains_key(grid.neighbors_spec(n, mode)[j]) by {
        if n == current && j == m {
        } else {
            assert(g.contains_key(grid.neighbors_spec(n, mode)[j]));
        }
    }
}

/// Removing the entry `b` of `open` (for `current`) and closing `current`
/// keeps the frontier invariant, with `current`'s neighbors still to visit.
proof fn lemma_frontier_close(
    grid: &PathfindingGrid,
    mode: PathfindingMode,
    goal: GridNode,
    g: Map<GridNode, i32>,
    closed: Seq<bool>,
    open: Seq<(GridNode, i32)>,
    b: int,
    current: GridNode,
)
    requires
        grid.wf(),
        closed.len() == grid.width_spec() * grid.height_spec(),
        frontier_inv(grid, mode, goal, g, closed, open, goal, 0),
        0 <= b < open.len(),
        open[b].0 == current,
        current != goal,
        grid.valid(current.x as int, current.y as int),
        grid.valid(goal.x as int, goal.y as int),
        forall|n: GridNode| #[trigger] g.contains_key(n) ==> grid.valid(n.x as int, n.y as int),
    ensures
        frontier_inv(grid, mode, goal, g,
            closed.update(cell_index(grid.width_spec() as int, current.x as int, current.y as int), true),
            open.remove(b), current, 0),
{
    let w = grid.width_spec() as int;
    let hgt = grid.height_spec() as int;
    let ci = cell_index(w, current.x as int, current.y as int);
    lemma_cell_index(w, hgt, current.x as int, current.y as int);
    let c2 = closed.update(ci, true);
    let o2 = open.remove(b);
    assert forall|n: GridNode| #[trigger] g.contains_key(n) implies c2[cell_index(w, n.x as int, n.y as int)] || open_has(o2, n) by {
        if n != current {
            if closed[cell_index(w, n.x as int, n.y as int)] {
                assert(grid.walkable_at(n.x as int, n.y as int) || true);
            }
            if open_has(open, n) {
                let j = choose|j: int| 0 <= j < open.len() && #[trigger] open[j].0 == n;
                assert(j != b);
                if j < b {
                    assert(o2[j].0 == n);
                } else {
                    assert(o2[j - 1].0 == n);
                }
            } else {
                assert(closed[cell_index(w, n.x as int, n.y as int)]);
                if grid.valid(n.x as int, n.y as int) {
                    lemma_cell_index(w, hgt, n.x as int, n.y as int);
                }
            }
        }
    }
    assert forall|n: GridNode, j: int| #![trigger c2[cell_index(w, n.x as int, n.y as int)], grid.neighbors_spec(n, mode)[j]]
        grid.valid(n.x as int, n.y as int) && c2[cell_index(w, n.x as int, n.y as int)]
        && 0 <= j < grid.neighbors_spec(n, mode).len() && (n != current || j < 0)
        implies g.contains_key(grid.neighbors_spec(n, mode)[j]) by {
        lemma_cell_index(w, hgt, n.x as int, n.y as int);
        if cell_index(w, n.x as int, n.y as int) == ci {
            lemma_cell_index_injective(w, n.x as int, n.y as int, current.x as int, current.y as int);
        }
        assert(closed[cell_index(w, n.x as int, n.y as int)]);
    }
    assert(!c2[cell_index(w, goal.x as int, goal.y as int)]) by {
        if grid.valid(goal.x as int, goal.y as int) {
            lemma_cell_index(w, hgt, goal.x as int, goal.y as int);
            if cell_index(w, goal.x as int, goal.y as int) == ci {
                lemma_cell_index_injective(w, goal.x as int, goal.y as int, current.x as int, current.y as int);
            }
        }
    }
}

/// The cost of one move: 14 for a diagonal step, 10 for a straight one.
pub open spec fn step_cost(a: GridNode, b: GridNode) -> int {
    if abs_int(b.x - a.x) == 1 && abs_int(b.y - a.y) == 1 { 14 } else { 10 }
}

/// The cost of a walk: the sum of the costs of its moves.
pub open spec fn walk_cost(p: Seq<GridNode>) -> int
    decreases p.len(),
{
    if p.len() <= 1 {
        0
    } else {
        walk_cost(p.drop_last()) + step_cost(p[p.len() - 2], p[p.len() - 1])
    }
}

/// No walk from `start` to `n` costs less than `c`.
pub open spec fn no_cheaper_walk(grid: &PathfindingGrid, mode: PathfindingMode, start: GridNode, n: GridNode, c: int) -> bool {
    forall|p: Seq<GridNode>| #[trigger] is_path(grid, mode, p, start, n) ==> c <= walk_cost(p)
}

/// `open` holds an entry for `n` with estimate `f`.
pub open spec fn open_entry(open: Seq<(GridNode, i32)>, n: GridNode, f: int) -> bool {
    exists|j: int| 0 <= j < open.len() && (#[trigger] open[j]).0 == n && open[j].1 == f
}

/// The costs of the search are those of real walks: each link adds the cost
/// of its move; closed nodes have their cheapest cost; the edges of closed
/// nodes (but the first `m` of `current`'s) lead to no costlier open node;
/// once `start` is closed, every open node has an entry with its current
/// estimate and no entry underestimates.
#[verifier::opaque]
pub open spec fn cost_inv(
    grid: &PathfindingGrid,
    mode: PathfindingMode,
    start: GridNode,
    goal: GridNode,
    came: Map<GridNode, GridNode>,
    g: Map<GridNode, i32>,
    closed: Seq<bool>,
    open: Seq<(GridNode, i32)>,
    current: GridNode,
    m: int,
    cc: nat,
) -> bool {
    let w = grid.width_spec() as int;
    &&& forall|n: GridNode| #[trigger] came.contains_key(n) ==> g[n] == g[came[n]] + step_cost(came[n], n)
    &&& forall|n: GridNode| grid.valid(n.x as int, n.y as int) && #[trigger] closed[cell_index(w, n.x as int, n.y as int)]
        ==> no_cheaper_walk(grid, mode, start, n, g[n] as int)
    &&& forall|n: GridNode, j: int| #![trigger closed[cell_index(w, n.x as int, n.y as int)], grid.neighbors_spec(n, mode)[j]]
        grid.valid(n.x as int, n.y as int) && closed[cell_index(w, n.x as int, n.y as int)]
        && 0 <= j < grid.neighbors_spec(n, mode).len() && (n != current || j < m)
        && !closed[cell_index(w, grid.neighbors_spec(n, mode)[j].x as int, grid.neighbors_spec(n, mode)[j].y as int)]
        ==> g[grid.neighbors_spec(n, mode)[j]] <= g[n] + step_cost(n, grid.neighbors_spec(n, mode)[j])
    &&& cc > 0 ==> forall|n: GridNode| #[trigger] g.contains_key(n) && !closed[cell_index(w, n.x as int, n.y as int)]
        ==> open_entry(open, n, g[n] + manhattan(n, goal))
    &&& cc > 0 ==> forall|j: int| 0 <= j < open.len() ==> (#[trigger] open[j]).1 >= g[open[j].0] + manhattan(open[j].0, goal)
}

pub proof fn lemma_walk_cost_nonneg(p: Seq<GridNode>)
    ensures
        walk_cost(p) >= 0,
    decreases p.len(),
{
    if p.len() > 1 {
        lemma_walk_cost_nonneg(p.drop_last());
    }
}

/// A walk's cost splits at any of its nodes.
pub proof fn lemma_walk_cost_split(p: Seq<GridNode>, j: int)
    requires
        0 <= j < p.len(),
    ensures
        walk_cost(p) == walk_cost(p.take(j + 1)) + walk_cost(p.subrange(j, p.len() as int)),
    decreases p.len(),
{
    if j == p.len() - 1 {
        assert(p.take(j + 1) =~= p);
        assert(p.subrange(j, p.len() as int).len() == 1);
    } else {
        let q = p.drop_last();
        lemma_walk_cost_split(q, j);
        assert(q.take(j + 1) =~= p.take(j + 1));
        let r = p.subrange(j, p.len() as int);
        assert(r.drop_last() =~= q.subrange(j, q.len() as int));
        assert(r[r.len() - 2] == p[p.len() - 2]);
        assert(r[r.len() - 1] == p[p.len() - 1]);
    }
}

/// A neighbor is one step away in each coordinate.
pub proof fn lemma_neighbor_near(grid: &PathfindingGrid, n: GridNode, mode: PathfindingMode, j: int)
    requires
        grid.wf(),
        interior(n),
        0 <= j < grid.neighbors_spec(n, mode).len(),
    ensures
        abs_int(grid.neighbors_spec(n, mode)[j].x - n.x) <= 1,
        abs_int(grid.neighbors_spec(n, mode)[j].y - n.y) <= 1,
{
    reveal(PathfindingGrid::neighbors_spec);
    match mode {
        PathfindingMode::TopDown4 => {
            let pr = |d: (i32, i32)| grid.step4_ok(n, d);
            let fl = dirs4().filter(pr);
            assert(fl.contains(fl[j]));
            dirs4().lemma_filter_contains_rev(pr, fl[j]);
            let i = choose|i: int| 0 <= i < dirs4().len() && dirs4()[i] == fl[j];
            assert(-1 <= fl[j].0 <= 1 && -1 <= fl[j].1 <= 1);
        },
        _ => {
            let pr = |d: (i32, i32)| grid.step8_ok(n, d);
            let fl = dirs8().filter(pr);
            assert(fl.contains(fl[j]));
            dirs8().lemma_filter_contains_rev(pr, fl[j]);
            let i = choose|i: int| 0 <= i < dirs8().len() && dirs8()[i] == fl[j];
            assert(-1 <= fl[j].0 <= 1 && -1 <= fl[j].1 <= 1);
        },
    }
}

/// Along a walk from a walkable node, the Manhattan distance to `goal`
/// falls by no more than the walk's cost.
pub proof fn lemma_walk_consistent(grid: &PathfindingGrid, mode: PathfindingMode, p: Seq<GridNode>, goal: GridNode)
    requires
        grid.wf(),
        p.len() >= 1,
        grid.walkable_at(p[0].x as int, p[0].y as int),
        forall|i: int| 0 <= i < p.len() - 1 ==> grid.neighbors_spec(#[trigger] p[i], mode).contains(p[i + 1]),
    ensures
        manhattan(p[0], goal) <= walk_cost(p) + manhattan(p.last(), goal),
        grid.walkable_at(p.last().x as int, p.last().y as int),
    decreases p.len(),
{
    if p.len() > 1 {
        let q = p.drop_last();
        assert forall|i: int| 0 <= i < q.len() - 1 implies grid.neighbors_spec(#[trigger] q[i], mode).contains(q[i + 1]) by {
            assert(q[i] == p[i] && q[i + 1] == p[i + 1]);
        }
        lemma_walk_consistent(grid, mode, q, goal);
        let a = p[p.len() - 2];
        let b = p[p.len() - 1];
        assert(a == q.last());
        assert(grid.neighbors_spec(a, mode).contains(b));
        let k = choose|k: int| 0 <= k < grid.neighbors_spec(a, mode).len() && grid.neighbors_spec(a, mode)[k] == b;
        grid.lemma_wf();
        assert(interior(a));
        lemma_neighbor_near(grid, a, mode, k);
        lemma_neighbor_walkable(grid, a, mode, k);
    }
}

/// Following the links back from a costed node gives a walk whose cost is
/// that node's cost.
pub proof fn lemma_trail_cost(
    grid: &PathfindingGrid,
    mode: PathfindingMode,
    start: GridNode,
    goal: GridNode,
    came: Map<GridNode, GridNode>,
    g: Map<GridNode, i32>,
    closed: Seq<bool>,
    open: Seq<(GridNode, i32)>,
    current: GridNode,
    m: int,
    cc: nat,
    n: GridNode,
    fuel: nat,
)
    requires
        search_inv(grid, mode, start, came, g, closed, cc),
        cost_inv(grid, mode, start, goal, came, g, closed, open, current, m, cc),
        g.contains_key(n),
        trail_done(came, start, n, fuel),
    ensures
        walk_cost(trail(came, start, n, fuel).reverse()) == g[n],
    decreases fuel,
{
    reveal(cost_inv);
    if n == start || !came.contains_key(n) || fuel == 0 {
        assert(trail(came, start, n, fuel) == seq![n]);
        assert(trail(came, start, n, fuel).reverse() =~= seq![n]);
        if n != start {
            assert(came.contains_key(n));
        }
    } else {
        let p = came[n];
        lemma_trail_cost(grid, mode, start, goal, came, g, closed, open, current, m, cc, p, (fuel - 1) as nat);
        lemma_trail_shape(came, start, p, (fuel - 1) as nat);
        let rest = trail(came, start, p, (fuel - 1) as nat);
        let t = trail(came, start, n, fuel);
        assert(t == seq![n] + rest);
        let rv = t.reverse();
        assert(rv.drop_last() =~= rest.reverse());
        assert(rv[rv.len() - 1] == n);
        assert(rv[rv.len() - 2] == rest[0]);
    }
}

/// The first node of a walk that is not closed, when the walk starts closed
/// and ends open.
pub proof fn lemma_first_open(w: int, closed: Seq<bool>, p: Seq<GridNode>, i: int) -> (j: int)
    requires
        0 <= i < p.len(),
        closed[cell_index(w, p[i].x as int, p[i].y as int)],
        !closed[cell_index(w, p.last().x as int, p.last().y as int)],
    ensures
        i < j < p.len(),
        closed[cell_index(w, p[j - 1].x as int, p[j - 1].y as int)],
        !closed[cell_index(w, p[j].x as int, p[j].y as int)],
    decreases p.len() - i,
{
    if !closed[cell_index(w, p[i + 1].x as int, p[i + 1].y as int)] {
        i + 1
    } else {
        lemma_first_open(w, closed, p, i + 1)
    }
}

/// A walk splits at its `j`-th node into two walks and one move between them.
pub proof fn lemma_walk_parts(grid: &PathfindingGrid, mode: PathfindingMode, p: Seq<GridNode>, j: int)
    requires
        0 < j < p.len(),
        forall|i: int| 0 <= i < p.len() - 1 ==> grid.neighbors_spec(#[trigger] p[i], mode).contains(p[i + 1]),
    ensures
        p.take(j).len() == j,
        p.take(j)[0] == p[0],
        p.take(j).last() == p[j - 1],
        forall|i: int| 0 <= i < p.take(j).len() - 1 ==> grid.neighbors_spec(#[trigger] p.take(j)[i], mode).contains(p.take(j)[i + 1]),
        p.subrange(j, p.len() as int)[0] == p[j],
        p.subrange(j, p.len() as int).last() == p.last(),
        forall|i: int| 0 <= i < p.subrange(j, p.len() as int).len() - 1
            ==> grid.neighbors_spec(#[trigger] p.subrange(j, p.len() as int)[i], mode).contains(p.subrange(j, p.len() as int)[i + 1]),
        walk_cost(p) == walk_cost(p.take(j)) + step_cost(p[j - 1], p[j]) + walk_cost(p.subrange(j, p.len() as int)),
{
    let pa = p.take(j);
    let q = p.subrange(j, p.len() as int);
    assert forall|i: int| 0 <= i < pa.len() - 1 implies grid.neighbors_spec(#[trigger] pa[i], mode).contains(pa[i + 1]) by {
        assert(pa[i] == p[i] && pa[i + 1] == p[i + 1]);
    }
    assert forall|i: int| 0 <= i < q.len() - 1 implies grid.neighbors_spec(#[trigger] q[i], mode).contains(q[i + 1]) by {
        assert(q[i] == p[i + j] && q[i + 1] == p[i + j + 1]);
    }
    lemma_walk_cost_split(p, j);
    let pc = p.take(j + 1);
    assert(pc.drop_last() =~= pa);
}

/// One walk from `start` to the node `u` taken from `open` with the lowest
/// estimate costs no less than `u`'s cost.
proof fn lemma_pop_walk(
    grid: &PathfindingGrid,
    mode: PathfindingMode,
    start: GridNode,
    goal: GridNode,
    came: Map<GridNode, GridNode>,
    g: Map<GridNode, i32>,
    closed: Seq<bool>,
    open: Seq<(GridNode, i32)>,
    cc: nat,
    b: int,
    p: Seq<GridNode>,
)
    requires
        grid.wf(),
        frontier_inv(grid, mode, goal, g, closed, open, goal, 0),
        cost_inv(grid, mode, start, goal, came, g, closed, open, goal, 0, cc),
        cc > 0,
        grid.walkable_at(start.x as int, start.y as int),
        closed[cell_index(grid.width_spec() as int, start.x as int, start.y as int)],
        0 <= b < open.len(),
        !closed[cell_index(grid.width_spec() as int, open[b].0.x as int, open[b].0.y as int)],
        forall|j: int| 0 <= j < open.len() ==> open[b].1 <= #[trigger] open[j].1,
        is_path(grid, mode, p, start, open[b].0),
    ensures
        g[open[b].0] <= walk_cost(p),
{
    let w = grid.width_spec() as int;
    let u = open[b].0;
    let j = lemma_first_open(w, closed, p, 0);
    let a = p[j - 1];
    let c = p[j];
    lemma_walk_parts(grid, mode, p, j);
    let pa = p.take(j);
    let q = p.subrange(j, p.len() as int);
    assert(grid.neighbors_spec(p[j - 1], mode).contains(p[j]));
    let k = choose|k: int| 0 <= k < grid.neighbors_spec(a, mode).len() && grid.neighbors_spec(a, mode)[k] == c;
    lemma_walk_consistent(grid, mode, pa, goal);
    assert(is_path(grid, mode, pa, start, a));
    grid.lemma_wf();
    assert(grid.valid(a.x as int, a.y as int));
    assert(a != goal);
    assert(g.contains_key(grid.neighbors_spec(a, mode)[k]));
    assert(g[a] <= walk_cost(pa)) by {
        reveal(cost_inv);
    }
    assert(g[c] <= g[a] + step_cost(a, c)) by {
        reveal(cost_inv);
    }
    assert(open_entry(open, c, g[c] + manhattan(c, goal))) by {
        reveal(cost_inv);
    }
    assert(open[b].1 >= g[u] + manhattan(u, goal)) by {
        reveal(cost_inv);
    }
    let e = choose|e: int| 0 <= e < open.len() && (#[trigger] open[e]).0 == c && open[e].1 == g[c] + manhattan(c, goal);
    assert(open[b].1 <= open[e].1);
    lemma_neighbor_walkable(grid, a, mode, k);
    lemma_walk_consistent(grid, mode, q, goal);
}

/// The node taken from `open` with the lowest estimate has its cheapest cost.
pub proof fn lemma_pop_optimal(
    grid: &PathfindingGrid,
    mode: PathfindingMode,
    start: GridNode,
    goal: GridNode,
    came: Map<GridNode, GridNode>,
    g: Map<GridNode, i32>,
    closed: Seq<bool>,
    open: Seq<(GridNode, i32)>,
    cc: nat,
    b: int,
)
    requires
        grid.wf(),
        frontier_inv(grid, mode, goal, g, closed, open, goal, 0),
        cost_inv(grid, mode, start, goal, came, g, closed, open, goal, 0, cc),
        cc > 0,
        grid.walkable_at(start.x as int, start.y as int),
        closed[cell_index(grid.width_spec() as int, start.x as int, start.y as int)],
        0 <= b < open.len(),
        !closed[cell_index(grid.width_spec() as int, open[b].0.x as int, open[b].0.y as int)],
        forall|j: int| 0 <= j < open.len() ==> open[b].1 <= #[trigger] open[j].1,
    ensures
        no_cheaper_walk(grid, mode, start, open[b].0, g[open[b].0] as int),
{
    assert forall|p: Seq<GridNode>| #[trigger] is_path(grid, mode, p, start, open[b].0) implies g[open[b].0] <= walk_cost(p) by {
        lemma_pop_walk(grid, mode, start, goal, came, g, closed, open, cc, b, p);
    }
}

/// Linking the `m`-th neighbor `nb` of the closed node `current` at the cost
/// of the move, when that beats `nb`'s cost, and queueing it with its
/// estimate keeps the cost invariant and covers one more edge.
proof fn lemma_cost_insert(
    grid: &PathfindingGrid,
    mode: PathfindingMode,
    start: GridNode,
    goal: GridNode,
    came: Map<GridNode, GridNode>,
    g: Map<GridNode, i32>,
    closed: Seq<bool>,
    open: Seq<(GridNode, i32)>,
    current: GridNode,
    m: int,
    cc: nat,
    nb: GridNode,
    t: i32,
    f: i32,
)
    requires
        search_inv(grid, mode, start, came, g, closed, cc),
        frontier_inv(grid, mode, goal, g, closed, open, current, m),
        cost_inv(grid, mode, start, goal, came, g, closed, open, current, m, cc),
        forall|j: int| 0 <= j < open.len() ==> g.contains_key(#[trigger] open[j].0),
        closed[cell_index(grid.width_spec() as int, current.x as int, current.y as int)],
        g.contains_key(current),
        0 <= m < grid.neighbors_spec(current, mode).len(),
        grid.neighbors_spec(current, mode)[m] == nb,
        !closed[cell_index(grid.width_spec() as int, nb.x as int, nb.y as int)],
        t == g[current] + step_cost(current, nb),
        g.contains_key(nb) ==> t < g[nb],
        f == t + manhattan(nb, goal),
    ensures
        cost_inv(grid, mode, start, goal, came.insert(nb, current), g.insert(nb, t), closed, open.push((nb, f)), current, m + 1, cc),
{
    reveal(cost_inv);
    let w = grid.width_spec() as int;
    let came1 = came.insert(nb, current);
    let g1 = g.insert(nb, t);
    let o1 = open.push((nb, f));
    assert(current != nb);
    assert forall|n: GridNode| #[trigger] came1.contains_key(n) implies g1[n] == g1[came1[n]] + step_cost(came1[n], n) by {
        if n != nb {
            assert(closed[cell_index(w, came[n].x as int, came[n].y as int)]);
        }
    }
    assert forall|n: GridNode| grid.valid(n.x as int, n.y as int) && #[trigger] closed[cell_index(w, n.x as int, n.y as int)]
        implies no_cheaper_walk(grid, mode, start, n, g1[n] as int) by {
        assert(n != nb);
    }
    assert forall|n: GridNode, j: int| #![trigger closed[cell_index(w, n.x as int, n.y as int)], grid.neighbors_spec(n, mode)[j]]
        grid.valid(n.x as int, n.y as int) && closed[cell_index(w, n.x as int, n.y as int)]
        && 0 <= j < grid.neighbors_spec(n, mode).len() && (n != current || j < m + 1)
        && !closed[cell_index(w, grid.neighbors_spec(n, mode)[j].x as int, grid.neighbors_spec(n, mode)[j].y as int)]
        implies g1[grid.neighbors_spec(n, mode)[j]] <= g1[n] + step_cost(n, grid.neighbors_spec(n, mode)[j]) by {
        let c = grid.neighbors_spec(n, mode)[j];
        assert(n != nb);
        if n == current && j == m {
        } else if c == nb {
            assert(g.contains_key(c));
        }
    }
    if cc > 0 {
        assert forall|n: GridNode| #[trigger] g1.contains_key(n) && !closed[cell_index(w, n.x as int, n.y as int)]
            implies open_entry(o1, n, g1[n] + manhattan(n, goal)) by {
            if n == nb {
                assert(o1[open.len() as int] == (nb, f));
            } else {
                assert(open_entry(open, n, g[n] + manhattan(n, goal)));
                let e = choose|e: int| 0 <= e < open.len() && (#[trigger] open[e]).0 == n && open[e].1 == g[n] + manhattan(n, goal);
                assert(o1[e] == open[e]);
            }
        }
        assert forall|j: int| 0 <= j < o1.len() implies (#[trigger] o1[j]).1 >= g1[o1[j].0] + manhattan(o1[j].0, goal) by {
            if j < open.len() {
                assert(o1[j] == open[j]);
                assert(g.contains_key(open[j].0));
            }
        }
    }
}

/// A neighbor that is closed, or whose cost already beats the move, covers
/// one more edge with nothing changed.
proof fn lemma_cost_skip(
    grid: &PathfindingGrid,
    mode: PathfindingMode,
    start: GridNode,
    goal: GridNode,
    came: Map<GridNode, GridNode>,
    g: Map<GridNode, i32>,
    closed: Seq<bool>,
    open: Seq<(GridNode, i32)>,
    current: GridNode,
    m: int,
    cc: nat,
)
    requires
        cost_inv(grid, mode, start, goal, came, g, closed, open, current, m, cc),
        0 <= m < grid.neighbors_spec(current, mode).len(),
        ({
            let nb = grid.neighbors_spec(current, mode)[m];
            closed[cell_index(grid.width_spec() as int, nb.x as int, nb.y as int)]
                || g[nb] <= g[current] + step_cost(current, nb)
        }),
    ensures
        cost_inv(grid, mode, start, goal, came, g, closed, open, current, m + 1, cc),
{
    reveal(cost_inv);
    let w = grid.width_spec() as int;
    assert forall|n: GridNode, j: int| #![trigger closed[cell_index(w, n.x as int, n.y as int)], grid.neighbors_spec(n, mode)[j]]
        grid.valid(n.x as int, n.y as int) && closed[cell_index(w, n.x as int, n.y as int)]
        && 0 <= j < grid.neighbors_spec(n, mode).len() && (n != current || j < m + 1)
        && !closed[cell_index(w, grid.neighbors_spec(n, mode)[j].x as int, grid.neighbors_spec(n, mode)[j].y as int)]
        implies g[grid.neighbors_spec(n, mode)[j]] <= g[n] + step_cost(n, grid.neighbors_spec(n, mode)[j]) by {
        if n == current && j == m {
        }
    }
}

/// Dropping the entry `b` of `open`, whose node is closed, keeps the cost invariant.
proof fn lemma_cost_drop(
    grid: &PathfindingGrid,
    mode: PathfindingMode,
    start: GridNode,
    goal: GridNode,
    came: Map<GridNode, GridNode>,
    g: Map<GridNode, i32>,
    closed: Seq<bool>,
    open: Seq<(GridNode, i32)>,
    cc: nat,
    b: int,
)
    requires
        cost_inv(grid, mode, start, goal, came, g, closed, open, goal, 0, cc),
        0 <= b < open.len(),
        closed[cell_index(grid.width_spec() as int, open[b].0.x as int, open[b].0.y as int)],
    ensures
        cost_inv(grid, mode, start, goal, came, g, closed, open.remove(b), goal, 0, cc),
{
    reveal(cost_inv);
    let w = grid.width_spec() as int;
    let o2 = open.remove(b);
    if cc > 0 {
        assert forall|n: GridNode| #[trigger] g.contains_key(n) && !closed[cell_index(w, n.x as int, n.y as int)]
            implies open_entry(o2, n, g[n] + manhattan(n, goal)) by {
            let e = choose|e: int| 0 <= e < open.len() && (#[trigger] open[e]).0 == n && open[e].1 == g[n] + manhattan(n, goal);
            assert(e != b);
            if e < b {
                assert(o2[e] == open[e]);
            } else {
                assert(o2[e - 1] == open[e]);
            }
        }
        assert forall|j: int| 0 <= j < o2.len() implies (#[trigger] o2[j]).1 >= g[o2[j].0] + manhattan(o2[j].0, goal) by {
            if j < b {
                assert(o2[j] == open[j]);
            } else {
                assert(o2[j] == open[j + 1]);
            }
        }
    }
}

/// Closing `current`, taken from entry `b` of `open` at its cheapest cost,
/// keeps the cost invariant, with `current`'s edges still to cover.
proof fn lemma_cost_close(
    grid: &PathfindingGrid,
    mode: PathfindingMode,
    start: GridNode,
    goal: GridNode,
    came: Map<GridNode, GridNode>,
    g: Map<GridNode, i32>,
    closed: Seq<bool>,
    open: Seq<(GridNode, i32)>,
    cc: nat,
    b: int,
    current: GridNode,
)
    requires
        grid.wf(),
        closed.len() == grid.width_spec() * grid.height_spec(),
        frontier_inv(grid, mode, goal, g, closed, open, goal, 0),
        cost_inv(grid, mode, start, goal, came, g, closed, open, goal, 0, cc),
        0 <= b < open.len(),
        open[b].0 == current,
        grid.valid(current.x as int, current.y as int),
        !closed[cell_index(grid.width_spec() as int, current.x as int, current.y as int)],
        no_cheaper_walk(grid, mode, start, current, g[current] as int),
        cc == 0 ==> open.len() == 1 && forall|n: GridNode| #[trigger] g.contains_key(n) ==> n == current,
        forall|n: GridNode| #[trigger] g.contains_key(n) ==> grid.valid(n.x as int, n.y as int),
    ensures
        cost_inv(grid, mode, start, goal, came, g,
            closed.update(cell_index(grid.width_spec() as int, current.x as int, current.y as int), true),
            open.remove(b), current, 0, cc + 1),
{
    reveal(cost_inv);
    let w = grid.width_spec() as int;
    let hgt = grid.height_spec() as int;
    let ci = cell_index(w, current.x as int, current.y as int);
    lemma_cell_index(w, hgt, current.x as int, current.y as int);
    let c2 = closed.update(ci, true);
    let o2 = open.remove(b);
    assert forall|n: GridNode| grid.valid(n.x as int, n.y as int) && #[trigger] c2[cell_index(w, n.x as int, n.y as int)]
        implies no_cheaper_walk(grid, mode, start, n, g[n] as int) by {
        lemma_cell_index(w, hgt, n.x as int, n.y as int);
        if n != current {
            if cell_index(w, n.x as int, n.y as int) == ci {
                lemma_cell_index_injective(w, n.x as int, n.y as int, current.x as int, current.y as int);
            }
            assert(closed[cell_index(w, n.x as int, n.y as int)]);
        }
    }
    assert forall|n: GridNode, j: int| #![trigger c2[cell_index(w, n.x as int, n.y as int)], grid.neighbors_spec(n, mode)[j]]
        grid.valid(n.x as int, n.y as int) && c2[cell_index(w, n.x as int, n.y as int)]
        && 0 <= j < grid.neighbors_spec(n, mode).len() && (n != current || j < 0)
        && !c2[cell_index(w, grid.neighbors_spec(n, mode)[j].x as int, grid.neighbors_spec(n, mode)[j].y as int)]
        implies g[grid.neighbors_spec(n, mode)[j]] <= g[n] + step_cost(n, grid.neighbors_spec(n, mode)[j]) by {
        let c = grid.neighbors_spec(n, mode)[j];
        lemma_cell_index(w, hgt, n.x as int, n.y as int);
        if cell_index(w, n.x as int, n.y as int) == ci {
            lemma_cell_index_injective(w, n.x as int, n.y as int, current.x as int, current.y as int);
        }
        assert(closed[cell_index(w, n.x as int, n.y as int)]);
        assert(n != goal);
        grid.lemma_wf();
        assert(interior(n));
        lemma_neighbor_walkable(grid, n, mode, j);
        lemma_cell_index(w, hgt, c.x as int, c.y as int);
        let cj = cell_index(w, c.x as int, c.y as int);
        assert(cj != ci);
        assert(!closed[cj]);
    }
    assert forall|n: GridNode| #[trigger] g.contains_key(n) && !c2[cell_index(w, n.x as int, n.y as int)]
        implies open_entry(o2, n, g[n] + manhattan(n, goal)) by {
        lemma_cell_index(w, hgt, n.x as int, n.y as int);
        assert(n != current);
        if cell_index(w, n.x as int, n.y as int) == ci {
            lemma_cell_index_injective(w, n.x as int, n.y as int, current.x as int, current.y as int);
        }
        assert(!closed[cell_index(w, n.x as int, n.y as int)]);
        let e = choose|e: int| 0 <= e < open.len() && (#[trigger] open[e]).0 == n && open[e].1 == g[n] + manhattan(n, goal);
        assert(e != b);
        if e < b {
            assert(o2[e] == open[e]);
        } else {
            assert(o2[e - 1] == open[e]);
        }
    }
    assert forall|j: int| 0 <= j < o2.len() implies (#[trigger] o2[j]).1 >= g[o2[j].0] + manhattan(o2[j].0, goal) by {
        if j < b {
            assert(o2[j] == open[j]);
        } else {
            assert(o2[j] == open[j + 1]);
        }
    }
}

/// Once every edge of `current` is covered, the cost invariant holds with no
/// node's edges pending.
proof fn lemma_cost_finish(
    grid: &PathfindingGrid,
    mode: PathfindingMode,
    start: GridNode,
    goal: GridNode,
    came: Map<GridNode, GridNode>,
    g: Map<GridNode, i32>,
    closed: Seq<bool>,
    open: Seq<(GridNode, i32)>,
    current: GridNode,
    cc: nat,
)
    requires
        cost_inv(grid, mode, start, goal, came, g, closed, open, current, grid.neighbors_spec(current, mode).len() as int, cc),
        !closed[cell_index(grid.width_spec() as int, goal.x as int, goal.y as int)],
    ensures
        cost_inv(grid, mode, start, goal, came, g, closed, open, goal, 0, cc),
{
    reveal(cost_inv);
    let w = grid.width_spec() as int;
    assert forall|n: GridNode, j: int| #![trigger closed[cell_index(w, n.x as int, n.y as int)], grid.neighbors_spec(n, mode)[j]]
        grid.valid(n.x as int, n.y as int) && closed[cell_index(w, n.x as int, n.y as int)]
        && 0 <= j < grid.neighbors_spec(n, mode).len() && (n != goal || j < 0)
        && !closed[cell_index(w, grid.neighbors_spec(n, mode)[j].x as int, grid.neighbors_spec(n, mode)[j].y as int)]
        implies g[grid.neighbors_spec(n, mode)[j]] <= g[n] + step_cost(n, grid.neighbors_spec(n, mode)[j]) by {
        if n == current {
        }
    }
}

/// The node taken from `open` with the lowest estimate, not yet closed, may
/// be closed at its cost: the cost invariant holds afterwards, with its
/// edges still to cover.
proof fn lemma_close_cheapest(
    grid: &PathfindingGrid,
    mode: PathfindingMode,
    start: GridNode,
    goal: GridNode,
    came: Map<GridNode, GridNode>,
    g: Map<GridNode, i32>,
    closed: Seq<bool>,
    open: Seq<(GridNode, i32)>,
    cc: nat,
    b: int,
)
    requires
        grid.wf(),
        closed.len() == grid.width_spec() * grid.height_spec(),
        grid.walkable_at(start.x as int, start.y as int),
        search_inv(grid, mode, start, came, g, closed, cc),
        frontier_inv(grid, mode, goal, g, closed, open, goal, 0),
        cost_inv(grid, mode, start, goal, came, g, closed, open, goal, 0, cc),
        cc > 0 ==> closed[cell_index(grid.width_spec() as int, start.x as int, start.y as int)],
        cc == 0 ==> open == seq![(start, 0i32)] && forall|i: int| 0 <= i < closed.len() ==> !closed[i],
        0 <= b < open.len(),
        g.contains_key(open[b].0),
        !closed[cell_index(grid.width_spec() as int, open[b].0.x as int, open[b].0.y as int)],
        forall|j: int| 0 <= j < open.len() ==> open[b].1 <= #[trigger] open[j].1,
    ensures
        ({
            let w = grid.width_spec() as int;
            let c2 = closed.update(cell_index(w, open[b].0.x as int, open[b].0.y as int), true);
            &&& cost_inv(grid, mode, start, goal, came, g, c2, open.remove(b), open[b].0, 0, cc + 1)
            &&& c2[cell_index(w, start.x as int, start.y as int)]
        }),
{
    let w = grid.width_spec() as int;
    let hgt = grid.height_spec() as int;
    let current = open[b].0;
    grid.lemma_wf();
    lemma_cell_index(w, hgt, current.x as int, current.y as int);
    lemma_cell_index(w, hgt, start.x as int, start.y as int);
    assert forall|n: GridNode| #[trigger] g.contains_key(n) implies grid.valid(n.x as int, n.y as int) by {}
    if cc == 0 {
        assert(open[b] == (start, 0i32));
        assert(current == start);
        assert forall|n: GridNode| #[trigger] g.contains_key(n) implies n == current by {
            if n != start {
                let p = came[n];
                assert(closed[cell_index(w, p.x as int, p.y as int)]);
                lemma_cell_index(w, hgt, p.x as int, p.y as int);
            }
        }
        assert forall|q: Seq<GridNode>| #[trigger] is_path(grid, mode, q, start, current) implies g[current] <= walk_cost(q) by {
            lemma_walk_cost_nonneg(q);
        }
    } else {
        lemma_pop_optimal(grid, mode, start, goal, came, g, closed, open, cc, b);
    }
    lemma_cost_close(grid, mode, start, goal, came, g, closed, open, cc, b, current);
}

/// When the goal is taken from `open`, the walk back along the links is a
/// cheapest walk to it.
proof fn lemma_goal_cheapest(
    grid: &PathfindingGrid,
    mode: PathfindingMode,
    start: GridNode,
    goal: GridNode,
    came: Map<GridNode, GridNode>,
    g: Map<GridNode, i32>,
    closed: Seq<bool>,
    open: Seq<(GridNode, i32)>,
    cc: nat,
    b: int,
    fuel: nat,
)
    requires
        grid.wf(),
        grid.walkable_at(start.x as int, start.y as int),
        start != goal,
        search_inv(grid, mode, start, came, g, closed, cc),
        frontier_inv(grid, mode, goal, g, closed, open, goal, 0),
        cost_inv(grid, mode, start, goal, came, g, closed, open, goal, 0, cc),
        cc > 0 ==> closed[cell_index(grid.width_spec() as int, start.x as int, start.y as int)],
        cc == 0 ==> open == seq![(start, 0i32)],
        0 <= b < open.len(),
        open[b].0 == goal,
        g.contains_key(goal),
        forall|j: int| 0 <= j < open.len() ==> open[b].1 <= #[trigger] open[j].1,
        trail_done(came, start, goal, fuel),
    ensures
        forall|q: Seq<GridNode>| #[trigger] is_path(grid, mode, q, start, goal)
            ==> walk_cost(trail(came, start, goal, fuel).reverse()) <= walk_cost(q),
{
    if cc == 0 {
        assert(open[b] == (start, 0i32));
    }
    lemma_pop_optimal(grid, mode, start, goal, came, g, closed, open, cc, b);
    lemma_trail_cost(grid, mode, start, goal, came, g, closed, open, goal, 0, cc, goal, fuel);
}

impl PathfindingGrid {
    /// Relax every neighbor of the just-closed node `current` (cost `gc`).
    #[verifier::spinoff_prover]
    fn relax_neighbors(
        &self,
        mode: PathfindingMode,
        start: GridNode,
        goal: GridNode,
        current: GridNode,
        gc: i32,
        neighbors: &Vec<GridNode>,
        came_from: &mut CellMap<GridNode>,
        g: &mut CellMap<i32>,
        closed: &Vec<bool>,
        open: &mut Vec<(GridNode, i32)>,
        Ghost(cc): Ghost<nat>,
    )
        requires
            self.wf(),
            14 * (self.width_spec() * self.height_spec()) + self.width_spec() + self.height_spec() <= i32::MAX,
            self.walkable_at(goal.x as int, goal.y as int),
            self.walkable_at(current.x as int, current.y as int),
            old(came_from).wf(),
            old(g).wf(),
            old(came_from).width_spec() == self.width_spec() && old(came_from).height_spec() == self.height_spec(),
            old(g).width_spec() == self.width_spec() && old(g).height_spec() == self.height_spec(),
            closed@.len() == self.width_spec() * self.height_spec(),
            1 <= cc <= self.width_spec() * self.height_spec(),
            closed@[cell_index(self.width_spec() as int, current.x as int, current.y as int)],
            old(g).entries().contains_key(current),
            old(g).entries()[current] == gc,
            0 <= gc <= 14 * (cc - 1),
            neighbors@ == self.neighbors_spec(current, mode),
            search_inv(self, mode, start, old(came_from).entries(), old(g).entries(), closed@, cc),
            forall|j: int| 0 <= j < old(open)@.len() ==> old(g).entries().contains_key(#[trigger] old(open)@[j].0),
            frontier_inv(self, mode, goal, old(g).entries(), closed@, old(open)@, current, 0),
            cost_inv(self, mode, start, goal, old(came_from).entries(), old(g).entries(), closed@, old(open)@, current, 0, cc),
        ensures
            frontier_inv(self, mode, goal, final(g).entries(), closed@, final(open)@, current, neighbors@.len() as int),
            cost_inv(self, mode, start, goal, final(came_from).entries(), final(g).entries(), closed@, final(open)@, current,
                neighbors@.len() as int, cc),
            final(came_from).wf(),
            final(g).wf(),
            final(came_from).width_spec() == self.width_spec() && final(came_from).height_spec() == self.height_spec(),
            final(g).width_spec() == self.width_spec() && final(g).height_spec() == self.height_spec(),
            search_inv(self, mode, start, final(came_from).entries(), final(g).entries(), closed@, cc),
            forall|j: int| 0 <= j < final(open)@.len() ==> final(g).entries().contains_key(#[trigger] final(open)@[j].0),
    {
        let ghost w = self.width_spec() as int;
        let ghost hgt = self.height_spec() as int;
        proof {
            self.lemma_wf();
            lemma_cell_index(w, hgt, current.x as int, current.y as int);
            assert(interior(current));
            assert(14 * (cc - 1) + 14 == 14 * cc) by (nonlinear_arith);
            assert(14 * cc <= 14 * (w * hgt)) by (nonlinear_arith)
                requires
                    cc <= w * hgt,
            ;
        }
        let mut m: usize = 0;
        while m < neighbors.len()
            invariant
                self.wf(),
                14 * (self.width_spec() * self.height_spec()) + self.width_spec() + self.height_spec() <= i32::MAX,
                w == self.width_spec(),
                hgt == self.height_spec(),
                self.walkable_at(goal.x as int, goal.y as int),
                came_from.wf(),
                g.wf(),
                came_from.width_spec() == w && came_from.height_spec() == hgt,
                g.width_spec() == w && g.height_spec() == hgt,
                closed@.len() == w * hgt,
                closed@[cell_index(w, current.x as int, current.y as int)],
                g.entries().contains_key(current),
                g.entries()[current] == gc,
                0 <= gc <= 14 * (cc - 1),
                14 * (cc - 1) + 14 == 14 * cc,
                14 * cc <= 14 * (w * hgt),
                neighbors@ == self.neighbors_spec(current, mode),
                interior(current),
                m <= neighbors@.len(),
                search_inv(self, mode, start, came_from.entries(), g.entries(), closed@, cc),
                forall|j: int| 0 <= j < open@.len() ==> g.entries().contains_key(#[trigger] open@[j].0),
                frontier_inv(self, mode, goal, g.entries(), closed@, open@, current, m as int),
                cost_inv(self, mode, start, goal, came_from.entries(), g.entries(), closed@, open@, current, m as int, cc),
            decreases neighbors@.len() - m,
        {
            let nb = neighbors[m];
            proof {
                lemma_neighbor_walkable(self, current, mode, m as int);
                assert(neighbors@.contains(nb));
            }
            let ni = self.index(&nb);
            let ghost g_before = g.entries();
            let ghost open_before = open@;
            if !closed[ni] {
                let dx: i64 = nb.x as i64 - current.x as i64;
                let dy: i64 = nb.y as i64 - current.y as i64;
                let diagonal = (dx == 1 || dx == -1) && (dy == 1 || dy == -1);
                let move_cost: i32 = if diagonal { 14 } else { 10 };
                assert(move_cost == step_cost(current, nb));
                let tentative: i32 = gc + move_cost;
                let better = match g.get(nb) {
                    Some(old_g) => tentative < *old_g,
                    None => tentative < i32::MAX,
                };
                if better {
                    let ghost came0 = came_from.entries();
                    let ghost g0 = g.entries();
                    proof {
                        lemma_cell_index(w, hgt, nb.x as int, nb.y as int);
                    }
                    came_from.insert(nb, current);
                    g.insert(nb, tentative);
                    proof {
                        assert(0 <= manhattan(nb, goal) <= w + hgt);
                    }
                    let h = nb.manhattan_distance(&goal);
                    open.push((nb, tentative + h));
                    proof {
                        lemma_relax_step(self, mode, start, came0, g0, closed@, cc, current, nb, tentative);
                        lemma_frontier_insert(self, mode, goal, g0, closed@, open_before, current, m as int, nb, tentative, (tentative + h) as i32);
                        lemma_cost_insert(self, mode, start, goal, came0, g0, closed@, open_before, current, m as int, cc,
                            nb, tentative, (tentative + h) as i32);
                    }
                } else {
                    proof {
                        lemma_frontier_skip(self, mode, goal, g.entries(), closed@, open@, current, m as int);
                        lemma_cost_skip(self, mode, start, goal, came_from.entries(), g.entries(), closed@, open@, current, m as int, cc);
                    }
                }
            } else {
                proof {
                    assert(self.valid(nb.x as int, nb.y as int));
                    assert(g.entries().contains_key(nb));
                    lemma_frontier_skip(self, mode, goal, g.entries(), closed@, open@, current, m as int);
                    lemma_cost_skip(self, mode, start, goal, came_from.entries(), g.entries(), closed@, open@, current, m as int, cc);
                }
            }
            m = m + 1;
        }
    }

    /// Find a path from `start` to `goal` over walkable cells (A* with move
    /// costs 10 straight / 14 diagonal and a Manhattan heuristic).
    #[verifier::spinoff_prover]
    #[verifier::rlimit(50)]
    fn a_star(&self, start: GridNode, goal: GridNode, mode: PathfindingMode) -> (r: Option<Vec<GridNode>>)
        requires
            self.wf(),
            14 * (self.width_spec() * self.height_spec()) + self.width_spec() + self.height_spec() <= i32::MAX,
        ensures
            !(self.walkable_at(start.x as int, start.y as int) && self.walkable_at(goal.x as int, goal.y as int)) ==> r is None,
            self.walkable_at(start.x as int, start.y as int) && start == goal ==> (r matches Some(p) && p@ == seq![start]),
            r matches Some(p) ==> is_path(self, mode, p@, start, goal),
            r is None && self.walkable_at(start.x as int, start.y as int) && self.walkable_at(goal.x as int, goal.y as int)
                ==> !exists|p: Seq<GridNode>| is_path(self, mode, p, start, goal),
            r matches Some(p) ==> forall|q: Seq<GridNode>| #[trigger] is_path(self, mode, q, start, goal) ==> walk_cost(p@) <= walk_cost(q),
    {
        if !self.is_walkable(&start) || !self.is_walkable(&goal) {
            return None;
        }
        if start.x == goal.x && start.y == goal.y {
            let mut v: Vec<GridNode> = Vec::new();
            v.push(start);
            proof {
                assert forall|q: Seq<GridNode>| #[trigger] is_path(self, mode, q, start, goal) implies walk_cost(v@) <= walk_cost(q) by {
                    lemma_walk_cost_nonneg(q);
                }
            }
            return Some(v);
        }
        let ghost w = self.width_spec() as int;
        let ghost hgt = self.height_spec() as int;
        proof {
            self.lemma_wf();
        }
        let n_cells = self.walkable.len();
        let mut open: Vec<(GridNode, i32)> = Vec::new();
        open.push((start, 0));
        let mut came_from: CellMap<GridNode> = CellMap::new(self.width, self.height);
        let mut g: CellMap<i32> = CellMap::new(self.width, self.height);
        g.insert(start, 0);
        let mut closed: Vec<bool> = Vec::new();
        let mut k: usize = 0;
        while k < n_cells
            invariant
                k <= n_cells,
                closed@.len() == k,
                forall|j: int| 0 <= j < k ==> !closed@[j],
            decreases n_cells - k,
        {
            closed.push(false);
            k = k + 1;
        }
        let ghost mut cc: nat = 0;
        proof {
            lemma_count_true_none(closed@);
            assert forall|n: GridNode| self.valid(n.x as int, n.y as int) implies !#[trigger] closed@[cell_index(w, n.x as int, n.y as int)] by {
                lemma_cell_index(w, hgt, n.x as int, n.y as int);
            }
            assert(search_inv(self, mode, start, came_from.entries(), g.entries(), closed@, cc));
            lemma_cell_index(w, hgt, goal.x as int, goal.y as int);
            assert forall|n: GridNode| #[trigger] g.entries().contains_key(n) implies
                closed@[cell_index(w, n.x as int, n.y as int)] || open_has(open@, n) by {
                assert(open@[0].0 == start);
            }
            assert(frontier_inv(self, mode, goal, g.entries(), closed@, open@, goal, 0));
            assert(cost_inv(self, mode, start, goal, came_from.entries(), g.entries(), closed@, open@, goal, 0, cc)) by {
                reveal(cost_inv);
            }
        }
        while open.len() > 0
            invariant
                self.wf(),
                14 * (self.width_spec() * self.height_spec()) + self.width_spec() + self.height_spec() <= i32::MAX,
                w == self.width_spec(),
                hgt == self.height_spec(),
                n_cells == w * hgt,
                self.walkable_at(start.x as int, start.y as int),
                self.walkable_at(goal.x as int, goal.y as int),
                came_from.wf(),
                g.wf(),
                came_from.width_spec() == w && came_from.height_spec() == hgt,
                g.width_spec() == w && g.height_spec() == hgt,
                closed@.len() == n_cells,
                count_true(closed@) == cc,
                cc <= n_cells,
                search_inv(self, mode, start, came_from.entries(), g.entries(), closed@, cc),
                forall|j: int| 0 <= j < open@.len() ==> g.entries().contains_key(#[trigger] open@[j].0),
                frontier_inv(self, mode, goal, g.entries(), closed@, open@, goal, 0),
                cost_inv(self, mode, start, goal, came_from.entries(), g.entries(), closed@, open@, goal, 0, cc),
                cc > 0 ==> closed@[cell_index(w, start.x as int, start.y as int)],
                cc == 0 ==> open@ == seq![(start, 0i32)] && forall|i: int| 0 <= i < closed@.len() ==> !closed@[i],
                start != goal,
            decreases n_cells - cc, open@.len(),
        {
            let ghost open0 = open@;
            let ghost g0 = g.entries();
            let ghost closed0 = closed@;
            let e = pop_min(&mut open);
            let current = e.0;
            let ghost b = choose|b: int| 0 <= b < open0.len() && e == open0[b] && open@ == open0.remove(b);
            proof {
                let j = choose|j: int| 0 <= j < open0.len() && open0[j] == e;
                assert(g.entries().contains_key(open0[j].0));
                assert forall|i: int| 0 <= i < open@.len() implies g.entries().contains_key(#[trigger] open@[i].0) by {
                    assert(open0.contains(open@[i]));
                    let jj = choose|jj: int| 0 <= jj < open0.len() && open0[jj] == open@[i];
                    assert(g.entries().contains_key(open0[jj].0));
                }
            }
            if current.x == goal.x && current.y == goal.y {
                assert(current == goal);
                proof {
                    lemma_search_trail(self, mode, start, came_from.entries(), g.entries(), closed@, cc, goal);
                }
                let path = reconstruct(&came_from, start, goal);
                proof {
                    let came = came_from.entries();
                    let fuel = choose|fuel: nat| trail_done(came, start, goal, fuel) && path@ == #[trigger] trail(came, start, goal, fuel).reverse();
                    lemma_goal_path(self, mode, start, goal, came, g.entries(), closed@, cc, path@, fuel);
                    lemma_goal_cheapest(self, mode, start, goal, came, g.entries(), closed@, open0, cc, b, fuel);
                }
                return Some(path);
            }
            let ci = self.index(&current);
            if closed[ci] {
                proof {
                    lemma_cell_index(w, hgt, current.x as int, current.y as int);
                    assert(cc > 0);
                    lemma_cost_drop(self, mode, start, goal, came_from.entries(), g.entries(), closed@, open0, cc, b);
                    let w2 = self.width_spec() as int;
                    assert forall|n: GridNode| #[trigger] g.entries().contains_key(n) implies
                        closed@[cell_index(w2, n.x as int, n.y as int)] || open_has(open@, n) by {
                        if n != current && !closed@[cell_index(w2, n.x as int, n.y as int)] {
                            let j = choose|j: int| 0 <= j < open0.len() && #[trigger] open0[j].0 == n;
                            assert(j != b);
                            if j < b {
                                assert(open@[j].0 == n);
                            } else {
                                assert(open@[j - 1].0 == n);
                            }
                        }
                    }
                }
                continue;
            }
            proof {
                lemma_count_true_set(closed@, ci as int);
                lemma_count_true_bound(closed@.update(ci as int, true));
                lemma_close_node(self, mode, start, came_from.entries(), g.entries(), closed@, cc, current);
                assert forall|n: GridNode| #[trigger] g.entries().contains_key(n) implies self.valid(n.x as int, n.y as int) by {}
                lemma_frontier_close(self, mode, goal, g.entries(), closed@, open0, b, current);
                lemma_close_cheapest(self, mode, start, goal, came_from.entries(), g.entries(), closed@, open0, cc, b);
            }
            closed.set(ci, true);
            proof {
                cc = cc + 1;
            }
            let gc: i32 = *g.get(current).unwrap();
            proof {
                lemma_cell_index(w, hgt, current.x as int, current.y as int);
            }
            let neighbors = self.get_neighbors(&current, mode);
            self.relax_neighbors(mode, start, goal, current, gc, &neighbors, &mut came_from, &mut g, &closed, &mut open, Ghost(cc));
            proof {
                lemma_cost_finish(self, mode, start, goal, came_from.entries(), g.entries(), closed@, open@, current, cc);
                let w2 = self.width_spec() as int;
                let gv = g.entries();
                assert forall|n: GridNode, j: int| #![trigger closed@[cell_index(w2, n.x as int, n.y as int)], self.neighbors_spec(n, mode)[j]]
                    self.valid(n.x as int, n.y as int) && closed@[cell_index(w2, n.x as int, n.y as int)]
                    && 0 <= j < self.neighbors_spec(n, mode).len() && (n != goal || j < 0)
                    implies gv.contains_key(self.neighbors_spec(n, mode)[j]) by {
                }
            }
        }
        proof {
            assert forall|p: Seq<GridNode>| !is_path(self, mode, p, start, goal) by {
                lemma_exhausted(self, mode, start, goal, came_from.entries(), g.entries(), closed@, cc, p);
            }
        }
        None
    }
}

/// The 8 directions in the order the nearest-cell search visits them.
pub open spec fn dirs_search() -> Seq<(i32, i32)> {
    seq![(-1i32, 0i32), (1i32, 0i32), (0i32, -1i32), (0i32, 1i32), (-1i32, -1i32), (1i32, -1i32), (-1i32, 1i32), (1i32, 1i32)]
}

/// The distance in king moves from `a` to the cell (x, y).
pub open spec fn cheb_dist(a: GridNode, x: int, y: int) -> int {
    let dx = abs_int(x - a.x);
    let dy = abs_int(y - a.y);
    if dx >= dy { dx } else { dy }
}

/// `n` is a walkable cell and no walkable cell is nearer to `node` in king moves.
pub open spec fn nearest_ok(grid: &PathfindingGrid, node: GridNode, n: GridNode) -> bool {
    &&& grid.walkable_at(n.x as int, n.y as int)
    &&& forall|x: int, y: int| #[trigger] grid.walkable_at(x, y) ==> cheb_dist(node, n.x as int, n.y as int) <= cheb_dist(node, x, y)
}

/// The nearest-cell search from `node` cannot fail: `node` or one of its 8
/// neighbors is walkable, or `node` lies in a grid of at most 256 cells that
/// has a walkable cell, or `node` lies in or next to the grid with a
/// walkable cell at most 7 king moves away.
pub open spec fn surely_found(grid: &PathfindingGrid, node: GridNode) -> bool {
    ||| grid.walkable_at(node.x as int, node.y as int)
    ||| exists|d: int| 0 <= d < 8 && grid.walkable_at(node.x + (#[trigger] dirs_search()[d]).0, node.y + dirs_search()[d].1)
    ||| (grid.valid(node.x as int, node.y as int) && grid.width_spec() * grid.height_spec() <= 256
        && exists|x: int, y: int| #[trigger] grid.walkable_at(x, y))
    ||| (near_grid(grid, node) && exists|x: int, y: int| #[trigger] grid.walkable_at(x, y) && cheb_dist(node, x, y) <= 7)
}

/// `node` lies in the grid or next to it.
pub open spec fn near_grid(grid: &PathfindingGrid, node: GridNode) -> bool {
    -1 <= node.x <= grid.width_spec() && -1 <= node.y <= grid.height_spec()
}

/// What a failed nearest-cell search leaves out: a search that cannot fail.
proof fn lemma_not_found(grid: &PathfindingGrid, node: GridNode)
    requires
        grid.wf(),
        !grid.walkable_at(node.x as int, node.y as int),
        forall|d: int| 0 <= d < 8 ==> !grid.walkable_at(
            node.x + (#[trigger] dirs_search()[d]).0,
            node.y + dirs_search()[d].1,
        ),
        grid.valid(node.x as int, node.y as int) && grid.width_spec() * grid.height_spec() <= 256
            ==> forall|n: GridNode| !#[trigger] grid.walkable_at(n.x as int, n.y as int),
        near_grid(grid, node) ==> forall|x: int, y: int| #[trigger] grid.walkable_at(x, y) ==> cheb_dist(node, x, y) > 7,
    ensures
        !surely_found(grid, node),
{
    grid.lemma_wf();
    if grid.valid(node.x as int, node.y as int) && grid.width_spec() * grid.height_spec() <= 256 {
        assert forall|x: int, y: int| !#[trigger] grid.walkable_at(x, y) by {
            if grid.walkable_at(x, y) {
                let n = GridNode { x: x as i32, y: y as i32 };
                assert(grid.walkable_at(n.x as int, n.y as int));
            }
        }
    }
}

/// Distinct cells within 7 king moves of `node` number at most 15 * 15.
proof fn lemma_box_bound(node: GridNode, q: Seq<GridNode>)
    requires
        q.no_duplicates(),
        forall|j: int| 0 <= j < q.len() ==> cheb_dist(node, (#[trigger] q[j]).x as int, q[j].y as int) <= 7,
    ensures
        q.len() <= 225,
{
    let code = |c: GridNode| (c.x - node.x + 7) * 15 + (c.y - node.y + 7);
    let s = q.map_values(code);
    assert forall|j: int| 0 <= j < s.len() implies 0 <= #[trigger] s[j] < 225 by {
        assert(s[j] == code(q[j]));
    }
    assert(s.no_duplicates()) by {
        assert forall|a: int, b: int| 0 <= a < s.len() && 0 <= b < s.len() && a != b implies s[a] != s[b] by {
            let ca = q[a];
            let cb = q[b];
            assert(s[a] == code(ca) && s[b] == code(cb));
            assert(ca != cb);
            let xa = ca.x - node.x + 7;
            let ya = ca.y - node.y + 7;
            let xb = cb.x - node.x + 7;
            let yb = cb.y - node.y + 7;
            assert(0 <= xa < 15 && 0 <= ya < 15 && 0 <= xb < 15 && 0 <= yb < 15);
            if xa * 15 + ya == xb * 15 + yb {
                assert(xa == xb && ya == yb) by (nonlinear_arith)
                    requires
                        0 <= xa < 15,
                        0 <= ya < 15,
                        0 <= xb < 15,
                        0 <= yb < 15,
                        xa * 15 + ya == xb * 15 + yb,
                ;
                assert(ca.x == cb.x && ca.y == cb.y);
            }
        }
    }
    s.unique_seq_to_set();
    vstd::set_lib::lemma_int_range(0, 225);
    assert(s.to_set().subset_of(vstd::set_lib::set_int_range(0, 225)));
    vstd::set_lib::lemma_len_subset(s.to_set(), vstd::set_lib::set_int_range(0, 225));
}

/// Once every queued cell has had all its neighbors marked, every cell of
/// the grid is marked, when the search started in or next to the grid.
proof fn lemma_all_visited(grid: &PathfindingGrid, node: GridNode, visited: Seq<bool>, queue: Seq<GridNode>, x: int, y: int)
    requires
        grid.wf(),
        near_grid(grid, node),
        grid.valid(x, y),
        visited.len() == grid.width_spec() * grid.height_spec(),
        queue.len() > 0,
        queue[0] == node,
        forall|j: int| 0 <= j < queue.len() ==> bfs_done(grid, visited, #[trigger] queue[j], 8),
        forall|n: GridNode| grid.valid(n.x as int, n.y as int) && #[trigger] visited[cell_index(grid.width_spec() as int, n.x as int, n.y as int)]
            ==> exists|j: int| 0 <= j < queue.len() && queue[j] == n,
        grid.valid(node.x as int, node.y as int) ==> visited[cell_index(grid.width_spec() as int, node.x as int, node.y as int)],
    ensures
        visited[cell_index(grid.width_spec() as int, x, y)],
    decreases cheb_dist(node, x, y),
{
    let c = cheb_dist(node, x, y);
    grid.lemma_wf();
    if c == 0 {
        assert(x == node.x && y == node.y);
    } else {
        let (qx, qy, e) = lemma_step_toward(grid, node, x, y, c - 1);
        if grid.valid(qx, qy) {
            lemma_all_visited(grid, node, visited, queue, qx, qy);
            let qn = GridNode { x: qx as i32, y: qy as i32 };
            assert(grid.valid(qn.x as int, qn.y as int) && visited[cell_index(grid.width_spec() as int, qn.x as int, qn.y as int)]);
            let j = choose|j: int| 0 <= j < queue.len() && queue[j] == qn;
            assert(bfs_done(grid, visited, queue[j], 8));
            assert(grid.valid(qn.x + dirs_search()[e].0, qn.y + dirs_search()[e].1));
        } else {
            assert(bfs_done(grid, visited, queue[0], 8));
            assert(grid.valid(node.x + dirs_search()[e].0, node.y + dirs_search()[e].1));
        }
    }
}

/// The search direction that moves by (a, b).
proof fn lemma_dir_index(a: int, b: int) -> (e: int)
    requires
        -1 <= a <= 1,
        -1 <= b <= 1,
        !(a == 0 && b == 0),
    ensures
        0 <= e < 8,
        dirs_search()[e].0 == a,
        dirs_search()[e].1 == b,
{
    if a == -1 && b == 0 { 0 }
    else if a == 1 && b == 0 { 1 }
    else if a == 0 && b == -1 { 2 }
    else if a == 0 && b == 1 { 3 }
    else if a == -1 && b == -1 { 4 }
    else if a == 1 && b == -1 { 5 }
    else if a == -1 && b == 1 { 6 }
    else { 7 }
}

/// A cell at king distance k + 1 from `node` is one search step away from a
/// cell at distance k that is in the grid or is `node` itself.
proof fn lemma_step_toward(grid: &PathfindingGrid, node: GridNode, px: int, py: int, k: int) -> (r: (int, int, int))
    requires
        grid.valid(px, py),
        k >= 0,
        cheb_dist(node, px, py) == k + 1,
        near_grid(grid, node),
    ensures
        0 <= r.2 < 8,
        px == r.0 + dirs_search()[r.2].0,
        py == r.1 + dirs_search()[r.2].1,
        cheb_dist(node, r.0, r.1) == k,
        grid.valid(r.0, r.1) || (r.0 == node.x && r.1 == node.y),
{
    let dx = px - node.x;
    let dy = py - node.y;
    let sx: int = if dx == k + 1 { 1 } else if dx == -(k + 1) { -1 } else { 0 };
    let sy: int = if dy == k + 1 { 1 } else if dy == -(k + 1) { -1 } else { 0 };
    let e = lemma_dir_index(sx, sy);
    (px - sx, py - sy, e)
}

/// Every neighbor of `n` in the first `upto` search directions that lies in
/// the grid is marked in `visited`.
pub open spec fn bfs_done(grid: &PathfindingGrid, visited: Seq<bool>, n: GridNode, upto: int) -> bool {
    forall|e: int| 0 <= e < upto && grid.valid(n.x + (#[trigger] dirs_search()[e]).0, n.y + dirs_search()[e].1)
        ==> visited[cell_index(grid.width_spec() as int, n.x + dirs_search()[e].0, n.y + dirs_search()[e].1)]
}

/// Marking one more cell keeps every neighbor that was marked.
proof fn lemma_bfs_done_grow(grid: &PathfindingGrid, v: Seq<bool>, i: int, n: GridNode, upto: int)
    requires
        v.len() == grid.width_spec() * grid.height_spec(),
        0 <= i < v.len(),
        bfs_done(grid, v, n, upto),
    ensures
        bfs_done(grid, v.update(i, true), n, upto),
{
    let w = grid.width_spec() as int;
    let hgt = grid.height_spec() as int;
    assert forall|e: int| 0 <= e < upto && grid.valid(n.x + (#[trigger] dirs_search()[e]).0, n.y + dirs_search()[e].1)
        implies v.update(i, true)[cell_index(w, n.x + dirs_search()[e].0, n.y + dirs_search()[e].1)] by {
        lemma_cell_index(w, hgt, n.x + dirs_search()[e].0, n.y + dirs_search()[e].1);
    }
}

/// When every marked cell has all its neighbors marked, every cell of the
/// grid is marked once one is.
proof fn lemma_bfs_reach(grid: &PathfindingGrid, v: Seq<bool>, a: GridNode, m: GridNode)
    requires
        grid.wf(),
        v.len() == grid.width_spec() * grid.height_spec(),
        grid.valid(a.x as int, a.y as int),
        v[cell_index(grid.width_spec() as int, a.x as int, a.y as int)],
        grid.valid(m.x as int, m.y as int),
        forall|n: GridNode| grid.valid(n.x as int, n.y as int) && #[trigger] v[cell_index(grid.width_spec() as int, n.x as int, n.y as int)]
            ==> bfs_done(grid, v, n, 8),
    ensures
        v[cell_index(grid.width_spec() as int, m.x as int, m.y as int)],
    decreases abs_int(a.x - m.x) + abs_int(a.y - m.y),
{
    let w = grid.width_spec() as int;
    if a == m {
        return;
    }
    grid.lemma_wf();
    let e: int = if a.x < m.x { 1 } else if a.x > m.x { 0 } else if a.y < m.y { 3 } else { 2 };
    let d = dirs_search()[e];
    let b = GridNode { x: (a.x + d.0) as i32, y: (a.y + d.1) as i32 };
    assert(b.x == a.x + d.0 && b.y == a.y + d.1);
    assert(grid.valid(b.x as int, b.y as int));
    assert(bfs_done(grid, v, a, 8));
    assert(v[cell_index(w, a.x + dirs_search()[e].0, a.y + dirs_search()[e].1)]);
    lemma_bfs_reach(grid, v, b, m);
}

/// Search outward (breadth first) from `node` for the nearest walkable cell,
/// giving up after more than 256 cells were seen: from a cell of a grid of
/// at most 256 cells, `None` means that no cell is walkable.
pub fn nearest_walkable(grid: &PathfindingGrid, node: GridNode) -> (r: Option<GridNode>)
    requires
        grid.wf(),
        interior(node),
    ensures
        grid.walkable_at(node.x as int, node.y as int) ==> r == Some(node),
        r matches Some(n) ==> grid.walkable_at(n.x as int, n.y as int),
        r is None ==> forall|d: int| 0 <= d < 8 ==> !grid.walkable_at(
            node.x + (#[trigger] dirs_search()[d]).0,
            node.y + dirs_search()[d].1,
        ),
        r is None && grid.valid(node.x as int, node.y as int) && grid.width_spec() * grid.height_spec() <= 256
            ==> forall|n: GridNode| !#[trigger] grid.walkable_at(n.x as int, n.y as int),
        r matches Some(n) ==> nearest_ok(grid, node, n),
        r is None && near_grid(grid, node) ==> forall|x: int, y: int| #[trigger] grid.walkable_at(x, y) ==> cheb_dist(node, x, y) > 7,
        r matches Some(n) ==> (cheb_dist(node, n.x as int, n.y as int) == 1 ==> exists|d: int| 0 <= d < 8
            && n.x == node.x + (#[trigger] dirs_search()[d]).0 && n.y == node.y + dirs_search()[d].1
            && forall|e: int| 0 <= e < d ==> !grid.walkable_at(node.x + (#[trigger] dirs_search()[e]).0, node.y + dirs_search()[e].1)),
{
    if grid.is_walkable(&node) {
        return Some(node);
    }
    let ghost w = grid.width_spec() as int;
    let ghost hgt = grid.height_spec() as int;
    proof {
        grid.lemma_wf();
    }
    let n_cells = grid.walkable.len();
    let mut visited: Vec<bool> = Vec::new();
    let mut k: usize = 0;
    while k < n_cells
        invariant
            k <= n_cells,
            visited@.len() == k,
            forall|j: int| 0 <= j < k ==> !visited@[j],
        decreases n_cells - k,
    {
        visited.push(false);
        k = k + 1;
    }
    proof {
        lemma_count_true_none(visited@);
    }
    // More than 256 seen cells ends the search; the start counts as seen
    // even when it lies outside the grid.
    let mut limit: usize = 256;
    let mut in_grid_seen: usize = 0;
    let ghost v_init = visited@;
    if grid.is_valid(&node) {
        limit = 257;
        let i = grid.index(&node);
        proof {
            lemma_count_true_set(visited@, i as int);
        }
        visited.set(i, true);
        in_grid_seen = 1;
    }
    let mut queue: Vec<GridNode> = Vec::new();
    queue.push(node);
    let mut head: usize = 0;
    let dirs: [(i32, i32); 8] = [(-1, 0), (1, 0), (0, -1), (0, 1), (-1, -1), (1, -1), (-1, 1), (1, 1)];
    assert(dirs@ =~= dirs_search());
    proof {
        assert forall|n: GridNode| grid.valid(n.x as int, n.y as int) && #[trigger] visited@[cell_index(w, n.x as int, n.y as int)]
            implies exists|j: int| 0 <= j < queue@.len() && queue@[j] == n by {
            lemma_cell_index(w, hgt, n.x as int, n.y as int);
            assert(!v_init[cell_index(w, n.x as int, n.y as int)]);
            lemma_cell_index(w, hgt, node.x as int, node.y as int);
            lemma_cell_index_injective(w, n.x as int, n.y as int, node.x as int, node.y as int);
            assert(queue@[0] == n);
        }
        if grid.valid(node.x as int, node.y as int) {
            lemma_cell_index(w, hgt, node.x as int, node.y as int);
        }
    }
    let ghost mut lvl: int = 0;
    proof {
        assert forall|x: int, y: int| grid.valid(x, y) && cheb_dist(node, x, y) <= lvl implies #[trigger] visited@[cell_index(w, x, y)] by {
            assert(x == node.x && y == node.y);
        }
    }
    while head < queue.len()
        invariant
            dirs@ == dirs_search(),
            grid.wf(),
            w == grid.width_spec(),
            hgt == grid.height_spec(),
            n_cells == w * hgt,
            visited@.len() == n_cells,
            count_true(visited@) == in_grid_seen,
            in_grid_seen <= n_cells,
            !grid.walkable_at(node.x as int, node.y as int),
            head <= queue@.len(),
            queue@.len() <= in_grid_seen + 1,
            queue@.len() == in_grid_seen + (if grid.valid(node.x as int, node.y as int) { 0int } else { 1int }),
            forall|j: int| 0 < j < queue@.len() ==> #[trigger] queue@[j] != node && grid.valid(queue@[j].x as int, queue@[j].y as int)
                && visited@[cell_index(w, queue@[j].x as int, queue@[j].y as int)],
            queue@.no_duplicates(),
            interior(node),
            forall|j: int| 0 <= j < queue@.len() ==> #[trigger] queue@[j] == node || grid.valid(queue@[j].x as int, queue@[j].y as int),
            queue@.len() > 0,
            queue@[0] == node,
            forall|i: int| 0 <= i < n_cells && #[trigger] visited@[i] ==> !grid.cells()[i],
            head > 0 ==> forall|d: int| 0 <= d < 8 ==> !grid.walkable_at(
                node.x + (#[trigger] dirs_search()[d]).0,
                node.y + dirs_search()[d].1,
            ),
            forall|j: int| 0 <= j < head ==> bfs_done(grid, visited@, #[trigger] queue@[j], 8),
            forall|n: GridNode| grid.valid(n.x as int, n.y as int) && #[trigger] visited@[cell_index(w, n.x as int, n.y as int)]
                ==> exists|j: int| 0 <= j < queue@.len() && queue@[j] == n,
            grid.valid(node.x as int, node.y as int) ==> visited@[cell_index(w, node.x as int, node.y as int)] && limit == 257,
            queue@.len() > 1 ==> near_grid(grid, node),
            forall|i: int, j: int| #![trigger queue@[i], queue@[j]] 0 <= i <= j < queue@.len()
                ==> cheb_dist(node, queue@[i].x as int, queue@[i].y as int) <= cheb_dist(node, queue@[j].x as int, queue@[j].y as int),
            forall|j: int| 0 <= j < queue@.len() ==> cheb_dist(node, (#[trigger] queue@[j]).x as int, queue@[j].y as int) <= lvl + 1,
            head > 0 ==> lvl == cheb_dist(node, queue@[head - 1].x as int, queue@[head - 1].y as int),
            head == 0 ==> lvl == 0,
            forall|x: int, y: int| grid.valid(x, y) && cheb_dist(node, x, y) <= lvl ==> #[trigger] visited@[cell_index(w, x, y)],
        ensures
            forall|d: int| 0 <= d < 8 ==> !grid.walkable_at(
                node.x + (#[trigger] dirs_search()[d]).0,
                node.y + dirs_search()[d].1,
            ),
            grid.valid(node.x as int, node.y as int) && n_cells <= 256 ==> head == queue@.len(),
            head == queue@.len() || in_grid_seen >= limit,
        decreases n_cells + 1 - in_grid_seen, queue@.len() - head,
    {
        let cur = queue[head];
        let ghost h0 = head;
        head = head + 1;
        proof {
            let c = cheb_dist(node, cur.x as int, cur.y as int);
            if h0 > 0 {
                assert(cheb_dist(node, queue@[h0 - 1].x as int, queue@[h0 - 1].y as int) <= c);
            }
            if c > lvl {
                assert(h0 > 0);
                assert(queue@.len() > 1);
                assert forall|x: int, y: int| grid.valid(x, y) && cheb_dist(node, x, y) <= lvl + 1
                    implies #[trigger] visited@[cell_index(w, x, y)] by {
                    if cheb_dist(node, x, y) == lvl + 1 {
                        let (qx, qy, e) = lemma_step_toward(grid, node, x, y, lvl);
                        if grid.valid(qx, qy) {
                            assert(visited@[cell_index(w, qx, qy)]);
                            let qn = GridNode { x: qx as i32, y: qy as i32 };
                            assert(grid.valid(qn.x as int, qn.y as int) && visited@[cell_index(w, qn.x as int, qn.y as int)]);
                            let j = choose|j: int| 0 <= j < queue@.len() && queue@[j] == qn;
                            if j >= h0 {
                                assert(cheb_dist(node, queue@[h0 as int].x as int, queue@[h0 as int].y as int)
                                    <= cheb_dist(node, queue@[j].x as int, queue@[j].y as int));
                            }
                            assert(bfs_done(grid, visited@, queue@[j], 8));
                            assert(grid.valid(qn.x + dirs_search()[e].0, qn.y + dirs_search()[e].1));
                        } else {
                            assert(bfs_done(grid, visited@, queue@[0], 8));
                            assert(grid.valid(node.x + dirs_search()[e].0, node.y + dirs_search()[e].1));
                        }
                    }
                }
            }
            lvl = c;
        }
        let ghost igs0 = in_grid_seen;
        let ghost q0 = queue@.len();
        proof {
            if cur != node {
                lemma_cell_index(w, hgt, cur.x as int, cur.y as int);
            }
        }
        let mut d: usize = 0;
        while d < 8
            invariant
                grid.wf(),
                w == grid.width_spec(),
                hgt == grid.height_spec(),
                n_cells == w * hgt,
                visited@.len() == n_cells,
                count_true(visited@) == in_grid_seen,
                in_grid_seen <= n_cells,
                !grid.walkable_at(node.x as int, node.y as int),
                head <= queue@.len(),
                queue@.len() <= in_grid_seen + 1,
                queue@.len() == in_grid_seen + (if grid.valid(node.x as int, node.y as int) { 0int } else { 1int }),
                forall|j: int| 0 < j < queue@.len() ==> #[trigger] queue@[j] != node && grid.valid(queue@[j].x as int, queue@[j].y as int)
                    && visited@[cell_index(w, queue@[j].x as int, queue@[j].y as int)],
                queue@.no_duplicates(),
                interior(cur),
                interior(node),
                forall|j: int| 0 <= j < queue@.len() ==> #[trigger] queue@[j] == node || grid.valid(queue@[j].x as int, queue@[j].y as int),
                d <= 8,
                dirs@ == dirs_search(),
                in_grid_seen >= igs0,
                in_grid_seen == igs0 ==> queue@.len() == q0,
                queue@.len() > 0,
                queue@[0] == node,
                1 <= head,
                cur == queue@[head - 1],
                forall|i: int| 0 <= i < n_cells && #[trigger] visited@[i] ==> !grid.cells()[i],
                head > 1 ==> forall|e: int| 0 <= e < 8 ==> !grid.walkable_at(
                    node.x + (#[trigger] dirs_search()[e]).0,
                    node.y + dirs_search()[e].1,
                ),
                forall|e: int| 0 <= e < d ==> !grid.walkable_at(
                    cur.x + (#[trigger] dirs_search()[e]).0,
                    cur.y + dirs_search()[e].1,
                ),
                forall|j: int| 0 <= j < head - 1 ==> bfs_done(grid, visited@, #[trigger] queue@[j], 8),
                bfs_done(grid, visited@, cur, d as int),
                forall|n: GridNode| grid.valid(n.x as int, n.y as int) && #[trigger] visited@[cell_index(w, n.x as int, n.y as int)]
                    ==> exists|j: int| 0 <= j < queue@.len() && queue@[j] == n,
                grid.valid(node.x as int, node.y as int) ==> visited@[cell_index(w, node.x as int, node.y as int)] && limit == 257,
                queue@.len() > 1 ==> near_grid(grid, node),
                forall|i: int, j: int| #![trigger queue@[i], queue@[j]] 0 <= i <= j < queue@.len()
                    ==> cheb_dist(node, queue@[i].x as int, queue@[i].y as int) <= cheb_dist(node, queue@[j].x as int, queue@[j].y as int),
                forall|j: int| 0 <= j < queue@.len() ==> cheb_dist(node, (#[trigger] queue@[j]).x as int, queue@[j].y as int) <= lvl + 1,
                lvl == cheb_dist(node, cur.x as int, cur.y as int),
                forall|x: int, y: int| grid.valid(x, y) && cheb_dist(node, x, y) <= lvl ==> #[trigger] visited@[cell_index(w, x, y)],
            decreases 8 - d,
        {
            let (dx, dy) = dirs[d];
            let nb = GridNode::new(cur.x + dx, cur.y + dy);
            let ghost v0 = visited@;
            let ghost qa = queue@;
            if grid.is_valid(&nb) {
                let ni = grid.index(&nb);
                if !visited[ni] {
                    proof {
                        lemma_cell_index(w, hgt, nb.x as int, nb.y as int);
                        assert(cheb_dist(node, nb.x as int, nb.y as int) == lvl + 1);
                    }
                    if grid.is_walkable(&nb) {
                        proof {
                            assert forall|x: int, y: int| #[trigger] grid.walkable_at(x, y)
                                implies cheb_dist(node, nb.x as int, nb.y as int) <= cheb_dist(node, x, y) by {
                                if cheb_dist(node, x, y) <= lvl {
                                    lemma_cell_index(w, hgt, x, y);
                                    assert(visited@[cell_index(w, x, y)]);
                                }
                            }
                            if lvl == 0 {
                                assert(cur == node);
                                assert(dirs_search()[d as int] == (dx, dy));
                            }
                        }
                        return Some(nb);
                    }
                    proof {
                        lemma_count_true_set(visited@, ni as int);
                        lemma_count_true_bound(visited@.update(ni as int, true));
                    }
                    visited.set(ni, true);
                    in_grid_seen = in_grid_seen + 1;
                    queue.push(nb);
                    proof {
                        if qa.len() == 1 {
                            assert(cur == node);
                        }
                        assert(nb != node) by {
                            if grid.valid(node.x as int, node.y as int) {
                                assert(v0[cell_index(w, node.x as int, node.y as int)]);
                            }
                        }
                        assert forall|j: int| 0 < j < queue@.len() implies #[trigger] queue@[j] != node && grid.valid(queue@[j].x as int, queue@[j].y as int)
                            && visited@[cell_index(w, queue@[j].x as int, queue@[j].y as int)] by {
                            if j < qa.len() {
                                assert(queue@[j] == qa[j]);
                                lemma_cell_index(w, hgt, qa[j].x as int, qa[j].y as int);
                            }
                        }
                        assert(queue@.no_duplicates()) by {
                            assert forall|a: int, b: int| 0 <= a < queue@.len() && 0 <= b < queue@.len() && a != b implies queue@[a] != queue@[b] by {
                                if a < qa.len() && b < qa.len() {
                                    assert(queue@[a] == qa[a] && queue@[b] == qa[b]);
                                } else if a < qa.len() {
                                    assert(queue@[a] == qa[a]);
                                    if a > 0 {
                                        assert(v0[cell_index(w, qa[a].x as int, qa[a].y as int)]);
                                    }
                                } else if b < qa.len() {
                                    assert(queue@[b] == qa[b]);
                                    if b > 0 {
                                        assert(v0[cell_index(w, qa[b].x as int, qa[b].y as int)]);
                                    }
                                }
                            }
                        }
                        assert forall|x: int, y: int| grid.valid(x, y) && cheb_dist(node, x, y) <= lvl
                            implies #[trigger] visited@[cell_index(w, x, y)] by {
                            lemma_cell_index(w, hgt, x, y);
                            assert(v0[cell_index(w, x, y)]);
                        }
                        assert forall|i: int, j: int| #![trigger queue@[i], queue@[j]] 0 <= i <= j < queue@.len()
                            implies cheb_dist(node, queue@[i].x as int, queue@[i].y as int) <= cheb_dist(node, queue@[j].x as int, queue@[j].y as int) by {
                            if j < qa.len() {
                                assert(queue@[i] == qa[i] && queue@[j] == qa[j]);
                            } else if i < qa.len() {
                                assert(queue@[i] == qa[i]);
                            }
                        }
                        assert forall|j: int| 0 <= j < queue@.len() implies cheb_dist(node, (#[trigger] queue@[j]).x as int, queue@[j].y as int) <= lvl + 1 by {
                            if j < qa.len() {
                                assert(queue@[j] == qa[j]);
                            }
                        }
                        lemma_cell_index(w, hgt, nb.x as int, nb.y as int);
                        assert forall|j: int| 0 <= j < head - 1 implies bfs_done(grid, visited@, #[trigger] queue@[j], 8) by {
                            assert(queue@[j] == qa[j]);
                            lemma_bfs_done_grow(grid, v0, ni as int, qa[j], 8);
                        }
                        lemma_bfs_done_grow(grid, v0, ni as int, cur, d as int);
                        assert forall|n: GridNode| grid.valid(n.x as int, n.y as int) && #[trigger] visited@[cell_index(w, n.x as int, n.y as int)]
                            implies exists|j: int| 0 <= j < queue@.len() && queue@[j] == n by {
                            lemma_cell_index(w, hgt, n.x as int, n.y as int);
                            if n == nb {
                                assert(queue@[queue@.len() - 1] == n);
                            } else {
                                if cell_index(w, n.x as int, n.y as int) == ni as int {
                                    lemma_cell_index_injective(w, n.x as int, n.y as int, nb.x as int, nb.y as int);
                                }
                                assert(v0[cell_index(w, n.x as int, n.y as int)]);
                                let j = choose|j: int| 0 <= j < qa.len() && qa[j] == n;
                                assert(queue@[j] == n);
                            }
                        }
                        if grid.valid(node.x as int, node.y as int) {
                            lemma_cell_index(w, hgt, node.x as int, node.y as int);
                        }
                    }
                }
            }
            proof {
                assert(bfs_done(grid, visited@, cur, d + 1)) by {
                    assert(dirs_search()[d as int] == (dx, dy));
                    if grid.valid(nb.x as int, nb.y as int) {
                        assert(visited@[cell_index(w, nb.x as int, nb.y as int)]);
                    }
                }
            }
            d = d + 1;
        }
        if in_grid_seen >= limit {
            break;
        }
    }
    proof {
        if near_grid(grid, node) {
            if head == queue@.len() {
                assert forall|x: int, y: int| #[trigger] grid.walkable_at(x, y) implies cheb_dist(node, x, y) > 7 by {
                    lemma_all_visited(grid, node, visited@, queue@, x, y);
                    lemma_cell_index(w, hgt, x, y);
                }
            } else {
                if lvl <= 6 {
                    lemma_box_bound(node, queue@);
                }
                assert forall|x: int, y: int| #[trigger] grid.walkable_at(x, y) implies cheb_dist(node, x, y) > 7 by {
                    if cheb_dist(node, x, y) <= 7 {
                        lemma_cell_index(w, hgt, x, y);
                        assert(visited@[cell_index(w, x, y)]);
                    }
                }
            }
        }
        if grid.valid(node.x as int, node.y as int) && n_cells <= 256 {
            assert forall|n: GridNode| grid.valid(n.x as int, n.y as int) && #[trigger] visited@[cell_index(w, n.x as int, n.y as int)]
                implies bfs_done(grid, visited@, n, 8) by {
                let j = choose|j: int| 0 <= j < queue@.len() && queue@[j] == n;
                assert(bfs_done(grid, visited@, queue@[j], 8));
            }
            assert forall|n: GridNode| !#[trigger] grid.walkable_at(n.x as int, n.y as int) by {
                if grid.valid(n.x as int, n.y as int) {
                    lemma_bfs_reach(grid, visited@, node, n);
                    lemma_cell_index(w, hgt, n.x as int, n.y as int);
                }
            }
        }
    }
    None
}

} // verus!

verus! {

/// Top-down A* pathfinder.
pub struct AStarPathfinder;

impl AStarPathfinder {
    /// Find a cheapest path from `start` to `goal` over walkable cells (A*
    /// with move costs 10 straight / 14 diagonal and a Manhattan heuristic):
    /// `None` when either end is not walkable or no walk connects them.
    pub fn find_path_grid(grid: &PathfindingGrid, start: GridNode, goal: GridNode, mode: PathfindingMode) -> (r: Option<Vec<GridNode>>)
        requires
            grid.wf(),
            14 * (grid.width_spec() * grid.height_spec()) + grid.width_spec() + grid.height_spec() <= i32::MAX,
        ensures
            !(grid.walkable_at(start.x as int, start.y as int) && grid.walkable_at(goal.x as int, goal.y as int)) ==> r is None,
            grid.walkable_at(start.x as int, start.y as int) && start == goal ==> (r matches Some(p) && p@ == seq![start]),
            r matches Some(p) ==> is_path(grid, mode, p@, start, goal),
            r matches Some(p) ==> forall|q: Seq<GridNode>| #[trigger] is_path(grid, mode, q, start, goal) ==> walk_cost(p@) <= walk_cost(q),
            r is None && grid.walkable_at(start.x as int, start.y as int) && grid.walkable_at(goal.x as int, goal.y as int)
                ==> !exists|p: Seq<GridNode>| is_path(grid, mode, p, start, goal),
    {
        grid.a_star(start, goal, mode)
    }

    /// Find a path between the walkable cells nearest to `start` and `goal`
    /// (see `nearest_walkable`): a walkable start or goal is used as it is;
    /// `None` when no walkable cell is found near one of them or no walk
    /// connects the two. The path is a cheapest one between its ends.
    pub fn find_path(grid: &PathfindingGrid, start: GridNode, goal: GridNode, mode: PathfindingMode) -> (r: Option<Vec<GridNode>>)
        requires
            grid.wf(),
            14 * (grid.width_spec() * grid.height_spec()) + grid.width_spec() + grid.height_spec() <= i32::MAX,
            interior(start),
            interior(goal),
        ensures
            r matches Some(p) ==> {
                &&& nearest_ok(grid, start, p@[0])
                &&& nearest_ok(grid, goal, p@.last())
                &&& is_path(grid, mode, p@, p@[0], p@.last())
                &&& forall|q: Seq<GridNode>| #[trigger] is_path(grid, mode, q, p@[0], p@.last()) ==> walk_cost(p@) <= walk_cost(q)
            },
            surely_found(grid, start) && surely_found(grid, goal)
                && (forall|s: GridNode, t: GridNode| #![trigger nearest_ok(grid, start, s), nearest_ok(grid, goal, t)]
                    nearest_ok(grid, start, s) && nearest_ok(grid, goal, t) ==> exists|q: Seq<GridNode>| is_path(grid, mode, q, s, t))
                ==> r is Some,
            grid.walkable_at(start.x as int, start.y as int) ==> (r matches Some(p) ==> p@[0] == start),
            grid.walkable_at(goal.x as int, goal.y as int) ==> (r matches Some(p) ==> p@.last() == goal),
            r is None && grid.walkable_at(start.x as int, start.y as int) && grid.walkable_at(goal.x as int, goal.y as int)
                ==> !exists|p: Seq<GridNode>| is_path(grid, mode, p, start, goal),
    {
        let s = match nearest_walkable(grid, start) {
            Some(n) => n,
            None => {
                proof {
                    lemma_not_found(grid, start);
                }
                return None;
            },
        };
        let t = match nearest_walkable(grid, goal) {
            Some(n) => n,
            None => {
                proof {
                    lemma_not_found(grid, goal);
                }
                return None;
            },
        };
        let r = Self::find_path_grid(grid, s, t, mode);
        proof {
            if r is Some {
                assert(is_path(grid, mode, r->0@, s, t));
            }
            if r is None && surely_found(grid, start) && surely_found(grid, goal)
                && (forall|s: GridNode, t: GridNode| #![trigger nearest_ok(grid, start, s), nearest_ok(grid, goal, t)]
                    nearest_ok(grid, start, s) && nearest_ok(grid, goal, t) ==> exists|q: Seq<GridNode>| is_path(grid, mode, q, s, t)) {
                assert(nearest_ok(grid, start, s) && nearest_ok(grid, goal, t));
                assert(exists|q: Seq<GridNode>| is_path(grid, mode, q, s, t));
            }
        }
        r
    }
}

} // verus!
