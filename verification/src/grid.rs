//! General-purpose grid storing a value per cell, with neighbor queries.
use vstd::prelude::*;
use crate::pathfinding::{cell_index, lemma_cell_index};
use vstd::pervasive::cloned;

verus! {

/// A cell of a grid (grid coordinates).
#[derive(Clone, Copy, Debug, PartialEq, Eq, Structural, Hash)]
pub struct GridCoord {
    pub x: i32,
    pub y: i32,
}

impl GridCoord {
    pub fn new(x: i32, y: i32) -> (c: Self)
        ensures
            c.x == x && c.y == y,
    {
        GridCoord { x, y }
    }

    /// Manhattan distance to another coordinate.
    pub fn manhattan_distance(&self, other: &GridCoord) -> (d: i32)
        requires
            crate::pathfinding::abs_int(self.x - other.x) + crate::pathfinding::abs_int(self.y - other.y) <= i32::MAX,
        ensures
            d == crate::pathfinding::abs_int(self.x - other.x) + crate::pathfinding::abs_int(self.y - other.y),
    {
        let dx: i64 = self.x as i64 - other.x as i64;
        let dy: i64 = self.y as i64 - other.y as i64;
        let ax: i64 = if dx < 0 { -dx } else { dx };
        let ay: i64 = if dy < 0 { -dy } else { dy };
        (ax + ay) as i32
    }
}

/// The 4 directions in scan order (up, right, down, left).
pub open spec fn grid_dirs4() -> Seq<(i32, i32)> {
    seq![(0i32, -1i32), (1i32, 0i32), (0i32, 1i32), (-1i32, 0i32)]
}

/// The 8 directions in scan order (row by row).
pub open spec fn grid_dirs8() -> Seq<(i32, i32)> {
    seq![(-1i32, -1i32), (0i32, -1i32), (1i32, -1i32), (-1i32, 0i32), (1i32, 0i32), (-1i32, 1i32), (0i32, 1i32), (1i32, 1i32)]
}

pub open spec fn coord_shift(c: GridCoord, d: (i32, i32)) -> GridCoord {
    GridCoord { x: (c.x + d.0) as i32, y: (c.y + d.1) as i32 }
}

/// General-purpose grid storing a value per cell (row-major).
#[derive(Clone, Debug)]
pub struct Grid<T> {
    width: usize,
    height: usize,
    cells: Vec<T>,
}

impl<T> Grid<T> {
    pub closed spec fn wf(&self) -> bool {
        &&& self.cells@.len() == self.width * self.height
        &&& self.width <= i32::MAX
        &&& self.height <= i32::MAX
    }

    pub closed spec fn width_spec(&self) -> nat {
        self.width as nat
    }

    pub closed spec fn height_spec(&self) -> nat {
        self.height as nat
    }

    /// The cell values, row by row.
    pub closed spec fn cells(&self) -> Seq<T> {
        self.cells@
    }

    pub open spec fn valid(&self, c: GridCoord) -> bool {
        0 <= c.x < self.width_spec() && 0 <= c.y < self.height_spec()
    }

    /// The value at an in-bounds coordinate.
    pub open spec fn at(&self, c: GridCoord) -> T {
        self.cells()[cell_index(self.width_spec() as int, c.x as int, c.y as int)]
    }

    pub proof fn lemma_wf(&self)
        requires
            self.wf(),
        ensures
            self.cells().len() == self.width_spec() * self.height_spec(),
            self.width_spec() <= i32::MAX,
            self.height_spec() <= i32::MAX,
    {
    }

    /// A grid of `width` x `height` cells, each a clone of `default`.
    pub fn new(width: usize, height: usize, default: T) -> (g: Self)
        where
            T: Clone,
        requires
            width * height <= usize::MAX,
            width <= i32::MAX,
            height <= i32::MAX,
        ensures
            g.wf(),
            g.width_spec() == width,
            g.height_spec() == height,
            forall|i: int| 0 <= i < g.cells().len() ==> cloned(default, #[trigger] g.cells()[i]),
    {
        let n = width * height;
        let mut cells: Vec<T> = Vec::new();
        let mut i: usize = 0;
        while i < n
            invariant
                i <= n,
                cells@.len() == i,
                forall|j: int| 0 <= j < i ==> cloned(default, #[trigger] cells@[j]),
            decreases n - i,
        {
            cells.push(default.clone());
            i = i + 1;
        }
        Grid { width, height, cells }
    }

    /// Width of the grid in cells.
    pub fn width(&self) -> (w: usize)
        ensures
            w == self.width_spec(),
    {
        self.width
    }

    /// Height of the grid in cells.
    pub fn height(&self) -> (h: usize)
        ensures
            h == self.height_spec(),
    {
        self.height
    }

    /// Check if a grid coordinate is within bounds.
    pub fn is_valid(&self, coord: &GridCoord) -> (b: bool)
        requires
            self.wf(),
        ensures
            b == self.valid(*coord),
    {
        coord.x >= 0 && coord.x < self.width as i32 && coord.y >= 0 && coord.y < self.height as i32
    }

    fn index(&self, coord: &GridCoord) -> (i: usize)
        requires
            self.wf(),
            self.valid(*coord),
        ensures
            i == cell_index(self.width_spec() as int, coord.x as int, coord.y as int),
            i < self.cells().len(),
    {
        proof {
            lemma_cell_index(self.width as int, self.height as int, coord.x as int, coord.y as int);
        }
        let len = self.cells.len();
        let yy = coord.y as usize;
        let xx = coord.x as usize;
        assert(yy * self.width <= yy * self.width + xx < len);
        yy * self.width + xx
    }

    /// The cell value at the given coordinate, or `None` out of bounds.
    pub fn get(&self, coord: GridCoord) -> (r: Option<&T>)
        requires
            self.wf(),
        ensures
            self.valid(coord) ==> r == Some(&self.at(coord)),
            !self.valid(coord) ==> r is None,
    {
        if !self.is_valid(&coord) {
            return None;
        }
        let index = self.index(&coord);
        Some(&self.cells[index])
    }

    /// Mutable access to the cell value at the given coordinate.
    pub fn get_mut(&mut self, coord: GridCoord) -> (r: Option<&mut T>)
        requires
            old(self).wf(),
        ensures
            old(self).valid(coord) ==> (r matches Some(v) && *v == old(self).at(coord) && final(self).wf()
                && final(self).width_spec() == old(self).width_spec()
                && final(self).height_spec() == old(self).height_spec()
                && final(self).cells() == old(self).cells().update(
                    cell_index(old(self).width_spec() as int, coord.x as int, coord.y as int),
                    *final(v),
                )),
            !old(self).valid(coord) ==> r is None && *final(self) == *old(self),
    {
        if !self.is_valid(&coord) {
            return None;
        }
        let index = self.index(&coord);
        Some(&mut self.cells[index])
    }

    /// Set the cell value at the given coordinate; `false` if out of bounds.
    pub fn set(&mut self, coord: GridCoord, value: T) -> (b: bool)
        requires
            old(self).wf(),
        ensures
            final(self).wf(),
            b == old(self).valid(coord),
            final(self).width_spec() == old(self).width_spec(),
            final(self).height_spec() == old(self).height_spec(),
            b ==> final(self).cells() == old(self).cells().update(
                cell_index(old(self).width_spec() as int, coord.x as int, coord.y as int),
                value,
            ),
            !b ==> final(self).cells() == old(self).cells(),
    {
        if !self.is_valid(&coord) {
            return false;
        }
        let index = self.index(&coord);
        self.cells.set(index, value);
        true
    }

    /// The in-bounds cells one step from `coord` in the 4 cardinal directions.
    pub fn neighbors_4(&self, coord: &GridCoord) -> (r: Vec<GridCoord>)
        requires
            self.wf(),
            i32::MIN < coord.x < i32::MAX,
            i32::MIN < coord.y < i32::MAX,
        ensures
            r@ == grid_dirs4().filter(|d: (i32, i32)| self.valid(coord_shift(*coord, d))).map_values(
                |d: (i32, i32)| coord_shift(*coord, d),
            ),
    {
        let directions: [(i32, i32); 4] = [(0, -1), (1, 0), (0, 1), (-1, 0)];
        assert(directions@ =~= grid_dirs4());
        let ghost p = |d: (i32, i32)| self.valid(coord_shift(*coord, d));
        let ghost f = |d: (i32, i32)| coord_shift(*coord, d);
        let mut neighbors: Vec<GridCoord> = Vec::new();
        let mut i: usize = 0;
        while i < 4
            invariant
                self.wf(),
                i32::MIN < coord.x < i32::MAX,
                i32::MIN < coord.y < i32::MAX,
                directions@ == grid_dirs4(),
                p == (|d: (i32, i32)| self.valid(coord_shift(*coord, d))),
                f == (|d: (i32, i32)| coord_shift(*coord, d)),
                i <= 4,
                neighbors@ == grid_dirs4().take(i as int).filter(p).map_values(f),
            decreases 4 - i,
        {
            let (dx, dy) = directions[i];
            let neighbor = GridCoord::new(coord.x + dx, coord.y + dy);
            let ok = self.is_valid(&neighbor);
            proof {
                reveal_with_fuel(Seq::<_>::filter, 1);
                assert(grid_dirs4().take(i + 1).drop_last() =~= grid_dirs4().take(i as int));
            }
            if ok {
                neighbors.push(neighbor);
                assert(neighbors@ =~= grid_dirs4().take(i + 1).filter(p).map_values(f));
            }
            i = i + 1;
        }
        assert(grid_dirs4().take(4) =~= grid_dirs4());
        neighbors
    }

    /// The in-bounds cells one step from `coord` in the 8 directions.
    pub fn neighbors_8(&self, coord: &GridCoord) -> (r: Vec<GridCoord>)
        requires
            self.wf(),
            i32::MIN < coord.x < i32::MAX,
            i32::MIN < coord.y < i32::MAX,
        ensures
            r@ == grid_dirs8().filter(|d: (i32, i32)| self.valid(coord_shift(*coord, d))).map_values(
                |d: (i32, i32)| coord_shift(*coord, d),
            ),
    {
        let directions: [(i32, i32); 8] = [(-1, -1), (0, -1), (1, -1), (-1, 0), (1, 0), (-1, 1), (0, 1), (1, 1)];
        assert(directions@ =~= grid_dirs8());
        let ghost p = |d: (i32, i32)| self.valid(coord_shift(*coord, d));
        let ghost f = |d: (i32, i32)| coord_shift(*coord, d);
        let mut neighbors: Vec<GridCoord> = Vec::new();
        let mut i: usize = 0;
        while i < 8
            invariant
                self.wf(),
                i32::MIN < coord.x < i32::MAX,
                i32::MIN < coord.y < i32::MAX,
                directions@ == grid_dirs8(),
                p == (|d: (i32, i32)| self.valid(coord_shift(*coord, d))),
                f == (|d: (i32, i32)| coord_shift(*coord, d)),
                i <= 8,
                neighbors@ == grid_dirs8().take(i as int).filter(p).map_values(f),
            decreases 8 - i,
        {
            let (dx, dy) = directions[i];
            let neighbor = GridCoord::new(coord.x + dx, coord.y + dy);
            let ok = self.is_valid(&neighbor);
            proof {
                reveal_with_fuel(Seq::<_>::filter, 1);
                assert(grid_dirs8().take(i + 1).drop_last() =~= grid_dirs8().take(i as int));
            }
            if ok {
                neighbors.push(neighbor);
                assert(neighbors@ =~= grid_dirs8().take(i + 1).filter(p).map_values(f));
            }
            i = i + 1;
        }
        assert(grid_dirs8().take(8) =~= grid_dirs8());
        neighbors
    }

    /// All coordinates of the grid, row by row.
    pub fn iter_coords(&self) -> (r: Vec<GridCoord>)
        requires
            self.wf(),
        ensures
            r@.len() == self.cells().len(),
            forall|i: int| 0 <= i < r@.len() ==> (#[trigger] r@[i]).y * self.width_spec() + r@[i].x == i
                && self.valid(r@[i]),
    {
        self.iter_mut_indices_impl().0
    }

    /// All coordinates with their row-major index.
    pub fn iter_mut_indices(&self) -> (r: Vec<(GridCoord, usize)>)
        requires
            self.wf(),
        ensures
            r@.len() == self.cells().len(),
            forall|i: int| 0 <= i < r@.len() ==> (#[trigger] r@[i]).1 == i && r@[i].0.y * self.width_spec() + r@[i].0.x == i
                && self.valid(r@[i].0),
    {
        self.iter_mut_indices_impl().1
    }

    fn iter_mut_indices_impl(&self) -> (r: (Vec<GridCoord>, Vec<(GridCoord, usize)>))
        requires
            self.wf(),
        ensures
            r.0@.len() == self.cells().len(),
            r.1@.len() == self.cells().len(),
            forall|i: int| 0 <= i < r.0@.len() ==> (#[trigger] r.0@[i]).y * self.width_spec() + r.0@[i].x == i
                && self.valid(r.0@[i]),
            forall|i: int| 0 <= i < r.1@.len() ==> (#[trigger] r.1@[i]).1 == i && r.1@[i].0.y * self.width_spec() + r.1@[i].0.x == i
                && self.valid(r.1@[i].0),
    {
        let width = self.width;
        let height = self.height;
        let n = self.cells.len();
        let mut coords: Vec<GridCoord> = Vec::new();
        let mut pairs: Vec<(GridCoord, usize)> = Vec::new();
        let mut y: usize = 0;
        while y < height
            invariant
                self.wf(),
                width == self.width_spec(),
                height == self.height_spec(),
                y <= height,
                n == self.cells().len(),
                coords@.len() == y * width,
                pairs@.len() == y * width,
                forall|i: int| 0 <= i < coords@.len() ==> (#[trigger] coords@[i]).y * width + coords@[i].x == i
                    && self.valid(coords@[i]),
                forall|i: int| 0 <= i < pairs@.len() ==> (#[trigger] pairs@[i]).1 == i && pairs@[i].0.y * width + pairs@[i].0.x == i
                    && self.valid(pairs@[i].0),
            decreases height - y,
        {
            let mut x: usize = 0;
            while x < width
                invariant
                    self.wf(),
                    width == self.width_spec(),
                    height == self.height_spec(),
                    y < height,
                    x <= width,
                    n == self.cells().len(),
                    coords@.len() == y * width + x,
                    pairs@.len() == y * width + x,
                    forall|i: int| 0 <= i < coords@.len() ==> (#[trigger] coords@[i]).y * width + coords@[i].x == i
                        && self.valid(coords@[i]),
                    forall|i: int| 0 <= i < pairs@.len() ==> (#[trigger] pairs@[i]).1 == i && pairs@[i].0.y * width + pairs@[i].0.x == i
                        && self.valid(pairs@[i].0),
                decreases width - x,
            {
                proof {
                    lemma_cell_index(width as int, height as int, x as int, y as int);
                    self.lemma_wf();
                    assert(y * width <= y * width + x < self.cells().len());
                }
                let c = GridCoord::new(x as i32, y as i32);
                let idx = y * width + x;
                coords.push(c);
                pairs.push((c, idx));
                x = x + 1;
            }
            proof {
                assert((y + 1) * width == y * width + width) by (nonlinear_arith);
            }
            y = y + 1;
        }
        proof {
            self.lemma_wf();
            assert(height * width == width * height) by (nonlinear_arith);
        }
        (coords, pairs)
    }

    /// All cells with their coordinates, row by row.
    pub fn iter(&self) -> (r: Vec<(GridCoord, &T)>)
        requires
            self.wf(),
        ensures
            r@.len() == self.cells().len(),
            forall|i: int| 0 <= i < r@.len() ==> (#[trigger] r@[i]).0.y * self.width_spec() + r@[i].0.x == i
                && self.valid(r@[i].0) && *r@[i].1 == self.cells()[i],
    {
        let coords = self.iter_coords();
        let mut out: Vec<(GridCoord, &T)> = Vec::new();
        let mut i: usize = 0;
        while i < coords.len()
            invariant
                self.wf(),
                coords@.len() == self.cells().len(),
                forall|k: int| 0 <= k < coords@.len() ==> (#[trigger] coords@[k]).y * self.width_spec() + coords@[k].x == k
                    && self.valid(coords@[k]),
                i <= coords@.len(),
                out@.len() == i,
                forall|k: int| 0 <= k < i ==> (#[trigger] out@[k]).0 == coords@[k] && *out@[k].1 == self.cells()[k],
            decreases coords@.len() - i,
        {
            let c = coords[i];
            let v = self.get(c).unwrap();
            out.push((c, v));
            i = i + 1;
        }
        out
    }
}

/// Grids whose cells can say whether they are walkable.
pub trait GridPathfinding {
    /// Check if a cell is walkable/passable.
    fn is_walkable(&self, coord: &GridCoord) -> bool;
}

/// Boolean grids: `true` cells are walkable; out of bounds is not.
impl GridPathfinding for Grid<bool> {
    fn is_walkable(&self, coord: &GridCoord) -> (b: bool)
        ensures
            self.wf() ==> b == (self.valid(*coord) && self.at(*coord)),
    {
        if coord.x < 0 || coord.y < 0 || coord.x as usize >= self.width || coord.y as usize >= self.height {
            return false;
        }
        let xx = coord.x as usize;
        let yy = coord.y as usize;
        let n = self.cells.len();
        proof {
            if self.wf() {
                lemma_cell_index(self.width as int, self.height as int, coord.x as int, coord.y as int);
                assert(yy * self.width <= yy * self.width + xx);
            }
        }
        match yy.checked_mul(self.width) {
            Some(row) => match row.checked_add(xx) {
                Some(i) => {
                    if i < self.cells.len() {
                        self.cells[i]
                    } else {
                        false
                    }
                },
                None => false,
            },
            None => false,
        }
    }
}

impl Grid<bool> {
    /// Walkability of a cell: its value, `false` out of bounds.
    pub fn walkable(&self, coord: &GridCoord) -> (b: bool)
        requires
            self.wf(),
        ensures
            b == (self.valid(*coord) && self.at(*coord)),
    {
        match self.get(*coord) {
            Some(v) => *v,
            None => false,
        }
    }
}

} // verus!
