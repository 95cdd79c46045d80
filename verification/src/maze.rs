use vstd::prelude::*;

verus! {

/// A cell of the character grid: either solid wall or open floor.
#[derive(Copy, Clone, PartialEq, Eq, Structural, Debug)]
pub enum Cell {
    Wall,
    Path,
}

/// One of the four lattice directions.
#[derive(Copy, Clone, PartialEq, Eq, Structural, Debug)]
pub enum Direction {
    Up,
    Down,
    Left,
    Right,
}

/// Horizontal displacement of one step in a direction.
pub open spec fn dir_dx(d: Direction) -> int {
    match d {
        Direction::Left => -1,
        Direction::Right => 1,
        _ => 0,
    }
}

/// Vertical displacement of one step in a direction.
pub open spec fn dir_dy(d: Direction) -> int {
    match d {
        Direction::Up => -1,
        Direction::Down => 1,
        _ => 0,
    }
}

/// A rectangular grid of cells, row major: `cells[y][x]`.
pub struct Maze {
    pub width: usize,
    pub height: usize,
    pub cells: Vec<Vec<Cell>>,
}

impl Maze {
    /// The grid is rectangular with the stated dimensions.
    pub open spec fn wf(self) -> bool {
        &&& self.cells@.len() == self.height as int
        &&& forall|j: int|
            0 <= j < self.height ==> (#[trigger] self.cells@[j])@.len() == self.width as int
    }

    pub open spec fn in_bounds(self, x: int, y: int) -> bool {
        0 <= x < self.width && 0 <= y < self.height
    }

    pub open spec fn cell_at(self, x: int, y: int) -> Cell {
        self.cells@[y]@[x]
    }

    pub open spec fn is_path(self, x: int, y: int) -> bool {
        self.in_bounds(x, y) && self.cell_at(x, y) == Cell::Path
    }

    /// Odd/odd in-bounds coordinates: the cells that carry the maze's lattice nodes.
    pub open spec fn is_node_cell(self, x: int, y: int) -> bool {
        self.in_bounds(x, y) && x % 2 == 1 && y % 2 == 1
    }

    /// Positions strictly between two horizontally or vertically adjacent
    /// node cells: exactly one odd coordinate, away from the border.
    pub open spec fn is_link_pos(self, x: int, y: int) -> bool {
        ||| (x % 2 == 0 && y % 2 == 1 && 1 <= x < self.width - 1 && 0 <= y < self.height)
        ||| (x % 2 == 1 && y % 2 == 0 && 0 <= x < self.width && 1 <= y < self.height)
    }

    /// A sequence of in-bounds floor cells, each adjacent to the next.
    pub open spec fn is_walk(self, w: Seq<(int, int)>) -> bool {
        &&& w.len() >= 1
        &&& forall|k: int| 0 <= k < w.len() ==> self.is_path((#[trigger] w[k]).0, w[k].1)
        &&& forall|k: int| 0 <= k < w.len() - 1 ==> step_adj(#[trigger] w[k], w[k + 1])
    }

    /// The cell can be reached from the start cell `(1, 1)` by moving
    /// between adjacent floor cells.
    pub open spec fn reachable(self, x: int, y: int) -> bool {
        exists|w: Seq<(int, int)>|
            self.is_walk(w) && w.first() == (1int, 1int) && w.last() == (x, y)
    }

    /// The open passages between adjacent node cells: one position per
    /// floor-to-floor adjacency of the node lattice.
    pub open spec fn open_links(self) -> Set<(int, int)> {
        Set::new(|c: (int, int)| self.is_link_pos(c.0, c.1) && self.cell_at(c.0, c.1) == Cell::Path)
    }

    /// A grid of the given dimensions with every cell a wall.
    pub fn new(width: usize, height: usize) -> (m: Maze)
        ensures
            m.wf(),
            m.width == width,
            m.height == height,
            forall|x: int, y: int| m.in_bounds(x, y) ==> m.cell_at(x, y) == Cell::Wall,
    {
        let mut cells: Vec<Vec<Cell>> = Vec::new();
        for j in 0..height
            invariant
                cells@.len() == j,
                forall|b: int| 0 <= b < j ==> (#[trigger] cells@[b])@.len() == width as int,
                forall|a: int, b: int|
                    0 <= b < j && 0 <= a < width ==> #[trigger] cells@[b]@[a] == Cell::Wall,
        {
            let mut row: Vec<Cell> = Vec::new();
            for i in 0..width
                invariant
                    row@.len() == i,
                    forall|a: int| 0 <= a < i ==> #[trigger] row@[a] == Cell::Wall,
            {
                row.push(Cell::Wall);
            }
            cells.push(row);
        }
        Maze { width, height, cells }
    }

    /// Read the cell at `(x, y)`.
    pub fn cell(&self, x: usize, y: usize) -> (c: Cell)
        requires
            self.wf(),
            self.in_bounds(x as int, y as int),
        ensures
            c == self.cell_at(x as int, y as int),
    {
        self.cells[y][x]
    }

    /// Write the cell at `(x, y)`; every other cell is untouched.
    pub fn set_cell(&mut self, x: usize, y: usize, c: Cell)
        requires
            old(self).wf(),
            old(self).in_bounds(x as int, y as int),
        ensures
            final(self).wf(),
            final(self).width == old(self).width,
            final(self).height == old(self).height,
            final(self).cell_at(x as int, y as int) == c,
            forall|a: int, b: int|
                old(self).in_bounds(a, b) && !(a == x && b == y)
                    ==> final(self).cell_at(a, b) == old(self).cell_at(a, b),
    {
        self.cells[y][x] = c;
    }
}

/// Two positions one step apart, horizontally or vertically.
pub open spec fn step_adj(a: (int, int), b: (int, int)) -> bool {
    ||| (a.0 == b.0 && (a.1 == b.1 + 1 || a.1 + 1 == b.1))
    ||| (a.1 == b.1 && (a.0 == b.0 + 1 || a.0 + 1 == b.0))
}

} // verus!
