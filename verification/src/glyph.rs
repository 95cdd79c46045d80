use vstd::prelude::*;

use crate::maze::{Cell, Maze};

verus! {

/// The box-drawing character for a wall cell, chosen from the wall/floor
/// states of its four neighbors, in the order right, up, left, down.
/// Total over all sixteen neighbor patterns; an isolated wall renders as
/// a midpoint dot.
pub open spec fn spec_wall_glyph(right: Cell, up: Cell, left: Cell, down: Cell) -> char {
    match (right, up, left, down) {
        (Cell::Wall, Cell::Wall, Cell::Wall, Cell::Wall) => '\u{256c}',
        (Cell::Wall, Cell::Wall, Cell::Wall, Cell::Path) => '\u{2569}',
        (Cell::Wall, Cell::Wall, Cell::Path, Cell::Wall) => '\u{2560}',
        (Cell::Wall, Cell::Wall, Cell::Path, Cell::Path) => '\u{255a}',
        (Cell::Wall, Cell::Path, Cell::Wall, Cell::Wall) => '\u{2566}',
        (Cell::Wall, Cell::Path, Cell::Wall, Cell::Path) => '\u{2550}',
        (Cell::Wall, Cell::Path, Cell::Path, Cell::Wall) => '\u{2554}',
        (Cell::Wall, Cell::Path, Cell::Path, Cell::Path) => '\u{2550}',
        (Cell::Path, Cell::Wall, Cell::Wall, Cell::Wall) => '\u{2563}',
        (Cell::Path, Cell::Wall, Cell::Wall, Cell::Path) => '\u{255d}',
        (Cell::Path, Cell::Wall, Cell::Path, Cell::Wall) => '\u{2551}',
        (Cell::Path, Cell::Wall, Cell::Path, Cell::Path) => '\u{2551}',
        (Cell::Path, Cell::Path, Cell::Wall, Cell::Wall) => '\u{2557}',
        (Cell::Path, Cell::Path, Cell::Wall, Cell::Path) => '\u{2550}',
        (Cell::Path, Cell::Path, Cell::Path, Cell::Wall) => '\u{2551}',
        (Cell::Path, Cell::Path, Cell::Path, Cell::Path) => '\u{00b7}',
    }
}

/// What a neighbor read yields: cells beyond the border count as floor,
/// so border walls face outward with flat sides.
pub open spec fn spec_neighbor(m: Maze, x: int, y: int) -> Cell {
    if m.in_bounds(x, y) {
        m.cell_at(x, y)
    } else {
        Cell::Path
    }
}

/// The character the renderer shows at `(x, y)`: a box-drawing glyph on a
/// wall cell, a blank on a floor cell.
pub open spec fn spec_glyph_at(m: Maze, x: int, y: int) -> char {
    if m.cell_at(x, y) == Cell::Wall {
        spec_wall_glyph(
            spec_neighbor(m, x + 1, y),
            spec_neighbor(m, x, y - 1),
            spec_neighbor(m, x - 1, y),
            spec_neighbor(m, x, y + 1),
        )
    } else {
        ' '
    }
}

/// Map a wall cell's four neighbor states to its box-drawing character.
pub fn wall_glyph(right: Cell, up: Cell, left: Cell, down: Cell) -> (c: char)
    ensures
        c == spec_wall_glyph(right, up, left, down),
{
    match (right, up, left, down) {
        (Cell::Wall, Cell::Wall, Cell::Wall, Cell::Wall) => '\u{256c}',
        (Cell::Wall, Cell::Wall, Cell::Wall, Cell::Path) => '\u{2569}',
        (Cell::Wall, Cell::Wall, Cell::Path, Cell::Wall) => '\u{2560}',
        (Cell::Wall, Cell::Wall, Cell::Path, Cell::Path) => '\u{255a}',
        (Cell::Wall, Cell::Path, Cell::Wall, Cell::Wall) => '\u{2566}',
        (Cell::Wall, Cell::Path, Cell::Wall, Cell::Path) => '\u{2550}',
        (Cell::Wall, Cell::Path, Cell::Path, Cell::Wall) => '\u{2554}',
        (Cell::Wall, Cell::Path, Cell::Path, Cell::Path) => '\u{2550}',
        (Cell::Path, Cell::Wall, Cell::Wall, Cell::Wall) => '\u{2563}',
        (Cell::Path, Cell::Wall, Cell::Wall, Cell::Path) => '\u{255d}',
        (Cell::Path, Cell::Wall, Cell::Path, Cell::Wall) => '\u{2551}',
        (Cell::Path, Cell::Wall, Cell::Path, Cell::Path) => '\u{2551}',
        (Cell::Path, Cell::Path, Cell::Wall, Cell::Wall) => '\u{2557}',
        (Cell::Path, Cell::Path, Cell::Wall, Cell::Path) => '\u{2550}',
        (Cell::Path, Cell::Path, Cell::Path, Cell::Wall) => '\u{2551}',
        (Cell::Path, Cell::Path, Cell::Path, Cell::Path) => '\u{00b7}',
    }
}

/// The character shown at `(x, y)`, reading the four neighbors from the
/// grid and treating out-of-bounds neighbors as floor.
pub fn glyph_at(m: &Maze, x: usize, y: usize) -> (c: char)
    requires
        m.wf(),
        m.in_bounds(x as int, y as int),
    ensures
        c == spec_glyph_at(*m, x as int, y as int),
{
    if m.cell(x, y) == Cell::Wall {
        let right = if x + 1 < m.width {
            m.cell(x + 1, y)
        } else {
            Cell::Path
        };
        let up = if y > 0 {
            m.cell(x, y - 1)
        } else {
            Cell::Path
        };
        let left = if x > 0 {
            m.cell(x - 1, y)
        } else {
            Cell::Path
        };
        let down = if y + 1 < m.height {
            m.cell(x, y + 1)
        } else {
            Cell::Path
        };
        wall_glyph(right, up, left, down)
    } else {
        ' '
    }
}

/// One full frame of the maze, row major: the glyph of every cell.
pub fn render_glyphs(m: &Maze) -> (rows: Vec<Vec<char>>)
    requires
        m.wf(),
    ensures
        rows@.len() == m.height as int,
        forall|y: int| 0 <= y < m.height ==> (#[trigger] rows@[y])@.len() == m.width as int,
        forall|x: int, y: int|
            m.in_bounds(x, y) ==> #[trigger] rows@[y]@[x] == spec_glyph_at(*m, x, y),
{
    let mut rows: Vec<Vec<char>> = Vec::new();
    for y in 0..m.height
        invariant
            m.wf(),
            rows@.len() == y,
            forall|b: int| 0 <= b < y ==> (#[trigger] rows@[b])@.len() == m.width as int,
            forall|a: int, b: int|
                0 <= b < y && 0 <= a < m.width
                    ==> #[trigger] rows@[b]@[a] == spec_glyph_at(*m, a, b),
    {
        let mut row: Vec<char> = Vec::new();
        for x in 0..m.width
            invariant
                m.wf(),
                y < m.height,
                row@.len() == x,
                forall|a: int| 0 <= a < x ==> #[trigger] row@[a] == spec_glyph_at(*m, a, y as int),
        {
            row.push(glyph_at(m, x, y));
        }
        rows.push(row);
    }
    rows
}

} // verus!
