use maze::glyph::{glyph_at, render_glyphs, wall_glyph};
use maze::maze::{Cell, Maze};

const W: Cell = Cell::Wall;
const P: Cell = Cell::Path;

#[test]
fn wall_glyph_all_sixteen_patterns() {
    // (right, up, left, down) -> symbol, the full table
    assert_eq!(wall_glyph(W, W, W, W), '╬');
    assert_eq!(wall_glyph(W, W, W, P), '╩');
    assert_eq!(wall_glyph(W, W, P, W), '╠');
    assert_eq!(wall_glyph(W, W, P, P), '╚');
    assert_eq!(wall_glyph(W, P, W, W), '╦');
    assert_eq!(wall_glyph(W, P, W, P), '═');
    assert_eq!(wall_glyph(W, P, P, W), '╔');
    assert_eq!(wall_glyph(W, P, P, P), '═');
    assert_eq!(wall_glyph(P, W, W, W), '╣');
    assert_eq!(wall_glyph(P, W, W, P), '╝');
    assert_eq!(wall_glyph(P, W, P, W), '║');
    assert_eq!(wall_glyph(P, W, P, P), '║');
    assert_eq!(wall_glyph(P, P, W, W), '╗');
    assert_eq!(wall_glyph(P, P, W, P), '═');
    assert_eq!(wall_glyph(P, P, P, W), '║');
    assert_eq!(wall_glyph(P, P, P, P), '·');
}

#[test]
fn wall_glyph_deterministic() {
    // the same pattern always maps to the same symbol
    for _ in 0..3 {
        assert_eq!(wall_glyph(W, P, W, P), '═');
        assert_eq!(wall_glyph(P, W, P, W), '║');
    }
}

#[test]
fn glyph_at_blank_on_floor() {
    let mut m = Maze::new(3, 3);
    m.set_cell(1, 1, P);
    assert_eq!(glyph_at(&m, 1, 1), ' ');
}

#[test]
fn glyph_at_treats_border_as_floor() {
    // an all-wall 3x3 grid: the corner's outside neighbors read as floor
    let m = Maze::new(3, 3);
    assert_eq!(glyph_at(&m, 0, 0), '╔');
    assert_eq!(glyph_at(&m, 2, 2), '╝');
}

#[test]
fn render_full_frame_single_cell_maze() {
    // a 3x3 maze with one node: only the center is open
    let mut m = Maze::new(3, 3);
    m.set_cell(1, 1, P);
    let rows = render_glyphs(&m);
    let frame: Vec<String> = rows.iter().map(|r| r.iter().collect()).collect();
    assert_eq!(frame, vec!["╔═╗", "║ ║", "╚═╝"]);
}

#[test]
fn render_isolated_wall_dot() {
    // a lone wall surrounded by floor renders as the midpoint dot
    let mut m = Maze::new(3, 3);
    for y in 0..3 {
        for x in 0..3 {
            m.set_cell(x, y, P);
        }
    }
    m.set_cell(1, 1, W);
    let rows = render_glyphs(&m);
    assert_eq!(rows[1][1], '·');
    assert_eq!(rows[0][0], ' ');
}
