use maze::gen::random_goal;
use maze::maze::{Cell, Maze};

fn path_cells(m: &Maze) -> Vec<(usize, usize)> {
    let mut out = Vec::new();
    for y in 0..m.height {
        for x in 0..m.width {
            if m.cell(x, y) == Cell::Path {
                out.push((x, y));
            }
        }
    }
    out
}

/// Breadth-first search over floor cells from (1, 1).
fn reachable_cells(m: &Maze) -> Vec<Vec<bool>> {
    let mut seen = vec![vec![false; m.width]; m.height];
    let mut queue = vec![(1usize, 1usize)];
    seen[1][1] = true;
    while let Some((x, y)) = queue.pop() {
        let mut nbrs = Vec::new();
        if x > 0 {
            nbrs.push((x - 1, y));
        }
        if y > 0 {
            nbrs.push((x, y - 1));
        }
        if x + 1 < m.width {
            nbrs.push((x + 1, y));
        }
        if y + 1 < m.height {
            nbrs.push((x, y + 1));
        }
        for (nx, ny) in nbrs {
            if !seen[ny][nx] && m.cell(nx, ny) == Cell::Path {
                seen[ny][nx] = true;
                queue.push((nx, ny));
            }
        }
    }
    seen
}

#[test]
fn new_grid_starts_all_wall() {
    let m = Maze::new(5, 7);
    assert_eq!(m.width, 5);
    assert_eq!(m.height, 7);
    for y in 0..7 {
        for x in 0..5 {
            assert_eq!(m.cell(x, y), Cell::Wall);
        }
    }
}

#[test]
fn set_cell_changes_only_that_cell() {
    let mut m = Maze::new(5, 5);
    m.set_cell(2, 3, Cell::Path);
    for y in 0..5 {
        for x in 0..5 {
            if (x, y) == (2, 3) {
                assert_eq!(m.cell(x, y), Cell::Path);
            } else {
                assert_eq!(m.cell(x, y), Cell::Wall);
            }
        }
    }
}

#[test]
fn five_by_five_has_exactly_seven_floor_cells() {
    // a 2x2 node lattice: four node cells plus three passages, and the
    // walk's starting node contributes no passage of its own
    let m = Maze::random_perfect(5, 5);
    assert_eq!(path_cells(&m).len(), 7);
    for &(nx, ny) in &[(1, 1), (3, 1), (1, 3), (3, 3)] {
        assert_eq!(m.cell(nx, ny), Cell::Path);
    }
}

#[test]
fn three_by_three_is_single_cell() {
    let m = Maze::random_perfect(3, 3);
    assert_eq!(path_cells(&m), vec![(1, 1)]);
}

#[test]
fn node_cells_open_and_border_walled() {
    let m = Maze::random_perfect(11, 9);
    for y in 0..9 {
        for x in 0..11 {
            if x % 2 == 1 && y % 2 == 1 {
                assert_eq!(m.cell(x, y), Cell::Path);
            }
            if x % 2 == 0 && y % 2 == 0 {
                assert_eq!(m.cell(x, y), Cell::Wall);
            }
            if x == 0 || y == 0 || x == 10 || y == 8 {
                assert_eq!(m.cell(x, y), Cell::Wall);
            }
        }
    }
}

#[test]
fn every_node_reachable_from_start() {
    let m = Maze::random_perfect(21, 15);
    let seen = reachable_cells(&m);
    for y in 0..m.height {
        for x in 0..m.width {
            if x % 2 == 1 && y % 2 == 1 {
                assert!(seen[y][x]);
            }
        }
    }
}

#[test]
fn passage_count_is_node_count_minus_one() {
    let m = Maze::random_perfect(17, 13);
    let (mw, mh) = (m.width / 2, m.height / 2);
    let mut passages = 0;
    for y in 0..m.height {
        for x in 0..m.width {
            let link_pos = (x % 2 == 0 && y % 2 == 1 && x >= 1 && x < m.width - 1)
                || (x % 2 == 1 && y % 2 == 0 && y >= 1 && y < m.height - 1);
            if link_pos && m.cell(x, y) == Cell::Path {
                passages += 1;
            }
        }
    }
    assert_eq!(passages, mw * mh - 1);
}

#[test]
fn random_goal_is_node_cell() {
    for _ in 0..20 {
        let (gx, gy) = random_goal(9, 7);
        assert!(gx < 9 && gy < 7);
        assert_eq!(gx % 2, 1);
        assert_eq!(gy % 2, 1);
    }
}
