use maze::game::{GameInput, GameState, GameStatus};
use maze::maze::{Cell, Direction, Maze};

/// A 5x5 grid with a straight corridor along row 1: (1,1) (2,1) (3,1).
fn corridor() -> Maze {
    let mut m = Maze::new(5, 5);
    m.set_cell(1, 1, Cell::Path);
    m.set_cell(2, 1, Cell::Path);
    m.set_cell(3, 1, Cell::Path);
    m
}

#[test]
fn start_state_at_origin_node() {
    let s = GameState::start();
    assert_eq!((s.x, s.y), (1, 1));
    assert_eq!(s.status, GameStatus::Running);
}

#[test]
fn legal_move_shifts_one_cell() {
    let m = corridor();
    let mut s = GameState::start();
    s.apply_input(&m, GameInput::Move(Direction::Right));
    assert_eq!((s.x, s.y), (2, 1));
    assert_eq!(s.status, GameStatus::Running);
}

#[test]
fn move_into_wall_is_absorbed() {
    let m = corridor();
    let mut s = GameState::start();
    s.apply_input(&m, GameInput::Move(Direction::Up));
    assert_eq!((s.x, s.y), (1, 1));
    s.apply_input(&m, GameInput::Move(Direction::Down));
    assert_eq!((s.x, s.y), (1, 1));
    s.apply_input(&m, GameInput::Move(Direction::Left));
    assert_eq!((s.x, s.y), (1, 1));
    assert_eq!(s.status, GameStatus::Running);
}

#[test]
fn move_off_grid_is_absorbed() {
    let mut m = Maze::new(3, 3);
    m.set_cell(1, 1, Cell::Path);
    let mut s = GameState::start();
    for d in [Direction::Up, Direction::Down, Direction::Left, Direction::Right] {
        s.apply_input(&m, GameInput::Move(d));
        assert_eq!((s.x, s.y), (1, 1));
    }
}

#[test]
fn unbound_input_is_ignored() {
    let m = corridor();
    let mut s = GameState::start();
    s.apply_input(&m, GameInput::Other);
    assert_eq!((s.x, s.y), (1, 1));
    assert_eq!(s.status, GameStatus::Running);
}

#[test]
fn win_detected_on_goal_cell() {
    let m = corridor();
    let mut s = GameState::start();
    s.apply_input(&m, GameInput::Move(Direction::Right));
    s.apply_input(&m, GameInput::Move(Direction::Right));
    assert_eq!((s.x, s.y), (3, 1));
    s.check_win(3, 1);
    assert_eq!(s.status, GameStatus::Won);
}

#[test]
fn win_not_detected_away_from_goal() {
    let mut s = GameState::start();
    s.check_win(3, 1);
    assert_eq!(s.status, GameStatus::Running);
}

#[test]
fn won_state_absorbs_all_input() {
    let m = corridor();
    let mut s = GameState::start();
    s.check_win(1, 1);
    assert_eq!(s.status, GameStatus::Won);
    s.apply_input(&m, GameInput::Move(Direction::Right));
    assert_eq!((s.x, s.y), (1, 1));
    assert_eq!(s.status, GameStatus::Won);
    s.check_win(1, 1);
    assert_eq!(s.status, GameStatus::Won);
}

#[test]
fn quit_immediately_after_start_gives_up_in_place() {
    let m = corridor();
    let mut s = GameState::start();
    s.apply_input(&m, GameInput::Quit);
    assert_eq!(s.status, GameStatus::GaveUp);
    assert_eq!((s.x, s.y), (1, 1));
}

#[test]
fn gave_up_state_absorbs_all_input() {
    let m = corridor();
    let mut s = GameState::start();
    s.apply_input(&m, GameInput::Quit);
    s.apply_input(&m, GameInput::Move(Direction::Right));
    assert_eq!((s.x, s.y), (1, 1));
    assert_eq!(s.status, GameStatus::GaveUp);
    s.check_win(1, 1);
    assert_eq!(s.status, GameStatus::GaveUp);
}

#[test]
fn full_run_through_generated_maze() {
    // walk a real maze: move right/down greedily; every accepted move must
    // land on a floor cell, every rejected one must leave the state fixed
    let m = Maze::random_perfect(9, 9);
    let mut s = GameState::start();
    let moves = [
        Direction::Right,
        Direction::Down,
        Direction::Right,
        Direction::Down,
        Direction::Left,
        Direction::Up,
    ];
    for d in moves {
        let (px, py) = (s.x, s.y);
        s.apply_input(&m, GameInput::Move(d));
        assert_eq!(m.cell(s.x, s.y), Cell::Path);
        let moved = (s.x, s.y) != (px, py);
        if moved {
            let dist = s.x.abs_diff(px) + s.y.abs_diff(py);
            assert_eq!(dist, 1);
        }
    }
}
