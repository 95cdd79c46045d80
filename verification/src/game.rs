use vstd::prelude::*;

use crate::maze::{dir_dx, dir_dy, Direction, Maze};

verus! {

/// The phase of one attempt at the maze.
#[derive(Copy, Clone, PartialEq, Eq, Structural, Debug)]
pub enum GameStatus {
    Running,
    Won,
    GaveUp,
}

/// One decoded player input: a directional move, the quit request, or
/// anything else (silently absorbed).
#[derive(Copy, Clone, PartialEq, Eq, Structural, Debug)]
pub enum GameInput {
    Move(Direction),
    Quit,
    Other,
}

/// The actor's position and the attempt's phase.
#[derive(Copy, Clone, PartialEq, Eq, Structural, Debug)]
pub struct GameState {
    pub x: usize,
    pub y: usize,
    pub status: GameStatus,
}

/// A move from `(x, y)` in direction `d` is legal exactly when the target
/// cell is in bounds and is floor.
pub open spec fn can_move(m: Maze, x: int, y: int, d: Direction) -> bool {
    m.is_path(x + dir_dx(d), y + dir_dy(d))
}

/// The state after one input is applied: a legal move shifts the actor one
/// cell, quit ends the attempt, everything else changes nothing, and a
/// finished attempt absorbs all input.
pub open spec fn step_spec(m: Maze, s: GameState, inp: GameInput) -> GameState {
    if s.status != GameStatus::Running {
        s
    } else {
        match inp {
            GameInput::Move(d) => {
                if can_move(m, s.x as int, s.y as int, d) {
                    GameState {
                        x: (s.x + dir_dx(d)) as usize,
                        y: (s.y + dir_dy(d)) as usize,
                        status: GameStatus::Running,
                    }
                } else {
                    s
                }
            },
            GameInput::Quit => GameState { status: GameStatus::GaveUp, ..s },
            GameInput::Other => s,
        }
    }
}

/// The state after the win check: a running attempt standing on the goal
/// becomes `Won`; any other state is untouched.
pub open spec fn win_check_spec(s: GameState, goal_x: int, goal_y: int) -> GameState {
    if s.status == GameStatus::Running && s.x == goal_x && s.y == goal_y {
        GameState { status: GameStatus::Won, ..s }
    } else {
        s
    }
}

impl GameState {
    /// The attempt's initial state: running, with the actor on the start
    /// cell `(1, 1)`.
    pub fn start() -> (s: GameState)
        ensures
            s.x == 1,
            s.y == 1,
            s.status == GameStatus::Running,
    {
        GameState { x: 1, y: 1, status: GameStatus::Running }
    }

    /// Flip a running attempt to `Won` when the actor stands on the goal.
    pub fn check_win(&mut self, goal_x: usize, goal_y: usize)
        ensures
            *final(self) == win_check_spec(*old(self), goal_x as int, goal_y as int),
    {
        if self.status == GameStatus::Running && self.x == goal_x && self.y == goal_y {
            self.status = GameStatus::Won;
        }
    }

    /// Apply one input to a running attempt: move on a legal directional
    /// input, give up on quit, ignore everything else.
    pub fn apply_input(&mut self, m: &Maze, inp: GameInput)
        requires
            m.wf(),
            old(self).x < m.width,
            old(self).y < m.height,
        ensures
            *final(self) == step_spec(*m, *old(self), inp),
            final(self).x < m.width,
            final(self).y < m.height,
    {
        if self.status != GameStatus::Running {
            return ;
        }
        match inp {
            GameInput::Move(d) => {
                let tx_ok: bool = match d {
                    Direction::Left => self.x > 0,
                    Direction::Right => self.x + 1 < m.width,
                    Direction::Up => self.y > 0,
                    Direction::Down => self.y + 1 < m.height,
                };
                if tx_ok {
                    let (tx, ty): (usize, usize) = match d {
                        Direction::Left => (self.x - 1, self.y),
                        Direction::Right => (self.x + 1, self.y),
                        Direction::Up => (self.x, self.y - 1),
                        Direction::Down => (self.x, self.y + 1),
                    };
                    if m.cell(tx, ty) == crate::maze::Cell::Path {
                        self.x = tx;
                        self.y = ty;
                    }
                }
            },
            GameInput::Quit => {
                self.status = GameStatus::GaveUp;
            },
            GameInput::Other => {},
        }
    }
}

/// Movement legality: for every actor position and every direction, a move
/// succeeds exactly when the target cell is in bounds and is floor, and an
/// illegal move leaves the state unchanged. The maze itself is never
/// changed by stepping.
pub proof fn lemma_move_legality(m: Maze, s: GameState, d: Direction)
    requires
        s.status == GameStatus::Running,
    ensures
        can_move(m, s.x as int, s.y as int, d) ==> {
            let t = step_spec(m, s, GameInput::Move(d));
            &&& t.x == s.x + dir_dx(d)
            &&& t.y == s.y + dir_dy(d)
            &&& t.status == GameStatus::Running
            &&& m.is_path(t.x as int, t.y as int)
        },
        !can_move(m, s.x as int, s.y as int, d) ==> step_spec(m, s, GameInput::Move(d)) == s,
{
}

/// Win detection: a running attempt on the goal cell transitions to `Won`
/// (never missed); a running attempt elsewhere is untouched by the check;
/// and a finished attempt is absorbed — no later check or input ever
/// changes it again, so the transition happens exactly once.
pub proof fn lemma_win_detection(m: Maze, s: GameState, inp: GameInput, goal_x: int, goal_y: int)
    ensures
        s.status == GameStatus::Running && s.x == goal_x && s.y == goal_y
            ==> win_check_spec(s, goal_x, goal_y) == (GameState {
            status: GameStatus::Won,
            ..s
        }),
        s.status == GameStatus::Running && !(s.x == goal_x && s.y == goal_y)
            ==> win_check_spec(s, goal_x, goal_y) == s,
        s.status != GameStatus::Running ==> win_check_spec(s, goal_x, goal_y) == s
            && step_spec(m, s, inp) == s,
{
}

} // verus!
