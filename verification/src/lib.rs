//! A terminal maze game's verified core: a generator that carves a random
//! perfect maze (a spanning tree over a lattice of node cells), a glyph
//! mapper that renders walls as continuous box-drawing lines, and the game
//! state machine that moves a single actor from the start cell to a goal.
//! Terminal input and output live outside the library.

pub mod game;
pub mod gen;
pub mod glyph;
pub mod maze;
mod rng;
