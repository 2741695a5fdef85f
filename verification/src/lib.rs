use vstd::prelude::*;

pub mod game;
pub mod grid;
mod labeler;
pub mod laws;
pub mod resolver;
mod rng;

pub use game::Game;
pub use grid::Cell;
pub use grid::BOARD_H;
pub use grid::BOARD_W;
pub use grid::COLORS_COUNT;
pub use grid::FPS;

verus! {

/// A command fed into the game by the presentation layer once per frame.
/// `Idle` reports that no input arrived this frame.
#[derive(Debug, Clone, Copy, Eq, PartialEq, Structural)]
pub enum Command {
    Idle,
    Hover(usize, usize),
    Click(usize, usize),
}

} // verus!
