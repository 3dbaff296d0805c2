pub mod board;
pub mod colors;
pub mod game;
pub mod game_result;
pub mod laws;
pub mod symm;
pub mod takparse_specs;

pub use board::Board;
pub use colors::{Colors, ColorsIter};
pub use game::Game;
pub use game_result::{GameResult, Ongoing, Reason};
pub use symm::{Move, MoveKind, Square, Symmetry};
