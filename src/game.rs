use crate::board::Board;
use crate::game_result::GameResult;
use vstd::prelude::*;

verus! {

/// A position: the board, and the rest of the state, which the board's
/// symmetries leave alone.
#[derive(Clone, Debug, PartialEq, Eq)]
pub struct Game {
    pub board: Board,
    pub half_komi: i8,
    pub ply: u32,
    pub reversible_plies: u32,
    pub result: GameResult,
}

impl Game {
    /// The state besides the board is that of `other`.
    pub open spec fn same_state(&self, other: &Game) -> bool {
        &&& self.half_komi == other.half_komi
        &&& self.ply == other.ply
        &&& self.reversible_plies == other.reversible_plies
        &&& self.result == other.result
    }

    /// A game on an empty board of side `size`.
    pub fn new(size: u8, half_komi: i8) -> (r: Self)
        requires
            1 <= size,
        ensures
            r.board.wf(),
            r.board.size == size,
            forall|t: int| 0 <= t < r.board.cells@.len() ==> (#[trigger] r.board.cells@[t])@.len() == 0,
            r.half_komi == half_komi,
            r.ply == 0,
            r.reversible_plies == 0,
            r.result == GameResult::Ongoing,
    {
        Game { board: Board::new(size), half_komi, ply: 0, reversible_plies: 0, result: GameResult::Ongoing }
    }
}

} // verus!
