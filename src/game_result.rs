use takparse::{Color, WinReason};
use vstd::prelude::*;

verus! {

/// How a game stands: still going, drawn, or won by one side.
#[derive(Clone, Copy, Debug, PartialEq, Eq, PartialOrd, Ord)]
pub enum GameResult {
    Winner { color: Color, reason: Reason },
    Draw { reason: Reason },
    Ongoing,
}

impl Default for GameResult {
    fn default() -> (r: Self)
        ensures
            r == GameResult::Ongoing,
    {
        GameResult::Ongoing
    }
}

/// Why a game ended.
#[derive(Clone, Copy, Debug, PartialEq, Eq, Structural, PartialOrd, Ord)]
pub enum Reason {
    Road,
    ReservesDepleted,
    BoardFill,
    ReversiblePlies,
}

/// The coarse classification of an ending reason.
pub open spec fn coarse_reason(reason: Reason) -> WinReason {
    match reason {
        Reason::Road => WinReason::Road,
        Reason::BoardFill | Reason::ReservesDepleted => WinReason::Flat,
        Reason::ReversiblePlies => WinReason::Other,
    }
}

impl From<Reason> for WinReason {
    fn from(reason: Reason) -> (r: Self) {
        match reason {
            Reason::Road => WinReason::Road,
            Reason::BoardFill | Reason::ReservesDepleted => WinReason::Flat,
            Reason::ReversiblePlies => WinReason::Other,
        }
    }
}

impl vstd::std_specs::convert::FromSpecImpl<Reason> for WinReason {
    open spec fn obeys_from_spec() -> bool {
        true
    }

    open spec fn from_spec(reason: Reason) -> Self {
        coarse_reason(reason)
    }
}

/// The signal that a game still going has no final result yet.
#[derive(Clone, Copy, Debug, PartialEq, Eq, Structural)]
pub struct Ongoing;

/// The final result of a finished game, or `Ongoing` while it goes on.
pub open spec fn final_result(result: GameResult) -> Result<takparse::GameResult, Ongoing> {
    match result {
        GameResult::Ongoing => Err(Ongoing),
        GameResult::Draw { .. } => Ok(takparse::GameResult::Draw),
        GameResult::Winner { color: Color::White, reason } => Ok(
            takparse::GameResult::White(coarse_reason(reason)),
        ),
        GameResult::Winner { color: Color::Black, reason } => Ok(
            takparse::GameResult::Black(coarse_reason(reason)),
        ),
    }
}

impl TryFrom<GameResult> for takparse::GameResult {
    type Error = Ongoing;

    fn try_from(result: GameResult) -> (r: Result<Self, Self::Error>) {
        match result {
            GameResult::Ongoing => Err(Ongoing),
            GameResult::Draw { .. } => Ok(takparse::GameResult::Draw),
            GameResult::Winner { color: Color::White, reason } => Ok(
                takparse::GameResult::White(WinReason::from(reason)),
            ),
            GameResult::Winner { color: Color::Black, reason } => Ok(
                takparse::GameResult::Black(WinReason::from(reason)),
            ),
        }
    }
}

impl vstd::std_specs::convert::TryFromSpecImpl<GameResult> for takparse::GameResult {
    open spec fn obeys_try_from_spec() -> bool {
        true
    }

    open spec fn try_from_spec(result: GameResult) -> Result<Self, Ongoing> {
        final_result(result)
    }
}

/// Converting a game still going fails; a white road win converts to a white
/// road result.
pub proof fn conversion_outcomes()
    ensures
        final_result(GameResult::Ongoing) == Err::<takparse::GameResult, Ongoing>(Ongoing),
        final_result(GameResult::Winner { color: Color::White, reason: Reason::Road }) == Ok::<
            takparse::GameResult,
            Ongoing,
        >(takparse::GameResult::White(WinReason::Road)),
{
}

} // verus!
