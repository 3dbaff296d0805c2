use takparse::GameResult as FinalResult;
use vstd::prelude::*;

verus! {

#[verifier::external_type_specification]
pub struct ExColor(takparse::Color);

#[verifier::external_type_specification]
pub struct ExDirection(takparse::Direction);

} // verus!

verus! {

#[verifier::external_type_specification]
pub struct ExWinReason(takparse::WinReason);

#[verifier::external_type_specification]
pub struct ExFinalResult(FinalResult);

} // verus!

verus! {

#[verifier::external_type_specification]
pub struct ExPiece(takparse::Piece);

#[verifier::external_type_specification]
#[verifier::external_body]
pub struct ExPattern(takparse::Pattern);

/// A quarter turn clockwise of a direction.
pub open spec fn dir_rotated(d: takparse::Direction) -> takparse::Direction {
    match d {
        takparse::Direction::Up => takparse::Direction::Right,
        takparse::Direction::Right => takparse::Direction::Down,
        takparse::Direction::Down => takparse::Direction::Left,
        takparse::Direction::Left => takparse::Direction::Up,
    }
}

/// A direction mirrored along the horizontal axis: up and down swap.
pub open spec fn dir_mirrored(d: takparse::Direction) -> takparse::Direction {
    match d {
        takparse::Direction::Up => takparse::Direction::Down,
        takparse::Direction::Down => takparse::Direction::Up,
        takparse::Direction::Left => takparse::Direction::Left,
        takparse::Direction::Right => takparse::Direction::Right,
    }
}

/// Relies on takparse's `Direction::rotate`: a quarter turn clockwise.
pub assume_specification[ takparse::Direction::rotate ](d: takparse::Direction) -> (r:
    takparse::Direction)
    ensures
        r == dir_rotated(d),
;

/// Relies on takparse's `Direction::mirror`: up and down swap, left and right stay.
pub assume_specification[ takparse::Direction::mirror ](d: takparse::Direction) -> (r:
    takparse::Direction)
    ensures
        r == dir_mirrored(d),
;

} // verus!
