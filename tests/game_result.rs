use fast_tak::game_result::{GameResult, Ongoing, Reason};
use takparse::{Color, WinReason};

#[test]
fn ongoing_does_not_convert() {
    let r: Result<takparse::GameResult, Ongoing> = takparse::GameResult::try_from(GameResult::Ongoing);
    assert!(r.is_err());
    assert_eq!(GameResult::default(), GameResult::Ongoing);
}

#[test]
fn white_road_converts() {
    let r = takparse::GameResult::try_from(GameResult::Winner { color: Color::White, reason: Reason::Road });
    assert_eq!(r.ok(), Some(takparse::GameResult::White(WinReason::Road)));
}

#[test]
fn black_and_draw_convert() {
    let r = takparse::GameResult::try_from(GameResult::Winner { color: Color::Black, reason: Reason::ReservesDepleted });
    assert_eq!(r.ok(), Some(takparse::GameResult::Black(WinReason::Flat)));
    let r = takparse::GameResult::try_from(GameResult::Draw { reason: Reason::ReversiblePlies });
    assert_eq!(r.ok(), Some(takparse::GameResult::Draw));
}

#[test]
fn reasons_coarsen() {
    assert_eq!(WinReason::from(Reason::Road), WinReason::Road);
    assert_eq!(WinReason::from(Reason::ReservesDepleted), WinReason::Flat);
    assert_eq!(WinReason::from(Reason::BoardFill), WinReason::Flat);
    assert_eq!(WinReason::from(Reason::ReversiblePlies), WinReason::Other);
}
