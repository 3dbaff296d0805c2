use fast_tak::board::Board;
use fast_tak::colors::Colors;
use fast_tak::game::Game;
use fast_tak::game_result::GameResult;
use fast_tak::symm::{Move, MoveKind, Square, Symmetry};
use takparse::{Color, Direction, Pattern, Piece};

fn sq(column: u8, row: u8) -> Square {
    Square { column, row }
}

#[test]
fn square_images() {
    let s = sq(1, 1);
    let images = s.symmetries(6);
    assert_eq!(images[0], s);
    assert_eq!(images[1], sq(1, 4));
    assert_eq!(images[2], sq(4, 4));
    assert_eq!(images[3], sq(4, 1));
    assert_eq!(images[4], sq(1, 4));
    assert_eq!(s.symmetries(5)[4], sq(1, 3));
    assert_eq!(sq(2, 0).symmetries(4), [
        sq(2, 0),
        sq(0, 1),
        sq(1, 3),
        sq(3, 2),
        sq(2, 3),
        sq(3, 1),
        sq(1, 0),
        sq(0, 2),
    ]);
}

#[test]
fn square_images_are_closed() {
    let images = sq(2, 0).symmetries(5);
    for image in images {
        let mut again: Vec<Square> = image.symmetries(5).to_vec();
        let mut first: Vec<Square> = images.to_vec();
        again.sort_by_key(|s| (s.column, s.row));
        first.sort_by_key(|s| (s.column, s.row));
        assert_eq!(again, first);
    }
}

#[test]
fn direction_images() {
    assert_eq!(Direction::Up.symmetries(5), [
        Direction::Up,
        Direction::Right,
        Direction::Down,
        Direction::Left,
        Direction::Down,
        Direction::Left,
        Direction::Up,
        Direction::Right,
    ]);
    assert_eq!(Direction::Left.symmetries(3)[0], Direction::Left);
}

#[test]
fn move_images() {
    let pattern = Pattern::from_mask(0b1000_0000);
    let spread = Move { square: sq(0, 0), kind: MoveKind::Spread(Direction::Up, pattern) };
    let images = spread.symmetries(4);
    assert_eq!(images[0], spread);
    assert_eq!(images[1], Move { square: sq(0, 3), kind: MoveKind::Spread(Direction::Right, pattern) });
    assert_eq!(images[4], Move { square: sq(0, 3), kind: MoveKind::Spread(Direction::Down, pattern) });

    let place = Move { square: sq(1, 2), kind: MoveKind::Place(Piece::Cap) };
    let images = place.symmetries(4);
    assert_eq!(images[0], place);
    assert_eq!(images[2], Move { square: sq(2, 1), kind: MoveKind::Place(Piece::Cap) });
}

fn sample_board() -> Board {
    let mut board = Board::new(3);
    board.set(sq(0, 0), Colors::of_one(Color::White));
    board.set(sq(1, 0), Colors::from_iter(&[Color::Black, Color::White]));
    board.set(sq(2, 2), Colors::of_one(Color::Black));
    board
}

#[test]
fn board_images() {
    let board = sample_board();
    let images = board.symmetries(3);
    assert_eq!(images[0].cells, board.cells);
    // A quarter turn takes (0, 0) to (0, 2) and (1, 0) to (0, 1).
    assert_eq!(images[1].get(sq(0, 2)), Colors::of_one(Color::White));
    assert_eq!(images[1].get(sq(0, 1)), Colors::from_iter(&[Color::Black, Color::White]));
    assert_eq!(images[1].get(sq(2, 0)), Colors::of_one(Color::Black));
    assert!(images[1].get(sq(0, 0)).is_empty());
}

fn sample_game() -> Game {
    let mut game = Game::new(3, 4);
    game.board = sample_board();
    game.ply = 7;
    game
}

#[test]
fn game_images_keep_state() {
    let game = sample_game();
    let images = game.symmetries(3);
    assert_eq!(images[0].board.cells, game.board.cells);
    for image in &images {
        assert_eq!(image.ply, 7);
        assert_eq!(image.half_komi, 4);
        assert_eq!(image.result, GameResult::Ongoing);
    }
    assert_eq!(images[5].board.cells, game.board.symmetries(3)[5].cells);
}

#[test]
fn canonical_is_invariant_and_idempotent() {
    let game = sample_game();
    let canon = sample_game().canonical();
    assert_eq!(canon.ply, 7);
    for image in game.symmetries(3) {
        assert_eq!(image.canonical().board.cells, canon.board.cells);
    }
    let again = sample_game().canonical().canonical();
    assert_eq!(again.board.cells, canon.board.cells);
}

#[test]
fn canonical_is_least_image() {
    let game = sample_game();
    let canon = sample_game().canonical();
    let least = game
        .board
        .symmetries(3)
        .into_iter()
        .map(|b| b.cells)
        .min()
        .unwrap();
    assert_eq!(canon.board.cells, least);
}

#[test]
fn direction_images_ignore_grid_side() {
    let expected = Direction::Down.symmetries(5);
    assert_eq!(Direction::Down.symmetries(0), expected);
    assert_eq!(Direction::Down.symmetries(20), expected);
    assert_eq!(expected[0], Direction::Down);
}

#[test]
fn games_compare_and_clone() {
    let game = sample_game();
    let copy = game.clone();
    assert_eq!(copy, game);
    let images = game.symmetries(3);
    assert_eq!(images[0], game);
    assert_ne!(images[1], game);
    assert_eq!(images[1].clone().canonical(), game.clone().canonical());
    assert_eq!(images[0].board, game.board);
}

#[test]
fn square_images_on_large_grids() {
    assert_eq!(sq(3, 10).symmetries(12), [
        sq(3, 10),
        sq(10, 8),
        sq(8, 1),
        sq(1, 3),
        sq(3, 1),
        sq(1, 8),
        sq(8, 10),
        sq(10, 3),
    ]);
    assert_eq!(sq(254, 0).symmetries(255)[1], sq(0, 0));
    assert_eq!(sq(0, 0).symmetries(255)[4], sq(0, 254));
}

#[test]
fn move_images_on_large_grid() {
    let pattern = Pattern::from_mask(0b1100_0000);
    let spread = Move { square: sq(8, 0), kind: MoveKind::Spread(Direction::Left, pattern) };
    let images = spread.symmetries(9);
    assert_eq!(images[0], spread);
    assert_eq!(images[1], Move { square: sq(0, 0), kind: MoveKind::Spread(Direction::Up, pattern) });
}

#[test]
fn board_of_side_nine() {
    let mut board = Board::new(9);
    board.set(sq(8, 8), Colors::of_one(Color::White));
    let images = board.symmetries(9);
    assert_eq!(images[0], board);
    assert_eq!(images[1].get(sq(8, 0)), Colors::of_one(Color::White));
    let mut game = Game::new(9, 0);
    game.board = board;
    let canon = game.clone().canonical();
    for image in game.symmetries(9) {
        assert_eq!(image.canonical(), canon);
    }
}
