use crate::board::{image_cells, lemma_index, lemma_square_at, square_at};
use crate::board::Board;
use crate::colors::Colors;
use crate::game::Game;
use crate::symm::{
    canonical_cells, cells_less, compose, direction_image, first_min, images_of, inverse,
    lemma_image_fits, lemma_less_asymmetric, lemma_less_total, lemma_less_transitive,
    lemma_square_compose, move_image, square_image, Move, MoveKind, Square, Symmetry,
};
use takparse::Direction;
use vstd::prelude::*;

verus! {

/// Facts of the composition table of the eight symmetries.
proof fn lemma_table(i: int, j: int)
    requires
        0 <= i < 8,
        0 <= j < 8,
    ensures
        0 <= compose(i, j) < 8,
        0 <= inverse(i) < 8,
        0 <= compose(inverse(i), j) < 8,
        compose(i, compose(inverse(i), j)) == j,
        compose(inverse(j), inverse(i)) == inverse(compose(i, j)),
{
    if i == 0 {
    } else if i == 1 {
    } else if i == 2 {
    } else if i == 3 {
    } else if i == 4 {
    } else if i == 5 {
    } else if i == 6 {
    } else {
    }
}

/// Composition of symmetries, on directions.
#[verifier::spinoff_prover]
proof fn lemma_direction_compose(d: Direction, i: int, j: int)
    requires
        0 <= i < 8,
        0 <= j < 8,
    ensures
        direction_image(direction_image(d, i), j) == direction_image(d, compose(i, j)),
{
    if j == 0 {
    } else if j == 1 {
    } else if j == 2 {
    } else if j == 3 {
    } else if j == 4 {
    } else if j == 5 {
    } else if j == 6 {
    } else {
    }
}

/// Composition of symmetries, on the cells of a grid.
proof fn lemma_cells_compose(cells: Seq<Colors>, n: u8, i: int, j: int)
    requires
        1 <= n,
        cells.len() == n * n,
        0 <= i < 8,
        0 <= j < 8,
    ensures
        image_cells(image_cells(cells, n, i), n, j) == image_cells(cells, n, compose(i, j)),
{
    lemma_table(i, j);
    lemma_table(j, i);
    let lhs = image_cells(image_cells(cells, n, i), n, j);
    let rhs = image_cells(cells, n, compose(i, j));
    assert forall|t: int| 0 <= t < n * n implies lhs[t] == rhs[t] by {
        lemma_square_at(t, n);
        let s = square_at(t, n);
        let u = square_image(s, n, inverse(j));
        lemma_image_fits(s, n, inverse(j));
        lemma_index(u, n);
        lemma_square_compose(s, n, inverse(j), inverse(i));
    }
    assert(lhs =~= rhs);
}

/// Symmetry zero leaves squares, directions, moves and grids as they are.
pub proof fn identity_first(s: Square, d: Direction, m: Move, cells: Seq<Colors>, n: u8)
    requires
        1 <= n,
        cells.len() == n * n,
    ensures
        square_image(s, n, 0) == s,
        direction_image(d, 0) == d,
        move_image(m, n, 0) == m,
        image_cells(cells, n, 0) == cells,
{
    assert forall|t: int| 0 <= t < n * n implies image_cells(cells, n, 0)[t] == cells[t] by {
        lemma_square_at(t, n);
    }
    assert(image_cells(cells, n, 0) =~= cells);
}

/// The eight images of any image of a square are the eight images of the square.
pub proof fn square_images_closed(s: Square, n: u8, i: int)
    requires
        1 <= n,
        s.fits(n),
        0 <= i < 8,
    ensures
        Set::new(|u: Square| exists|j: int| 0 <= j < 8 && u == square_image(square_image(s, n, i), n, j))
            == Set::new(|u: Square| exists|k: int| 0 <= k < 8 && u == square_image(s, n, k)),
{
    let a = Set::new(|u: Square| exists|j: int| 0 <= j < 8 && u == square_image(square_image(s, n, i), n, j));
    let b = Set::new(|u: Square| exists|k: int| 0 <= k < 8 && u == square_image(s, n, k));
    assert forall|u: Square| a.contains(u) implies b.contains(u) by {
        let j = choose|j: int| 0 <= j < 8 && u == square_image(square_image(s, n, i), n, j);
        lemma_square_compose(s, n, i, j);
    }
    assert forall|u: Square| b.contains(u) implies a.contains(u) by {
        let k = choose|k: int| 0 <= k < 8 && u == square_image(s, n, k);
        lemma_table(i, k);
        lemma_square_compose(s, n, i, compose(inverse(i), k));
    }
    assert(a =~= b);
}

/// The eight images of any image of a direction are the eight images of the
/// direction.
pub proof fn direction_images_closed(d: Direction, i: int)
    requires
        0 <= i < 8,
    ensures
        Set::new(|e: Direction| exists|j: int| 0 <= j < 8 && e == direction_image(direction_image(d, i), j))
            == Set::new(|e: Direction| exists|k: int| 0 <= k < 8 && e == direction_image(d, k)),
{
    let a = Set::new(|e: Direction| exists|j: int| 0 <= j < 8 && e == direction_image(direction_image(d, i), j));
    let b = Set::new(|e: Direction| exists|k: int| 0 <= k < 8 && e == direction_image(d, k));
    assert forall|e: Direction| a.contains(e) implies b.contains(e) by {
        let j = choose|j: int| 0 <= j < 8 && e == direction_image(direction_image(d, i), j);
        lemma_table(i, j);
        lemma_direction_compose(d, i, j);
    }
    assert forall|e: Direction| b.contains(e) implies a.contains(e) by {
        let k = choose|k: int| 0 <= k < 8 && e == direction_image(d, k);
        lemma_table(i, k);
        lemma_direction_compose(d, i, compose(inverse(i), k));
    }
    assert(a =~= b);
}

/// Composition of symmetries, on moves.
proof fn lemma_move_compose(m: Move, n: u8, i: int, j: int)
    requires
        1 <= n,
        m.square.fits(n),
        0 <= i < 8,
        0 <= j < 8,
    ensures
        move_image(move_image(m, n, i), n, j) == move_image(m, n, compose(i, j)),
{
    lemma_square_compose(m.square, n, i, j);
    match m.kind {
        MoveKind::Place(_) => {},
        MoveKind::Spread(d, _) => {
            lemma_direction_compose(d, i, j);
        },
    }
}

/// The eight images of any image of a move are the eight images of the move.
pub proof fn move_images_closed(m: Move, n: u8, i: int)
    requires
        1 <= n,
        m.square.fits(n),
        0 <= i < 8,
    ensures
        Set::new(|u: Move| exists|j: int| 0 <= j < 8 && u == move_image(move_image(m, n, i), n, j))
            == Set::new(|u: Move| exists|k: int| 0 <= k < 8 && u == move_image(m, n, k)),
{
    let a = Set::new(|u: Move| exists|j: int| 0 <= j < 8 && u == move_image(move_image(m, n, i), n, j));
    let b = Set::new(|u: Move| exists|k: int| 0 <= k < 8 && u == move_image(m, n, k));
    assert forall|u: Move| a.contains(u) implies b.contains(u) by {
        let j = choose|j: int| 0 <= j < 8 && u == move_image(move_image(m, n, i), n, j);
        lemma_table(i, j);
        lemma_move_compose(m, n, i, j);
    }
    assert forall|u: Move| b.contains(u) implies a.contains(u) by {
        let k = choose|k: int| 0 <= k < 8 && u == move_image(m, n, k);
        lemma_table(i, k);
        lemma_move_compose(m, n, i, compose(inverse(i), k));
    }
    assert(a =~= b);
}

/// The eight images of any image of a grid are the eight images of the grid.
/// A game's images differ from each other only in their grids.
pub proof fn grid_images_closed(cells: Seq<Colors>, n: u8, i: int)
    requires
        1 <= n,
        cells.len() == n * n,
        0 <= i < 8,
    ensures
        Set::new(|c: Seq<Colors>| exists|j: int| 0 <= j < 8 && c == image_cells(image_cells(cells, n, i), n, j))
            == Set::new(|c: Seq<Colors>| exists|k: int| 0 <= k < 8 && c == image_cells(cells, n, k)),
{
    let a = Set::new(|c: Seq<Colors>| exists|j: int| 0 <= j < 8 && c == image_cells(image_cells(cells, n, i), n, j));
    let b = Set::new(|c: Seq<Colors>| exists|k: int| 0 <= k < 8 && c == image_cells(cells, n, k));
    assert forall|c: Seq<Colors>| a.contains(c) implies b.contains(c) by {
        let j = choose|j: int| 0 <= j < 8 && c == image_cells(image_cells(cells, n, i), n, j);
        lemma_table(i, j);
        lemma_cells_compose(cells, n, i, j);
    }
    assert forall|c: Seq<Colors>| b.contains(c) implies a.contains(c) by {
        let k = choose|k: int| 0 <= k < 8 && c == image_cells(cells, n, k);
        lemma_table(i, k);
        lemma_cells_compose(cells, n, i, compose(inverse(i), k));
    }
    assert(a =~= b);
}

} // verus!

verus! {

/// `first_min` picks one of the first `k` entries that none of them comes before.
proof fn lemma_first_min(imgs: Seq<Seq<Colors>>, k: nat)
    requires
        1 <= k <= imgs.len(),
    ensures
        0 <= first_min(imgs, k) < k,
        forall|j: int| 0 <= j < k ==> !cells_less(#[trigger] imgs[j], imgs[first_min(imgs, k)]),
    decreases k,
{
    if k > 1 {
        let k1 = (k - 1) as nat;
        lemma_first_min(imgs, k1);
        let best = first_min(imgs, k1);
        if cells_less(imgs[k - 1], imgs[best]) {
            assert forall|j: int| 0 <= j < k implies !cells_less(#[trigger] imgs[j], imgs[k - 1]) by {
                if j < k - 1 && cells_less(imgs[j], imgs[k - 1]) {
                    lemma_less_transitive(imgs[j], imgs[k - 1], imgs[best]);
                }
                if j == k - 1 {
                    lemma_less_asymmetric(imgs[j], imgs[j]);
                }
            }
        } else {
        }
    }
}

/// The canonical image of any image of a grid is the canonical image of the
/// grid; so every symmetric image of a game has the same canonical form.
pub proof fn canonical_invariant(cells: Seq<Colors>, n: u8, i: int)
    requires
        1 <= n,
        cells.len() == n * n,
        0 <= i < 8,
    ensures
        canonical_cells(image_cells(cells, n, i), n) == canonical_cells(cells, n),
{
    let a = images_of(cells, n);
    let b = images_of(image_cells(cells, n, i), n);
    lemma_first_min(a, 8);
    lemma_first_min(b, 8);
    let ka = first_min(a, 8);
    let kb = first_min(b, 8);
    lemma_table(i, kb);
    lemma_cells_compose(cells, n, i, kb);
    assert(b[kb] == a[compose(i, kb)]);
    lemma_table(i, ka);
    let j = compose(inverse(i), ka);
    lemma_cells_compose(cells, n, i, j);
    assert(b[j] == a[ka]);
    assert(!cells_less(a[compose(i, kb)], a[ka]));
    assert(!cells_less(b[j], b[kb]));
    lemma_less_total(a[ka], b[kb]);
}

/// Taking the canonical image twice gives the same as taking it once.
pub proof fn canonical_idempotent(cells: Seq<Colors>, n: u8)
    requires
        1 <= n,
        cells.len() == n * n,
    ensures
        canonical_cells(canonical_cells(cells, n), n) == canonical_cells(cells, n),
{
    lemma_first_min(images_of(cells, n), 8);
    canonical_invariant(cells, n, first_min(images_of(cells, n), 8));
}

} // verus!

verus! {

/// The eight images of any image of a board are the eight images of the
/// board: an image of the image is an image of the board, and each image of
/// the board is an image of the image.
pub proof fn board_images_closed(b: Board, image: Board, n: u8, i: int)
    requires
        b.on_grid(n),
        0 <= i < 8,
        b.is_image(n, i, &image),
    ensures
        forall|c: Board, j: int|
            0 <= j < 8 && #[trigger] image.is_image(n, j, &c) ==> exists|k: int|
                0 <= k < 8 && #[trigger] b.is_image(n, k, &c),
        forall|c: Board, k: int|
            0 <= k < 8 && #[trigger] b.is_image(n, k, &c) ==> exists|j: int|
                0 <= j < 8 && #[trigger] image.is_image(n, j, &c),
{
    assert forall|c: Board, j: int| 0 <= j < 8 && #[trigger] image.is_image(n, j, &c) implies exists|
        k: int,
    | 0 <= k < 8 && #[trigger] b.is_image(n, k, &c) by {
        lemma_table(i, j);
        lemma_cells_compose(b.cells@, n, i, j);
        assert(b.is_image(n, compose(i, j), &c));
    }
    assert forall|c: Board, k: int| 0 <= k < 8 && #[trigger] b.is_image(n, k, &c) implies exists|
        j: int,
    | 0 <= j < 8 && #[trigger] image.is_image(n, j, &c) by {
        lemma_table(i, k);
        let j = compose(inverse(i), k);
        lemma_cells_compose(b.cells@, n, i, j);
        assert(image.is_image(n, j, &c));
    }
}

/// The eight images of any image of a game are the eight images of the
/// game: an image of the image is an image of the game, and each image of
/// the game is an image of the image.
pub proof fn game_images_closed(g: Game, image: Game, n: u8, i: int)
    requires
        g.on_grid(n),
        0 <= i < 8,
        g.is_image(n, i, &image),
    ensures
        forall|c: Game, j: int|
            0 <= j < 8 && #[trigger] image.is_image(n, j, &c) ==> exists|k: int|
                0 <= k < 8 && #[trigger] g.is_image(n, k, &c),
        forall|c: Game, k: int|
            0 <= k < 8 && #[trigger] g.is_image(n, k, &c) ==> exists|j: int|
                0 <= j < 8 && #[trigger] image.is_image(n, j, &c),
{
    assert forall|c: Game, j: int| 0 <= j < 8 && #[trigger] image.is_image(n, j, &c) implies exists|
        k: int,
    | 0 <= k < 8 && #[trigger] g.is_image(n, k, &c) by {
        lemma_table(i, j);
        lemma_cells_compose(g.board.cells@, n, i, j);
        assert(g.is_image(n, compose(i, j), &c));
    }
    assert forall|c: Game, k: int| 0 <= k < 8 && #[trigger] g.is_image(n, k, &c) implies exists|
        j: int,
    | 0 <= j < 8 && #[trigger] image.is_image(n, j, &c) by {
        lemma_table(i, k);
        let j = compose(inverse(i), k);
        lemma_cells_compose(g.board.cells@, n, i, j);
        assert(image.is_image(n, j, &c));
    }
}

} // verus!
