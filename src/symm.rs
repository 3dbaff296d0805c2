use crate::board::{image_cells, index, lemma_index, lemma_index_injective, lemma_square_at, square_at, Board};
use crate::colors::{raw_determines, Colors};
use crate::game::Game;
use crate::takparse_specs::{dir_mirrored, dir_rotated};
use takparse::{Direction, Pattern, Piece};
use vstd::prelude::*;

verus! {

/// The eight symmetries of the square grid are numbered `4 * m + a`: mirror
/// first when `m == 1`, then `a` quarter turns clockwise. This is the element
/// obtained by doing symmetry `i`, then symmetry `j`.
pub open spec fn compose(i: int, j: int) -> int {
    let (mi, ai): (int, int) = if i < 4 {
        (0, i)
    } else {
        (1, i - 4)
    };
    let (mj, aj): (int, int) = if j < 4 {
        (0, j)
    } else {
        (1, j - 4)
    };
    if mj == 0 {
        4 * mi + quarter_turns(ai + aj)
    } else {
        4 * (1 - mi) + quarter_turns(aj - ai + 4)
    }
}

/// A number of quarter turns below eight, taken modulo a full turn.
pub open spec fn quarter_turns(x: int) -> int {
    if x >= 4 {
        x - 4
    } else {
        x
    }
}

/// The symmetry that undoes symmetry `i`.
pub open spec fn inverse(i: int) -> int {
    if i == 0 {
        0
    } else if i < 4 {
        4 - i
    } else {
        i
    }
}

/// A position on a square grid.
#[derive(Clone, Copy, Debug, Hash, PartialEq, Eq, Structural)]
pub struct Square {
    pub column: u8,
    pub row: u8,
}

/// The image of (column, row) under symmetry `i` of a grid of side `n`.
pub open spec fn square_image(s: Square, n: u8, i: int) -> Square {
    let (c, r, m) = (s.column, s.row, (n - 1) as u8);
    if i == 0 {
        s
    } else if i == 1 {
        Square { column: r, row: (m - c) as u8 }
    } else if i == 2 {
        Square { column: (m - c) as u8, row: (m - r) as u8 }
    } else if i == 3 {
        Square { column: (m - r) as u8, row: c }
    } else if i == 4 {
        Square { column: c, row: (m - r) as u8 }
    } else if i == 5 {
        Square { column: (m - r) as u8, row: (m - c) as u8 }
    } else if i == 6 {
        Square { column: (m - c) as u8, row: r }
    } else {
        Square { column: r, row: c }
    }
}

/// The image of a direction under symmetry `i`.
pub open spec fn direction_image(d: Direction, i: int) -> Direction {
    let m = if i >= 4 {
        dir_mirrored(d)
    } else {
        d
    };
    let a = i % 4;
    if a == 0 {
        m
    } else if a == 1 {
        dir_rotated(m)
    } else if a == 2 {
        dir_rotated(dir_rotated(m))
    } else {
        dir_rotated(dir_rotated(dir_rotated(m)))
    }
}

/// Values tied to a square grid, which the grid's eight symmetries move.
pub trait Symmetry: Sized {
    /// The value lies on a grid of side `n`.
    spec fn on_grid(&self, n: u8) -> bool;

    /// `other` is the value's image under symmetry `i` of a grid of side `n`.
    spec fn is_image(&self, n: u8, i: int, other: &Self) -> bool;

    /// The eight images, in the order identity, the three quarter turns,
    /// the mirror image and its three quarter turns.
    fn symmetries(&self, n: u8) -> (r: [Self; 8])
        requires
            self.on_grid(n),
        ensures
            forall|i: int| 0 <= i < 8 ==> #[trigger] self.is_image(n, i, &r@[i]),
    ;
}

impl Square {
    pub open spec fn fits(self, n: u8) -> bool {
        self.column < n && self.row < n
    }

    /// A quarter turn clockwise about the centre of a grid of side `n`.
    fn rotate(self, n: u8) -> (r: Self)
        requires
            1 <= n,
            self.fits(n),
        ensures
            r == square_image(self, n, 1),
    {
        Square { column: self.row, row: n - 1 - self.column }
    }

    /// A flip along the horizontal axis of a grid of side `n`.
    fn mirror(self, n: u8) -> (r: Self)
        requires
            1 <= n,
            self.fits(n),
        ensures
            r == square_image(self, n, 4),
    {
        Square { column: self.column, row: n - 1 - self.row }
    }
}

impl Symmetry for Square {
    open spec fn on_grid(&self, n: u8) -> bool {
        self.fits(n)
    }

    open spec fn is_image(&self, n: u8, i: int, other: &Self) -> bool {
        *other == square_image(*self, n, i)
    }

    fn symmetries(&self, n: u8) -> (r: [Self; 8]) {
        let s = *self;
        let r1 = s.rotate(n);
        let r2 = r1.rotate(n);
        let r3 = r2.rotate(n);
        let m0 = s.mirror(n);
        let m1 = m0.rotate(n);
        let m2 = m1.rotate(n);
        let m3 = m2.rotate(n);
        [s, r1, r2, r3, m0, m1, m2, m3]
    }
}

impl Symmetry for Direction {
    /// A direction's images do not depend on the grid.
    open spec fn on_grid(&self, n: u8) -> bool {
        true
    }

    open spec fn is_image(&self, n: u8, i: int, other: &Self) -> bool {
        *other == direction_image(*self, i)
    }

    fn symmetries(&self, n: u8) -> (r: [Self; 8]) {
        let d = *self;
        let r1 = d.rotate();
        let r2 = r1.rotate();
        let r3 = r2.rotate();
        let m0 = d.mirror();
        let m1 = m0.rotate();
        let m2 = m1.rotate();
        let m3 = m2.rotate();
        [d, r1, r2, r3, m0, m1, m2, m3]
    }
}

/// What a move does at its square.
#[derive(Clone, Copy, Debug, Hash, PartialEq, Eq)]
pub enum MoveKind {
    Place(Piece),
    Spread(Direction, Pattern),
}

/// A move: a square and what happens there.
#[derive(Clone, Copy, Debug, Hash, PartialEq, Eq)]
pub struct Move {
    pub square: Square,
    pub kind: MoveKind,
}

/// The image of a move under symmetry `i`: its square moves, and so does the
/// direction of a spread; the piece and the drop pattern stay.
pub open spec fn move_image(mv: Move, n: u8, i: int) -> Move {
    Move {
        square: square_image(mv.square, n, i),
        kind: match mv.kind {
            MoveKind::Place(p) => MoveKind::Place(p),
            MoveKind::Spread(d, pattern) => MoveKind::Spread(direction_image(d, i), pattern),
        },
    }
}

/// Pairs the entries of two arrays index by index.
fn zip<A: Copy, B: Copy>(a: [A; 8], b: [B; 8]) -> (r: [(A, B); 8])
    ensures
        forall|i: int| 0 <= i < 8 ==> #[trigger] r@[i] == (a@[i], b@[i]),
{
    [(a[0], b[0]), (a[1], b[1]), (a[2], b[2]), (a[3], b[3]), (a[4], b[4]), (a[5], b[5]), (a[6], b[6]), (a[7], b[7])]
}

impl Symmetry for Move {
    open spec fn on_grid(&self, n: u8) -> bool {
        self.square.fits(n)
    }

    open spec fn is_image(&self, n: u8, i: int, other: &Self) -> bool {
        *other == move_image(*self, n, i)
    }

    fn symmetries(&self, n: u8) -> (r: [Self; 8]) {
        let square = self.square;
        let kind = self.kind;
        let squares = square.symmetries(n);
        match kind {
            MoveKind::Place(_) => {
                let r = [
                    Move { square: squares[0], kind },
                    Move { square: squares[1], kind },
                    Move { square: squares[2], kind },
                    Move { square: squares[3], kind },
                    Move { square: squares[4], kind },
                    Move { square: squares[5], kind },
                    Move { square: squares[6], kind },
                    Move { square: squares[7], kind },
                ];
                assert forall|i: int| 0 <= i < 8 implies #[trigger] self.is_image(n, i, &r@[i]) by {
                    assert(square.is_image(n, i, &squares@[i]));
                    assert(r@[i] == Move { square: squares@[i], kind });
                }
                r
            },
            MoveKind::Spread(direction, pattern) => {
                let directions = direction.symmetries(n);
                let pairs = zip(squares, directions);
                let r = [
                    Move { square: pairs[0].0, kind: MoveKind::Spread(pairs[0].1, pattern) },
                    Move { square: pairs[1].0, kind: MoveKind::Spread(pairs[1].1, pattern) },
                    Move { square: pairs[2].0, kind: MoveKind::Spread(pairs[2].1, pattern) },
                    Move { square: pairs[3].0, kind: MoveKind::Spread(pairs[3].1, pattern) },
                    Move { square: pairs[4].0, kind: MoveKind::Spread(pairs[4].1, pattern) },
                    Move { square: pairs[5].0, kind: MoveKind::Spread(pairs[5].1, pattern) },
                    Move { square: pairs[6].0, kind: MoveKind::Spread(pairs[6].1, pattern) },
                    Move { square: pairs[7].0, kind: MoveKind::Spread(pairs[7].1, pattern) },
                ];
                assert forall|i: int| 0 <= i < 8 implies #[trigger] self.is_image(n, i, &r@[i]) by {
                    assert(square.is_image(n, i, &squares@[i]));
                    assert(direction.is_image(n, i, &directions@[i]));
                    assert(pairs@[i] == (squares@[i], directions@[i]));
                    assert(r@[i] == Move { square: pairs@[i].0, kind: MoveKind::Spread(pairs@[i].1, pattern) });
                }
                r
            },
        }
    }
}

} // verus!

verus! {

/// Every image of a square on the grid is on the grid.
pub proof fn lemma_image_fits(s: Square, n: u8, i: int)
    requires
        1 <= n,
        s.fits(n),
        0 <= i < 8,
    ensures
        square_image(s, n, i).fits(n),
{
}

/// Doing symmetry `i`, then symmetry `j`, is doing symmetry `compose(i, j)`.
#[verifier::spinoff_prover]
pub proof fn lemma_square_compose(s: Square, n: u8, i: int, j: int)
    requires
        1 <= n,
        s.fits(n),
        0 <= i < 8,
        0 <= j < 8,
    ensures
        0 <= compose(i, j) < 8,
        square_image(square_image(s, n, i), n, j) == square_image(s, n, compose(i, j)),
{
    if j == 0 {
    } else if j == 1 {
    } else if j == 2 {
    } else if j == 3 {
    } else if j == 4 {
    } else if j == 5 {
    } else if j == 6 {
    } else {
    }
}

/// Symmetry `inverse(i)` undoes symmetry `i`, on either side.
pub proof fn lemma_square_inverse(s: Square, n: u8, i: int)
    requires
        1 <= n,
        s.fits(n),
        0 <= i < 8,
    ensures
        0 <= inverse(i) < 8,
        square_image(square_image(s, n, i), n, inverse(i)) == s,
        square_image(square_image(s, n, inverse(i)), n, i) == s,
{
}

} // verus!

verus! {

impl Board {
    /// The board under symmetry `i`: each square's stack moves to the
    /// square's image.
    fn image(&self, i: usize) -> (r: Board)
        requires
            self.wf(),
            i < 8,
        ensures
            r.wf(),
            r.size == self.size,
            r.cells@ == image_cells(self.cells@, self.size, i as int),
    {
        let n = self.size;
        let ghost old_cells = self.cells@;
        let mut board = Board::new(n);
        let mut x: u8 = 0;
        while x < n
            invariant
                self.wf(),
                n == self.size,
                old_cells == self.cells@,
                i < 8,
                x <= n,
                board.wf(),
                board.size == n,
                forall|s: Square|
                    #![trigger square_image(s, n, i as int)]
                    s.fits(n) && s.row < x ==> board.cells@[index(square_image(s, n, i as int), n)]
                        == old_cells[index(s, n)],
            decreases n - x,
        {
            let mut y: u8 = 0;
            while y < n
                invariant
                    self.wf(),
                    n == self.size,
                    old_cells == self.cells@,
                    i < 8,
                    x < n,
                    y <= n,
                    board.wf(),
                    board.size == n,
                    forall|s: Square|
                        #![trigger square_image(s, n, i as int)]
                        s.fits(n) && (s.row < x || (s.row == x && s.column < y))
                            ==> board.cells@[index(square_image(s, n, i as int), n)]
                            == old_cells[index(s, n)],
                decreases n - y,
            {
                let square = Square { column: y, row: x };
                let images = square.symmetries(n);
                let target = images[i];
                assert(square.is_image(n, i as int, &images@[i as int]));
                assert(target == square_image(square, n, i as int));
                let stack = self.get(square);
                proof {
                    lemma_image_fits(square, n, i as int);
                }
                let ghost before = board.cells@;
                board.set(target, stack);
                proof {
                    assert forall|s: Square|
                        #![trigger square_image(s, n, i as int)]
                        s.fits(n) && (s.row < x || (s.row == x && s.column < y + 1))
                            implies board.cells@[index(square_image(s, n, i as int), n)]
                            == old_cells[index(s, n)] by {
                        lemma_index(target, n);
                        lemma_index(square, n);
                        if s == square {
                            assert(board.cells@[index(target, n)] == stack);
                        } else {
                            assert(s.row < x || (s.row == x && s.column < y));
                            assert(before[index(square_image(s, n, i as int), n)] == old_cells[index(s, n)]);
                            lemma_image_fits(s, n, i as int);
                            lemma_square_inverse(s, n, i as int);
                            lemma_square_inverse(square, n, i as int);
                            if index(square_image(s, n, i as int), n) == index(target, n) {
                                lemma_index_injective(square_image(s, n, i as int), target, n);
                            }
                            lemma_index(square_image(s, n, i as int), n);
                            lemma_index(target, n);
                            assert(board.cells@[index(square_image(s, n, i as int), n)]
                                == before[index(square_image(s, n, i as int), n)]);
                        }
                    }
                }
                y = y + 1;
            }
            x = x + 1;
        }
        proof {
            let ii = i as int;
            assert forall|t: int| 0 <= t < n * n implies board.cells@[t] == #[trigger] image_cells(
                old_cells,
                n,
                ii,
            )[t] by {
                lemma_square_at(t, n);
                let s = square_image(square_at(t, n), n, inverse(ii));
                lemma_square_inverse(square_at(t, n), n, ii);
                lemma_image_fits(square_at(t, n), n, inverse(ii));
                assert(square_image(s, n, ii) == square_at(t, n));
            }
            assert(board.cells@ =~= image_cells(old_cells, n, ii));
        }
        board
    }
}

impl Symmetry for Board {
    open spec fn on_grid(&self, n: u8) -> bool {
        self.wf() && self.size == n
    }

    open spec fn is_image(&self, n: u8, i: int, other: &Self) -> bool {
        &&& other.wf()
        &&& other.size == n
        &&& other.cells@ == image_cells(self.cells@, n, i)
    }

    fn symmetries(&self, n: u8) -> (r: [Self; 8]) {
        let r = [
            self.image(0),
            self.image(1),
            self.image(2),
            self.image(3),
            self.image(4),
            self.image(5),
            self.image(6),
            self.image(7),
        ];
        assert forall|i: int| 0 <= i < 8 implies #[trigger] self.is_image(n, i, &r@[i]) by {
            if i == 0 {
            } else if i == 1 {
            } else if i == 2 {
            } else if i == 3 {
            } else if i == 4 {
            } else if i == 5 {
            } else if i == 6 {
            } else {
            }
        }
        r
    }
}

} // verus!

verus! {

/// `a` comes before `b`: at the first cell where they differ, the stack of
/// `a` has the smaller raw word.
pub open spec fn cells_less(a: Seq<Colors>, b: Seq<Colors>) -> bool {
    exists|i: int|
        0 <= i < a.len() && i < b.len() && (forall|j: int| 0 <= j < i ==> a[j] == b[j])
            && (#[trigger] a[i]).raw() < b[i].raw()
}

/// Whether the cells of `a` come before those of `b`, row by row.
fn board_less(a: &Board, b: &Board) -> (r: bool)
    requires
        a.cells@.len() == b.cells@.len(),
    ensures
        r == cells_less(a.cells@, b.cells@),
{
    let mut i: usize = 0;
    while i < a.cells.len()
        invariant
            a.cells@.len() == b.cells@.len(),
            i <= a.cells@.len(),
            forall|j: int| 0 <= j < i ==> a.cells@[j] == b.cells@[j],
        decreases a.cells@.len() - i,
    {
        let x = a.cells[i];
        let y = b.cells[i];
        if x.precedes(y) {
            return true;
        }
        if y.precedes(x) {
            proof {
                assert forall|k: int|
                    0 <= k < a.cells@.len() && (forall|j: int| 0 <= j < k ==> a.cells@[j] == b.cells@[j])
                        implies !((#[trigger] a.cells@[k]).raw() < b.cells@[k].raw()) by {
                    if k > i {
                        assert(a.cells@[i as int] == b.cells@[i as int]);
                    }
                }
            }
            return false;
        }
        proof {
            raw_determines(x, y);
        }
        i = i + 1;
    }
    false
}

} // verus!

verus! {

/// Of two cell lists of one length, one comes first, unless they are equal.
pub proof fn lemma_less_total(a: Seq<Colors>, b: Seq<Colors>)
    requires
        a.len() == b.len(),
    ensures
        a == b || cells_less(a, b) || cells_less(b, a),
    decreases a.len(),
{
    let n = a.len() as int;
    if n == 0 {
        assert(a =~= b);
    } else {
        let (a1, b1) = (a.drop_last(), b.drop_last());
        lemma_less_total(a1, b1);
        if cells_less(a1, b1) {
            let i = choose|i: int|
                0 <= i < a1.len() && i < b1.len() && (forall|j: int| 0 <= j < i ==> a1[j] == b1[j])
                    && (#[trigger] a1[i]).raw() < b1[i].raw();
            assert(a[i] == a1[i]);
            assert(forall|j: int| 0 <= j < i ==> a[j] == a1[j] && b[j] == b1[j]);
        } else if cells_less(b1, a1) {
            let i = choose|i: int|
                0 <= i < b1.len() && i < a1.len() && (forall|j: int| 0 <= j < i ==> b1[j] == a1[j])
                    && (#[trigger] b1[i]).raw() < a1[i].raw();
            assert(b[i] == b1[i]);
            assert(forall|j: int| 0 <= j < i ==> a[j] == a1[j] && b[j] == b1[j]);
        } else {
            assert(forall|j: int| 0 <= j < n - 1 ==> a[j] == a1[j] && b[j] == b1[j]);
            if a[n - 1].raw() == b[n - 1].raw() {
                raw_determines(a[n - 1], b[n - 1]);
                assert(a =~= b);
            } else if a[n - 1].raw() < b[n - 1].raw() {
                assert(a[n - 1].raw() < b[n - 1].raw());
            } else {
                assert(b[n - 1].raw() < a[n - 1].raw());
            }
        }
    }
}

/// No cell list comes before one that comes before it.
pub proof fn lemma_less_asymmetric(a: Seq<Colors>, b: Seq<Colors>)
    ensures
        !(cells_less(a, b) && cells_less(b, a)),
{
    if cells_less(a, b) && cells_less(b, a) {
        let i = choose|i: int|
            0 <= i < a.len() && i < b.len() && (forall|j: int| 0 <= j < i ==> a[j] == b[j])
                && (#[trigger] a[i]).raw() < b[i].raw();
        let k = choose|k: int|
            0 <= k < b.len() && k < a.len() && (forall|j: int| 0 <= j < k ==> b[j] == a[j])
                && (#[trigger] b[k]).raw() < a[k].raw();
        if i < k {
            assert(b[i] == a[i]);
        } else if k < i {
            assert(a[k] == b[k]);
        }
    }
}

/// The order on cell lists is transitive.
pub proof fn lemma_less_transitive(a: Seq<Colors>, b: Seq<Colors>, c: Seq<Colors>)
    requires
        cells_less(a, b),
        cells_less(b, c),
    ensures
        cells_less(a, c),
{
    let i = choose|i: int|
        0 <= i < a.len() && i < b.len() && (forall|j: int| 0 <= j < i ==> a[j] == b[j])
            && (#[trigger] a[i]).raw() < b[i].raw();
    let k = choose|k: int|
        0 <= k < b.len() && k < c.len() && (forall|j: int| 0 <= j < k ==> b[j] == c[j])
            && (#[trigger] b[k]).raw() < c[k].raw();
    if i <= k {
        assert(a[i].raw() < c[i].raw());
        assert(forall|j: int| 0 <= j < i ==> a[j] == c[j]);
    } else {
        assert(a[k] == b[k]);
        assert(a[k].raw() < c[k].raw());
        assert(forall|j: int| 0 <= j < k ==> a[j] == c[j]);
    }
}

} // verus!

verus! {

/// The cells of the eight images of a grid, in symmetry order.
pub open spec fn images_of(cells: Seq<Colors>, n: u8) -> Seq<Seq<Colors>> {
    Seq::new(8, |k: int| image_cells(cells, n, k))
}

/// The first of `imgs[0..k]` that no other among them comes before.
pub open spec fn first_min(imgs: Seq<Seq<Colors>>, k: nat) -> int
    decreases k,
{
    if k <= 1 {
        0
    } else {
        let best = first_min(imgs, (k - 1) as nat);
        if cells_less(imgs[k - 1], imgs[best]) {
            k - 1
        } else {
            best
        }
    }
}

/// The cells of the canonical image of a grid: the least of its eight
/// images, the first one where several are least.
pub open spec fn canonical_cells(cells: Seq<Colors>, n: u8) -> Seq<Colors> {
    images_of(cells, n)[first_min(images_of(cells, n), 8)]
}

impl Game {
    /// This game with `board` in place of its own.
    fn with_board(&self, board: Board) -> (r: Game)
        ensures
            r.same_state(self),
            r.board == board,
    {
        Game {
            board,
            half_komi: self.half_komi,
            ply: self.ply,
            reversible_plies: self.reversible_plies,
            result: self.result,
        }
    }

    /// The game with its board replaced by the least of the board's eight
    /// images.
    pub fn canonical(self) -> (r: Self)
        requires
            self.board.wf(),
        ensures
            r.same_state(&self),
            r.board.wf(),
            r.board.size == self.board.size,
            r.board.cells@ == canonical_cells(self.board.cells@, self.board.size),
    {
        let n = self.board.size;
        let ghost cells = self.board.cells@;
        let ghost imgs = images_of(cells, n);
        let mut best = self.board.image(0);
        let mut k: usize = 1;
        while k < 8
            invariant
                1 <= k <= 8,
                self.board.wf(),
                self.board.cells@ == cells,
                self.board.size == n,
                imgs == images_of(cells, n),
                best.wf(),
                best.size == n,
                0 <= first_min(imgs, k as nat) < k,
                best.cells@ == imgs[first_min(imgs, k as nat)],
            decreases 8 - k,
        {
            let candidate = self.board.image(k);
            assert(candidate.cells@ == imgs[k as int]);
            if board_less(&candidate, &best) {
                best = candidate;
            }
            k = k + 1;
        }
        self.with_board(best)
    }
}

impl Symmetry for Game {
    open spec fn on_grid(&self, n: u8) -> bool {
        self.board.on_grid(n)
    }

    open spec fn is_image(&self, n: u8, i: int, other: &Self) -> bool {
        other.same_state(self) && self.board.is_image(n, i, &other.board)
    }

    fn symmetries(&self, n: u8) -> (r: [Self; 8]) {
        let r = [
            self.with_board(self.board.image(0)),
            self.with_board(self.board.image(1)),
            self.with_board(self.board.image(2)),
            self.with_board(self.board.image(3)),
            self.with_board(self.board.image(4)),
            self.with_board(self.board.image(5)),
            self.with_board(self.board.image(6)),
            self.with_board(self.board.image(7)),
        ];
        assert forall|i: int| 0 <= i < 8 implies #[trigger] self.is_image(n, i, &r@[i]) by {
            if i == 0 {
            } else if i == 1 {
            } else if i == 2 {
            } else if i == 3 {
            } else if i == 4 {
            } else if i == 5 {
            } else if i == 6 {
            } else {
            }
        }
        r
    }
}

} // verus!
