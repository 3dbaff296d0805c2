use crate::colors::Colors;
use crate::symm::{inverse, square_image, Square};
use vstd::prelude::*;

verus! {

/// Where a square's stack sits in the row-major cell list of a grid of side `n`.
pub open spec fn index(s: Square, n: u8) -> int {
    s.row as int * n as int + s.column as int
}

/// The square whose stack sits at position `t` of a grid of side `n`.
pub open spec fn square_at(t: int, n: u8) -> Square {
    Square { column: (t % n as int) as u8, row: (t / n as int) as u8 }
}

/// The cells of the image of a grid under symmetry `i`: the stack of each
/// square goes to that square's image.
pub open spec fn image_cells(cells: Seq<Colors>, n: u8, i: int) -> Seq<Colors> {
    Seq::new(
        (n * n) as nat,
        |t: int| cells[index(square_image(square_at(t, n), n, inverse(i)), n)],
    )
}

/// A grid has at most 65025 squares.
pub proof fn lemma_grid_bound(n: u8)
    requires
        n <= 255,
    ensures
        n * n <= 65025,
{
    assert(n * n <= 65025) by (nonlinear_arith)
        requires
            n <= 255,
    ;
}

/// A square's position is in range and leads back to the square.
pub proof fn lemma_index(s: Square, n: u8)
    requires
        1 <= n,
        s.column < n,
        s.row < n,
    ensures
        0 <= index(s, n) < n * n <= 65025,
        s.row * n <= index(s, n),
        square_at(index(s, n), n) == s,
{
    lemma_grid_bound(n);
    let (c, r, m) = (s.column as int, s.row as int, n as int);
    assert(0 <= r * m + c < m * m) by (nonlinear_arith)
        requires
            0 <= c < m,
            0 <= r < m,
    ;
    vstd::arithmetic::div_mod::lemma_fundamental_div_mod_converse(r * m + c, m, r, c);
}

/// Each position in range belongs to a square on the grid.
pub proof fn lemma_square_at(t: int, n: u8)
    requires
        1 <= n,
        0 <= t < n * n,
    ensures
        square_at(t, n).column < n,
        square_at(t, n).row < n,
        index(square_at(t, n), n) == t,
{
    let m = n as int;
    vstd::arithmetic::div_mod::lemma_fundamental_div_mod(t, m);
    vstd::arithmetic::div_mod::lemma_div_pos_is_pos(t, m);
    vstd::arithmetic::div_mod::lemma_mod_bound(t, m);
    assert(t / m < m) by {
        vstd::arithmetic::div_mod::lemma_div_is_ordered(t, m * m - 1, m);
        assert((m * m - 1) / m < m) by {
            vstd::arithmetic::div_mod::lemma_div_by_multiple_is_strongly_ordered(m * m - 1, m * m, m, m);
            vstd::arithmetic::div_mod::lemma_div_by_multiple(m, m);
        }
    }
    assert(square_at(t, n).row as int == t / m);
    assert(square_at(t, n).column as int == t % m);
    vstd::arithmetic::mul::lemma_mul_is_commutative(t / m, m);
}

/// Different squares sit at different positions.
pub proof fn lemma_index_injective(s: Square, u: Square, n: u8)
    requires
        1 <= n,
        s.column < n,
        s.row < n,
        u.column < n,
        u.row < n,
        index(s, n) == index(u, n),
    ensures
        s == u,
{
    lemma_index(s, n);
    lemma_index(u, n);
}

/// A square grid of stacks.
#[derive(Clone, Debug, PartialEq, Eq)]
pub struct Board {
    pub size: u8,
    pub cells: Vec<Colors>,
}

impl Board {
    /// The side is in range, there is one cell per square and each holds a
    /// valid stack.
    pub open spec fn wf(&self) -> bool {
        &&& 1 <= self.size
        &&& self.cells@.len() == self.size * self.size
        &&& forall|t: int| 0 <= t < self.cells@.len() ==> (#[trigger] self.cells@[t]).wf()
    }

    /// An empty board of side `size`.
    pub fn new(size: u8) -> (r: Self)
        requires
            1 <= size,
        ensures
            r.wf(),
            r.size == size,
            forall|t: int| 0 <= t < r.cells@.len() ==> (#[trigger] r.cells@[t])@.len() == 0,
    {
        proof {
            lemma_grid_bound(size);
        }
        let total = size as usize * size as usize;
        let mut cells: Vec<Colors> = Vec::new();
        let mut k: usize = 0;
        while k < total
            invariant
                k <= total == size * size,
                cells@.len() == k,
                forall|t: int| 0 <= t < k ==> (#[trigger] cells@[t]).wf() && cells@[t]@.len() == 0,
            decreases total - k,
        {
            cells.push(Colors::default());
            k = k + 1;
        }
        Board { size, cells }
    }

    /// The stack on `square`.
    pub fn get(&self, square: Square) -> (r: Colors)
        requires
            self.wf(),
            square.column < self.size,
            square.row < self.size,
        ensures
            r == self.cells@[index(square, self.size)],
            r.wf(),
    {
        proof {
            lemma_index(square, self.size);
        }
        self.cells[square.row as usize * self.size as usize + square.column as usize]
    }

    /// Puts `stack` on `square`.
    pub fn set(&mut self, square: Square, stack: Colors)
        requires
            old(self).wf(),
            square.column < old(self).size,
            square.row < old(self).size,
            stack.wf(),
        ensures
            final(self).wf(),
            final(self).size == old(self).size,
            final(self).cells@ == old(self).cells@.update(index(square, old(self).size), stack),
    {
        proof {
            lemma_index(square, self.size);
        }
        let t = square.row as usize * self.size as usize + square.column as usize;
        self.cells.set(t, stack);
    }
}

} // verus!
