//! The grid representation: cells in row-major order, coordinate arithmetic,
//! construction, and the enumeration of empty cells.

use vstd::arithmetic::div_mod::{
    lemma_div_pos_is_pos, lemma_fundamental_div_mod, lemma_fundamental_div_mod_converse_div,
    lemma_mod_division_less_than_divisor,
};
use vstd::pervasive::cloned;
use vstd::pervasive::VecAdditionalExecFns;
use vstd::prelude::*;

verus! {

/// Side length of the full grid for box dimension `len`: the grid is
/// `len * len` cells wide and `len * len` cells tall.
pub open spec fn grid_size(len: int) -> int {
    len * len
}

/// The flat, row-major position of the cell at `(r, c)`.
pub open spec fn flat_index(len: int, r: int, c: int) -> int {
    r * grid_size(len) + c
}

/// The value of the cell at `(r, c)` in the flat cell sequence `s` of a grid
/// of box dimension `len`.
pub open spec fn cell_of(len: int, s: Seq<u8>, r: int, c: int) -> u8 {
    s[flat_index(len, r, c)]
}

/// A positive box dimension gives a positive side length.
pub proof fn lemma_size_positive(len: int)
    requires
        1 <= len,
    ensures
        1 <= grid_size(len),
{
    assert(1 <= len * len) by (nonlinear_arith)
        requires
            1 <= len,
    ;
}

/// A flat row-major position is within the grid.
pub proof fn lemma_flat_bounds(size: int, r: int, c: int)
    requires
        0 <= r < size,
        0 <= c < size,
    ensures
        0 <= r * size + c < size * size,
{
    assert(0 <= r * size + c < size * size) by (nonlinear_arith)
        requires
            0 <= r < size,
            0 <= c < size,
    ;
}

/// Distinct coordinates have distinct flat positions.
pub proof fn lemma_flat_injective(size: int, r1: int, c1: int, r2: int, c2: int)
    requires
        0 <= r1 < size,
        0 <= c1 < size,
        0 <= r2 < size,
        0 <= c2 < size,
        r1 * size + c1 == r2 * size + c2,
    ensures
        r1 == r2,
        c1 == c2,
{
    lemma_fundamental_div_mod_converse_div(r1 * size + c1, size, r1, c1);
    lemma_fundamental_div_mod_converse_div(r2 * size + c2, size, r2, c2);
}

/// A flat position is recovered from its row `i / size` and column `i % size`.
pub proof fn lemma_flat_coordinates(size: int, i: int)
    requires
        1 <= size,
        0 <= i < size * size,
    ensures
        0 <= i / size < size,
        0 <= i % size < size,
        (i / size) * size + (i % size) == i,
{
    lemma_fundamental_div_mod(i, size);
    lemma_mod_division_less_than_divisor(i, size);
    lemma_div_pos_is_pos(i, size);
    assert(size * (i / size) == (i / size) * size) by (nonlinear_arith);
    assert(i / size < size) by {
        if i / size >= size {
            assert(size * (i / size) >= size * size) by (nonlinear_arith)
                requires
                    i / size >= size,
                    size >= 1,
            ;
        }
    };
}

/// A partially filled square puzzle grid: an `N` by `N` arrangement of `N` by
/// `N` boxes, stored as a flat row-major sequence of cells, `0` marking an
/// empty cell.
#[derive(Clone)]
pub struct Grid {
    /// The box dimension `N`.
    pub len: usize,
    /// The cells in row-major order; `size * size` entries for the side
    /// length `size = N * N`.
    pub cells: Vec<u8>,
}

impl Grid {
    /// The grid's side length, at the specification level.
    pub open spec fn spec_size(self) -> int {
        grid_size(self.len as int)
    }

    /// The value of the cell at `(r, c)`.
    pub open spec fn cell(self, r: int, c: int) -> u8 {
        cell_of(self.len as int, self.cells@, r, c)
    }

    /// The flat position of a coordinate pair.
    pub open spec fn flat_of(self, p: (usize, usize)) -> int {
        flat_index(self.len as int, p.0 as int, p.1 as int)
    }

    /// A coordinate pair that lies within the grid and addresses an empty cell.
    pub open spec fn empty_coord(self, p: (usize, usize)) -> bool {
        &&& (p.0 as int) < self.spec_size()
        &&& (p.1 as int) < self.spec_size()
        &&& self.cell(p.0 as int, p.1 as int) == 0
    }

    /// Structural well-formedness: a positive box dimension, a side length
    /// whose values fit in a cell, the exact cell count, and every value at
    /// most the side length (`0` marking an empty cell).
    pub open spec fn wf(self) -> bool {
        &&& 1 <= self.len
        &&& self.spec_size() <= 255
        &&& self.cells@.len() == self.spec_size() * self.spec_size()
        &&& forall|i: int|
            0 <= i < self.cells@.len() ==> (#[trigger] self.cells@[i]) as int <= self.spec_size()
    }

    /// Validates a puzzle definition and constructs the grid. Returns `None`
    /// exactly when the dimensions or values are malformed: a zero box
    /// dimension, a side length whose values cannot fit in a cell, a cell
    /// count other than the squared side length, or a value above the side
    /// length.
    pub fn new(len: usize, cells: Vec<u8>) -> (result: Option<Grid>)
        ensures
            result is Some <==> (Grid { len, cells }).wf(),
            result is Some ==> result == Some((Grid { len, cells })),
    {
        if len == 0 || len > 15 {
            proof {
                if len > 15 {
                    assert(grid_size(len as int) > 255) by (nonlinear_arith)
                        requires
                            len > 15,
                    ;
                }
            }
            return None;
        }
        proof {
            assert(len * len <= 225 && (len * len) * (len * len) <= 50625) by (nonlinear_arith)
                requires
                    1 <= len <= 15,
            ;
        }
        let size = len * len;
        if cells.len() != size * size {
            return None;
        }
        let mut i: usize = 0;
        while i < cells.len()
            invariant
                i <= cells@.len(),
                size == grid_size(len as int),
                size <= 255,
                cells@.len() == grid_size(len as int) * grid_size(len as int),
                forall|j: int| 0 <= j < i ==> (#[trigger] cells@[j]) as int <= grid_size(len as int),
            decreases cells@.len() - i,
        {
            if cells[i] > size as u8 {
                return None;
            }
            i += 1;
        }
        Some(Grid { len, cells })
    }

    /// The side length of the grid: `len * len`.
    pub fn size(&self) -> (n: usize)
        requires
            self.wf(),
        ensures
            n == self.spec_size(),
    {
        self.len * self.len
    }

    /// The value of the cell at `(row, col)`.
    pub fn get(&self, row: usize, col: usize) -> (v: u8)
        requires
            self.wf(),
            (row as int) < self.spec_size(),
            (col as int) < self.spec_size(),
        ensures
            v == self.cell(row as int, col as int),
    {
        let size = self.size();
        proof {
            lemma_flat_bounds(self.spec_size(), row as int, col as int);
            assert(self.spec_size() * self.spec_size() <= 255 * 255) by (nonlinear_arith)
                requires
                    0 <= self.spec_size() <= 255,
            ;
        }
        self.cells[row * size + col]
    }

    /// A copy of the grid with `cell` placed at the empty cell `(row, col)`;
    /// the receiver is left unmodified.
    pub fn with_cell_at(&self, cell: u8, row: usize, col: usize) -> (g: Grid)
        requires
            self.wf(),
            (row as int) < self.spec_size(),
            (col as int) < self.spec_size(),
            self.cell(row as int, col as int) == 0,
            1 <= cell as int <= self.spec_size(),
        ensures
            g.len == self.len,
            g.cells@ == self.cells@.update(
                flat_index(self.len as int, row as int, col as int),
                cell,
            ),
            g.wf(),
    {
        let size = self.size();
        proof {
            lemma_flat_bounds(self.spec_size(), row as int, col as int);
            assert(self.spec_size() * self.spec_size() <= 255 * 255) by (nonlinear_arith)
                requires
                    0 <= self.spec_size() <= 255,
            ;
        }
        let mut cells = self.cells.clone();
        proof {
            assert forall|i: int| 0 <= i < cells@.len() implies cells@[i] == self.cells@[i] by {
                assert(cloned::<u8>(self.cells@[i], cells@[i]));
            }
            assert(cells@ =~= self.cells@);
        }
        let idx = row * size + col;
        cells.set(idx, cell);
        Grid { len: self.len, cells }
    }

    /// The coordinates of the empty cells among the first `n` flat positions,
    /// in row-major order.
    pub open spec fn empties_upto(self, n: int) -> Seq<(usize, usize)>
        decreases n,
    {
        if n <= 0 {
            Seq::empty()
        } else if self.cells@[n - 1] == 0 {
            self.empties_upto(n - 1).push(
                (((n - 1) / self.spec_size()) as usize, ((n - 1) % self.spec_size()) as usize),
            )
        } else {
            self.empties_upto(n - 1)
        }
    }

    /// The coordinates of all empty cells, in row-major order.
    pub open spec fn empties(self) -> Seq<(usize, usize)> {
        self.empties_upto(self.cells@.len() as int)
    }

    /// What the enumeration of empty cells guarantees: every listed
    /// coordinate is an empty cell below position `n`, the listed flat
    /// positions strictly increase (row-major order, no repeats), and every
    /// empty cell below position `n` is listed.
    pub proof fn lemma_empties_upto_props(self, n: int)
        requires
            self.wf(),
            0 <= n <= self.cells@.len(),
        ensures
            forall|j: int|
                0 <= j < self.empties_upto(n).len() ==> self.empty_coord(
                    #[trigger] self.empties_upto(n)[j],
                ) && self.flat_of(self.empties_upto(n)[j]) < n,
            forall|j1: int, j2: int|
                0 <= j1 < j2 < self.empties_upto(n).len() ==> self.flat_of(
                    #[trigger] self.empties_upto(n)[j1],
                ) < self.flat_of(#[trigger] self.empties_upto(n)[j2]),
            forall|i: int|
                0 <= i < n && #[trigger] self.cells@[i] == 0 ==> exists|j: int|
                    0 <= j < self.empties_upto(n).len() && self.flat_of(
                        #[trigger] self.empties_upto(n)[j],
                    ) == i,
        decreases n,
    {
        let size = self.spec_size();
        lemma_size_positive(self.len as int);
        if n > 0 {
            self.lemma_empties_upto_props(n - 1);
            if self.cells@[n - 1] == 0 {
                lemma_flat_coordinates(size, n - 1);
                let p = ((((n - 1) / size) as usize), (((n - 1) % size) as usize));
                assert(self.flat_of(p) == n - 1);
                assert(self.empty_coord(p));
                assert forall|i: int|
                    0 <= i < n && #[trigger] self.cells@[i] == 0 implies exists|j: int|
                    0 <= j < self.empties_upto(n).len() && self.flat_of(
                        #[trigger] self.empties_upto(n)[j],
                    ) == i by {
                    if i == n - 1 {
                        let jw = self.empties_upto(n).len() - 1;
                        assert(self.empties_upto(n)[jw] == p);
                        assert(self.flat_of(self.empties_upto(n)[jw]) == i);
                    } else {
                        let j0 = choose|j: int|
                            0 <= j < self.empties_upto(n - 1).len() && self.flat_of(
                                #[trigger] self.empties_upto(n - 1)[j],
                            ) == i;
                        assert(self.empties_upto(n)[j0] == self.empties_upto(n - 1)[j0]);
                        assert(self.flat_of(self.empties_upto(n)[j0]) == i);
                    }
                };
            } else {
                assert(self.empties_upto(n) == self.empties_upto(n - 1));
                assert forall|i: int|
                    0 <= i < n && #[trigger] self.cells@[i] == 0 implies exists|j: int|
                    0 <= j < self.empties_upto(n).len() && self.flat_of(
                        #[trigger] self.empties_upto(n)[j],
                    ) == i by {
                    let j0 = choose|j: int|
                        0 <= j < self.empties_upto(n - 1).len() && self.flat_of(
                            #[trigger] self.empties_upto(n - 1)[j],
                        ) == i;
                    assert(self.flat_of(self.empties_upto(n)[j0]) == i);
                };
            }
        }
    }

    /// `lemma_empties_upto_props` for the full list of empty cells.
    pub proof fn lemma_empties_props(self)
        requires
            self.wf(),
        ensures
            forall|j: int|
                0 <= j < self.empties().len() ==> self.empty_coord(#[trigger] self.empties()[j])
                    && self.flat_of(self.empties()[j]) < self.cells@.len(),
            forall|j1: int, j2: int|
                0 <= j1 < j2 < self.empties().len() ==> self.flat_of(#[trigger] self.empties()[j1])
                    < self.flat_of(#[trigger] self.empties()[j2]),
            forall|i: int|
                0 <= i < self.cells@.len() && #[trigger] self.cells@[i] == 0 ==> exists|j: int|
                    0 <= j < self.empties().len() && self.flat_of(#[trigger] self.empties()[j])
                        == i,
    {
        let n = self.cells@.len() as int;
        self.lemma_empties_upto_props(n);
        assert forall|i: int|
            0 <= i < self.cells@.len() && #[trigger] self.cells@[i] == 0 implies exists|j: int|
            0 <= j < self.empties().len() && self.flat_of(#[trigger] self.empties()[j]) == i by {
            let j0 = choose|j: int|
                0 <= j < self.empties_upto(n).len() && self.flat_of(
                    #[trigger] self.empties_upto(n)[j],
                ) == i;
            assert(self.empties()[j0] == self.empties_upto(n)[j0]);
            assert(self.flat_of(self.empties()[j0]) == i);
        };
    }

    /// Every coordinate currently holding `0`, scanned in row-major order
    /// (row ascending outer, column ascending inner).
    #[verifier::loop_isolation(false)]
    pub fn empty_cells(&self) -> (result: Vec<(usize, usize)>)
        requires
            self.wf(),
        ensures
            result@ == self.empties(),
    {
        let size = self.size();
        proof {
            lemma_size_positive(self.len as int);
        }
        let mut result: Vec<(usize, usize)> = Vec::new();
        let mut k: usize = 0;
        while k < self.cells.len()
            invariant
                k <= self.cells@.len(),
                result@ == self.empties_upto(k as int),
            decreases self.cells@.len() - k,
        {
            if self.cells[k] == 0 {
                result.push((k / size, k % size));
            }
            k += 1;
        }
        result
    }
}

} // verus!
