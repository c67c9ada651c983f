//! Per-cell constraint evaluation: which values may be placed in an empty
//! cell without clashing with its row, its column, or its box.

use crate::grid::{cell_of, grid_size, Grid};
use vstd::arithmetic::div_mod::{
    lemma_div_pos_is_pos, lemma_fundamental_div_mod, lemma_fundamental_div_mod_converse_div,
    lemma_mod_division_less_than_divisor,
};
use vstd::prelude::*;

verus! {

/// Some cell of row `r` holds value `v`.
pub open spec fn row_has(len: int, s: Seq<u8>, r: int, v: u8) -> bool {
    exists|c: int| 0 <= c < grid_size(len) && cell_of(len, s, r, c) == v
}

/// Some cell of column `c` holds value `v`.
pub open spec fn col_has(len: int, s: Seq<u8>, c: int, v: u8) -> bool {
    exists|r: int| 0 <= r < grid_size(len) && cell_of(len, s, r, c) == v
}

/// Some cell of the box containing `(r, c)` holds value `v`.
pub open spec fn box_has(len: int, s: Seq<u8>, r: int, c: int, v: u8) -> bool {
    exists|r2: int, c2: int|
        0 <= r2 < grid_size(len) && 0 <= c2 < grid_size(len) && r2 / len == r / len && c2 / len == c
            / len && cell_of(len, s, r2, c2) == v
}

/// `v` may be placed at the empty cell `(r, c)`: it lies in `1..=size` and
/// appears nowhere in the cell's row, column, or box.
pub open spec fn candidate(len: int, s: Seq<u8>, r: int, c: int, v: u8) -> bool {
    &&& 1 <= v as int <= grid_size(len)
    &&& !row_has(len, s, r, v)
    &&& !col_has(len, s, c, v)
    &&& !box_has(len, s, r, c, v)
}

/// The candidates at `(r, c)` among the values `1..=n`, in ascending order.
pub open spec fn cands_upto(len: int, s: Seq<u8>, r: int, c: int, n: int) -> Seq<u8>
    decreases n,
{
    if n <= 0 {
        Seq::empty()
    } else if candidate(len, s, r, c, n as u8) {
        cands_upto(len, s, r, c, n - 1).push(n as u8)
    } else {
        cands_upto(len, s, r, c, n - 1)
    }
}

/// All candidate values at `(r, c)`, in ascending order.
pub open spec fn candidates(len: int, s: Seq<u8>, r: int, c: int) -> Seq<u8> {
    cands_upto(len, s, r, c, grid_size(len))
}

/// What the candidate list guarantees: every entry is a placeable value in
/// `1..=n`, the entries strictly ascend (so there are no repeats), and every
/// placeable value in `1..=n` is listed.
pub proof fn lemma_cands_upto_props(len: int, s: Seq<u8>, r: int, c: int, n: int)
    requires
        0 <= n <= 255,
    ensures
        forall|i: int|
            0 <= i < cands_upto(len, s, r, c, n).len() ==> candidate(
                len,
                s,
                r,
                c,
                #[trigger] cands_upto(len, s, r, c, n)[i],
            ) && 1 <= cands_upto(len, s, r, c, n)[i] as int <= n,
        forall|i1: int, i2: int|
            0 <= i1 < i2 < cands_upto(len, s, r, c, n).len() ==> #[trigger] cands_upto(
                len,
                s,
                r,
                c,
                n,
            )[i1] < #[trigger] cands_upto(len, s, r, c, n)[i2],
        forall|v: u8|
            1 <= v as int <= n && #[trigger] candidate(len, s, r, c, v) ==> exists|i: int|
                0 <= i < cands_upto(len, s, r, c, n).len() && cands_upto(len, s, r, c, n)[i] == v,
    decreases n,
{
    if n > 0 {
        lemma_cands_upto_props(len, s, r, c, n - 1);
        if candidate(len, s, r, c, n as u8) {
            assert(cands_upto(len, s, r, c, n) == cands_upto(len, s, r, c, n - 1).push(n as u8));
            assert forall|i1: int, i2: int|
                0 <= i1 < i2 < cands_upto(len, s, r, c, n).len() implies #[trigger] cands_upto(
                len,
                s,
                r,
                c,
                n,
            )[i1] < #[trigger] cands_upto(len, s, r, c, n)[i2] by {
                assert(cands_upto(len, s, r, c, n)[i1] == cands_upto(len, s, r, c, n - 1)[i1]);
                if i2 == cands_upto(len, s, r, c, n).len() - 1 {
                    assert(cands_upto(len, s, r, c, n)[i2] == n as u8);
                    assert(cands_upto(len, s, r, c, n - 1)[i1] as int <= n - 1);
                } else {
                    assert(cands_upto(len, s, r, c, n)[i2] == cands_upto(len, s, r, c, n - 1)[i2]);
                }
            };
            assert forall|v: u8|
                1 <= v as int <= n && #[trigger] candidate(len, s, r, c, v) implies exists|i: int|
                0 <= i < cands_upto(len, s, r, c, n).len() && cands_upto(len, s, r, c, n)[i]
                    == v by {
                if v as int == n {
                    let iw = cands_upto(len, s, r, c, n).len() - 1;
                    assert(cands_upto(len, s, r, c, n)[iw] == n as u8);
                    assert(cands_upto(len, s, r, c, n)[iw] == v);
                } else {
                    let i0 = choose|i: int|
                        0 <= i < cands_upto(len, s, r, c, n - 1).len() && #[trigger] cands_upto(
                            len,
                            s,
                            r,
                            c,
                            n - 1,
                        )[i] == v;
                    assert(cands_upto(len, s, r, c, n)[i0] == v);
                }
            };
        } else {
            assert(cands_upto(len, s, r, c, n) == cands_upto(len, s, r, c, n - 1));
            assert forall|v: u8|
                1 <= v as int <= n && #[trigger] candidate(len, s, r, c, v) implies exists|i: int|
                0 <= i < cands_upto(len, s, r, c, n).len() && cands_upto(len, s, r, c, n)[i]
                    == v by {
                if v as int == n {
                    assert(v == n as u8);
                } else {
                    let i0 = choose|i: int|
                        0 <= i < cands_upto(len, s, r, c, n - 1).len() && #[trigger] cands_upto(
                            len,
                            s,
                            r,
                            c,
                            n - 1,
                        )[i] == v;
                    assert(cands_upto(len, s, r, c, n)[i0] == v);
                }
            };
        }
    }
}

/// `lemma_cands_upto_props` for the full candidate list.
pub proof fn lemma_candidates_props(len: int, s: Seq<u8>, r: int, c: int)
    requires
        0 <= grid_size(len) <= 255,
    ensures
        forall|i: int|
            0 <= i < candidates(len, s, r, c).len() ==> candidate(
                len,
                s,
                r,
                c,
                #[trigger] candidates(len, s, r, c)[i],
            ),
        forall|i1: int, i2: int|
            0 <= i1 < i2 < candidates(len, s, r, c).len() ==> #[trigger] candidates(len, s, r, c)[i1]
                < #[trigger] candidates(len, s, r, c)[i2],
        forall|v: u8|
            #[trigger] candidate(len, s, r, c, v) ==> exists|i: int|
                0 <= i < candidates(len, s, r, c).len() && candidates(len, s, r, c)[i] == v,
{
    let n = grid_size(len);
    lemma_cands_upto_props(len, s, r, c, n);
    assert(candidates(len, s, r, c) == cands_upto(len, s, r, c, n));
    assert forall|v: u8| #[trigger] candidate(len, s, r, c, v) implies exists|i: int|
        0 <= i < candidates(len, s, r, c).len() && candidates(len, s, r, c)[i] == v by {
        let i0 = choose|i: int|
            0 <= i < cands_upto(len, s, r, c, n).len() && #[trigger] cands_upto(len, s, r, c, n)[i]
                == v;
        assert(candidates(len, s, r, c)[i0] == v);
    };
}

/// A value below a multiple of `d` has quotient below that multiple's factor.
pub proof fn lemma_div_interval(d: int, x: int, q: int)
    requires
        1 <= d,
        q * d <= x < q * d + d,
    ensures
        x / d == q,
{
    lemma_fundamental_div_mod_converse_div(x, d, q, x - q * d);
}

/// The box row `x / len` of a coordinate `x`: its bounds, and the bounds of
/// the box it starts.
pub proof fn lemma_box_coords(len: int, x: int)
    requires
        1 <= len,
        0 <= x < grid_size(len),
    ensures
        0 <= x / len < len,
        (x / len) * len <= x < (x / len) * len + len,
        (x / len) * len + len <= grid_size(len),
{
    lemma_fundamental_div_mod(x, len);
    lemma_mod_division_less_than_divisor(x, len);
    lemma_div_pos_is_pos(x, len);
    assert(len * (x / len) == (x / len) * len) by (nonlinear_arith);
    assert(x / len < len) by {
        if x / len >= len {
            assert(len * (x / len) >= len * len) by (nonlinear_arith)
                requires
                    x / len >= len,
                    len >= 1,
            ;
        }
    };
    assert((x / len) * len + len <= len * len) by (nonlinear_arith)
        requires
            (x / len) + 1 <= len,
            len >= 1,
    ;
}

impl Grid {
    /// Whether value `v` appears anywhere in row `row`.
    #[verifier::loop_isolation(false)]
    fn row_contains(&self, row: usize, v: u8) -> (found: bool)
        requires
            self.wf(),
            (row as int) < self.spec_size(),
        ensures
            found == row_has(self.len as int, self.cells@, row as int, v),
    {
        let size = self.size();
        let mut c: usize = 0;
        while c < size
            invariant
                c <= size,
                forall|c2: int|
                    0 <= c2 < c ==> cell_of(self.len as int, self.cells@, row as int, c2) != v,
            decreases size - c,
        {
            if self.get(row, c) == v {
                assert(cell_of(self.len as int, self.cells@, row as int, c as int) == v);
                return true;
            }
            c += 1;
        }
        false
    }

    /// Whether value `v` appears anywhere in column `col`.
    #[verifier::loop_isolation(false)]
    fn col_contains(&self, col: usize, v: u8) -> (found: bool)
        requires
            self.wf(),
            (col as int) < self.spec_size(),
        ensures
            found == col_has(self.len as int, self.cells@, col as int, v),
    {
        let size = self.size();
        let mut r: usize = 0;
        while r < size
            invariant
                r <= size,
                forall|r2: int|
                    0 <= r2 < r ==> cell_of(self.len as int, self.cells@, r2, col as int) != v,
            decreases size - r,
        {
            if self.get(r, col) == v {
                assert(cell_of(self.len as int, self.cells@, r as int, col as int) == v);
                return true;
            }
            r += 1;
        }
        false
    }

    /// Whether value `v` appears anywhere in the box containing `(row, col)`.
    #[verifier::loop_isolation(false)]
    fn box_contains(&self, row: usize, col: usize, v: u8) -> (found: bool)
        requires
            self.wf(),
            (row as int) < self.spec_size(),
            (col as int) < self.spec_size(),
        ensures
            found == box_has(self.len as int, self.cells@, row as int, col as int, v),
    {
        let len = self.len;
        proof {
            lemma_box_coords(len as int, row as int);
            lemma_box_coords(len as int, col as int);
        }
        let box_row = row / len;
        let box_col = col / len;
        let mut r2 = box_row * len;
        while r2 < box_row * len + len
            invariant
                box_row * len <= r2 <= box_row * len + len,
                forall|rr: int, cc: int|
                    box_row * len <= rr < r2 && box_col * len <= cc < box_col * len + len
                        ==> cell_of(self.len as int, self.cells@, rr, cc) != v,
            decreases box_row * len + len - r2,
        {
            let mut c2 = box_col * len;
            while c2 < box_col * len + len
                invariant
                    box_col * len <= c2 <= box_col * len + len,
                    forall|cc: int|
                        box_col * len <= cc < c2 ==> cell_of(self.len as int, self.cells@, r2 as int, cc)
                            != v,
                decreases box_col * len + len - c2,
            {
                if self.get(r2, c2) == v {
                    proof {
                        lemma_div_interval(len as int, r2 as int, box_row as int);
                        lemma_div_interval(len as int, c2 as int, box_col as int);
                        assert(cell_of(self.len as int, self.cells@, r2 as int, c2 as int) == v);
                    }
                    return true;
                }
                c2 += 1;
            }
            r2 += 1;
        }
        proof {
            assert forall|rr: int, cc: int|
                0 <= rr < self.spec_size() && 0 <= cc < self.spec_size() && rr / (len as int) == (
                row as int) / (len as int) && cc / (len as int) == (col as int) / (
                len as int) implies cell_of(self.len as int, self.cells@, rr, cc) != v by {
                lemma_box_coords(len as int, rr);
                lemma_box_coords(len as int, cc);
            };
        }
        false
    }

    /// The ascending list of values that may be placed at the empty cell
    /// `(row, col)`: the full range `1..=size` minus every value present in
    /// the cell's row, minus every value present in its column, minus every
    /// value present in its box.
    #[verifier::loop_isolation(false)]
    pub fn available_numbers(&self, row: usize, col: usize) -> (result: Vec<u8>)
        requires
            self.wf(),
            (row as int) < self.spec_size(),
            (col as int) < self.spec_size(),
            self.cell(row as int, col as int) == 0,
        ensures
            result@ == candidates(self.len as int, self.cells@, row as int, col as int),
    {
        let size = self.size();
        let mut result: Vec<u8> = Vec::new();
        let mut v: usize = 1;
        while v <= size
            invariant
                1 <= v <= size + 1,
                result@ == cands_upto(
                    self.len as int,
                    self.cells@,
                    row as int,
                    col as int,
                    v as int - 1,
                ),
            decreases size + 1 - v,
        {
            let value = v as u8;
            if !self.row_contains(row, value) && !self.col_contains(col, value)
                && !self.box_contains(row, col, value) {
                result.push(value);
            }
            proof {
                assert(result@ == cands_upto(
                    self.len as int,
                    self.cells@,
                    row as int,
                    col as int,
                    v as int,
                ));
            }
            v += 1;
        }
        result
    }

    /// One derived grid per candidate value at the empty cell `coords`, in
    /// ascending candidate order; empty exactly when no value can be placed
    /// there, which is the search's sole backtrack signal.
    #[verifier::loop_isolation(false)]
    pub fn placements(&self, coords: (usize, usize)) -> (result: Vec<Grid>)
        requires
            self.wf(),
            (coords.0 as int) < self.spec_size(),
            (coords.1 as int) < self.spec_size(),
            self.cell(coords.0 as int, coords.1 as int) == 0,
        ensures
            result@.len() == candidates(
                self.len as int,
                self.cells@,
                coords.0 as int,
                coords.1 as int,
            ).len(),
            forall|i: int| 0 <= i < result@.len() ==> (#[trigger] result@[i]).len == self.len,
            forall|i: int| 0 <= i < result@.len() ==> (#[trigger] result@[i]).wf(),
            forall|i: int|
                0 <= i < result@.len() ==> (#[trigger] result@[i]).cells@ == self.cells@.update(
                    self.flat_of(coords),
                    candidates(self.len as int, self.cells@, coords.0 as int, coords.1 as int)[i],
                ),
    {
        let cands = self.available_numbers(coords.0, coords.1);
        proof {
            lemma_candidates_props(self.len as int, self.cells@, coords.0 as int, coords.1 as int);
        }
        let mut result: Vec<Grid> = Vec::new();
        let mut i: usize = 0;
        while i < cands.len()
            invariant
                i <= cands@.len(),
                result@.len() == i as int,
                forall|m: int| 0 <= m < result@.len() ==> (#[trigger] result@[m]).len == self.len,
                forall|m: int| 0 <= m < result@.len() ==> (#[trigger] result@[m]).wf(),
                forall|m: int|
                    0 <= m < result@.len() ==> (#[trigger] result@[m]).cells@
                        == self.cells@.update(self.flat_of(coords), cands@[m]),
            decreases cands@.len() - i,
        {
            let value = cands[i];
            result.push(self.with_cell_at(value, coords.0, coords.1));
            i += 1;
        }
        result
    }
}

} // verus!
