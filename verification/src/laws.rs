//! The engine's laws: global properties of the search, stated over the
//! contracts of the grid operations and proved once and for all.

use crate::candidates::{candidates, lemma_div_interval};
use crate::grid::{
    cell_of, flat_index, grid_size, lemma_flat_bounds, lemma_flat_coordinates,
    lemma_flat_injective, lemma_size_positive, Grid,
};
use crate::solver::{lemma_partial_ok_values, placed_ok};
use vstd::prelude::*;
use vstd::relations::injective_on;
use vstd::set_lib::{lemma_int_range, lemma_map_size, lemma_subset_equality, set_int_range};

verus! {

broadcast use vstd::seq_lib::seq_to_set_is_finite;

/// Two coordinates share a unit: a row, a column, or a box.
pub open spec fn same_unit(len: int, r1: int, c1: int, r2: int, c2: int) -> bool {
    r1 == r2 || c1 == c2 || (r1 / len == r2 / len && c1 / len == c2 / len)
}

/// The values of row `r`, in column order.
pub open spec fn row_values(len: int, s: Seq<u8>, r: int) -> Seq<u8> {
    Seq::new(grid_size(len) as nat, |c: int| cell_of(len, s, r, c))
}

/// The values of column `c`, in row order.
pub open spec fn col_values(len: int, s: Seq<u8>, c: int) -> Seq<u8> {
    Seq::new(grid_size(len) as nat, |r: int| cell_of(len, s, r, c))
}

/// The values of the box at box row `br` and box column `bc`, in row-major
/// order.
pub open spec fn box_values(len: int, s: Seq<u8>, br: int, bc: int) -> Seq<u8> {
    Seq::new(
        grid_size(len) as nat,
        |i: int| cell_of(len, s, br * len + i / len, bc * len + i % len),
    )
}

/// The full range of values a cell may take: `1..=size`.
pub open spec fn all_values(size: int) -> Set<u8> {
    Set::new(|v: u8| 1 <= v as int <= size)
}

/// A unit is complete: no value repeats, and every value of the full range
/// occurs — so each value occurs exactly once.
pub open spec fn unit_complete(u: Seq<u8>, size: int) -> bool {
    u.no_duplicates() && u.to_set() == all_values(size)
}

impl Grid {
    /// No two distinct givens of the same unit hold the same value.
    pub open spec fn no_conflicting_givens(self) -> bool {
        forall|r1: int, c1: int, r2: int, c2: int|
            0 <= r1 < self.spec_size() && 0 <= c1 < self.spec_size() && 0 <= r2 < self.spec_size()
                && 0 <= c2 < self.spec_size() && !(r1 == r2 && c1 == c2) && #[trigger] same_unit(
                self.len as int,
                r1,
                c1,
                r2,
                c2,
            ) && self.cell(r1, c1) != 0 ==> self.cell(r1, c1) != self.cell(r2, c2)
    }
}

/// Law: the givens are immutable — every solution holds each originally
/// non-zero cell's exact original value.
pub proof fn lemma_solution_keeps_givens(g: Grid, s: Seq<u8>, r: int, c: int)
    requires
        g.wf(),
        g.is_solution(s),
        0 <= r < g.spec_size(),
        0 <= c < g.spec_size(),
        g.cell(r, c) != 0,
    ensures
        cell_of(g.len as int, s, r, c) == g.cell(r, c),
{
}

/// In a solution of a puzzle whose givens do not conflict, two distinct cells
/// of one unit hold distinct values.
pub proof fn lemma_solution_cells_distinct(
    g: Grid,
    s: Seq<u8>,
    r1: int,
    c1: int,
    r2: int,
    c2: int,
)
    requires
        g.wf(),
        g.no_conflicting_givens(),
        g.is_solution(s),
        0 <= r1 < g.spec_size(),
        0 <= c1 < g.spec_size(),
        0 <= r2 < g.spec_size(),
        0 <= c2 < g.spec_size(),
        !(r1 == r2 && c1 == c2),
        same_unit(g.len as int, r1, c1, r2, c2),
    ensures
        cell_of(g.len as int, s, r1, c1) != cell_of(g.len as int, s, r2, c2),
{
    g.lemma_empties_props();
    let len = g.len as int;
    let size = g.spec_size();
    lemma_size_positive(len);
    if g.cell(r1, c1) == 0 {
        lemma_flat_bounds(size, r1, c1);
        let j = choose|j: int|
            0 <= j < g.empties().len() && g.flat_of(#[trigger] g.empties()[j]) == flat_index(
                len,
                r1,
                c1,
            );
        let p = g.empties()[j];
        lemma_flat_injective(size, p.0 as int, p.1 as int, r1, c1);
        assert(placed_ok(len, s, r1, c1));
    } else if g.cell(r2, c2) == 0 {
        lemma_flat_bounds(size, r2, c2);
        let j = choose|j: int|
            0 <= j < g.empties().len() && g.flat_of(#[trigger] g.empties()[j]) == flat_index(
                len,
                r2,
                c2,
            );
        let p = g.empties()[j];
        lemma_flat_injective(size, p.0 as int, p.1 as int, r2, c2);
        assert(placed_ok(len, s, r2, c2));
    } else {
        assert(cell_of(len, s, r1, c1) == g.cell(r1, c1));
        assert(cell_of(len, s, r2, c2) == g.cell(r2, c2));
    }
}

/// The full range `1..=size` holds exactly `size` values.
proof fn lemma_all_values_card(size: int)
    requires
        0 <= size <= 255,
    ensures
        all_values(size).finite(),
        all_values(size).len() == size,
{
    let f = |i: int| i as u8;
    let x = set_int_range(1, size + 1);
    lemma_int_range(1, size + 1);
    assert(injective_on(f, x));
    assert(x.map(f) =~= all_values(size)) by {
        assert forall|v: u8| all_values(size).contains(v) implies x.map(f).contains(v) by {
            assert(x.contains(v as int) && f(v as int) == v);
        };
    };
    lemma_map_size(x, all_values(size), f);
}

/// A sequence of `size` distinct values drawn from `1..=size` holds every
/// value of that range.
proof fn lemma_unit_full_range(u: Seq<u8>, size: int)
    requires
        1 <= size <= 255,
        u.len() == size,
        u.no_duplicates(),
        forall|i: int| 0 <= i < u.len() ==> 1 <= (#[trigger] u[i]) as int <= size,
    ensures
        u.to_set() == all_values(size),
{
    u.unique_seq_to_set();
    assert(u.to_set().subset_of(all_values(size))) by {
        assert forall|v: u8| u.to_set().contains(v) implies all_values(size).contains(v) by {
            let i = choose|i: int| 0 <= i < u.len() && u[i] == v;
            assert(1 <= u[i] as int <= size);
        };
    };
    lemma_all_values_card(size);
    lemma_subset_equality(u.to_set(), all_values(size));
}

/// Law: every grid the search returns for a puzzle whose givens do not
/// conflict is fully valid — each row, each column, and each box holds every
/// value in `1..=size` exactly once.
pub proof fn lemma_solutions_fully_valid(g: Grid, s: Seq<u8>)
    requires
        g.wf(),
        g.no_conflicting_givens(),
        g.is_solution(s),
    ensures
        forall|r: int|
            0 <= r < g.spec_size() ==> unit_complete(
                #[trigger] row_values(g.len as int, s, r),
                g.spec_size(),
            ),
        forall|c: int|
            0 <= c < g.spec_size() ==> unit_complete(
                #[trigger] col_values(g.len as int, s, c),
                g.spec_size(),
            ),
        forall|br: int, bc: int|
            0 <= br < g.len && 0 <= bc < g.len ==> unit_complete(
                #[trigger] box_values(g.len as int, s, br, bc),
                g.spec_size(),
            ),
{
    let len = g.len as int;
    let size = g.spec_size();
    lemma_size_positive(len);
    lemma_partial_ok_values(g, s, g.empties().len() as int);
    assert forall|r: int, c: int|
        0 <= r < size && 0 <= c < size implies 1 <= (#[trigger] cell_of(len, s, r, c)) as int
        <= size by {
        lemma_flat_bounds(size, r, c);
    };
    assert forall|r: int| 0 <= r < size implies unit_complete(
        #[trigger] row_values(len, s, r),
        size,
    ) by {
        let u = row_values(len, s, r);
        assert forall|i1: int, i2: int|
            0 <= i1 < u.len() && 0 <= i2 < u.len() && i1 != i2 implies u[i1] != u[i2] by {
            lemma_solution_cells_distinct(g, s, r, i1, r, i2);
        };
        lemma_unit_full_range(u, size);
    };
    assert forall|c: int| 0 <= c < size implies unit_complete(
        #[trigger] col_values(len, s, c),
        size,
    ) by {
        let u = col_values(len, s, c);
        assert forall|i1: int, i2: int|
            0 <= i1 < u.len() && 0 <= i2 < u.len() && i1 != i2 implies u[i1] != u[i2] by {
            lemma_solution_cells_distinct(g, s, i1, c, i2, c);
        };
        lemma_unit_full_range(u, size);
    };
    assert forall|br: int, bc: int| 0 <= br < g.len && 0 <= bc < g.len implies unit_complete(
        #[trigger] box_values(len, s, br, bc),
        size,
    ) by {
        let u = box_values(len, s, br, bc);
        assert(br * len + len <= len * len && bc * len + len <= len * len) by (nonlinear_arith)
            requires
                0 <= br < len,
                0 <= bc < len,
        ;
        assert forall|i1: int, i2: int|
            0 <= i1 < u.len() && 0 <= i2 < u.len() && i1 != i2 implies u[i1] != u[i2] by {
            lemma_flat_coordinates(len, i1);
            lemma_flat_coordinates(len, i2);
            let r1 = br * len + i1 / len;
            let c1 = bc * len + i1 % len;
            let r2 = br * len + i2 / len;
            let c2 = bc * len + i2 % len;
            lemma_div_interval(len, r1, br);
            lemma_div_interval(len, c1, bc);
            lemma_div_interval(len, r2, br);
            lemma_div_interval(len, c2, bc);
            assert(!(r1 == r2 && c1 == c2));
            assert(same_unit(len, r1, c1, r2, c2));
            lemma_solution_cells_distinct(g, s, r1, c1, r2, c2);
        };
        assert forall|i: int| 0 <= i < u.len() implies 1 <= (#[trigger] u[i]) as int <= size by {
            lemma_flat_coordinates(len, i);
        };
        lemma_unit_full_range(u, size);
    };
}

/// Law: conversely, every assignment that keeps the givens and is fully
/// valid — all cells in `1..=size` and no value repeated within a row, a
/// column, or a box — is a solution, so together with
/// `lemma_solutions_fully_valid` the search returns exactly the valid
/// completions of a puzzle whose givens do not conflict.
pub proof fn lemma_valid_fill_is_solution(g: Grid, s: Seq<u8>)
    requires
        g.wf(),
        s.len() == g.cells@.len(),
        forall|r: int, c: int|
            0 <= r < g.spec_size() && 0 <= c < g.spec_size() && g.cell(r, c) != 0 ==> cell_of(
                g.len as int,
                s,
                r,
                c,
            ) == g.cell(r, c),
        forall|r: int, c: int|
            0 <= r < g.spec_size() && 0 <= c < g.spec_size() ==> 1 <= (#[trigger] cell_of(
                g.len as int,
                s,
                r,
                c,
            )) as int <= g.spec_size(),
        forall|r1: int, c1: int, r2: int, c2: int|
            0 <= r1 < g.spec_size() && 0 <= c1 < g.spec_size() && 0 <= r2 < g.spec_size() && 0 <= c2
                < g.spec_size() && !(r1 == r2 && c1 == c2) && #[trigger] same_unit(
                g.len as int,
                r1,
                c1,
                r2,
                c2,
            ) ==> cell_of(g.len as int, s, r1, c1) != cell_of(g.len as int, s, r2, c2),
    ensures
        g.is_solution(s),
{
    g.lemma_empties_props();
    let len = g.len as int;
    let size = g.spec_size();
    lemma_size_positive(len);
    assert forall|j: int| 0 <= j < g.empties().len() implies placed_ok(
        len,
        s,
        (#[trigger] g.empties()[j]).0 as int,
        g.empties()[j].1 as int,
    ) by {
        let q = g.empties()[j];
        let qr = q.0 as int;
        let qc = q.1 as int;
        let v = cell_of(len, s, qr, qc);
        assert(1 <= v as int <= size);
        assert forall|c2: int| 0 <= c2 < size && c2 != qc implies cell_of(len, s, qr, c2) != v by {
            assert(same_unit(len, qr, qc, qr, c2));
        };
        assert forall|r2: int| 0 <= r2 < size && r2 != qr implies cell_of(len, s, r2, qc) != v by {
            assert(same_unit(len, qr, qc, r2, qc));
        };
        assert forall|r2: int, c2: int|
            0 <= r2 < size && 0 <= c2 < size && r2 / len == qr / len && c2 / len == qc / len && !(r2
                == qr && c2 == qc) implies cell_of(len, s, r2, c2) != v by {
            assert(same_unit(len, qr, qc, r2, c2));
        };
    };
}

/// The set of cell assignments a search result holds.
pub open spec fn result_fills(results: Seq<Grid>) -> Set<Seq<u8>> {
    Set::new(
        |s: Seq<u8>|
            exists|m: int| 0 <= m < results.len() && (#[trigger] results[m]).cells@ == s,
    )
}

/// Law: the search is deterministic as a set — any two results that satisfy
/// the search's contract for the same puzzle hold exactly the same fills,
/// whatever their enumeration order.
pub proof fn lemma_solve_deterministic(g: Grid, r1: Seq<Grid>, r2: Seq<Grid>)
    requires
        forall|m: int| 0 <= m < r1.len() ==> g.is_solution((#[trigger] r1[m]).cells@),
        forall|s: Seq<u8>|
            #[trigger] g.is_solution(s) ==> exists|m: int|
                0 <= m < r1.len() && r1[m].cells@ == s,
        forall|m: int| 0 <= m < r2.len() ==> g.is_solution((#[trigger] r2[m]).cells@),
        forall|s: Seq<u8>|
            #[trigger] g.is_solution(s) ==> exists|m: int|
                0 <= m < r2.len() && r2[m].cells@ == s,
    ensures
        result_fills(r1) == result_fills(r2),
{
    assert forall|s: Seq<u8>| result_fills(r1).contains(s) implies result_fills(r2).contains(
        s,
    ) by {
        let m1 = choose|m: int| 0 <= m < r1.len() && (#[trigger] r1[m]).cells@ == s;
        assert(g.is_solution(s));
    };
    assert forall|s: Seq<u8>| result_fills(r2).contains(s) implies result_fills(r1).contains(
        s,
    ) by {
        let m2 = choose|m: int| 0 <= m < r2.len() && (#[trigger] r2[m]).cells@ == s;
        assert(g.is_solution(s));
    };
    assert(result_fills(r1) =~= result_fills(r2));
}

/// Law: computing the available numbers is idempotent — the candidate list is
/// a function of the unmodified grid and coordinate alone, so two
/// computations on the same grid and cell agree.
pub proof fn lemma_available_numbers_idempotent(
    g: Grid,
    row: int,
    col: int,
    first: Seq<u8>,
    second: Seq<u8>,
)
    requires
        first == candidates(g.len as int, g.cells@, row, col),
        second == candidates(g.len as int, g.cells@, row, col),
    ensures
        first == second,
{
}

} // verus!

