//! The search procedure: a frontier of partial grids is expanded at every
//! empty cell in turn, yielding exactly the valid completions of the puzzle.

use crate::candidates::{box_has, candidate, candidates, col_has, lemma_candidates_props, row_has};
use crate::grid::{
    cell_of, flat_index, grid_size, lemma_flat_bounds, lemma_flat_coordinates,
    lemma_flat_injective, lemma_size_positive, Grid,
};
use vstd::prelude::*;

verus! {

/// The cell at `(r, c)` is placed consistently in the fill `s`: it holds a
/// value in `1..=size` that no other cell of its row, its column, or its box
/// holds.
pub open spec fn placed_ok(len: int, s: Seq<u8>, r: int, c: int) -> bool {
    let v = cell_of(len, s, r, c);
    &&& 1 <= v as int <= grid_size(len)
    &&& forall|c2: int| 0 <= c2 < grid_size(len) && c2 != c ==> cell_of(len, s, r, c2) != v
    &&& forall|r2: int| 0 <= r2 < grid_size(len) && r2 != r ==> cell_of(len, s, r2, c) != v
    &&& forall|r2: int, c2: int|
        0 <= r2 < grid_size(len) && 0 <= c2 < grid_size(len) && r2 / len == r / len && c2 / len == c
            / len && !(r2 == r && c2 == c) ==> cell_of(len, s, r2, c2) != v
}

impl Grid {
    /// `s` is a consistent partial fill of the puzzle after its first `k`
    /// empty cells were placed: the givens keep their exact values, the empty
    /// cells from the `k`-th on are still empty, and each of the first `k` is
    /// placed consistently.
    pub open spec fn partial_ok(self, s: Seq<u8>, k: int) -> bool {
        &&& s.len() == self.cells@.len()
        &&& forall|r: int, c: int|
            0 <= r < self.spec_size() && 0 <= c < self.spec_size() && self.cell(r, c) != 0
                ==> cell_of(self.len as int, s, r, c) == self.cell(r, c)
        &&& forall|j: int|
            k <= j < self.empties().len() ==> cell_of(
                self.len as int,
                s,
                (#[trigger] self.empties()[j]).0 as int,
                self.empties()[j].1 as int,
            ) == 0
        &&& forall|j: int|
            0 <= j < k && j < self.empties().len() ==> placed_ok(
                self.len as int,
                s,
                (#[trigger] self.empties()[j]).0 as int,
                self.empties()[j].1 as int,
            )
    }

    /// `s` solves the puzzle: it is a consistent fill of every empty cell
    /// that keeps every given.
    pub open spec fn is_solution(self, s: Seq<u8>) -> bool {
        self.partial_ok(s, self.empties().len() as int)
    }
}

/// What one cell of a consistent partial fill can hold: a given keeps its
/// value, a placed cell holds a value in `1..=size`, and the rest are `0`.
proof fn lemma_partial_ok_cell(g: Grid, s: Seq<u8>, k: int, i: int)
    requires
        g.wf(),
        0 <= k <= g.empties().len(),
        g.partial_ok(s, k),
        0 <= i < s.len(),
    ensures
        s[i] as int <= g.spec_size(),
        g.cells@[i] != 0 ==> s[i] == g.cells@[i],
        k == g.empties().len() && g.cells@[i] == 0 ==> 1 <= s[i] as int,
{
    g.lemma_empties_props();
    let len = g.len as int;
    let size = g.spec_size();
    lemma_size_positive(len);
    lemma_flat_coordinates(size, i);
    let r = i / size;
    let c = i % size;
    assert(flat_index(len, r, c) == i);
    if g.cells@[i] != 0 {
        assert(g.cell(r, c) == g.cells@[i]);
        assert(cell_of(len, s, r, c) == g.cell(r, c));
        assert(s[i] == g.cells@[i]);
    } else {
        let j = choose|j: int|
            0 <= j < g.empties().len() && g.flat_of(#[trigger] g.empties()[j]) == i;
        let p = g.empties()[j];
        lemma_flat_injective(size, p.0 as int, p.1 as int, r, c);
        if j < k {
            assert(placed_ok(len, s, p.0 as int, p.1 as int));
            assert(cell_of(len, s, p.0 as int, p.1 as int) == s[i]);
        } else {
            assert(cell_of(len, s, p.0 as int, p.1 as int) == 0);
            assert(s[i] == 0);
        }
    }
}

/// A consistent partial fill keeps every value within the grid's range; a
/// full one leaves no cell empty.
pub proof fn lemma_partial_ok_values(g: Grid, s: Seq<u8>, k: int)
    requires
        g.wf(),
        0 <= k <= g.empties().len(),
        g.partial_ok(s, k),
    ensures
        forall|i: int| 0 <= i < s.len() ==> (#[trigger] s[i]) as int <= g.spec_size(),
        k == g.empties().len() ==> forall|i: int|
            0 <= i < s.len() ==> 1 <= (#[trigger] s[i]) as int,
{
    assert forall|i: int| 0 <= i < s.len() implies (#[trigger] s[i]) as int <= g.spec_size() && (k
        == g.empties().len() ==> 1 <= s[i] as int) by {
        lemma_partial_ok_cell(g, s, k, i);
    };
}

/// A grid whose cells form a consistent partial fill of a well-formed puzzle
/// is itself well-formed.
pub proof fn lemma_partial_ok_wf(g: Grid, h: Grid, k: int)
    requires
        g.wf(),
        h.len == g.len,
        0 <= k <= g.empties().len(),
        g.partial_ok(h.cells@, k),
    ensures
        h.wf(),
{
    lemma_partial_ok_values(g, h.cells@, k);
}

/// The only consistent fill of zero empty cells is the puzzle itself.
pub proof fn lemma_partial_ok_zero(g: Grid, s: Seq<u8>)
    requires
        g.wf(),
        g.partial_ok(s, 0),
    ensures
        s == g.cells@,
{
    g.lemma_empties_props();
    let len = g.len as int;
    let size = g.spec_size();
    lemma_size_positive(len);
    assert forall|i: int| 0 <= i < s.len() implies s[i] == g.cells@[i] by {
        lemma_flat_coordinates(size, i);
        let r = i / size;
        let c = i % size;
        assert(flat_index(len, r, c) == i);
        if g.cells@[i] != 0 {
            assert(cell_of(len, s, r, c) == g.cell(r, c));
        } else {
            let j = choose|j: int|
                0 <= j < g.empties().len() && g.flat_of(#[trigger] g.empties()[j]) == i;
            assert(cell_of(len, s, g.empties()[j].0 as int, g.empties()[j].1 as int) == 0);
            assert(s[i] == 0);
        }
    };
    assert(s =~= g.cells@);
}

/// The puzzle's own cells are the consistent fill of zero empty cells.
pub proof fn lemma_partial_ok_initial(g: Grid)
    requires
        g.wf(),
    ensures
        g.partial_ok(g.cells@, 0),
{
    g.lemma_empties_props();
}

/// Placing a candidate value at the `k`-th empty cell of a consistent
/// partial fill of `k` cells yields a consistent partial fill of `k + 1`.
pub proof fn lemma_place_ok(g: Grid, s: Seq<u8>, k: int, v: u8)
    requires
        g.wf(),
        0 <= k < g.empties().len(),
        g.partial_ok(s, k),
        candidate(g.len as int, s, g.empties()[k].0 as int, g.empties()[k].1 as int, v),
    ensures
        g.partial_ok(s.update(g.flat_of(g.empties()[k]), v), k + 1),
{
    g.lemma_empties_props();
    let len = g.len as int;
    let size = g.spec_size();
    lemma_size_positive(len);
    let p = g.empties()[k];
    let pr = p.0 as int;
    let pc = p.1 as int;
    let i0 = g.flat_of(p);
    lemma_flat_bounds(size, pr, pc);
    let t = s.update(i0, v);
    assert(cell_of(len, t, pr, pc) == v);
    assert forall|r: int, c: int|
        0 <= r < size && 0 <= c < size && !(r == pr && c == pc) implies cell_of(len, t, r, c)
        == cell_of(len, s, r, c) by {
        lemma_flat_bounds(size, r, c);
        if flat_index(len, r, c) == i0 {
            lemma_flat_injective(size, r, c, pr, pc);
        }
    };
    // the givens keep their values: the placed cell was empty
    assert forall|r: int, c: int|
        0 <= r < size && 0 <= c < size && g.cell(r, c) != 0 implies cell_of(len, t, r, c) == g.cell(
        r,
        c,
    ) by {
        assert(g.cell(pr, pc) == 0);
    };
    // the empty cells after the k-th stay empty: their flat positions differ
    assert forall|j: int|
        k + 1 <= j < g.empties().len() implies cell_of(
        len,
        t,
        (#[trigger] g.empties()[j]).0 as int,
        g.empties()[j].1 as int,
    ) == 0 by {
        let q = g.empties()[j];
        assert(g.flat_of(p) < g.flat_of(q));
        if q.0 as int == pr && q.1 as int == pc {
            assert(false);
        }
        assert(cell_of(len, t, q.0 as int, q.1 as int) == cell_of(len, s, q.0 as int, q.1 as int));
    };
    // the cells placed earlier stay consistent: the new value clashes with
    // none of them, because a candidate clashes with nothing in its units
    assert forall|j: int| 0 <= j < k + 1 && j < g.empties().len() implies placed_ok(
        len,
        t,
        (#[trigger] g.empties()[j]).0 as int,
        g.empties()[j].1 as int,
    ) by {
        let q = g.empties()[j];
        let qr = q.0 as int;
        let qc = q.1 as int;
        if j < k {
            assert(placed_ok(len, s, qr, qc));
            assert(g.flat_of(q) < g.flat_of(p));
            if qr == pr && qc == pc {
                assert(false);
            }
            let w = cell_of(len, s, qr, qc);
            assert(cell_of(len, t, qr, qc) == w);
            assert forall|c2: int|
                0 <= c2 < size && c2 != qc implies cell_of(len, t, qr, c2) != w by {
                if qr == pr && c2 == pc {
                    assert(!row_has(len, s, pr, v));
                    assert(cell_of(len, s, pr, qc) != v);
                    assert(cell_of(len, t, qr, c2) == v);
                    assert(w != v);
                } else {
                    assert(cell_of(len, t, qr, c2) == cell_of(len, s, qr, c2));
                }
            };
            assert forall|r2: int|
                0 <= r2 < size && r2 != qr implies cell_of(len, t, r2, qc) != w by {
                if r2 == pr && qc == pc {
                    assert(!col_has(len, s, pc, v));
                    assert(cell_of(len, s, qr, pc) != v);
                    assert(cell_of(len, t, r2, qc) == v);
                    assert(w != v);
                } else {
                    assert(cell_of(len, t, r2, qc) == cell_of(len, s, r2, qc));
                }
            };
            assert forall|r2: int, c2: int|
                0 <= r2 < size && 0 <= c2 < size && r2 / len == qr / len && c2 / len == qc / len
                    && !(r2 == qr && c2 == qc) implies cell_of(len, t, r2, c2) != w by {
                if r2 == pr && c2 == pc {
                    // the placed cell shares its box with q, so q's value is
                    // among those the candidate avoids
                    assert(!box_has(len, s, pr, pc, v));
                    assert(qr / len == pr / len && qc / len == pc / len);
                    assert(cell_of(len, s, qr, qc) != v);
                    assert(cell_of(len, t, r2, c2) == v);
                    assert(w != v);
                } else {
                    assert(cell_of(len, t, r2, c2) == cell_of(len, s, r2, c2));
                }
            };
        } else {
            // j == k: the freshly placed cell
            assert(qr == pr && qc == pc);
            assert(cell_of(len, t, pr, pc) == v);
            assert forall|c2: int|
                0 <= c2 < size && c2 != pc implies cell_of(len, t, pr, c2) != v by {
                assert(cell_of(len, t, pr, c2) == cell_of(len, s, pr, c2));
                assert(!row_has(len, s, pr, v));
            };
            assert forall|r2: int|
                0 <= r2 < size && r2 != pr implies cell_of(len, t, r2, pc) != v by {
                assert(cell_of(len, t, r2, pc) == cell_of(len, s, r2, pc));
                assert(!col_has(len, s, pc, v));
            };
            assert forall|r2: int, c2: int|
                0 <= r2 < size && 0 <= c2 < size && r2 / len == pr / len && c2 / len == pc / len
                    && !(r2 == pr && c2 == pc) implies cell_of(len, t, r2, c2) != v by {
                assert(cell_of(len, t, r2, c2) == cell_of(len, s, r2, c2));
                assert(!box_has(len, s, pr, pc, v));
            };
        }
    };
}

/// A consistent partial fill of `k + 1` cells arises from the consistent
/// partial fill of `k` cells obtained by clearing the `k`-th placed cell,
/// whose value is a candidate there.
pub proof fn lemma_unplace_ok(g: Grid, s: Seq<u8>, k: int)
    requires
        g.wf(),
        0 <= k < g.empties().len(),
        g.partial_ok(s, k + 1),
    ensures
        g.partial_ok(s.update(g.flat_of(g.empties()[k]), 0), k),
        candidate(
            g.len as int,
            s.update(g.flat_of(g.empties()[k]), 0),
            g.empties()[k].0 as int,
            g.empties()[k].1 as int,
            s[g.flat_of(g.empties()[k])],
        ),
        s.update(g.flat_of(g.empties()[k]), 0).update(
            g.flat_of(g.empties()[k]),
            s[g.flat_of(g.empties()[k])],
        ) == s,
{
    g.lemma_empties_props();
    let len = g.len as int;
    let size = g.spec_size();
    lemma_size_positive(len);
    let p = g.empties()[k];
    let pr = p.0 as int;
    let pc = p.1 as int;
    let i0 = g.flat_of(p);
    lemma_flat_bounds(size, pr, pc);
    let v = s[i0];
    let t = s.update(i0, 0);
    assert(placed_ok(len, s, pr, pc));
    assert(cell_of(len, s, pr, pc) == v);
    assert(1 <= v as int <= size);
    assert(cell_of(len, t, pr, pc) == 0);
    assert forall|r: int, c: int|
        0 <= r < size && 0 <= c < size && !(r == pr && c == pc) implies cell_of(len, t, r, c)
        == cell_of(len, s, r, c) by {
        lemma_flat_bounds(size, r, c);
        if flat_index(len, r, c) == i0 {
            lemma_flat_injective(size, r, c, pr, pc);
        }
    };
    // the cleared fill is consistent through its first k cells
    assert forall|r: int, c: int|
        0 <= r < size && 0 <= c < size && g.cell(r, c) != 0 implies cell_of(len, t, r, c) == g.cell(
        r,
        c,
    ) by {
        assert(g.cell(pr, pc) == 0);
    };
    assert forall|j: int| k <= j < g.empties().len() implies cell_of(
        len,
        t,
        (#[trigger] g.empties()[j]).0 as int,
        g.empties()[j].1 as int,
    ) == 0 by {
        let q = g.empties()[j];
        if j == k {
            assert(cell_of(len, t, pr, pc) == 0);
        } else {
            assert(g.flat_of(p) < g.flat_of(q));
            if q.0 as int == pr && q.1 as int == pc {
                assert(false);
            }
            assert(cell_of(len, t, q.0 as int, q.1 as int) == cell_of(
                len,
                s,
                q.0 as int,
                q.1 as int,
            ));
        }
    };
    assert forall|j: int| 0 <= j < k && j < g.empties().len() implies placed_ok(
        len,
        t,
        (#[trigger] g.empties()[j]).0 as int,
        g.empties()[j].1 as int,
    ) by {
        let q = g.empties()[j];
        let qr = q.0 as int;
        let qc = q.1 as int;
        assert(placed_ok(len, s, qr, qc));
        assert(g.flat_of(q) < g.flat_of(p));
        if qr == pr && qc == pc {
            assert(false);
        }
        let w = cell_of(len, s, qr, qc);
        assert(cell_of(len, t, qr, qc) == w);
        assert(1 <= w as int);
        assert forall|c2: int| 0 <= c2 < size && c2 != qc implies cell_of(len, t, qr, c2) != w by {
            if qr == pr && c2 == pc {
                assert(cell_of(len, t, qr, c2) == 0);
            } else {
                assert(cell_of(len, t, qr, c2) == cell_of(len, s, qr, c2));
            }
        };
        assert forall|r2: int| 0 <= r2 < size && r2 != qr implies cell_of(len, t, r2, qc) != w by {
            if r2 == pr && qc == pc {
                assert(cell_of(len, t, r2, qc) == 0);
            } else {
                assert(cell_of(len, t, r2, qc) == cell_of(len, s, r2, qc));
            }
        };
        assert forall|r2: int, c2: int|
            0 <= r2 < size && 0 <= c2 < size && r2 / len == qr / len && c2 / len == qc / len && !(r2
                == qr && c2 == qc) implies cell_of(len, t, r2, c2) != w by {
            if r2 == pr && c2 == pc {
                assert(cell_of(len, t, r2, c2) == 0);
            } else {
                assert(cell_of(len, t, r2, c2) == cell_of(len, s, r2, c2));
            }
        };
    };
    // the cleared value is a candidate at the cleared cell
    assert forall|c2: int| 0 <= c2 < size implies cell_of(len, t, pr, c2) != v by {
        if c2 == pc {
            assert(cell_of(len, t, pr, c2) == 0);
        } else {
            assert(cell_of(len, t, pr, c2) == cell_of(len, s, pr, c2));
            assert(cell_of(len, s, pr, c2) != v);
        }
    };
    assert(!row_has(len, t, pr, v));
    assert forall|r2: int| 0 <= r2 < size implies cell_of(len, t, r2, pc) != v by {
        if r2 == pr {
            assert(cell_of(len, t, r2, pc) == 0);
        } else {
            assert(cell_of(len, t, r2, pc) == cell_of(len, s, r2, pc));
            assert(cell_of(len, s, r2, pc) != v);
        }
    };
    assert(!col_has(len, t, pc, v));
    assert forall|r2: int, c2: int|
        0 <= r2 < size && 0 <= c2 < size && r2 / len == pr / len && c2 / len == pc
            / len implies cell_of(len, t, r2, c2) != v by {
        if r2 == pr && c2 == pc {
            assert(cell_of(len, t, r2, c2) == 0);
        } else {
            assert(cell_of(len, t, r2, c2) == cell_of(len, s, r2, c2));
            assert(cell_of(len, s, r2, c2) != v);
        }
    };
    assert(!box_has(len, t, pr, pc, v));
    // re-placing the cleared value restores the fill
    assert(t.update(i0, v) =~= s);
}

impl Grid {
    /// Expands the puzzle at every empty cell in row-major order and returns
    /// every grid that fills all the empty cells consistently while keeping
    /// every given: each returned grid is a solution, and every solution is
    /// returned. A puzzle with no empty cell is returned unchanged as the
    /// sole result, without further validation; a puzzle with no consistent
    /// fill yields an empty collection.
    #[verifier::loop_isolation(false)]
    pub fn solve(self) -> (result: Vec<Grid>)
        requires
            self.wf(),
        ensures
            forall|m: int| 0 <= m < result@.len() ==> (#[trigger] result@[m]).len == self.len,
            forall|m: int| 0 <= m < result@.len() ==> (#[trigger] result@[m]).wf(),
            forall|m: int|
                0 <= m < result@.len() ==> self.is_solution((#[trigger] result@[m]).cells@),
            forall|s: Seq<u8>|
                #[trigger] self.is_solution(s) ==> exists|m: int|
                    0 <= m < result@.len() && result@[m].cells@ == s,
            forall|m1: int, m2: int|
                0 <= m1 < m2 < result@.len() ==> (#[trigger] result@[m1]).cells@ != (
                #[trigger] result@[m2]).cells@,
            self.empties().len() == 0 ==> result@ == seq![self],
    {
        let ghost input = self;
        let coords = self.empty_cells();
        let mut frontier: Vec<Grid> = Vec::new();
        frontier.push(self);
        proof {
            lemma_partial_ok_initial(input);
            input.lemma_empties_props();
            lemma_size_positive(input.len as int);
            assert(frontier@ =~= seq![input]);
            assert forall|s: Seq<u8>| #[trigger] input.partial_ok(s, 0) implies exists|m: int|
                0 <= m < frontier@.len() && frontier@[m].cells@ == s by {
                lemma_partial_ok_zero(input, s);
                assert(frontier@[0].cells@ == s);
            };
        }
        let mut k: usize = 0;
        while k < coords.len()
            invariant
                k <= coords@.len(),
                forall|m: int|
                    0 <= m < frontier@.len() ==> (#[trigger] frontier@[m]).len == input.len,
                forall|m: int| 0 <= m < frontier@.len() ==> (#[trigger] frontier@[m]).wf(),
                forall|m: int|
                    0 <= m < frontier@.len() ==> input.partial_ok(
                        (#[trigger] frontier@[m]).cells@,
                        k as int,
                    ),
                forall|s: Seq<u8>|
                    #[trigger] input.partial_ok(s, k as int) ==> exists|m: int|
                        0 <= m < frontier@.len() && frontier@[m].cells@ == s,
                forall|m1: int, m2: int|
                    0 <= m1 < m2 < frontier@.len() ==> (#[trigger] frontier@[m1]).cells@ != (
                    #[trigger] frontier@[m2]).cells@,
                input.empties().len() == 0 ==> frontier@ == seq![input],
            decreases coords@.len() - k,
        {
            let rc = coords[k];
            proof {
                assert(rc == input.empties()[k as int]);
                assert(input.empty_coord(rc));
                lemma_flat_bounds(input.spec_size(), rc.0 as int, rc.1 as int);
            }
            let ghost i0 = input.flat_of(rc);
            let mut next: Vec<Grid> = Vec::new();
            let mut j: usize = 0;
            while j < frontier.len()
                invariant
                    j <= frontier@.len(),
                    forall|m: int| 0 <= m < next@.len() ==> (#[trigger] next@[m]).len == input.len,
                    forall|m: int| 0 <= m < next@.len() ==> (#[trigger] next@[m]).wf(),
                    forall|m: int|
                        0 <= m < next@.len() ==> input.partial_ok(
                            (#[trigger] next@[m]).cells@,
                            k as int + 1,
                        ),
                    forall|s: Seq<u8>, j0: int|
                        #[trigger] input.partial_ok(s, k as int + 1) && 0 <= j0 < j && (
                        #[trigger] frontier@[j0]).cells@ == s.update(i0, 0u8) ==> exists|m: int|
                            0 <= m < next@.len() && next@[m].cells@ == s,
                    forall|m1: int, m2: int|
                        0 <= m1 < m2 < next@.len() ==> (#[trigger] next@[m1]).cells@ != (
                        #[trigger] next@[m2]).cells@,
                    forall|m: int|
                        0 <= m < next@.len() ==> exists|j0: int|
                            0 <= j0 < j && (#[trigger] frontier@[j0]).cells@ == (
                            #[trigger] next@[m]).cells@.update(i0, 0u8),
                decreases frontier@.len() - j,
            {
                proof {
                    assert(input.partial_ok(frontier@[j as int].cells@, k as int));
                    assert(cell_of(
                        input.len as int,
                        frontier@[j as int].cells@,
                        rc.0 as int,
                        rc.1 as int,
                    ) == 0);
                }
                let mut ps = frontier[j].placements(rc);
                let ghost pseq = ps@;
                let ghost next_old = next@;
                let ghost h = frontier@[j as int];
                proof {
                    lemma_candidates_props(input.len as int, h.cells@, rc.0 as int, rc.1 as int);
                    assert forall|i: int| 0 <= i < pseq.len() implies input.partial_ok(
                        (#[trigger] pseq[i]).cells@,
                        k as int + 1,
                    ) by {
                        let v = candidates(
                            input.len as int,
                            h.cells@,
                            rc.0 as int,
                            rc.1 as int,
                        )[i];
                        assert(candidate(input.len as int, h.cells@, rc.0 as int, rc.1 as int, v));
                        lemma_place_ok(input, h.cells@, k as int, v);
                        assert(pseq[i].cells@ == h.cells@.update(i0, v));
                    };
                }
                next.append(&mut ps);
                proof {
                    assert(next@ == next_old + pseq);
                    assert forall|s: Seq<u8>, j0: int|
                        #[trigger] input.partial_ok(s, k as int + 1) && 0 <= j0 < j as int + 1 && (
                        #[trigger] frontier@[j0]).cells@ == s.update(i0, 0u8) implies exists|m: int|
                        0 <= m < next@.len() && next@[m].cells@ == s by {
                        if j0 == j as int {
                            lemma_unplace_ok(input, s, k as int);
                            let v = s[i0];
                            assert(candidate(
                                input.len as int,
                                h.cells@,
                                rc.0 as int,
                                rc.1 as int,
                                v,
                            ));
                            let iw = choose|i: int|
                                0 <= i < candidates(
                                    input.len as int,
                                    h.cells@,
                                    rc.0 as int,
                                    rc.1 as int,
                                ).len() && candidates(
                                    input.len as int,
                                    h.cells@,
                                    rc.0 as int,
                                    rc.1 as int,
                                )[i] == v;
                            assert(pseq[iw].cells@ == h.cells@.update(i0, v));
                            assert(h.cells@.update(i0, v) == s);
                            assert(next@[next_old.len() + iw].cells@ == s);
                        } else {
                            let m0 = choose|m: int|
                                0 <= m < next_old.len() && (#[trigger] next_old[m]).cells@ == s;
                            assert(next@[m0].cells@ == s);
                        }
                    };
                    // clearing the placed cell of any placement recovers its parent
                    assert(h.cells@[i0] == 0);
                    assert forall|i: int| 0 <= i < pseq.len() implies (
                    #[trigger] pseq[i]).cells@.update(i0, 0u8) == h.cells@ by {
                        let v = candidates(
                            input.len as int,
                            h.cells@,
                            rc.0 as int,
                            rc.1 as int,
                        )[i];
                        assert(pseq[i].cells@ == h.cells@.update(i0, v));
                        assert(pseq[i].cells@.update(i0, 0u8) =~= h.cells@);
                    };
                    assert forall|m: int| 0 <= m < next@.len() implies exists|j0: int|
                        0 <= j0 < j as int + 1 && (#[trigger] frontier@[j0]).cells@ == (
                        #[trigger] next@[m]).cells@.update(i0, 0u8) by {
                        if m < next_old.len() {
                            let j0 = choose|j0: int|
                                0 <= j0 < j as int && (#[trigger] frontier@[j0]).cells@ == (
                                #[trigger] next_old[m]).cells@.update(i0, 0u8);
                            assert(next@[m] == next_old[m]);
                            assert(frontier@[j0].cells@ == next@[m].cells@.update(i0, 0u8));
                        } else {
                            let iw = m - next_old.len();
                            assert(next@[m] == pseq[iw]);
                            assert(frontier@[j as int].cells@ == next@[m].cells@.update(i0, 0u8));
                        }
                    };
                    // no two entries of the expanded frontier agree: siblings
                    // differ at the placed cell, cousins inherit their
                    // parents' difference
                    assert forall|m1: int, m2: int|
                        0 <= m1 < m2 < next@.len() implies (#[trigger] next@[m1]).cells@ != (
                    #[trigger] next@[m2]).cells@ by {
                        if m2 < next_old.len() {
                            assert(next@[m1] == next_old[m1] && next@[m2] == next_old[m2]);
                        } else if m1 >= next_old.len() {
                            let i1 = m1 - next_old.len();
                            let i2 = m2 - next_old.len();
                            let v1 = candidates(
                                input.len as int,
                                h.cells@,
                                rc.0 as int,
                                rc.1 as int,
                            )[i1];
                            let v2 = candidates(
                                input.len as int,
                                h.cells@,
                                rc.0 as int,
                                rc.1 as int,
                            )[i2];
                            assert(v1 != v2);
                            assert(next@[m1].cells@[i0] == v1);
                            assert(next@[m2].cells@[i0] == v2);
                        } else {
                            let i2 = m2 - next_old.len();
                            if next@[m1].cells@ == next@[m2].cells@ {
                                let j0 = choose|j0: int|
                                    0 <= j0 < j as int && (#[trigger] frontier@[j0]).cells@ == (
                                    #[trigger] next_old[m1]).cells@.update(i0, 0u8);
                                assert(next@[m2] == pseq[i2]);
                                assert(frontier@[j0].cells@ == pseq[i2].cells@.update(i0, 0u8));
                                assert(frontier@[j0].cells@ == h.cells@);
                                assert(frontier@[j0].cells@ != frontier@[j as int].cells@);
                                assert(false);
                            }
                        }
                    };
                }
                j += 1;
            }
            proof {
                assert forall|s: Seq<u8>| #[trigger] input.partial_ok(
                    s,
                    k as int + 1,
                ) implies exists|m: int| 0 <= m < next@.len() && next@[m].cells@ == s by {
                    lemma_unplace_ok(input, s, k as int);
                    let t = s.update(i0, 0u8);
                    assert(input.partial_ok(t, k as int));
                    let j0 = choose|m: int|
                        0 <= m < frontier@.len() && (#[trigger] frontier@[m]).cells@ == t;
                    assert(frontier@[j0].cells@ == s.update(i0, 0u8));
                };
            }
            frontier = next;
            k += 1;
        }
        proof {
            if input.empties().len() == 0 {
                assert(frontier@ == seq![input]);
            }
        }
        frontier
    }
}

} // verus!
