use sudoku::Grid;

fn grid(len: usize, cells: Vec<u8>) -> Grid {
    Grid::new(len, cells).expect("well-formed puzzle")
}

/// Every row, column, and box holds each value in `1..=size` exactly once.
fn is_fully_valid(g: &Grid) -> bool {
    let size = g.size();
    for r in 0..size {
        let mut seen = vec![false; size + 1];
        for c in 0..size {
            let v = g.get(r, c) as usize;
            if v == 0 || v > size || seen[v] {
                return false;
            }
            seen[v] = true;
        }
    }
    for c in 0..size {
        let mut seen = vec![false; size + 1];
        for r in 0..size {
            let v = g.get(r, c) as usize;
            if v == 0 || v > size || seen[v] {
                return false;
            }
            seen[v] = true;
        }
    }
    for br in 0..g.len {
        for bc in 0..g.len {
            let mut seen = vec![false; size + 1];
            for r in br * g.len..(br + 1) * g.len {
                for c in bc * g.len..(bc + 1) * g.len {
                    let v = g.get(r, c) as usize;
                    if v == 0 || v > size || seen[v] {
                        return false;
                    }
                    seen[v] = true;
                }
            }
        }
    }
    true
}

/// The solution agrees with the puzzle on every originally non-zero cell.
fn keeps_givens(puzzle: &Grid, solution: &Grid) -> bool {
    let size = puzzle.size();
    for r in 0..size {
        for c in 0..size {
            let given = puzzle.get(r, c);
            if given != 0 && solution.get(r, c) != given {
                return false;
            }
        }
    }
    true
}

#[test]
fn scenario_a_four_by_four_has_valid_solutions() {
    let cells = vec![
        0, 0, 0, 0,
        0, 0, 2, 1,
        3, 0, 0, 4,
        0, 0, 0, 0,
    ];
    let puzzle = grid(2, cells);
    let solutions = puzzle.clone().solve();
    assert!(solutions.len() >= 1);
    for solution in &solutions {
        assert!(is_fully_valid(solution));
        assert!(keeps_givens(&puzzle, solution));
    }
}

#[test]
fn scenario_b_conflicting_givens_yield_no_solution() {
    // two identical givens in the first row; the lone empty cell at (0, 0)
    // sees every value in its row and column already
    let cells = vec![
        0, 1, 1, 2,
        3, 2, 2, 2,
        3, 2, 2, 2,
        4, 2, 2, 2,
    ];
    let solutions = grid(2, cells).solve();
    assert_eq!(solutions.len(), 0);
}

#[test]
fn scenario_b_row_duplicates_block_all_completions() {
    // two identical givens in the first row make the rest unfillable
    let cells = vec![
        1, 1, 2, 3,
        0, 0, 0, 0,
        0, 0, 0, 0,
        0, 0, 0, 0,
    ];
    let solutions = grid(2, cells).solve();
    assert_eq!(solutions.len(), 0);
}

#[test]
fn scenario_c_full_valid_grid_returns_itself() {
    let cells = vec![
        1, 2, 3, 4,
        3, 4, 1, 2,
        2, 1, 4, 3,
        4, 3, 2, 1,
    ];
    let puzzle = grid(2, cells.clone());
    let solutions = puzzle.solve();
    assert_eq!(solutions.len(), 1);
    assert_eq!(solutions[0].cells, cells);
}

#[test]
fn full_invalid_grid_returned_unchanged() {
    // no empty cell: returned as the sole result without validation
    let cells = vec![1; 16];
    let solutions = grid(2, cells.clone()).solve();
    assert_eq!(solutions.len(), 1);
    assert_eq!(solutions[0].cells, cells);
}

#[test]
fn one_by_one_empty_grid_solves_to_one() {
    let solutions = grid(1, vec![0]).solve();
    assert_eq!(solutions.len(), 1);
    assert_eq!(solutions[0].cells, vec![1]);
}

#[test]
fn one_by_one_full_grid_returns_itself() {
    let solutions = grid(1, vec![1]).solve();
    assert_eq!(solutions.len(), 1);
    assert_eq!(solutions[0].cells, vec![1]);
}

#[test]
fn empty_four_by_four_has_all_completions() {
    // the number of complete valid grids of box dimension 2 is known
    let solutions = grid(2, vec![0; 16]).solve();
    assert_eq!(solutions.len(), 288);
    for solution in &solutions {
        assert!(is_fully_valid(solution));
    }
}

#[test]
fn solve_is_deterministic_as_a_set() {
    let cells = vec![
        0, 0, 0, 0,
        0, 0, 2, 1,
        3, 0, 0, 4,
        0, 0, 0, 0,
    ];
    let first = grid(2, cells.clone()).solve();
    let second = grid(2, cells).solve();
    let mut first_cells: Vec<Vec<u8>> = first.into_iter().map(|g| g.cells).collect();
    let mut second_cells: Vec<Vec<u8>> = second.into_iter().map(|g| g.cells).collect();
    first_cells.sort();
    second_cells.sort();
    assert_eq!(first_cells, second_cells);
}
