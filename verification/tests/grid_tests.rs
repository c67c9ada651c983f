use sudoku::Grid;

fn grid(len: usize, cells: Vec<u8>) -> Grid {
    Grid::new(len, cells).expect("well-formed puzzle")
}

#[test]
fn new_accepts_valid() {
    let g = Grid::new(2, vec![0; 16]).expect("well-formed puzzle");
    assert_eq!(g.len, 2);
    assert_eq!(g.cells.len(), 16);
}

#[test]
fn new_rejects_zero_dimension() {
    assert!(Grid::new(0, vec![]).is_none());
}

#[test]
fn new_rejects_oversized_dimension() {
    assert!(Grid::new(16, vec![0; 65536]).is_none());
}

#[test]
fn new_rejects_wrong_cell_count() {
    assert!(Grid::new(2, vec![0; 15]).is_none());
    assert!(Grid::new(2, vec![0; 17]).is_none());
}

#[test]
fn new_rejects_value_out_of_range() {
    let mut cells = vec![0; 16];
    cells[5] = 5;
    assert!(Grid::new(2, cells).is_none());
}

#[test]
fn size_is_squared_box_dimension() {
    assert_eq!(grid(1, vec![0]).size(), 1);
    assert_eq!(grid(2, vec![0; 16]).size(), 4);
    assert_eq!(grid(3, vec![0; 81]).size(), 9);
}

#[test]
fn get_reads_row_major() {
    let mut cells = vec![0; 16];
    cells[4 * 1 + 2] = 3;
    let g = grid(2, cells);
    assert_eq!(g.get(1, 2), 3);
    assert_eq!(g.get(2, 1), 0);
}

#[test]
fn with_cell_at_places_value_and_keeps_rest() {
    let mut cells = vec![0; 16];
    cells[0] = 1;
    let g = grid(2, cells);
    let h = g.with_cell_at(4, 1, 2);
    assert_eq!(h.get(1, 2), 4);
    assert_eq!(h.get(0, 0), 1);
    // the receiver is left unmodified
    assert_eq!(g.get(1, 2), 0);
    for r in 0..4 {
        for c in 0..4 {
            if (r, c) != (1, 2) {
                assert_eq!(g.get(r, c), h.get(r, c));
            }
        }
    }
}

#[test]
fn empty_cells_row_major_order() {
    let cells = vec![
        1, 0, 3, 4,
        0, 4, 2, 1,
        3, 1, 4, 2,
        4, 2, 1, 0,
    ];
    let g = grid(2, cells);
    assert_eq!(g.empty_cells(), vec![(0, 1), (1, 0), (3, 3)]);
}

#[test]
fn available_numbers_excludes_row_col_box() {
    // cell (0, 0): row holds 2, column holds 3, box holds 4
    let cells = vec![
        0, 0, 2, 0,
        0, 4, 0, 0,
        0, 0, 0, 0,
        3, 0, 0, 0,
    ];
    let g = grid(2, cells);
    assert_eq!(g.available_numbers(0, 0), vec![1]);
}

#[test]
fn available_numbers_full_range_on_empty_grid() {
    let g = grid(2, vec![0; 16]);
    assert_eq!(g.available_numbers(2, 2), vec![1, 2, 3, 4]);
}

#[test]
fn available_numbers_idempotent() {
    let cells = vec![
        0, 0, 0, 0,
        0, 0, 2, 1,
        3, 0, 0, 4,
        0, 0, 0, 0,
    ];
    let g = grid(2, cells);
    let first = g.available_numbers(0, 0);
    let second = g.available_numbers(0, 0);
    assert_eq!(first, second);
}

#[test]
fn placements_one_grid_per_candidate() {
    let cells = vec![
        0, 0, 2, 0,
        0, 4, 0, 0,
        0, 0, 0, 0,
        3, 0, 0, 0,
    ];
    let g = grid(2, cells);
    let candidates = g.available_numbers(0, 1);
    let derived = g.placements((0, 1));
    assert_eq!(derived.len(), candidates.len());
    for (d, v) in derived.iter().zip(candidates.iter()) {
        assert_eq!(d.get(0, 1), *v);
        assert_eq!(d.get(0, 2), 2);
    }
}

#[test]
fn placements_empty_when_no_candidate() {
    // row holds 1 and 2, column holds 3 and 4: nothing fits at (0, 0)
    let cells = vec![
        0, 1, 1, 2,
        3, 2, 2, 2,
        3, 2, 2, 2,
        4, 2, 2, 2,
    ];
    let g = grid(2, cells);
    assert_eq!(g.available_numbers(0, 0), Vec::<u8>::new());
    assert_eq!(g.placements((0, 0)).len(), 0);
}
