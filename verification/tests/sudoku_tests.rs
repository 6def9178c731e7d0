use dlx_rs::sudoku::Sudoku;

#[test]
fn sudoku_solve() {
    let sudoku = vec![
        5, 3, 0, 0, 7, 0, 0, 0, 0, 6, 0, 0, 1, 9, 5, 0, 0, 0, 0, 9, 8, 0, 0, 0, 0, 6, 0, 8, 0,
        0, 0, 6, 0, 0, 0, 3, 4, 0, 0, 8, 0, 3, 0, 0, 1, 7, 0, 0, 0, 2, 0, 0, 0, 6, 0, 6, 0, 0,
        0, 0, 2, 8, 0, 0, 0, 0, 4, 1, 9, 0, 0, 5, 0, 0, 0, 0, 8, 0, 0, 7, 9,
    ];

    let mut s = Sudoku::new_from_input(&sudoku);

    let true_solution = vec![
        5, 3, 4, 6, 7, 8, 9, 1, 2, 6, 7, 2, 1, 9, 5, 3, 4, 8, 1, 9, 8, 3, 4, 2, 5, 6, 7, 8, 5,
        9, 7, 6, 1, 4, 2, 3, 4, 2, 6, 8, 5, 3, 7, 9, 1, 7, 1, 3, 9, 2, 4, 8, 5, 6, 9, 6, 1, 5,
        3, 7, 2, 8, 4, 2, 8, 7, 4, 1, 9, 6, 3, 5, 3, 4, 5, 2, 8, 6, 1, 7, 9,
    ];
    let sol = s.next().unwrap();
    assert_eq!(sol, true_solution);
}

#[test]
fn sudoku_has_one_solution() {
    let sudoku = vec![
        5, 3, 0, 0, 7, 0, 0, 0, 0, 6, 0, 0, 1, 9, 5, 0, 0, 0, 0, 9, 8, 0, 0, 0, 0, 6, 0, 8, 0,
        0, 0, 6, 0, 0, 0, 3, 4, 0, 0, 8, 0, 3, 0, 0, 1, 7, 0, 0, 0, 2, 0, 0, 0, 6, 0, 6, 0, 0,
        0, 0, 2, 8, 0, 0, 0, 0, 4, 1, 9, 0, 0, 5, 0, 0, 0, 0, 8, 0, 0, 7, 9,
    ];
    let mut s = Sudoku::new_from_input(&sudoku);
    assert!(s.next().is_some());
    assert_eq!(s.next(), None);
}

#[test]
fn pretty_prints_the_grid_box_by_box() {
    let sudoku = vec![
        5, 3, 0, 0, 7, 0, 0, 0, 0, 6, 0, 0, 1, 9, 5, 0, 0, 0, 0, 9, 8, 0, 0, 0, 0, 6, 0, 8, 0,
        0, 0, 6, 0, 0, 0, 3, 4, 0, 0, 8, 0, 3, 0, 0, 1, 7, 0, 0, 0, 2, 0, 0, 0, 6, 0, 6, 0, 0,
        0, 0, 2, 8, 0, 0, 0, 0, 4, 1, 9, 0, 0, 5, 0, 0, 0, 0, 8, 0, 0, 7, 9,
    ];
    let expected = [
        " 5 3   ║   7   ║       ",
        " 6     ║ 1 9 5 ║       ",
        "   9 8 ║       ║   6   ",
        "═══════╬═══════╬═══════",
        " 8     ║   6   ║     3 ",
        " 4     ║ 8   3 ║     1 ",
        " 7     ║   2   ║     6 ",
        "═══════╬═══════╬═══════",
        "   6   ║       ║ 2 8   ",
        "       ║ 4 1 9 ║     5 ",
        "       ║   8   ║   7 9 ",
    ]
    .join("\n");
    assert_eq!(Sudoku::pretty(&sudoku), expected);
}

#[test]
fn pretty_of_an_empty_grid_is_empty() {
    assert_eq!(Sudoku::pretty(&[]), "");
}

#[test]
fn smallest_sudoku_has_one_cell() {
    let mut s = Sudoku::new_from_input(&[0]);
    assert_eq!(s.next(), Some(vec![1]));
    assert_eq!(s.next(), None);
}

#[test]
fn four_by_four_sudoku_counts() {
    // An empty grid of order 2 has 288 solutions.
    let s = Sudoku::new_from_input(&[0; 16]);
    assert_eq!(s.count(), 288);
}

#[test]
fn is_grid_tells_grids_from_other_inputs() {
    assert!(Sudoku::is_grid(&[]));
    assert!(Sudoku::is_grid(&[0]));
    assert!(Sudoku::is_grid(&[1]));
    // Too large a number for the grid.
    assert!(!Sudoku::is_grid(&[2]));
    // No fourth power of cells.
    assert!(!Sudoku::is_grid(&[0, 0]));
    assert!(!Sudoku::is_grid(&[0; 15]));
    assert!(Sudoku::is_grid(&[0; 16]));
    // The same number twice in a row, in a column, in a box.
    let mut row = [0; 16];
    row[0] = 3;
    row[3] = 3;
    assert!(!Sudoku::is_grid(&row));
    let mut col = [0; 16];
    col[1] = 2;
    col[13] = 2;
    assert!(!Sudoku::is_grid(&col));
    let mut boxed = [0; 16];
    boxed[0] = 4;
    boxed[5] = 4;
    assert!(!Sudoku::is_grid(&boxed));
    // The same number twice, but apart.
    let mut apart = [0; 16];
    apart[0] = 4;
    apart[6] = 4;
    assert!(Sudoku::is_grid(&apart));
}

#[test]
fn givens_are_kept_in_the_solutions() {
    let mut input = [0; 16];
    input[0] = 4;
    input[6] = 4;
    let mut s = Sudoku::new_from_input(&input);
    let mut n = 0;
    while let Some(grid) = s.next() {
        assert_eq!(grid[0], 4);
        assert_eq!(grid[6], 4);
        for r in 0..4 {
            let mut row: Vec<usize> = grid[4 * r..4 * r + 4].to_vec();
            row.sort();
            assert_eq!(row, vec![1, 2, 3, 4]);
        }
        n += 1;
    }
    assert!(n > 0);
}
