use algorithms::sudoku::{
    exact_sqrt, givens_consistent, is_valid_placement, solve_grid, solve_sudoku, SudokuError,
};

fn cells(text: &str) -> Vec<u8> {
    text.split_whitespace().map(|s| s.parse::<u8>().unwrap()).collect()
}

fn check_solved(g: &[u8], n: usize) {
    let b = exact_sqrt(n).unwrap();
    for r in 0..n {
        let mut row: Vec<u8> = (0..n).map(|c| g[r * n + c]).collect();
        row.sort();
        assert_eq!(row, (1..=n as u8).collect::<Vec<u8>>());
        let mut col: Vec<u8> = (0..n).map(|c| g[c * n + r]).collect();
        col.sort();
        assert_eq!(col, (1..=n as u8).collect::<Vec<u8>>());
    }
    for br in 0..b {
        for bc in 0..b {
            let mut bx: Vec<u8> = Vec::new();
            for r in br * b..br * b + b {
                for c in bc * b..bc * b + b {
                    bx.push(g[r * n + c]);
                }
            }
            bx.sort();
            assert_eq!(bx, (1..=n as u8).collect::<Vec<u8>>());
        }
    }
}

const SOLVED_4: &str = "1 2 3 4 3 4 1 2 2 1 4 3 4 3 2 1";

const PUZZLE_9: &str = "5 3 0 0 7 0 0 0 0 \
    6 0 0 1 9 5 0 0 0 \
    0 9 8 0 0 0 0 6 0 \
    8 0 0 0 6 0 0 0 3 \
    4 0 0 8 0 3 0 0 1 \
    7 0 0 0 2 0 0 0 6 \
    0 6 0 0 0 0 2 8 0 \
    0 0 0 4 1 9 0 0 5 \
    0 0 0 0 8 0 0 7 9";

const SOLUTION_9: &str = "5 3 4 6 7 8 9 1 2 \
    6 7 2 1 9 5 3 4 8 \
    1 9 8 3 4 2 5 6 7 \
    8 5 9 7 6 1 4 2 3 \
    4 2 6 8 5 3 7 9 1 \
    7 1 3 9 2 4 8 5 6 \
    9 6 1 5 3 7 2 8 4 \
    2 8 7 4 1 9 6 3 5 \
    3 4 5 2 8 6 1 7 9";

#[test]
fn already_solved_grid_is_returned_unchanged() {
    let g = cells(SOLVED_4);
    assert_eq!(solve_grid(g.clone()), Ok(g.clone()));
    assert_eq!(solve_sudoku(g.clone(), 4), Ok(g));
}

#[test]
fn one_empty_cell_is_forced() {
    let g = cells("0 2 3 4 3 4 1 2 2 1 4 3 4 3 2 1");
    assert_eq!(solve_grid(g), Ok(cells(SOLVED_4)));
}

#[test]
fn standard_nine_by_nine_puzzle() {
    let g = cells(PUZZLE_9);
    assert_eq!(g.iter().filter(|&&v| v != 0).count(), 30);
    let s = solve_grid(g.clone()).unwrap();
    check_solved(&s, 9);
    for i in 0..81 {
        if g[i] != 0 {
            assert_eq!(s[i], g[i]);
        }
    }
    assert_eq!(s, cells(SOLUTION_9));
}

#[test]
fn length_ten_is_malformed() {
    let g = vec![0u8; 10];
    assert_eq!(solve_grid(g), Err(SudokuError::MalformedInput));
}

#[test]
fn solving_is_deterministic() {
    let g = cells(PUZZLE_9);
    assert_eq!(solve_grid(g.clone()), solve_grid(g.clone()));
    let empty = vec![0u8; 16];
    let first = solve_grid(empty.clone());
    assert_eq!(first, solve_grid(empty));
    assert_eq!(first, Ok(cells("1 2 3 4 3 4 1 2 2 1 4 3 4 3 2 1")));
}

#[test]
fn duplicate_givens_are_rejected() {
    // two 1s in the first row
    let row = cells("1 1 0 0 0 0 0 0 0 0 0 0 0 0 0 0");
    assert_eq!(solve_grid(row), Err(SudokuError::MalformedInput));
    // two 2s in the first column
    let col = cells("2 0 0 0 0 0 0 0 2 0 0 0 0 0 0 0");
    assert_eq!(solve_grid(col), Err(SudokuError::MalformedInput));
    // two 3s in the top-left box
    let bx = cells("3 0 0 0 0 3 0 0 0 0 0 0 0 0 0 0");
    assert_eq!(solve_grid(bx), Err(SudokuError::MalformedInput));
    // a complete grid with a repeated value
    let full = cells("1 2 3 4 3 4 1 2 2 1 4 3 4 3 1 2");
    assert_eq!(solve_grid(full), Err(SudokuError::MalformedInput));
}

#[test]
fn value_above_side_is_malformed() {
    let g = cells("5 0 0 0 0 0 0 0 0 0 0 0 0 0 0 0");
    assert_eq!(solve_sudoku(g, 4), Err(SudokuError::MalformedInput));
}

#[test]
fn wrong_length_for_side_is_malformed() {
    assert_eq!(solve_sudoku(vec![0u8; 15], 4), Err(SudokuError::MalformedInput));
    assert_eq!(solve_sudoku(vec![0u8; 81], usize::MAX), Err(SudokuError::MalformedInput));
}

#[test]
fn side_without_square_boxes_is_unsupported() {
    assert_eq!(solve_grid(vec![0u8; 4]), Err(SudokuError::GeometryUnsupported));
    assert_eq!(solve_sudoku(vec![0u8; 36], 6), Err(SudokuError::GeometryUnsupported));
    assert_eq!(solve_sudoku(vec![0u8; 256 * 256], 256), Err(SudokuError::GeometryUnsupported));
}

#[test]
fn contradictory_puzzle_is_unsatisfiable() {
    // Cell (0, 0) sees 2 and 3 in its row and 4 in its column, and 1 in its box,
    // while no given repeats.
    let g = cells("0 0 2 3 0 1 0 0 4 0 0 0 0 0 0 0");
    assert_eq!(solve_grid(g), Err(SudokuError::Unsatisfiable));
}

#[test]
fn single_cell_grid() {
    assert_eq!(solve_grid(vec![0]), Ok(vec![1]));
    assert_eq!(solve_grid(vec![]), Ok(vec![]));
}

#[test]
fn square_roots() {
    assert_eq!(exact_sqrt(0), Some(0));
    assert_eq!(exact_sqrt(1), Some(1));
    assert_eq!(exact_sqrt(4), Some(2));
    assert_eq!(exact_sqrt(9), Some(3));
    assert_eq!(exact_sqrt(16), Some(4));
    assert_eq!(exact_sqrt(25), Some(5));
    assert_eq!(exact_sqrt(36), Some(6));
    assert_eq!(exact_sqrt(10), None);
    assert_eq!(exact_sqrt(2), None);
    assert_eq!(exact_sqrt(65025), Some(255));
}

#[test]
fn placement_checks_row_column_and_box() {
    let g = cells("0 2 0 0 0 0 0 0 0 0 0 0 0 0 0 0");
    assert!(!is_valid_placement(&g, 4, 0, 3, 2));
    assert!(!is_valid_placement(&g, 4, 3, 1, 2));
    assert!(!is_valid_placement(&g, 4, 1, 0, 2));
    assert!(is_valid_placement(&g, 4, 2, 0, 2));
    assert!(is_valid_placement(&g, 4, 0, 0, 1));
    // the target cell's own value is not looked at
    assert!(is_valid_placement(&g, 4, 0, 1, 2));
}

#[test]
fn consistency_check() {
    assert!(givens_consistent(&cells(SOLVED_4), 4, 2));
    assert!(!givens_consistent(&cells("1 1 0 0 0 0 0 0 0 0 0 0 0 0 0 0"), 4, 2));
    assert!(!givens_consistent(&cells("9 0 0 0 0 0 0 0 0 0 0 0 0 0 0 0"), 4, 2));
}
