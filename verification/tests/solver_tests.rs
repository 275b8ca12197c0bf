use solver::{solve, SolveError};

/// A complete valid grid: the classic shifted pattern, in which the cell at
/// row `r`, column `c` holds `(r * 3 + r / 3 + c) % 9 + 1`.
fn base_grid() -> Vec<i32> {
    let mut g = Vec::new();
    for r in 0..9 {
        for c in 0..9 {
            g.push(((r * 3 + r / 3 + c) % 9 + 1) as i32);
        }
    }
    g
}

/// Checks that `out` is a fully filled grid in which every row, column and
/// box holds each digit 1..9 exactly once.
fn assert_solved(out: &[i32]) {
    assert_eq!(out.len(), 81);
    for &v in out.iter() {
        assert!((1..=9).contains(&v));
    }
    for line in 0..9 {
        let mut row = [false; 10];
        let mut col = [false; 10];
        let mut boxx = [false; 10];
        for k in 0..9 {
            let ri = line * 9 + k;
            let ci = k * 9 + line;
            let bi = (line / 3) * 27 + (line % 3) * 3 + (k / 3) * 9 + k % 3;
            assert!(!row[out[ri] as usize], "row {} repeats {}", line, out[ri]);
            row[out[ri] as usize] = true;
            assert!(!col[out[ci] as usize], "column {} repeats {}", line, out[ci]);
            col[out[ci] as usize] = true;
            assert!(!boxx[out[bi] as usize], "box {} repeats {}", line, out[bi]);
            boxx[out[bi] as usize] = true;
        }
    }
}

#[test]
fn complete_valid_input_solves_to_itself() {
    let g = base_grid();
    assert_eq!(solve(&g), Ok(g));
}

#[test]
fn known_puzzle_reaches_documented_solution() {
    // One blank per row (on the main diagonal), so each blank is forced by
    // its row and the unique solution is the base grid itself.
    let full = base_grid();
    let mut puzzle = full.clone();
    for r in 0..9 {
        puzzle[r * 9 + r] = 0;
    }
    assert_eq!(solve(&puzzle), Ok(full));
}

#[test]
fn row_conflict_rejected() {
    let mut puzzle = vec![0; 81];
    puzzle[0] = 5;
    puzzle[8] = 5;
    assert_eq!(solve(&puzzle), Err(SolveError::InvalidInput));
}

#[test]
fn column_conflict_rejected() {
    let mut puzzle = vec![0; 81];
    puzzle[3] = 7;
    puzzle[3 + 72] = 7;
    assert_eq!(solve(&puzzle), Err(SolveError::InvalidInput));
}

#[test]
fn box_conflict_rejected() {
    let mut puzzle = vec![0; 81];
    puzzle[0] = 4; // row 0, column 0
    puzzle[10] = 4; // row 1, column 1: same box, different row and column
    assert_eq!(solve(&puzzle), Err(SolveError::InvalidInput));
}

#[test]
fn unsolvable_detected() {
    // Row 0 holds 2..9 and leaves its first cell blank; a 1 below it in
    // column 0 removes the only remaining candidate, so no completion
    // exists although the givens are conflict-free.
    let mut puzzle = vec![0; 81];
    for c in 1..9 {
        puzzle[c] = (c + 1) as i32;
    }
    puzzle[9] = 1;
    assert_eq!(solve(&puzzle), Err(SolveError::Unsolvable));
}

#[test]
fn value_above_range_is_domain_error() {
    let mut puzzle = vec![0; 81];
    puzzle[40] = 10;
    assert_eq!(solve(&puzzle), Err(SolveError::DomainError));
}

#[test]
fn negative_value_is_domain_error() {
    let mut puzzle = vec![0; 81];
    puzzle[7] = -3;
    assert_eq!(solve(&puzzle), Err(SolveError::DomainError));
}

#[test]
fn domain_error_takes_precedence_over_conflicts() {
    let mut puzzle = vec![0; 81];
    puzzle[0] = 5;
    puzzle[1] = 5;
    puzzle[80] = 12;
    assert_eq!(solve(&puzzle), Err(SolveError::DomainError));
}

#[test]
fn empty_grid_is_completed() {
    let puzzle = vec![0; 81];
    let out = solve(&puzzle).expect("an empty grid has completions");
    assert_solved(&out);
    // Cells are visited in raster order and candidates in ascending order,
    // so the first rows take the smallest digits available.
    assert_eq!(&out[0..9], &[1, 2, 3, 4, 5, 6, 7, 8, 9]);
    assert_eq!(&out[9..18], &[4, 5, 6, 7, 8, 9, 1, 2, 3]);
    assert_eq!(&out[18..27], &[7, 8, 9, 1, 2, 3, 4, 5, 6]);
}

#[test]
fn solution_preserves_givens() {
    let mut puzzle = vec![0; 81];
    puzzle[0] = 6;
    puzzle[12] = 3;
    puzzle[25] = 9;
    puzzle[44] = 1;
    puzzle[60] = 8;
    puzzle[80] = 2;
    let out = solve(&puzzle).expect("this sparse grid has completions");
    assert_solved(&out);
    for i in 0..81 {
        if puzzle[i] != 0 {
            assert_eq!(out[i], puzzle[i]);
        }
    }
}

#[test]
fn repeated_solves_are_identical() {
    let mut puzzle = vec![0; 81];
    puzzle[2] = 4;
    puzzle[19] = 7;
    puzzle[37] = 2;
    puzzle[55] = 5;
    puzzle[73] = 9;
    let first = solve(&puzzle);
    let second = solve(&puzzle);
    assert_eq!(first, second);
    let third = solve(&puzzle);
    assert_eq!(first, third);
}
