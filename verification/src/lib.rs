//! A 9x9 Sudoku solver.
//!
//! A puzzle is a row-major grid of 81 cells, each blank or holding a digit
//! 1..9. The solver completes the grid so that every row, column and 3x3 box
//! holds each digit exactly once, or reports that the givens already conflict
//! (`InvalidInput`) or that no completion exists (`Unsolvable`).

pub mod board;
pub mod digit;
pub mod engine;
pub mod grid;
pub mod line;

use vstd::prelude::*;

use crate::board::{no_dups, Board};
use crate::digit::{dv, Value};

verus! {

/// How a solve request can fail.
#[derive(Debug, Clone, Copy, PartialEq, Eq, Structural)]
pub enum SolveError {
    /// Some input value lies outside 0..=9.
    DomainError,
    /// The given digits already violate a row, column or box constraint.
    InvalidInput,
    /// The givens are consistent but admit no completed grid.
    Unsolvable,
}

/// Every value of the input grid lies in 0..=9 (0 denotes a blank cell).
pub open spec fn in_range(s: Seq<i32>) -> bool {
    forall|i: int| 0 <= i < 81 ==> 0 <= #[trigger] s[i] <= 9
}

/// Two distinct cells of the same row, column or box hold the same
/// non-blank value.
pub open spec fn has_conflict(s: Seq<i32>) -> bool {
    exists|i: int, j: int|
        #![trigger s[i], s[j]]
        0 <= i < 81 && 0 <= j < 81 && i != j && crate::grid::same_line(i, j) && s[i] != 0 && s[i]
            == s[j]
}

/// The grid is completely filled with digits 1..9 and no row, column or box
/// repeats a digit.
pub open spec fn solved_grid(s: Seq<i32>) -> bool {
    &&& s.len() == 81
    &&& forall|i: int| 0 <= i < 81 ==> 1 <= #[trigger] s[i] <= 9
    &&& !has_conflict(s)
}

/// `c` is a solution of `puzzle`: a fully filled conflict-free grid that
/// agrees with every non-blank cell of the puzzle.
pub open spec fn is_solution_of(c: Seq<int>, puzzle: Seq<i32>) -> bool {
    &&& c.len() == 81
    &&& forall|j: int| 0 <= j < 81 ==> 1 <= #[trigger] c[j] <= 9
    &&& forall|i: int, j: int|
        #![trigger c[i], c[j]]
        0 <= i < 81 && 0 <= j < 81 && i != j && crate::grid::same_line(i, j) ==> c[i] != c[j]
    &&& forall|j: int| 0 <= j < 81 && #[trigger] puzzle[j] != 0 ==> c[j] == puzzle[j]
}

/// The numeric grid read as a sequence of unbounded integers.
pub open spec fn grid_int(s: Seq<i32>) -> Seq<int> {
    Seq::new(s.len(), |i: int| s[i] as int)
}

/// `c` agrees with the first `j` cells of `out`.
pub open spec fn agrees_up_to(c: Seq<int>, out: Seq<i32>, j: int) -> bool {
    forall|i: int| 0 <= i < j ==> c[i] == #[trigger] out[i]
}

/// `out` is the pointwise lexicographically least solution in raster order:
/// wherever a solution agrees with it on all earlier cells, its digit is at
/// least the one in `out`.
pub open spec fn lex_least_solution(out: Seq<i32>, puzzle: Seq<i32>) -> bool {
    forall|c: Seq<int>, j: int|
        is_solution_of(c, puzzle) && 0 <= j < 81 && #[trigger] agrees_up_to(c, out, j) ==> c[j]
            >= out[j]
}

/// Determinism: solvable puzzles have exactly one lexicographically least
/// solution, so any two grids that both solve the puzzle and are both least
/// — as every output of `solve` is — coincide cell for cell.
pub proof fn lemma_least_solution_unique(out1: Seq<i32>, out2: Seq<i32>, puzzle: Seq<i32>)
    requires
        out1.len() == 81,
        out2.len() == 81,
        is_solution_of(grid_int(out1), puzzle),
        is_solution_of(grid_int(out2), puzzle),
        lex_least_solution(out1, puzzle),
        lex_least_solution(out2, puzzle),
    ensures
        out1 == out2,
{
    lemma_least_agree(out1, out2, puzzle, 81);
    assert forall|i: int| 0 <= i < 81 implies out1[i] == #[trigger] out2[i] by {}
    assert(out1 =~= out2);
}

/// Two least solutions agree on their first `j` cells.
proof fn lemma_least_agree(out1: Seq<i32>, out2: Seq<i32>, puzzle: Seq<i32>, j: int)
    requires
        out1.len() == 81,
        out2.len() == 81,
        0 <= j <= 81,
        is_solution_of(grid_int(out1), puzzle),
        is_solution_of(grid_int(out2), puzzle),
        lex_least_solution(out1, puzzle),
        lex_least_solution(out2, puzzle),
    ensures
        forall|i: int| 0 <= i < j ==> out1[i] == #[trigger] out2[i],
    decreases j,
{
    if j > 0 {
        lemma_least_agree(out1, out2, puzzle, j - 1);
        assert(agrees_up_to(grid_int(out2), out1, j - 1)) by {
            assert forall|i: int| 0 <= i < j - 1 implies grid_int(out2)[i]
                == #[trigger] out1[i] by {
                assert(out1[i] == out2[i]);
            }
        }
        assert(agrees_up_to(grid_int(out1), out2, j - 1)) by {
            assert forall|i: int| 0 <= i < j - 1 implies grid_int(out1)[i]
                == #[trigger] out2[i] by {
                assert(out1[i] == out2[i]);
            }
        }
        assert(grid_int(out2)[j - 1] >= out1[j - 1]);
        assert(grid_int(out1)[j - 1] >= out2[j - 1]);
        assert(out1[j - 1] == out2[j - 1]);
    }
}

/// Solutions of the numeric puzzle are exactly completions of its cell grid.
proof fn lemma_solution_bridge(puzzle: Seq<i32>, g: Seq<Value>, c: Seq<int>)
    requires
        puzzle.len() == 81,
        g.len() == 81,
        forall|i: int| 0 <= i < 81 ==> dv(#[trigger] g[i]) == puzzle[i],
    ensures
        is_solution_of(c, puzzle) == crate::engine::is_completion(c, g),
{
    if is_solution_of(c, puzzle) {
        assert forall|j: int| 0 <= j < 81 && dv(#[trigger] g[j]) != 0 implies c[j] == dv(g[j]) by {
            assert(puzzle[j] != 0);
        }
    }
    if crate::engine::is_completion(c, g) {
        assert forall|j: int| 0 <= j < 81 && #[trigger] puzzle[j] != 0 implies c[j] == puzzle[j] by {
            assert(dv(g[j]) != 0);
        }
    }
}

/// Digit `d` occurs somewhere in line `l` of the given kind
/// (0 = row, 1 = column, 2 = box).
pub open spec fn line_contains(s: Seq<i32>, kind: int, l: int, d: int) -> bool {
    exists|i: int|
        0 <= i < 81 && #[trigger] crate::grid::in_line(kind, l, i) && s[i] == d
}

/// In a solved grid, every row, column and box holds every digit 1..9: its
/// nine cells carry nine pairwise distinct values from a nine-element
/// domain, so the multiset of each line is exactly {1,...,9} — each digit
/// once (at least once by this lemma, at most once because a solved grid
/// has no conflicts).
pub proof fn lemma_solved_lines(s: Seq<i32>)
    requires
        solved_grid(s),
    ensures
        forall|kind: int, l: int, d: int|
            0 <= kind < 3 && 0 <= l < 9 && 1 <= d <= 9 ==> #[trigger] line_contains(s, kind, l, d),
{
    assert forall|kind: int, l: int, d: int|
        0 <= kind < 3 && 0 <= l < 9 && 1 <= d <= 9 implies #[trigger] line_contains(
        s,
        kind,
        l,
        d,
    ) by {
        lemma_line_full(s, kind, l, d);
    }
}

/// Pigeonhole at one line: nine distinct digits from 1..9 hit every digit.
proof fn lemma_line_full(s: Seq<i32>, kind: int, l: int, d: int)
    requires
        solved_grid(s),
        0 <= kind < 3,
        0 <= l < 9,
        1 <= d <= 9,
    ensures
        line_contains(s, kind, l, d),
{
    let digits = Seq::<int>::new(9, |k: int| s[crate::grid::line_index(kind, l, k)] as int);
    assert forall|k: int| 0 <= k < 9 implies 1 <= #[trigger] digits[k] <= 9 by {
        crate::grid::lemma_line_index(kind, l, k);
    }
    assert(digits.no_duplicates()) by {
        assert forall|k1: int, k2: int|
            0 <= k1 < 9 && 0 <= k2 < 9 && k1 != k2 implies digits[k1] != digits[k2] by {
            crate::grid::lemma_line_index(kind, l, k1);
            crate::grid::lemma_line_index(kind, l, k2);
            let i1 = crate::grid::line_index(kind, l, k1);
            let i2 = crate::grid::line_index(kind, l, k2);
            assert(i1 != i2);
            crate::grid::lemma_same_line_kind(kind, i1, i2);
            if s[i1] == s[i2] {
                assert(s[i1] != 0);
                assert(has_conflict(s));
            }
        }
    }
    digits.unique_seq_to_set();
    let range = vstd::set_lib::set_int_range(1, 10);
    vstd::set_lib::lemma_int_range(1, 10);
    assert(digits.to_set().subset_of(range)) by {
        assert forall|x: int| digits.to_set().contains(x) implies range.contains(x) by {
            let k = choose|k: int| 0 <= k < digits.len() && digits[k] == x;
            assert(1 <= digits[k] <= 9);
        }
    }
    if !digits.to_set().contains(d) {
        assert(digits.to_set().subset_of(range.remove(d)));
        vstd::set_lib::lemma_len_subset(digits.to_set(), range.remove(d));
        assert(range.remove(d).len() == 8);
        assert(false);
    }
    assert(digits.contains(d));
    let k = choose|k: int| 0 <= k < digits.len() && digits[k] == d;
    crate::grid::lemma_line_index(kind, l, k);
    assert(crate::grid::in_line(kind, l, crate::grid::line_index(kind, l, k)) && s[crate::grid::line_index(
        kind,
        l,
        k,
    )] == d);
}

/// A cell grid is free of duplicates exactly when its numeric image is free
/// of conflicts.
proof fn lemma_conflict_bridge(cells: Seq<Value>, s: Seq<i32>)
    requires
        cells.len() == 81,
        s.len() == 81,
        forall|i: int| 0 <= i < 81 ==> dv(#[trigger] cells[i]) == s[i],
    ensures
        no_dups(cells) <==> !has_conflict(s),
{
    if has_conflict(s) {
        let (i, j) = choose|i: int, j: int|
            #![trigger s[i], s[j]]
            0 <= i < 81 && 0 <= j < 81 && i != j && crate::grid::same_line(i, j) && s[i] != 0 && s[i]
                == s[j];
        assert(dv(cells[i]) != 0 && dv(cells[i]) == dv(cells[j]));
        assert(!no_dups(cells));
    }
    if !no_dups(cells) {
        let (i, j) = choose|i: int, j: int|
            #![trigger dv(cells[i]), dv(cells[j])]
            0 <= i < 81 && 0 <= j < 81 && i != j && crate::grid::same_line(i, j) && dv(cells[i])
                != 0 && dv(cells[i]) == dv(cells[j]);
        assert(s[i] != 0 && s[i] == s[j]);
        assert(has_conflict(s));
    }
}

/// Solves the puzzle: `puzzle` holds 81 values in row-major order, 0 for a
/// blank. On success the result is the completed grid; otherwise the error
/// says whether a value was out of range (`DomainError`), the givens already
/// conflict (`InvalidInput`), or no completion exists (`Unsolvable`). The
/// search is a pure function of the input: cells are visited in raster order
/// and candidates in ascending order, so equal inputs yield equal outputs.
pub fn solve(puzzle: &Vec<i32>) -> (r: Result<Vec<i32>, SolveError>)
    requires
        puzzle@.len() == 81,
    ensures
        (r matches Err(e) && e is DomainError) <==> !in_range(puzzle@),
        (r matches Err(e) && e is InvalidInput) <==> (in_range(puzzle@) && has_conflict(puzzle@)),
        (r matches Err(e) && e is Unsolvable) ==> (in_range(puzzle@) && !has_conflict(puzzle@)),
        (r matches Err(e) && e is Unsolvable) ==> (forall|c: Seq<int>| !is_solution_of(c, puzzle@)),
        r matches Ok(out) ==> is_solution_of(grid_int(out@), puzzle@) && lex_least_solution(
            out@,
            puzzle@,
        ),
        r matches Ok(out) ==> {
            &&& solved_grid(out@)
            &&& forall|i: int| 0 <= i < 81 && puzzle@[i] != 0 ==> out@[i] == #[trigger] puzzle@[i]
            &&& in_range(puzzle@)
            &&& !has_conflict(puzzle@)
        },
        (in_range(puzzle@) && !has_conflict(puzzle@) && (forall|i: int|
            0 <= i < 81 ==> #[trigger] puzzle@[i] != 0)) ==> (r matches Ok(out) && out@
            == puzzle@),
{
    let mut givens: Vec<Value> = Vec::new();
    let mut i: usize = 0;
    while i < 81
        invariant
            i <= 81,
            puzzle@.len() == 81,
            givens@.len() == i as int,
            forall|k: int| 0 <= k < i as int ==> dv(#[trigger] givens@[k]) == puzzle@[k],
            forall|k: int| 0 <= k < i as int ==> 0 <= #[trigger] puzzle@[k] <= 9,
        decreases 81 - i,
    {
        match Value::from_i32(puzzle[i]) {
            Some(v) => {
                givens.push(v);
            },
            None => {
                return Err(SolveError::DomainError);
            },
        }
        i = i + 1;
    }
    assert(in_range(puzzle@));

    let mut board = match Board::from_givens(&givens) {
        Ok(b) => b,
        Err(()) => {
            proof {
                lemma_conflict_bridge(givens@, puzzle@);
            }
            return Err(SolveError::InvalidInput);
        },
    };
    proof {
        lemma_conflict_bridge(givens@, puzzle@);
    }
    let ghost gseq = givens@;

    match board.solve() {
        Ok(()) => {},
        Err(()) => {
            proof {
                // Some cell of the givens is blank, else the search could
                // not have failed.
                assert(!(forall|k: int| 0 <= k < 81 ==> dv(#[trigger] gseq[k]) != 0));
                let k = choose|k: int| 0 <= k < 81 && dv(#[trigger] gseq[k]) == 0;
                assert(puzzle@[k] == 0);
                assert forall|c: Seq<int>| !is_solution_of(c, puzzle@) by {
                    lemma_solution_bridge(puzzle@, gseq, c);
                }
            }
            return Err(SolveError::Unsolvable);
        },
    }

    let mut out: Vec<i32> = Vec::new();
    let mut j: usize = 0;
    while j < 81
        invariant
            j <= 81,
            out@.len() == j as int,
            board.wf(),
            forall|k: int| 0 <= k < 81 ==> 1 <= dv(#[trigger] board.values@[k]) <= 9,
            forall|k: int|
                0 <= k < 81 && dv(#[trigger] gseq[k]) != 0 ==> board.values@[k] == gseq[k],
            forall|k: int| 0 <= k < j as int ==> #[trigger] out@[k] == dv(board.values@[k]),
        decreases 81 - j,
    {
        out.push(board.values[j].to_i32());
        j = j + 1;
    }
    proof {
        lemma_conflict_bridge(board.values@, out@);
        assert(!has_conflict(out@));
        assert forall|k: int| 0 <= k < 81 && puzzle@[k] != 0 implies out@[k]
            == #[trigger] puzzle@[k] by {
            assert(dv(gseq[k]) == puzzle@[k]);
            assert(board.values@[k] == gseq[k]);
        }
        if forall|k: int| 0 <= k < 81 ==> #[trigger] puzzle@[k] != 0 {
            assert forall|k: int| 0 <= k < 81 implies #[trigger] out@[k] == puzzle@[k] by {
                assert(puzzle@[k] != 0);
            }
            assert(out@ =~= puzzle@);
        }
        // The output is itself a solution, and the least one: the search
        // visits cells and candidates in ascending order.
        assert(is_solution_of(grid_int(out@), puzzle@)) by {
            let c = grid_int(out@);
            assert forall|i: int, j: int|
                #![trigger c[i], c[j]]
                0 <= i < 81 && 0 <= j < 81 && i != j && crate::grid::same_line(i, j) implies c[i]
                != c[j] by {
                assert(dv(board.values@[i]) != 0);
                assert(dv(board.values@[i]) != dv(board.values@[j]));
            }
        }
        assert(lex_least_solution(out@, puzzle@)) by {
            assert forall|c: Seq<int>, j: int|
                is_solution_of(c, puzzle@) && 0 <= j < 81 && #[trigger] agrees_up_to(
                    c,
                    out@,
                    j,
                ) implies c[j] >= out@[j] by {
                lemma_solution_bridge(puzzle@, gseq, c);
                assert(crate::engine::agrees_below(c, board.values@, j)) by {
                    assert forall|i: int| 0 <= i < j implies c[i] == dv(
                        #[trigger] board.values@[i],
                    ) by {
                        assert(c[i] == out@[i]);
                    }
                }
                assert(c[j] >= dv(board.values@[j]));
            }
        }
    }
    Ok(out)
}

} // verus!
