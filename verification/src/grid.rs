//! Geometry of the 9x9 grid: how a linear cell index 0..81 maps to its row,
//! column and 3x3 box, and which cells share a line.

use vstd::prelude::*;

verus! {

/// Row of the cell with linear index `i` (row-major layout).
pub open spec fn row_of(i: int) -> int {
    i / 9
}

/// Column of the cell with linear index `i`.
pub open spec fn col_of(i: int) -> int {
    i % 9
}

/// 3x3 box of the cell with linear index `i`. Boxes are numbered row-major:
/// box 0 is the top-left 3x3 region, box 8 the bottom-right one.
pub open spec fn box_of(i: int) -> int {
    (i % 9) / 3 + (i / 27) * 3
}

/// Membership of cell `i` in line `l` of the given kind
/// (0 = row, 1 = column, 2 = box).
pub open spec fn in_line(kind: int, l: int, i: int) -> bool {
    if kind == 0 {
        row_of(i) == l
    } else if kind == 1 {
        col_of(i) == l
    } else {
        box_of(i) == l
    }
}

/// The line of the given kind that covers cell `i`.
pub open spec fn line_of(kind: int, i: int) -> int {
    if kind == 0 {
        row_of(i)
    } else if kind == 1 {
        col_of(i)
    } else {
        box_of(i)
    }
}

/// Cells `i` and `j` share a row, a column or a box.
pub open spec fn same_line(i: int, j: int) -> bool {
    row_of(i) == row_of(j) || col_of(i) == col_of(j) || box_of(i) == box_of(j)
}

/// Sharing a line of some kind is the same as sharing a row, column or box.
pub proof fn lemma_same_line_kind(kind: int, i: int, j: int)
    requires
        0 <= kind < 3,
        line_of(kind, i) == line_of(kind, j),
    ensures
        same_line(i, j),
{
}

/// The `k`-th cell (0..9) of line `l` of the given kind.
pub open spec fn line_index(kind: int, l: int, k: int) -> int {
    if kind == 0 {
        l * 9 + k
    } else if kind == 1 {
        k * 9 + l
    } else {
        (l / 3) * 27 + (l % 3) * 3 + (k / 3) * 9 + (k % 3)
    }
}

/// `line_index` enumerates cells of the line, injectively in `k`.
pub proof fn lemma_line_index(kind: int, l: int, k: int)
    requires
        0 <= kind < 3,
        0 <= l < 9,
        0 <= k < 9,
    ensures
        0 <= line_index(kind, l, k) < 81,
        in_line(kind, l, line_index(kind, l, k)),
        kind == 0 ==> col_of(line_index(kind, l, k)) == k,
        kind == 1 ==> row_of(line_index(kind, l, k)) == k,
        kind == 2 ==> row_of(line_index(kind, l, k)) == (l / 3) * 3 + k / 3 && col_of(
            line_index(kind, l, k),
        ) == (l % 3) * 3 + (k % 3),
{
    let i = line_index(kind, l, k);
    if kind == 0 {
        vstd::arithmetic::div_mod::lemma_fundamental_div_mod_converse(i, 9, l, k);
    } else if kind == 1 {
        vstd::arithmetic::div_mod::lemma_fundamental_div_mod_converse(i, 9, k, l);
    } else {
        let q = l / 3;
        let s = l % 3;
        let u = k / 3;
        let t = k % 3;
        assert(i == (3 * q + u) * 9 + (3 * s + t)) by (nonlinear_arith)
            requires
                i == q * 27 + s * 3 + u * 9 + t,
        ;
        vstd::arithmetic::div_mod::lemma_fundamental_div_mod_converse(i, 9, 3 * q + u, 3 * s + t);
        vstd::arithmetic::div_mod::lemma_fundamental_div_mod_converse(3 * s + t, 3, s, t);
        assert(i == q * 27 + (u * 9 + s * 3 + t)) by (nonlinear_arith)
            requires
                i == q * 27 + s * 3 + u * 9 + t,
        ;
        vstd::arithmetic::div_mod::lemma_fundamental_div_mod_converse(i, 27, q, u * 9 + s * 3 + t);
        vstd::arithmetic::div_mod::lemma_fundamental_div_mod_converse(3 * q + u, 3, q, u);
    }
}

} // verus!
