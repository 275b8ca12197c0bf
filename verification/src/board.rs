//! The board: 81 cells plus the occupancy state of each row, column and box,
//! kept consistent with the cells after every mutation.
//!
//! The consistency invariant is [`Board::wf`]: a line state records digit `d`
//! exactly when some cell of that line holds `d`, and no line holds a digit
//! twice. `place` commits a digit to the cells and to all three covering
//! line states atomically, or fails without touching anything.

use vstd::pervasive::VecAdditionalExecFns;
use vstd::prelude::*;

use crate::digit::{dv, Value};
use crate::grid::{in_line, lemma_same_line_kind, line_of, same_line};
use crate::line::LineState;

verus! {

/// Some cell of line `l` (of the given kind) holds digit `d`.
pub open spec fn line_has(cells: Seq<Value>, kind: int, l: int, d: int) -> bool {
    exists|i: int| 0 <= i < 81 && #[trigger] in_line(kind, l, i) && dv(cells[i]) == d
}

/// No two distinct cells of a common line hold the same non-blank digit.
pub open spec fn no_dups(cells: Seq<Value>) -> bool {
    forall|i: int, j: int|
        #![trigger dv(cells[i]), dv(cells[j])]
        0 <= i < 81 && 0 <= j < 81 && i != j && same_line(i, j) && dv(cells[i]) != 0 ==> dv(
            cells[i],
        ) != dv(cells[j])
}

/// No cell sharing a line with `loc` holds digit `d`, so `d` may be placed
/// at `loc` without violating uniqueness.
pub open spec fn place_free(cells: Seq<Value>, loc: int, d: int) -> bool {
    forall|j: int| 0 <= j < 81 && #[trigger] same_line(loc, j) ==> dv(cells[j]) != d
}

/// The board: the 81 cells and the nine occupancy states of each line kind.
pub struct Board {
    pub values: Vec<Value>,
    pub row_states: Vec<LineState>,
    pub column_states: Vec<LineState>,
    pub square_states: Vec<LineState>,
}

impl Board {
    /// The occupancy state of line `l` of the given kind
    /// (0 = row, 1 = column, 2 = box).
    pub open spec fn state_at(self, kind: int, l: int) -> LineState {
        if kind == 0 {
            self.row_states@[l]
        } else if kind == 1 {
            self.column_states@[l]
        } else {
            self.square_states@[l]
        }
    }

    /// The board invariant: every line state records digit `d` exactly when
    /// some cell of that line holds `d`, and no line repeats a digit.
    pub open spec fn wf(self) -> bool {
        &&& self.values@.len() == 81
        &&& self.row_states@.len() == 9
        &&& self.column_states@.len() == 9
        &&& self.square_states@.len() == 9
        &&& forall|kind: int, l: int, d: int|
            0 <= kind < 3 && 0 <= l < 9 && 1 <= d <= 9 ==> ((#[trigger] self.state_at(
                kind,
                l,
            ).has(d)) <==> line_has(self.values@, kind, l, d))
        &&& no_dups(self.values@)
    }

    /// An all-empty board.
    pub fn new() -> (b: Board)
        ensures
            b.wf(),
            forall|i: int| 0 <= i < 81 ==> dv(#[trigger] b.values@[i]) == 0,
    {
        let mut values: Vec<Value> = Vec::new();
        let mut i: usize = 0;
        while i < 81
            invariant
                i <= 81,
                values@.len() == i as int,
                forall|k: int| 0 <= k < i as int ==> #[trigger] values@[k] == Value::Blank,
            decreases 81 - i,
        {
            values.push(Value::Blank);
            i = i + 1;
        }
        let b = Board {
            values,
            row_states: Self::empty_states(),
            column_states: Self::empty_states(),
            square_states: Self::empty_states(),
        };
        proof {
            assert forall|kind: int, l: int, d: int|
                0 <= kind < 3 && 0 <= l < 9 && 1 <= d <= 9 implies ((#[trigger] b.state_at(
                kind,
                l,
            ).has(d)) <==> line_has(b.values@, kind, l, d)) by {
                assert(!b.state_at(kind, l).has(d));
                assert(!line_has(b.values@, kind, l, d));
            }
        }
        b
    }

    /// Nine empty line states.
    fn empty_states() -> (r: Vec<LineState>)
        ensures
            r@.len() == 9,
            forall|l: int, d: int| 0 <= l < 9 && 1 <= d <= 9 ==> !(#[trigger] r@[l].has(d)),
    {
        let mut states: Vec<LineState> = Vec::new();
        let mut i: usize = 0;
        while i < 9
            invariant
                i <= 9,
                states@.len() == i as int,
                forall|l: int, d: int|
                    0 <= l < i as int && 1 <= d <= 9 ==> !(#[trigger] states@[l].has(d)),
            decreases 9 - i,
        {
            states.push(LineState::empty());
            i = i + 1;
        }
        states
    }

    /// Places digit `v` in blank cell `location`: computes the three
    /// tentative covering line states and commits all of them together with
    /// the cell, or fails without mutating anything if any covering line
    /// already holds the digit.
    pub fn place(&mut self, location: usize, v: &Value) -> (r: Result<(), ()>)
        requires
            old(self).wf(),
            location < 81,
            1 <= dv(*v) <= 9,
            dv(old(self).values@[location as int]) == 0,
        ensures
            final(self).wf(),
            r is Ok <==> place_free(old(self).values@, location as int, dv(*v)),
            r is Ok ==> final(self).values@ == old(self).values@.update(location as int, *v),
            r is Err ==> *final(self) == *old(self),
    {
        let ghost loc = location as int;
        let ghost d0 = dv(*v);
        let ghost co = self.values@;

        let column_index = location % 9;
        let row_index = location / 9;
        let square_index = (location % 9) / 3 + location / 27 * 3;

        let new_column_state = match self.column_states[column_index].add(v) {
            Ok(s) => s,
            Err(()) => {
                proof {
                    assert(self.state_at(1, loc % 9).has(d0));
                    assert(line_has(co, 1, loc % 9, d0));
                    let i = choose|i: int|
                        0 <= i < 81 && #[trigger] in_line(1, loc % 9, i) && dv(co[i]) == d0;
                    lemma_same_line_kind(1, loc, i);
                    assert(!place_free(co, loc, d0));
                }
                return Err(());
            },
        };
        let new_row_state = match self.row_states[row_index].add(v) {
            Ok(s) => s,
            Err(()) => {
                proof {
                    assert(self.state_at(0, loc / 9).has(d0));
                    assert(line_has(co, 0, loc / 9, d0));
                    let i = choose|i: int|
                        0 <= i < 81 && #[trigger] in_line(0, loc / 9, i) && dv(co[i]) == d0;
                    lemma_same_line_kind(0, loc, i);
                    assert(!place_free(co, loc, d0));
                }
                return Err(());
            },
        };
        let new_square_state = match self.square_states[square_index].add(v) {
            Ok(s) => s,
            Err(()) => {
                proof {
                    assert(self.state_at(2, crate::grid::box_of(loc)).has(d0));
                    assert(line_has(co, 2, crate::grid::box_of(loc), d0));
                    let i = choose|i: int|
                        0 <= i < 81 && #[trigger] in_line(2, crate::grid::box_of(loc), i) && dv(
                            co[i],
                        ) == d0;
                    lemma_same_line_kind(2, loc, i);
                    assert(!place_free(co, loc, d0));
                }
                return Err(());
            },
        };

        self.column_states.set(column_index, new_column_state);
        self.row_states.set(row_index, new_row_state);
        self.square_states.set(square_index, new_square_state);
        self.values.set(location, *v);

        proof {
            let cn = self.values@;
            let pre = *old(self);

            // No cell sharing a line with `loc` held the digit: otherwise one
            // of the three succeeded `add` calls would have failed.
            assert forall|j: int| 0 <= j < 81 && #[trigger] same_line(loc, j) implies dv(co[j])
                != d0 by {
                if dv(co[j]) == d0 {
                    if crate::grid::row_of(j) == crate::grid::row_of(loc) {
                        assert(in_line(0, loc / 9, j));
                        assert(line_has(co, 0, loc / 9, d0));
                        assert(pre.state_at(0, loc / 9).has(d0));
                    } else if crate::grid::col_of(j) == crate::grid::col_of(loc) {
                        assert(in_line(1, loc % 9, j));
                        assert(line_has(co, 1, loc % 9, d0));
                        assert(pre.state_at(1, loc % 9).has(d0));
                    } else {
                        assert(in_line(2, crate::grid::box_of(loc), j));
                        assert(line_has(co, 2, crate::grid::box_of(loc), d0));
                        assert(pre.state_at(2, crate::grid::box_of(loc)).has(d0));
                    }
                }
            }
            assert(place_free(co, loc, d0));

            // The line states stay consistent with the updated cells.
            assert forall|kind: int, l: int, d: int|
                0 <= kind < 3 && 0 <= l < 9 && 1 <= d <= 9 implies ((#[trigger] self.state_at(
                kind,
                l,
            ).has(d)) <==> line_has(cn, kind, l, d)) by {
                if l == line_of(kind, loc) {
                    assert(in_line(kind, l, loc));
                    // The covering state gained exactly the bit of `d0`.
                    assert(self.state_at(kind, l).has(d) <==> (pre.state_at(kind, l).has(d) || d
                        == d0));
                    if self.state_at(kind, l).has(d) {
                        if d == d0 {
                            assert(dv(cn[loc]) == d0);
                            assert(line_has(cn, kind, l, d));
                        } else {
                            let i = choose|i: int|
                                0 <= i < 81 && #[trigger] in_line(kind, l, i) && dv(co[i]) == d;
                            assert(i != loc);
                            assert(dv(cn[i]) == d);
                            assert(line_has(cn, kind, l, d));
                        }
                    }
                    if line_has(cn, kind, l, d) {
                        let i = choose|i: int|
                            0 <= i < 81 && #[trigger] in_line(kind, l, i) && dv(cn[i]) == d;
                        if i == loc {
                            assert(d == d0);
                        } else {
                            assert(dv(co[i]) == d);
                            assert(line_has(co, kind, l, d));
                        }
                    }
                } else {
                    assert(self.state_at(kind, l) == pre.state_at(kind, l));
                    assert(!in_line(kind, l, loc));
                    if pre.state_at(kind, l).has(d) {
                        let i = choose|i: int|
                            0 <= i < 81 && #[trigger] in_line(kind, l, i) && dv(co[i]) == d;
                        assert(i != loc);
                        assert(dv(cn[i]) == d);
                        assert(line_has(cn, kind, l, d));
                    }
                    if line_has(cn, kind, l, d) {
                        let i = choose|i: int|
                            0 <= i < 81 && #[trigger] in_line(kind, l, i) && dv(cn[i]) == d;
                        assert(i != loc);
                        assert(dv(co[i]) == d);
                        assert(line_has(co, kind, l, d));
                    }
                }
            }

            // Uniqueness along every line still holds.
            assert forall|i: int, j: int|
                #![trigger dv(cn[i]), dv(cn[j])]
                0 <= i < 81 && 0 <= j < 81 && i != j && same_line(i, j) && dv(cn[i])
                    != 0 implies dv(cn[i]) != dv(cn[j]) by {
                if i == loc {
                    assert(same_line(loc, j));
                    assert(dv(co[j]) != d0);
                } else if j == loc {
                    assert(same_line(i, j) ==> same_line(loc, i));
                    assert(dv(co[i]) != d0);
                } else {
                    assert(dv(cn[i]) == dv(co[i]) && dv(cn[j]) == dv(co[j]));
                }
            }
        }
        Ok(())
    }

    /// Clears cell `location`, whose current content is `v`: removes the
    /// digit (if any) from the three covering line states and blanks the
    /// cell. Clearing an already blank cell changes nothing.
    pub fn clear(&mut self, location: usize, v: &Value)
        requires
            old(self).wf(),
            location < 81,
            old(self).values@[location as int] == *v,
        ensures
            final(self).wf(),
            final(self).values@ == old(self).values@.update(location as int, Value::Blank),
    {
        let ghost loc = location as int;
        let ghost d0 = dv(*v);
        let ghost co = self.values@;

        let column_index = location % 9;
        let row_index = location / 9;
        let square_index = (location % 9) / 3 + location / 27 * 3;

        let new_column_state = self.column_states[column_index].remove(v);
        let new_row_state = self.row_states[row_index].remove(v);
        let new_square_state = self.square_states[square_index].remove(v);

        self.column_states.set(column_index, new_column_state);
        self.row_states.set(row_index, new_row_state);
        self.square_states.set(square_index, new_square_state);
        self.values.set(location, Value::Blank);

        proof {
            let cn = self.values@;
            let pre = *old(self);
            crate::digit::lemma_dv_range(*v);

            assert forall|kind: int, l: int, d: int|
                0 <= kind < 3 && 0 <= l < 9 && 1 <= d <= 9 implies ((#[trigger] self.state_at(
                kind,
                l,
            ).has(d)) <==> line_has(cn, kind, l, d)) by {
                if l == line_of(kind, loc) {
                    assert(in_line(kind, l, loc));
                    // The covering state lost exactly the bit of `d0`.
                    assert(self.state_at(kind, l).has(d) <==> (pre.state_at(kind, l).has(d) && d
                        != d0));
                    if self.state_at(kind, l).has(d) {
                        let i = choose|i: int|
                            0 <= i < 81 && #[trigger] in_line(kind, l, i) && dv(co[i]) == d;
                        assert(i != loc);
                        assert(dv(cn[i]) == d);
                        assert(line_has(cn, kind, l, d));
                    }
                    if line_has(cn, kind, l, d) {
                        let i = choose|i: int|
                            0 <= i < 81 && #[trigger] in_line(kind, l, i) && dv(cn[i]) == d;
                        assert(i != loc);
                        assert(dv(co[i]) == d);
                        assert(line_has(co, kind, l, d));
                        if d == d0 {
                            // Cell `i` would repeat the digit of `loc` within
                            // a common line, against the uniqueness invariant.
                            lemma_same_line_kind(kind, loc, i);
                            assert(dv(co[loc]) == d0 && dv(co[loc]) != 0);
                            assert(false);
                        }
                    }
                } else {
                    assert(self.state_at(kind, l) == pre.state_at(kind, l));
                    assert(!in_line(kind, l, loc));
                    if pre.state_at(kind, l).has(d) {
                        let i = choose|i: int|
                            0 <= i < 81 && #[trigger] in_line(kind, l, i) && dv(co[i]) == d;
                        assert(i != loc);
                        assert(dv(cn[i]) == d);
                        assert(line_has(cn, kind, l, d));
                    }
                    if line_has(cn, kind, l, d) {
                        let i = choose|i: int|
                            0 <= i < 81 && #[trigger] in_line(kind, l, i) && dv(cn[i]) == d;
                        assert(i != loc);
                        assert(dv(co[i]) == d);
                        assert(line_has(co, kind, l, d));
                    }
                }
            }

            assert forall|i: int, j: int|
                #![trigger dv(cn[i]), dv(cn[j])]
                0 <= i < 81 && 0 <= j < 81 && i != j && same_line(i, j) && dv(cn[i])
                    != 0 implies dv(cn[i]) != dv(cn[j]) by {
                if i != loc && j != loc {
                    assert(dv(cn[i]) == dv(co[i]) && dv(cn[j]) == dv(co[j]));
                }
            }
        }
    }

    /// Builds a board from 81 given cells by placing every non-blank one,
    /// failing exactly when the givens repeat a digit within a line.
    pub fn from_givens(givens: &Vec<Value>) -> (r: Result<Board, ()>)
        requires
            givens@.len() == 81,
        ensures
            r is Ok <==> no_dups(givens@),
            r matches Ok(b) ==> b.wf() && b.values@ == givens@,
    {
        let mut board = Board::new();
        let mut i: usize = 0;
        while i < 81
            invariant
                i <= 81,
                givens@.len() == 81,
                board.wf(),
                forall|k: int| 0 <= k < i as int ==> #[trigger] board.values@[k] == givens@[k],
                forall|k: int| i as int <= k < 81 ==> dv(#[trigger] board.values@[k]) == 0,
            decreases 81 - i,
        {
            let v = givens[i];
            if !v.is_blank() {
                let ghost pre = board.values@;
                match board.place(i, &v) {
                    Ok(()) => {},
                    Err(()) => {
                        proof {
                            // The failed placement exhibits a duplicate pair
                            // within the givens themselves.
                            let j = choose|j: int|
                                0 <= j < 81 && #[trigger] same_line(i as int, j) && dv(pre[j]) == dv(
                                    v,
                                );
                            assert(j < i as int);
                            assert(dv(givens@[j]) == dv(givens@[i as int]));
                            assert(dv(givens@[j]) != 0);
                            assert(!no_dups(givens@));
                        }
                        return Err(());
                    },
                }
            } else {
                proof {
                    crate::digit::lemma_dv_injective(v, Value::Blank);
                }
            }
            i = i + 1;
        }
        proof {
            assert(board.values@ =~= givens@);
        }
        Ok(board)
    }
}

} // verus!
