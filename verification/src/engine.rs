//! The backtracking search engine.
//!
//! The engine walks the cells in raster order. Given cells are skipped; for
//! each blank cell it tries the digits in ascending order, tracking its
//! progress in an explicit stack of `(cell, last tried digit)` frames — one
//! frame per blank cell it has entered. When a cell runs out of candidates
//! the top frame is popped and the search resumes at the previous blank cell
//! with its next candidate. The stack therefore never holds more frames than
//! the grid has blank cells ([`lemma_depth_bounded`]).

use vstd::pervasive::VecAdditionalExecFns;
use vstd::prelude::*;

use crate::board::Board;
use crate::digit::{dv, Value};

verus! {

/// One frame of the backtracking stack: a blank cell and the digit last
/// tried there (blank when no digit has been tried yet).
#[derive(Debug, Clone, Copy, PartialEq, Eq, Structural)]
pub struct SearchEntry {
    pub cell: usize,
    pub last: Value,
}

/// The backtracking stack: a fixed array of 81 slots indexed by a stack
/// pointer. Its view is the sequence of live frames, bottom first.
pub struct SearchStack {
    pub items: Vec<SearchEntry>,
    pub pointer: usize,
}

impl View for SearchStack {
    type V = Seq<SearchEntry>;

    open spec fn view(&self) -> Seq<SearchEntry> {
        self.items@.take(self.pointer as int)
    }
}

impl SearchStack {
    pub open spec fn wf(self) -> bool {
        self.items@.len() == 81 && self.pointer <= 81
    }

    /// An empty stack with all 81 slots allocated.
    pub fn new() -> (s: SearchStack)
        ensures
            s.wf(),
            s@ == Seq::<SearchEntry>::empty(),
    {
        let mut items: Vec<SearchEntry> = Vec::new();
        let mut i: usize = 0;
        while i < 81
            invariant
                i <= 81,
                items@.len() == i as int,
            decreases 81 - i,
        {
            items.push(SearchEntry { cell: 0, last: Value::Blank });
            i = i + 1;
        }
        let s = SearchStack { items, pointer: 0 };
        proof {
            assert(s@ =~= Seq::<SearchEntry>::empty());
        }
        s
    }

    pub fn is_empty(&self) -> (r: bool)
        requires
            self.wf(),
        ensures
            r == (self@.len() == 0),
    {
        self.pointer == 0
    }

    /// Pushes a frame. The caller must show that a slot is free, which holds
    /// throughout the search because the frames are distinct cells.
    pub fn push(&mut self, e: SearchEntry)
        requires
            old(self).wf(),
            old(self)@.len() < 81,
        ensures
            final(self).wf(),
            final(self)@ == old(self)@.push(e),
    {
        self.items.set(self.pointer, e);
        self.pointer = self.pointer + 1;
        proof {
            assert(self@ =~= old(self)@.push(e));
        }
    }

    pub fn pop(&mut self)
        requires
            old(self).wf(),
            old(self)@.len() >= 1,
        ensures
            final(self).wf(),
            final(self)@ == old(self)@.drop_last(),
    {
        self.pointer = self.pointer - 1;
        proof {
            assert(self@ =~= old(self)@.drop_last());
        }
    }

    pub fn peek(&self) -> (r: SearchEntry)
        requires
            self.wf(),
            self@.len() >= 1,
        ensures
            r == self@.last(),
    {
        self.items[self.pointer - 1]
    }

    /// Overwrites the top frame (used to record the digit just tried).
    pub fn set_top(&mut self, e: SearchEntry)
        requires
            old(self).wf(),
            old(self)@.len() >= 1,
        ensures
            final(self).wf(),
            final(self)@ == old(self)@.update(old(self)@.len() - 1, e),
    {
        self.items.set(self.pointer - 1, e);
        proof {
            assert(self@ =~= old(self)@.update(old(self)@.len() - 1, e));
        }
    }
}

/// Powers of 16, the weight base of the termination measure.
pub open spec fn pow16(e: nat) -> int
    decreases e,
{
    if e == 0 {
        1
    } else {
        16 * pow16((e - 1) as nat)
    }
}

pub proof fn lemma_pow16_pos(e: nat)
    ensures
        pow16(e) >= 1,
    decreases e,
{
    if e > 0 {
        lemma_pow16_pos((e - 1) as nat);
    }
}

/// The digits recorded in the frames from position `k` up, read as a base-16
/// number in which frame `k` has weight `16^(80-k)`. Each candidate the
/// search tries strictly increases this number, which bounds the search.
pub open spec fn trail_num(st: Seq<SearchEntry>, k: nat) -> int
    decreases st.len() - k,
{
    if k >= st.len() || k >= 81 {
        0
    } else {
        dv(st[k as int].last) * pow16((80 - k) as nat) + trail_num(st, (k + 1) as nat)
    }
}

/// `trail_num` reads only the frames from position `k` up.
proof fn lemma_trail_congruent(s1: Seq<SearchEntry>, s2: Seq<SearchEntry>, k: nat)
    requires
        s1.len() == s2.len(),
        forall|i: int| k <= i < s1.len() ==> s1[i] == #[trigger] s2[i],
    ensures
        trail_num(s1, k) == trail_num(s2, k),
    decreases s1.len() - k,
{
    if k < s1.len() && k < 81 {
        lemma_trail_congruent(s1, s2, (k + 1) as nat);
    }
}

/// Replacing the digit of frame `j` shifts the trail number by the digit
/// difference at that frame's weight.
proof fn lemma_trail_update(st: Seq<SearchEntry>, j: int, e: SearchEntry, k: nat)
    requires
        k as int <= j < st.len(),
        j < 81,
        st.len() <= 81,
    ensures
        trail_num(st.update(j, e), k) == trail_num(st, k) + (dv(e.last) - dv(st[j].last)) * pow16(
            (80 - j) as nat,
        ),
    decreases st.len() - k,
{
    let su = st.update(j, e);
    if k as int == j {
        lemma_trail_congruent(su, st, (k + 1) as nat);
        assert((dv(e.last) - dv(st[j].last)) * pow16((80 - j) as nat) == dv(e.last) * pow16(
            (80 - j) as nat,
        ) - dv(st[j].last) * pow16((80 - j) as nat)) by (nonlinear_arith);
    } else {
        lemma_trail_update(st, j, e, (k + 1) as nat);
    }
}

/// Appending a frame adds its digit at the next lower weight.
proof fn lemma_trail_push(st: Seq<SearchEntry>, e: SearchEntry, k: nat)
    requires
        k <= st.len(),
        st.len() < 81,
    ensures
        trail_num(st.push(e), k) == trail_num(st, k) + dv(e.last) * pow16((80 - st.len()) as nat),
    decreases st.len() - k,
{
    let sp = st.push(e);
    if k == st.len() {
        assert(trail_num(st, k) == 0);
        assert(sp[k as int] == e);
        assert(trail_num(sp, (k + 1) as nat) == 0);
    } else {
        lemma_trail_push(st, e, (k + 1) as nat);
    }
}

/// The trail number is non-negative and below `16^(81-k)`.
proof fn lemma_trail_bound(st: Seq<SearchEntry>, k: nat)
    requires
        st.len() <= 81,
        k <= 81,
    ensures
        0 <= trail_num(st, k) < pow16((81 - k) as nat),
    decreases st.len() - k,
{
    if k >= st.len() || k >= 81 {
        lemma_pow16_pos((81 - k) as nat);
    } else {
        lemma_trail_bound(st, (k + 1) as nat);
        let w = pow16((80 - k) as nat);
        let d = dv(st[k as int].last);
        lemma_pow16_pos((80 - k) as nat);
        crate::digit::lemma_dv_range(st[k as int].last);
        assert(0 <= d * w <= 9 * w) by (nonlinear_arith)
            requires
                0 <= d <= 9 && w >= 1,
        ;
        assert(pow16((81 - k) as nat) == 16 * w);
    }
}

/// One unit of the top frame's weight, counted while the search is about to
/// resume that frame (the first action there consumes at least one
/// candidate, so the measure never rises across an iteration).
pub open spec fn resume_credit(st: Seq<SearchEntry>, index: int) -> int {
    if st.len() > 0 && st.last().cell as int == index {
        pow16((81 - st.len()) as nat)
    } else {
        0
    }
}

/// The termination measure of the outer search loop.
pub open spec fn search_measure(st: Seq<SearchEntry>, index: int) -> int {
    pow16(82) - trail_num(st, 0) - resume_credit(st, index)
}

proof fn lemma_measure_nonneg(st: Seq<SearchEntry>, index: int)
    requires
        st.len() <= 81,
    ensures
        search_measure(st, index) >= 0,
{
    lemma_trail_bound(st, 0);
    lemma_pow16_pos((81 - st.len()) as nat);
    if st.len() > 0 {
        lemma_pow16_mono((81 - st.len()) as nat, 81);
    }
    assert(pow16(82) == 16 * pow16(81));
    lemma_pow16_pos(81);
}

proof fn lemma_pow16_mono(a: nat, b: nat)
    requires
        a <= b,
    ensures
        pow16(a) <= pow16(b),
    decreases b,
{
    if a < b {
        lemma_pow16_mono(a, (b - 1) as nat);
        lemma_pow16_pos((b - 1) as nat);
    }
}

/// The cell of some live frame is `j`.
pub open spec fn stack_has_cell(st: Seq<SearchEntry>, j: int) -> bool {
    exists|k: int| 0 <= k < st.len() && (#[trigger] st[k]).cell as int == j
}

/// Shape of the stack at a search step with cursor `index` over original
/// cells `g`: the frames are strictly increasing blank cells at or below the
/// cursor, and every blank cell strictly below the cursor has a frame.
pub open spec fn frames_ok(st: Seq<SearchEntry>, g: Seq<Value>, index: int) -> bool {
    &&& forall|k: int| 0 <= k < st.len() ==> (#[trigger] st[k]).cell < 81
    &&& forall|k: int| 0 <= k < st.len() ==> dv(g[(#[trigger] st[k]).cell as int]) == 0
    &&& forall|k: int| 0 <= k < st.len() ==> (#[trigger] st[k]).cell as int <= index
    &&& forall|k1: int, k2: int|
        #![trigger st[k1], st[k2]]
        0 <= k1 < k2 < st.len() ==> st[k1].cell < st[k2].cell
    &&& forall|j: int| 0 <= j < index && j < 81 && dv(#[trigger] g[j]) == 0 ==> stack_has_cell(st, j)
}

/// Relation of the board's cells to the original cells `g` and the stack:
/// given cells are untouched, blank cells without a frame are still blank,
/// and the first `placed` frames have their recorded digit on the board.
pub open spec fn cells_ok(
    cells: Seq<Value>,
    g: Seq<Value>,
    st: Seq<SearchEntry>,
    placed: int,
) -> bool {
    &&& forall|j: int| 0 <= j < 81 && dv(#[trigger] g[j]) != 0 ==> cells[j] == g[j]
    &&& forall|j: int|
        0 <= j < 81 && dv(#[trigger] g[j]) == 0 && !stack_has_cell(st, j) ==> dv(cells[j]) == 0
    &&& forall|k: int|
        0 <= k < placed ==> cells[(#[trigger] st[k]).cell as int] == st[k].last && 1 <= dv(
            st[k].last,
        ) <= 9
}

/// Frame `k` sits at cell `k` or beyond, because the frames are strictly
/// increasing cells.
proof fn lemma_frames_cell_lower(st: Seq<SearchEntry>, g: Seq<Value>, index: int, k: int)
    requires
        frames_ok(st, g, index),
        0 <= k < st.len(),
    ensures
        st[k].cell as int >= k,
    decreases k,
{
    if k > 0 {
        lemma_frames_cell_lower(st, g, index, k - 1);
    }
}

/// The blank cells of the original grid.
pub open spec fn blank_set(g: Seq<Value>) -> Set<int> {
    Set::new(|j: int| 0 <= j < 81 && dv(g[j]) == 0)
}

pub open spec fn blank_count(g: Seq<Value>) -> int {
    blank_set(g).len() as int
}

/// The backtracking depth bound: at any step of the search the stack holds
/// at most as many frames as the original grid has blank cells, because its
/// frames are strictly increasing (hence distinct) blank cells.
pub proof fn lemma_depth_bounded(st: Seq<SearchEntry>, g: Seq<Value>, index: int)
    requires
        g.len() == 81,
        frames_ok(st, g, index),
    ensures
        st.len() <= blank_count(g),
{
    let cells = Seq::new(st.len(), |k: int| st[k].cell as int);
    assert(cells.no_duplicates()) by {
        assert forall|k1: int, k2: int|
            0 <= k1 < cells.len() && 0 <= k2 < cells.len() && k1 != k2 implies cells[k1]
            != cells[k2] by {
            if k1 < k2 {
                assert(st[k1].cell < st[k2].cell);
            } else {
                assert(st[k2].cell < st[k1].cell);
            }
        }
    }
    cells.unique_seq_to_set();
    assert(cells.to_set().subset_of(blank_set(g))) by {
        assert forall|c: int| cells.to_set().contains(c) implies blank_set(g).contains(c) by {
            let k = choose|k: int| 0 <= k < cells.len() && cells[k] == c;
            assert(dv(g[st[k].cell as int]) == 0);
        }
    }
    assert(blank_set(g).subset_of(vstd::set_lib::set_int_range(0, 81)));
    vstd::set_lib::lemma_int_range(0, 81);
    vstd::set_lib::lemma_len_subset(blank_set(g), vstd::set_lib::set_int_range(0, 81));
    vstd::set_lib::lemma_len_subset(cells.to_set(), blank_set(g));
}

/// `frames_ok` only depends on the frames' cells, not their digits.
proof fn lemma_frames_same_cells(
    s1: Seq<SearchEntry>,
    s2: Seq<SearchEntry>,
    g: Seq<Value>,
    index: int,
)
    requires
        frames_ok(s1, g, index),
        s2.len() == s1.len(),
        forall|k: int| 0 <= k < s1.len() ==> (#[trigger] s2[k]).cell == s1[k].cell,
    ensures
        frames_ok(s2, g, index),
{
    assert forall|j: int|
        0 <= j < index && j < 81 && dv(#[trigger] g[j]) == 0 implies stack_has_cell(s2, j) by {
        let k = choose|k: int| 0 <= k < s1.len() && (#[trigger] s1[k]).cell as int == j;
        assert(s2[k].cell as int == j);
    }
}

} // verus!


verus! {

/// Opening a fresh frame at blank cell `idx0` keeps the frame and cell
/// relations intact; the cell itself is still blank on the board.
proof fn lemma_fresh_frame(
    st0: Seq<SearchEntry>,
    e: SearchEntry,
    g: Seq<Value>,
    cells: Seq<Value>,
    idx0: int,
)
    requires
        g.len() == 81,
        st0.len() < 81,
        0 <= idx0 < 81,
        dv(g[idx0]) == 0,
        frames_ok(st0, g, idx0),
        st0.len() == 0 || st0.last().cell as int != idx0,
        e.cell as int == idx0,
        dv(e.last) == 0,
        cells_ok(cells, g, st0, st0.len() as int),
    ensures
        frames_ok(st0.push(e), g, idx0),
        !stack_has_cell(st0, idx0),
        dv(cells[idx0]) == 0,
        cells_ok(cells, g, st0.push(e), st0.len() as int),
{
    let st1 = st0.push(e);
    // Every older frame sits strictly below the new cell.
    assert forall|k: int| 0 <= k < st0.len() implies ((#[trigger] st0[k]).cell as int) < idx0 by {
        if k < st0.len() - 1 {
            assert(st0[k].cell < st0[st0.len() - 1].cell);
        }
    }
    assert(!stack_has_cell(st0, idx0));
    assert(dv(cells[idx0]) == 0);
    assert forall|k: int| 0 <= k < st1.len() implies {
        &&& (#[trigger] st1[k]).cell < 81
        &&& dv(g[st1[k].cell as int]) == 0
        &&& st1[k].cell as int <= idx0
    } by {
        if k < st0.len() {
            assert(st1[k] == st0[k]);
        } else {
            assert(st1[k] == e);
        }
    }
    assert forall|k1: int, k2: int|
        #![trigger st1[k1], st1[k2]]
        0 <= k1 < k2 < st1.len() implies st1[k1].cell < st1[k2].cell by {
        assert(st1[k1] == st0[k1]);
        if k2 < st0.len() {
            assert(st1[k2] == st0[k2]);
        } else {
            assert(st1[k2] == e);
        }
    }
    assert forall|j: int|
        0 <= j < idx0 && j < 81 && dv(#[trigger] g[j]) == 0 implies stack_has_cell(st1, j) by {
        let k = choose|k: int| 0 <= k < st0.len() && (#[trigger] st0[k]).cell as int == j;
        assert(st1[k] == st0[k]);
    }
    assert forall|j: int|
        0 <= j < 81 && dv(#[trigger] g[j]) == 0 && !stack_has_cell(st1, j) implies dv(cells[j])
        == 0 by {
        if stack_has_cell(st0, j) {
            let k = choose|k: int| 0 <= k < st0.len() && (#[trigger] st0[k]).cell as int == j;
            assert(st1[k] == st0[k]);
        }
    }
    assert forall|k: int| 0 <= k < st0.len() implies cells[(#[trigger] st1[k]).cell as int]
        == st1[k].last && 1 <= dv(st1[k].last) <= 9 by {
        assert(st1[k] == st0[k]);
    }
}

/// Blanking the top frame's cell keeps the remaining frames placed and the
/// other cell relations intact.
proof fn lemma_clear_cell(
    st1: Seq<SearchEntry>,
    g: Seq<Value>,
    cells1: Seq<Value>,
    cells2: Seq<Value>,
    idx0: int,
)
    requires
        g.len() == 81,
        cells1.len() == 81,
        1 <= st1.len() <= 81,
        0 <= idx0 < 81,
        frames_ok(st1, g, idx0),
        st1.last().cell as int == idx0,
        cells_ok(cells1, g, st1, st1.len() - 1),
        cells2 == cells1.update(idx0, Value::Blank),
    ensures
        cells_ok(cells2, g, st1, st1.len() - 1),
        dv(cells2[idx0]) == 0,
{
    assert forall|k: int| 0 <= k < st1.len() - 1 implies cells2[(#[trigger] st1[k]).cell as int]
        == st1[k].last && 1 <= dv(st1[k].last) <= 9 by {
        assert(st1[k].cell < st1[st1.len() - 1].cell);
    }
    assert forall|j: int|
        0 <= j < 81 && dv(#[trigger] g[j]) == 0 && !stack_has_cell(st1, j) implies dv(cells2[j])
        == 0 by {
        assert(st1[st1.len() - 1].cell as int == idx0);
        assert(stack_has_cell(st1, idx0));
        assert(j != idx0);
    }
}

/// Re-recording the digit of the top frame changes no frame cell, so the
/// frame and cell relations survive.
proof fn lemma_retry_frame(
    st1: Seq<SearchEntry>,
    before: Seq<SearchEntry>,
    e: SearchEntry,
    g: Seq<Value>,
    cells: Seq<Value>,
    idx0: int,
)
    requires
        g.len() == 81,
        1 <= st1.len() <= 81,
        0 <= idx0 < 81,
        before.len() == st1.len(),
        before == st1.update(st1.len() - 1, before.last()),
        e.cell as int == idx0,
        st1.last().cell as int == idx0,
        before.last().cell as int == idx0,
        frames_ok(before, g, idx0),
        cells_ok(cells, g, before, st1.len() - 1),
    ensures
        before.update(st1.len() - 1, e) == st1.update(st1.len() - 1, e),
        before.update(st1.len() - 1, e).last() == e,
        frames_ok(before.update(st1.len() - 1, e), g, idx0),
        cells_ok(cells, g, before.update(st1.len() - 1, e), st1.len() - 1),
{
    let len1 = st1.len();
    let after = before.update(len1 - 1, e);
    assert(after.last() == e);
    assert forall|k: int| 0 <= k < len1 - 1 implies #[trigger] before[k] == st1[k] by {
        assert(before[k] == st1.update(len1 - 1, before.last())[k]);
    }
    assert forall|k: int| 0 <= k < len1 implies #[trigger] after[k] == st1.update(len1 - 1, e)[k] by {
        if k < len1 - 1 {
            assert(after[k] == before[k]);
        }
    }
    assert(after =~= st1.update(len1 - 1, e));
    assert forall|k: int| 0 <= k < len1 implies (#[trigger] after[k]).cell == before[k].cell by {
        if k < len1 - 1 {
            assert(after[k] == before[k]);
        } else {
            assert(before[len1 - 1].cell as int == idx0);
        }
    }
    lemma_frames_same_cells(before, after, g, idx0);
    assert forall|j: int|
        0 <= j < 81 && dv(#[trigger] g[j]) == 0 && !stack_has_cell(after, j) implies dv(cells[j])
        == 0 by {
        if stack_has_cell(before, j) {
            let k = choose|k: int| 0 <= k < before.len() && (#[trigger] before[k]).cell as int == j;
            assert(after[k].cell as int == j);
        }
    }
    assert forall|k: int| 0 <= k < len1 - 1 implies cells[(#[trigger] after[k]).cell as int]
        == after[k].last && 1 <= dv(after[k].last) <= 9 by {
        assert(after[k] == before[k]);
    }
}

/// A successful placement realises the top frame on the board; the cursor
/// may move one cell past it.
proof fn lemma_advance_frame(
    after: Seq<SearchEntry>,
    g: Seq<Value>,
    cells1: Seq<Value>,
    cells2: Seq<Value>,
    idx0: int,
)
    requires
        g.len() == 81,
        cells1.len() == 81,
        1 <= after.len() <= 81,
        0 <= idx0 < 81,
        frames_ok(after, g, idx0),
        after.last().cell as int == idx0,
        1 <= dv(after.last().last) <= 9,
        cells_ok(cells1, g, after, after.len() - 1),
        cells2 == cells1.update(idx0, after.last().last),
    ensures
        frames_ok(after, g, idx0 + 1),
        cells_ok(cells2, g, after, after.len() as int),
{
    let len = after.len();
    assert forall|j: int|
        0 <= j < idx0 + 1 && j < 81 && dv(#[trigger] g[j]) == 0 implies stack_has_cell(after, j) by {
        if j == idx0 {
            assert(after[len - 1].cell as int == idx0);
        }
    }
    assert forall|k: int| 0 <= k < len implies cells2[(#[trigger] after[k]).cell as int]
        == after[k].last && 1 <= dv(after[k].last) <= 9 by {
        if k < len - 1 {
            assert(after[k].cell < after[len - 1].cell);
        }
    }
    assert forall|j: int|
        0 <= j < 81 && dv(#[trigger] g[j]) == 0 && !stack_has_cell(after, j) implies dv(cells2[j])
        == 0 by {
        assert(after[len - 1].cell as int == idx0);
        assert(stack_has_cell(after, idx0));
        assert(j != idx0);
    }
}

/// Popping the exhausted top frame: the remaining frames are intact, placed,
/// and the popped cell is blank again; the cursor returns to the new top.
proof fn lemma_pop_frame(
    st1: Seq<SearchEntry>,
    before: Seq<SearchEntry>,
    g: Seq<Value>,
    cells: Seq<Value>,
    idx0: int,
)
    requires
        g.len() == 81,
        1 <= st1.len() <= 81,
        0 <= idx0 < 81,
        before.len() == st1.len(),
        before == st1.update(st1.len() - 1, before.last()),
        st1.last().cell as int == idx0,
        before.last().cell as int == idx0,
        frames_ok(before, g, idx0),
        cells_ok(cells, g, before, st1.len() - 1),
        dv(cells[idx0]) == 0,
    ensures
        before.drop_last() == st1.drop_last(),
        st1.len() >= 2 ==> frames_ok(
            before.drop_last(),
            g,
            before.drop_last().last().cell as int,
        ),
        st1.len() >= 2 ==> (before.drop_last().last().cell as int) < idx0,
        cells_ok(cells, g, before.drop_last(), st1.len() - 1),
{
    let len1 = st1.len();
    let dropped = before.drop_last();
    assert forall|k: int| 0 <= k < len1 - 1 implies #[trigger] before[k] == st1[k] by {
        assert(before[k] == st1.update(len1 - 1, before.last())[k]);
    }
    assert(dropped =~= st1.drop_last());
    if len1 >= 2 {
        let ni = dropped.last().cell as int;
        assert(before[len1 - 2].cell < before[len1 - 1].cell);
        assert(ni < idx0);
        assert forall|k: int| 0 <= k < len1 - 1 implies {
            &&& (#[trigger] dropped[k]).cell < 81
            &&& dv(g[dropped[k].cell as int]) == 0
            &&& dropped[k].cell as int <= ni
        } by {
            assert(dropped[k] == before[k]);
            if k < len1 - 2 {
                assert(before[k].cell < before[len1 - 2].cell);
            }
        }
        assert forall|k1: int, k2: int|
            #![trigger dropped[k1], dropped[k2]]
            0 <= k1 < k2 < len1 - 1 implies dropped[k1].cell < dropped[k2].cell by {
            assert(dropped[k1] == before[k1]);
            assert(dropped[k2] == before[k2]);
        }
        assert forall|j: int|
            0 <= j < ni && j < 81 && dv(#[trigger] g[j]) == 0 implies stack_has_cell(dropped, j) by {
            let k = choose|k: int| 0 <= k < before.len() && (#[trigger] before[k]).cell as int == j;
            assert(k != len1 - 1);
            assert(dropped[k].cell as int == j);
        }
        assert(frames_ok(dropped, g, ni));
    }
    assert forall|j: int|
        0 <= j < 81 && dv(#[trigger] g[j]) == 0 && !stack_has_cell(dropped, j) implies dv(cells[j])
        == 0 by {
        if j != idx0 && stack_has_cell(before, j) {
            let k = choose|k: int| 0 <= k < before.len() && (#[trigger] before[k]).cell as int == j;
            assert(k != len1 - 1);
            assert(dropped[k].cell as int == j);
        }
    }
    assert forall|k: int| 0 <= k < len1 - 1 implies cells[(#[trigger] dropped[k]).cell as int]
        == dropped[k].last && 1 <= dv(dropped[k].last) <= 9 by {
        assert(dropped[k] == before[k]);
    }
}

/// An empty stack during the search means the board is back to the original
/// cells: every blank is blank again and no given was ever touched.
proof fn lemma_restored(g: Seq<Value>, cells: Seq<Value>, st: Seq<SearchEntry>)
    requires
        g.len() == 81,
        cells.len() == 81,
        st.len() == 0,
        cells_ok(cells, g, st, 0),
    ensures
        cells == g,
{
    assert forall|j: int| 0 <= j < 81 implies cells[j] == g[j] by {
        if dv(g[j]) == 0 {
            assert(!stack_has_cell(st, j));
            assert(dv(cells[j]) == 0);
            crate::digit::lemma_dv_injective(cells[j], g[j]);
        }
    }
    assert(cells =~= g);
}

} // verus!

verus! {

impl Board {
    /// One step of the search at blank cell `index`: clears the cell, tries
    /// the candidates after the frame's last tried digit in ascending order,
    /// and either advances past the cell (placing a digit), backtracks to
    /// the previous frame, or reports the candidates of the very first frame
    /// exhausted — the puzzle is unsolvable and the board is restored to the
    /// original cells `g`.
    ///
    /// The returned cursor strictly lowers the search measure, or keeps it
    /// while moving forward; that bounds the whole search.
    #[verifier::rlimit(100)]
    #[verifier::spinoff_prover]
    fn try_cell(&mut self, stack: &mut SearchStack, index: usize, Ghost(g): Ghost<Seq<Value>>) -> (r:
        Result<usize, ()>)
        requires
            old(self).wf(),
            g.len() == 81,
            old(stack).wf(),
            index < 81,
            dv(g[index as int]) == 0,
            frames_ok(old(stack)@, g, index as int),
            cells_ok(old(self).values@, g, old(stack)@, old(stack)@.len() as int),
            no_completion_below(g, old(stack)@),
            old(stack)@.len() > 0 && old(stack)@.last().cell as int == index as int
                ==> no_completion_at(g, old(stack)@),
        ensures
            final(self).wf(),
            final(stack).wf(),
            r matches Ok(ni) ==> {
                &&& ni <= 81
                &&& frames_ok(final(stack)@, g, ni as int)
                &&& cells_ok(final(self).values@, g, final(stack)@, final(stack)@.len() as int)
                &&& search_measure(final(stack)@, ni as int) >= 0
                &&& (search_measure(final(stack)@, ni as int) < search_measure(
                    old(stack)@,
                    index as int,
                ) || (search_measure(final(stack)@, ni as int) == search_measure(
                    old(stack)@,
                    index as int,
                ) && ni > index))
                &&& no_completion_below(g, final(stack)@)
                &&& final(stack)@.len() > 0 && final(stack)@.last().cell as int == ni as int
                    ==> no_completion_at(g, final(stack)@)
            },
            r is Err ==> final(self).values@ == g,
            r is Err ==> forall|c: Seq<int>| !is_completion(c, g),
    {
        let ghost st0 = stack@;
        let ghost idx0 = index as int;

        let mut fresh = false;
        if stack.is_empty() || stack.peek().cell != index {
            // No frame sits at this cell yet: open a fresh one with no digit
            // tried. All older frames sit strictly below, so a slot is free.
            proof {
                if st0.len() > 0 {
                    lemma_frames_cell_lower(st0, g, idx0, st0.len() - 1);
                    assert((st0[st0.len() - 1].cell as int) < idx0);
                }
                lemma_fresh_frame(
                    st0,
                    SearchEntry { cell: index, last: Value::Blank },
                    g,
                    self.values@,
                    idx0,
                );
            }
            stack.push(SearchEntry { cell: index, last: Value::Blank });
            fresh = true;
            proof {
                lemma_trail_push(st0, SearchEntry { cell: index, last: Value::Blank }, 0);
                lemma_push_completion(g, st0, SearchEntry { cell: index, last: Value::Blank });
            }
        }
        let ghost st1 = stack@;
        let ghost d1 = dv(st1.last().last);
        let ghost len1 = st1.len();
        let ghost w1 = pow16((81 - len1) as nat);

        proof {
            if fresh {
                assert(trail_num(st1, 0) == trail_num(st0, 0));
                assert(dv(self.values@[idx0]) == 0);
                crate::digit::lemma_dv_injective(self.values@[idx0], Value::Blank);
            } else {
                assert(st1.last().cell as int == idx0);
                assert(stack_has_cell(st1, idx0));
                // The resumed frame's digit is on the board.
                assert(self.values@[idx0] == st1.last().last);
                lemma_resume_entry(g, st1);
            }
            assert(st1 =~= st1.update(len1 - 1, st1.last()));
        }

        let top = stack.peek();
        let ghost cells0 = self.values@;
        self.clear(index, &top.last);

        proof {
            lemma_clear_cell(st1, g, cells0, self.values@, idx0);
        }

        let mut candidate = top.last.next();
        let mut advanced = false;
        let mut result: usize = index;

        loop
            invariant_except_break
                self.wf(),
                g.len() == 81,
                stack.wf(),
                !advanced,
                0 <= idx0 < 81,
                index as int == idx0,
                dv(g[idx0]) == 0,
                stack@.len() == len1,
                st1.len() == len1,
                1 <= len1 <= 81,
                stack@ == st1.update(len1 - 1, stack@.last()),
                stack@.last().cell as int == idx0,
                st1.last().cell as int == idx0,
                d1 == dv(st1.last().last),
                w1 == pow16((81 - len1) as nat),
                dv(stack@.last().last) >= d1,
                frames_ok(stack@, g, idx0),
                cells_ok(self.values@, g, stack@, len1 - 1),
                dv(self.values@[idx0]) == 0,
                (candidate matches Some(v) ==> dv(v) == dv(stack@.last().last) + 1),
                (candidate is None ==> dv(stack@.last().last) == 9),
                trail_num(stack@, 0) == trail_num(st1, 0) + (dv(stack@.last().last) - d1) * w1,
                no_completion_below(g, stack@),
                top_exhausted_to(g, stack@),
            ensures
                self.wf(),
                stack.wf(),
                advanced ==> {
                    &&& result == idx0 + 1
                    &&& stack@.len() == len1
                    &&& stack@.last().cell as int == idx0
                    &&& dv(stack@.last().last) >= d1 + 1
                    &&& frames_ok(stack@, g, result as int)
                    &&& cells_ok(self.values@, g, stack@, stack@.len() as int)
                    &&& trail_num(stack@, 0) == trail_num(st1, 0) + (dv(stack@.last().last) - d1)
                        * w1
                    &&& no_completion_below(g, stack@)
                },
                !advanced ==> {
                    &&& stack@ == st1.drop_last()
                    &&& stack@.len() == len1 - 1
                    &&& stack@.len() >= 1
                    &&& result as int == stack@.last().cell as int
                    &&& (result as int) < idx0
                    &&& frames_ok(stack@, g, result as int)
                    &&& cells_ok(self.values@, g, stack@, stack@.len() as int)
                    &&& trail_num(stack@, 0) == trail_num(st1, 0) - d1 * w1
                    &&& no_completion_below(g, stack@)
                    &&& no_completion_at(g, stack@)
                },
            decreases (match candidate {
                Option::Some(v) => 10 - dv(v),
                Option::None => 0int,
            }),
        {
            match candidate {
                Some(new_value) => {
                    proof {
                        crate::digit::lemma_dv_range(new_value);
                    }
                    candidate = new_value.next();
                    let ghost before = stack@;
                    stack.set_top(SearchEntry { cell: index, last: new_value });
                    proof {
                        let e = SearchEntry { cell: index, last: new_value };
                        lemma_trail_update(before, len1 - 1, e, 0);
                        let a = dv(new_value);
                        let b = dv(before.last().last);
                        assert((a - b) * w1 + (b - d1) * w1 == (a - d1) * w1) by (nonlinear_arith);
                        lemma_retry_frame(st1, before, e, g, self.values@, idx0);
                        assert(stack@ == st1.update(len1 - 1, e));
                        assert(stack@.last() == e);
                        // Completions matching the frames below the top sit
                        // at or above the new candidate.
                        assert forall|c: Seq<int>|
                            #[trigger] is_completion(c, g) && matches_frames(
                                c,
                                stack@,
                                len1 - 1,
                            ) implies c[idx0] >= dv(stack@.last().last) by {
                            lemma_matches_same_prefix(c, stack@, before, len1 - 1);
                            assert(matches_frames(c, before, len1 - 1));
                            assert(c[before[len1 - 1].cell as int] > dv(before[len1 - 1].last));
                        }
                        lemma_commit_candidate(g, before, stack@);
                    }
                    let ghost cells1 = self.values@;
                    match self.place(index, &new_value) {
                        Ok(()) => {
                            result = index + 1;
                            advanced = true;
                            proof {
                                lemma_advance_frame(stack@, g, cells1, self.values@, idx0);
                            }
                            break ;
                        },
                        Err(()) => {
                            proof {
                                let v = dv(stack@.last().last);
                                let w = choose|j: int|
                                    0 <= j < 81 && #[trigger] crate::grid::same_line(idx0, j) && dv(
                                        self.values@[j],
                                    ) == v;
                                lemma_exclude_candidate(g, stack@, self.values@, idx0, w);
                            }
                        },
                    }
                },
                None => {
                    let ghost before = stack@;
                    let ghost cells_now = self.values@;
                    stack.pop();
                    proof {
                        assert(before =~= before.drop_last().push(before.last()));
                        lemma_trail_push(before.drop_last(), before.last(), 0);
                        assert(stack@ == before.drop_last());
                        lemma_pop_frame(st1, before, g, cells_now, idx0);
                        assert(stack@ == st1.drop_last());
                        assert(dv(before.last().last) == 9);
                        assert(trail_num(before, 0) == trail_num(stack@, 0) + 9 * pow16(
                            (80 - (len1 - 1)) as nat,
                        ));
                        assert((9 - d1) * w1 - 9 * w1 == 0 - d1 * w1) by (nonlinear_arith);
                        assert(trail_num(stack@, 0) == trail_num(st1, 0) - d1 * w1);
                        lemma_pop_completion(g, before);
                    }
                    if stack.is_empty() {
                        proof {
                            lemma_restored(g, self.values@, stack@);
                            lemma_unsolvable(g, before);
                        }
                        return Err(());
                    }
                    result = stack.peek().cell;
                    break ;
                },
            }
        }

        // Every path through the step lowers the search measure, except an
        // immediate success at a resumed frame, which advances the cursor.
        proof {
            lemma_measure_nonneg(stack@, result as int);
            lemma_pow16_pos((81 - len1) as nat);
            if advanced {
                assert(stack@.last().cell as int != result as int);
                assert(resume_credit(stack@, result as int) == 0);
                let a = dv(stack@.last().last);
                if fresh {
                    assert(resume_credit(st0, idx0) == 0);
                    assert((a - d1) * w1 >= 1 * w1) by (nonlinear_arith)
                        requires
                            a - d1 >= 1 && w1 >= 1,
                    ;
                } else {
                    assert(st0 == st1);
                    assert(resume_credit(st0, idx0) == w1);
                    if a - d1 == 1 {
                        assert((a - d1) * w1 == 1 * w1) by (nonlinear_arith)
                            requires
                                a - d1 == 1,
                        ;
                    } else {
                        assert((a - d1) * w1 >= 2 * w1) by (nonlinear_arith)
                            requires
                                a - d1 >= 2 && w1 >= 1,
                        ;
                    }
                }
            } else {
                assert(stack@.last().cell as int == result as int);
                assert(resume_credit(stack@, result as int) == pow16((81 - stack@.len()) as nat));
                assert(stack@.len() == len1 - 1);
                assert(pow16((81 - (len1 - 1)) as nat) == 16 * w1);
                if fresh {
                    assert(d1 == 0);
                    assert(resume_credit(st0, idx0) == 0);
                    assert(trail_num(st1, 0) == trail_num(st0, 0));
                } else {
                    assert(st0 == st1);
                    assert(resume_credit(st0, idx0) == w1);
                    assert(d1 * w1 <= 9 * w1) by (nonlinear_arith)
                        requires
                            0 <= d1 <= 9 && w1 >= 1,
                    ;
                }
            }
        }
        Ok(result)
    }

    /// Completes the board by backtracking search in raster order: fills
    /// every blank cell with a digit so that the whole grid stays free of
    /// line conflicts, never touching a given cell; fails exactly by
    /// exhausting the candidates, restoring the board to its original cells.
    pub fn solve(&mut self) -> (r: Result<(), ()>)
        requires
            old(self).wf(),
        ensures
            final(self).wf(),
            r is Ok ==> forall|i: int|
                0 <= i < 81 ==> 1 <= dv(#[trigger] final(self).values@[i]) <= 9,
            r is Ok ==> forall|i: int|
                0 <= i < 81 && dv(#[trigger] old(self).values@[i]) != 0 ==> final(self).values@[i]
                    == old(self).values@[i],
            r is Err ==> final(self).values@ == old(self).values@,
            r is Err ==> forall|c: Seq<int>| !is_completion(c, old(self).values@),
            r is Ok ==> lex_minimal(final(self).values@, old(self).values@),
            (forall|i: int| 0 <= i < 81 ==> dv(#[trigger] old(self).values@[i]) != 0) ==> r is Ok,
    {
        let ghost g = self.values@;

        // Copy of the original cells, to recognise given cells during the
        // search after blanks have been filled.
        let mut original: Vec<Value> = Vec::new();
        let mut ci: usize = 0;
        while ci < 81
            invariant
                ci <= 81,
                original@.len() == ci as int,
                self.values@.len() == 81,
                g == self.values@,
                forall|k: int| 0 <= k < ci as int ==> #[trigger] original@[k] == g[k],
            decreases 81 - ci,
        {
            original.push(self.values[ci]);
            ci = ci + 1;
        }
        proof {
            assert(original@ =~= g);
        }

        let mut stack = SearchStack::new();
        let mut index: usize = 0;

        while index < 81
            invariant
                self.wf(),
                g == old(self).values@,
                g.len() == 81,
                index <= 81,
                original@.len() == 81,
                original@ == g,
                stack.wf(),
                frames_ok(stack@, g, index as int),
                cells_ok(self.values@, g, stack@, stack@.len() as int),
                no_completion_below(g, stack@),
                stack@.len() > 0 && stack@.last().cell as int == index as int
                    ==> no_completion_at(g, stack@),
            decreases search_measure(stack@, index as int), 81 - index,
        {
            let ghost st0 = stack@;
            let ghost idx0 = index as int;

            if !original[index].is_blank() {
                // A given cell: skip it. No frame sits at a given cell, so
                // the resume credit is zero on both sides and the measure is
                // unchanged while the cursor advances.
                proof {
                    assert(resume_credit(st0, idx0) == 0);
                    assert(resume_credit(st0, idx0 + 1) == 0);
                    assert forall|j: int|
                        0 <= j < idx0 + 1 && j < 81 && dv(#[trigger] g[j]) == 0 implies stack_has_cell(
                        st0,
                        j,
                    ) by {
                        assert(dv(g[idx0]) != 0);
                    }
                }
                index = index + 1;
            } else {
                match self.try_cell(&mut stack, index, Ghost(g)) {
                    Ok(ni) => {
                        index = ni;
                    },
                    Err(()) => {
                        proof {
                            assert(dv(g[idx0]) == 0);
                        }
                        return Err(());
                    },
                }
            }
        }

        proof {
            lemma_final_minimal(g, stack@, self.values@);
            assert forall|i: int| 0 <= i < 81 implies 1 <= dv(#[trigger] self.values@[i]) <= 9 by {
                if dv(g[i]) == 0 {
                    assert(stack_has_cell(stack@, i));
                    let k = choose|k: int|
                        0 <= k < stack@.len() && (#[trigger] stack@[k]).cell as int == i;
                    assert(self.values@[i] == stack@[k].last);
                } else {
                    assert(self.values@[i] == g[i]);
                }
            }
        }
        Ok(())
    }
}

} // verus!

verus! {

/// A full valid solution of the original cells `g`: 81 digits 1..9, no
/// repeated digit within any line, agreeing with every given cell.
pub open spec fn is_completion(c: Seq<int>, g: Seq<Value>) -> bool {
    &&& c.len() == 81
    &&& forall|j: int| 0 <= j < 81 ==> 1 <= #[trigger] c[j] <= 9
    &&& forall|i: int, j: int|
        #![trigger c[i], c[j]]
        0 <= i < 81 && 0 <= j < 81 && i != j && crate::grid::same_line(i, j) ==> c[i] != c[j]
    &&& forall|j: int| 0 <= j < 81 && dv(#[trigger] g[j]) != 0 ==> c[j] == dv(g[j])
}

/// `c` agrees with the digits recorded in the first `m` frames.
pub open spec fn matches_frames(c: Seq<int>, st: Seq<SearchEntry>, m: int) -> bool {
    forall|k: int| 0 <= k < m ==> c[(#[trigger] st[k]).cell as int] == dv(st[k].last)
}

/// No completion runs lexicographically below the recorded trail: wherever
/// a completion agrees with the first `k` frames, its digit at frame `k`'s
/// cell is at least the digit recorded there.
pub open spec fn no_completion_below(g: Seq<Value>, st: Seq<SearchEntry>) -> bool {
    forall|c: Seq<int>, k: int|
        #![trigger matches_frames(c, st, k)]
        is_completion(c, g) && 0 <= k < st.len() && matches_frames(c, st, k) ==> c[st[k].cell as int]
            >= dv(st[k].last)
}

/// No completion agrees with all recorded frames.
pub open spec fn no_completion_at(g: Seq<Value>, st: Seq<SearchEntry>) -> bool {
    forall|c: Seq<int>|
        #[trigger] is_completion(c, g) ==> !matches_frames(c, st, st.len() as int)
}

/// Every completion agreeing with the frames below the top exceeds the top
/// frame's digit at its cell: the candidates up to it are exhausted there.
pub open spec fn top_exhausted_to(g: Seq<Value>, st: Seq<SearchEntry>) -> bool {
    forall|c: Seq<int>|
        #[trigger] is_completion(c, g) && matches_frames(c, st, st.len() - 1) ==> c[st[st.len()
            - 1].cell as int] > dv(st[st.len() - 1].last)
}

/// Agreement with frames is insensitive to the top frame's digit.
proof fn lemma_matches_same_prefix(
    c: Seq<int>,
    s1: Seq<SearchEntry>,
    s2: Seq<SearchEntry>,
    m: int,
)
    requires
        0 <= m <= s1.len(),
        m <= s2.len(),
        forall|k: int| 0 <= k < m ==> s1[k] == #[trigger] s2[k],
    ensures
        matches_frames(c, s1, m) == matches_frames(c, s2, m),
{
    if matches_frames(c, s1, m) {
        assert forall|k: int| 0 <= k < m implies c[(#[trigger] s2[k]).cell as int] == dv(
            s2[k].last,
        ) by {
            assert(c[s1[k].cell as int] == dv(s1[k].last));
        }
    }
    if matches_frames(c, s2, m) {
        assert forall|k: int| 0 <= k < m implies c[(#[trigger] s1[k]).cell as int] == dv(
            s1[k].last,
        ) by {
            assert(c[s2[k].cell as int] == dv(s2[k].last));
        }
    }
}

/// A fresh frame with no digit tried excludes nothing.
proof fn lemma_push_completion(g: Seq<Value>, st0: Seq<SearchEntry>, e: SearchEntry)
    requires
        dv(e.last) == 0,
        e.cell < 81,
        no_completion_below(g, st0),
    ensures
        no_completion_below(g, st0.push(e)),
        top_exhausted_to(g, st0.push(e)),
{
    let st1 = st0.push(e);
    assert forall|c: Seq<int>, k: int|
        is_completion(c, g) && 0 <= k < st1.len() && #[trigger] matches_frames(
            c,
            st1,
            k,
        ) implies c[st1[k].cell as int] >= dv(st1[k].last) by {
        if k < st0.len() {
            lemma_matches_same_prefix(c, st1, st0, k);
            assert(st1[k] == st0[k]);
        } else {
            assert(st1[k] == e);
            assert(1 <= c[e.cell as int]);
        }
    }
    assert forall|c: Seq<int>|
        #[trigger] is_completion(c, g) && matches_frames(c, st1, st1.len() - 1) implies c[st1[
        st1.len() - 1].cell as int] > dv(st1[st1.len() - 1].last) by {
        assert(st1.last() == e);
        assert(c[e.cell as int] >= 1);
    }
}

/// Resuming a frame whose recorded digit has been refuted deeper down:
/// completions matching the frames below it must exceed that digit.
proof fn lemma_resume_entry(g: Seq<Value>, st: Seq<SearchEntry>)
    requires
        st.len() >= 1,
        no_completion_below(g, st),
        no_completion_at(g, st),
    ensures
        top_exhausted_to(g, st),
{
    assert forall|c: Seq<int>|
        #[trigger] is_completion(c, g) && matches_frames(c, st, st.len() - 1) implies c[st[st.len()
        - 1].cell as int] > dv(st[st.len() - 1].last) by {
        let t = st.len() - 1;
        assert(matches_frames(c, st, t));
        assert(c[st[t].cell as int] >= dv(st[t].last));
        if c[st[t].cell as int] == dv(st[t].last) {
            assert forall|k: int| 0 <= k < st.len() implies c[(#[trigger] st[k]).cell as int] == dv(
                st[k].last,
            ) by {}
            assert(matches_frames(c, st, st.len() as int));
            assert(false);
        }
    }
}

/// A candidate refuted by the board itself: the digit already occupies a
/// cell of a covering line, and that cell is a given or a committed frame,
/// both of which any matching completion copies — so no matching completion
/// carries the candidate either.
proof fn lemma_exclude_candidate(
    g: Seq<Value>,
    st: Seq<SearchEntry>,
    cells: Seq<Value>,
    idx0: int,
    witness: int,
)
    requires
        g.len() == 81,
        1 <= st.len() <= 81,
        0 <= idx0 < 81,
        frames_ok(st, g, idx0),
        cells_ok(cells, g, st, st.len() - 1),
        st.last().cell as int == idx0,
        1 <= dv(st.last().last) <= 9,
        dv(cells[idx0]) == 0,
        0 <= witness < 81,
        crate::grid::same_line(idx0, witness),
        dv(cells[witness]) == dv(st.last().last),
        forall|c: Seq<int>|
            #[trigger] is_completion(c, g) && matches_frames(c, st, st.len() - 1) ==> c[idx0] >= dv(
                st.last().last,
            ),
    ensures
        top_exhausted_to(g, st),
{
    let t = st.len() - 1;
    let v = dv(st.last().last);
    assert forall|c: Seq<int>|
        #[trigger] is_completion(c, g) && matches_frames(c, st, st.len() - 1) implies c[st[
        t].cell as int] > dv(st[t].last) by {
        assert(c[idx0] >= v);
        if c[idx0] == v {
            // The witness cell already carries `v` and the completion
            // copies it, clashing with the candidate along a line.
            assert(witness != idx0);
            if dv(g[witness]) != 0 {
                assert(c[witness] == dv(g[witness]));
            } else {
                assert(stack_has_cell(st, witness));
                let k = choose|k: int|
                    0 <= k < st.len() && (#[trigger] st[k]).cell as int == witness;
                assert(k != t);
                assert(cells[st[k].cell as int] == st[k].last);
                assert(c[witness] == dv(st[k].last));
            }
            assert(c[witness] == v);
            assert(c[idx0] == c[witness]);
            assert(false);
        }
    }
}

/// Committing the candidate: completions matching the frames below the top
/// sit at or above it, so nothing lies below the extended trail.
proof fn lemma_commit_candidate(g: Seq<Value>, s1: Seq<SearchEntry>, s2: Seq<SearchEntry>)
    requires
        s1.len() == s2.len(),
        s1.len() >= 1,
        forall|k: int| 0 <= k < s1.len() - 1 ==> s1[k] == #[trigger] s2[k],
        no_completion_below(g, s1),
        forall|c: Seq<int>|
            #[trigger] is_completion(c, g) && matches_frames(c, s2, s2.len() - 1) ==> c[s2[s2.len()
                - 1].cell as int] >= dv(s2[s2.len() - 1].last),
    ensures
        no_completion_below(g, s2),
{
    assert forall|c: Seq<int>, k: int|
        is_completion(c, g) && 0 <= k < s2.len() && #[trigger] matches_frames(
            c,
            s2,
            k,
        ) implies c[s2[k].cell as int] >= dv(s2[k].last) by {
        if k < s2.len() - 1 {
            lemma_matches_same_prefix(c, s2, s1, k);
            assert(matches_frames(c, s1, k));
            assert(s2[k] == s1[k]);
        }
    }
}

/// When the top frame has exhausted digit 9, no completion matches the
/// remaining frames at all.
proof fn lemma_pop_completion(g: Seq<Value>, st: Seq<SearchEntry>)
    requires
        st.len() >= 1,
        dv(st.last().last) == 9,
        st.last().cell < 81,
        no_completion_below(g, st),
        top_exhausted_to(g, st),
    ensures
        no_completion_at(g, st.drop_last()),
        no_completion_below(g, st.drop_last()),
{
    let sd = st.drop_last();
    assert forall|c: Seq<int>| #[trigger] is_completion(c, g) implies !matches_frames(
        c,
        sd,
        sd.len() as int,
    ) by {
        if matches_frames(c, sd, sd.len() as int) {
            lemma_matches_same_prefix(c, sd, st, st.len() - 1);
            assert(matches_frames(c, st, st.len() - 1));
            assert(c[st[st.len() - 1].cell as int] > 9);
            assert(1 <= c[st.last().cell as int] <= 9);
        }
    }
    assert forall|c: Seq<int>, k: int|
        is_completion(c, g) && 0 <= k < sd.len() && #[trigger] matches_frames(
            c,
            sd,
            k,
        ) implies c[sd[k].cell as int] >= dv(sd[k].last) by {
        lemma_matches_same_prefix(c, sd, st, k);
        assert(matches_frames(c, st, k));
        assert(sd[k] == st[k]);
    }
}

/// `c` agrees with the first `j` cells of the grid `vals`.
pub open spec fn agrees_below(c: Seq<int>, vals: Seq<Value>, j: int) -> bool {
    forall|i: int| 0 <= i < j ==> c[i] == dv(#[trigger] vals[i])
}

/// `vals` is the pointwise lexicographically least completion in raster
/// order: wherever a completion agrees with it on all earlier cells, its
/// digit is at least the one in `vals`.
pub open spec fn lex_minimal(vals: Seq<Value>, g: Seq<Value>) -> bool {
    forall|c: Seq<int>, j: int|
        is_completion(c, g) && 0 <= j < 81 && #[trigger] agrees_below(c, vals, j) ==> c[j] >= dv(
            vals[j],
        )
}

/// At the end of the search every blank cell carries a frame digit and no
/// completion runs below the trail, so the found grid is the least one.
proof fn lemma_final_minimal(g: Seq<Value>, st: Seq<SearchEntry>, vals: Seq<Value>)
    requires
        g.len() == 81,
        vals.len() == 81,
        frames_ok(st, g, 81),
        cells_ok(vals, g, st, st.len() as int),
        no_completion_below(g, st),
    ensures
        lex_minimal(vals, g),
{
    assert forall|c: Seq<int>, j: int|
        is_completion(c, g) && 0 <= j < 81 && #[trigger] agrees_below(c, vals, j) implies c[j]
        >= dv(vals[j]) by {
        if dv(g[j]) != 0 {
            assert(vals[j] == g[j]);
            assert(c[j] == dv(g[j]));
        } else {
            assert(stack_has_cell(st, j));
            let k = choose|k: int| 0 <= k < st.len() && (#[trigger] st[k]).cell as int == j;
            assert(vals[j] == st[k].last);
            assert forall|k2: int| 0 <= k2 < k implies c[(#[trigger] st[k2]).cell as int] == dv(
                st[k2].last,
            ) by {
                assert(st[k2].cell < st[k].cell);
                assert(vals[st[k2].cell as int] == st[k2].last);
                assert(c[st[k2].cell as int] == dv(vals[st[k2].cell as int]));
            }
            assert(matches_frames(c, st, k));
            assert(c[st[k].cell as int] >= dv(st[k].last));
        }
    }
}

/// The first frame exhausted digit 9 and the stack emptied: the puzzle has
/// no completion at all.
proof fn lemma_unsolvable(g: Seq<Value>, st: Seq<SearchEntry>)
    requires
        st.len() == 1,
        dv(st.last().last) == 9,
        st.last().cell < 81,
        top_exhausted_to(g, st),
    ensures
        forall|c: Seq<int>| !is_completion(c, g),
{
    assert forall|c: Seq<int>| !is_completion(c, g) by {
        if is_completion(c, g) {
            assert(matches_frames(c, st, 0));
            assert(c[st[0].cell as int] > 9);
            assert(1 <= c[st.last().cell as int] <= 9);
        }
    }
}

} // verus!
