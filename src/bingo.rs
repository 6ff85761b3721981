//! Bingo boards marked by a sequence of drawn numbers, and the two queries
//! over a game: the score of the first board to complete, and of the last.
use vstd::prelude::*;
use crate::text::{
    lines, numbers_u32, parse_u32_list, split, split_bytes, split_lines, split_words, views, words,
};

verus! {

/// Whether a cell has been called.
#[derive(Clone, Copy, Debug, PartialEq, Eq, Structural)]
pub enum State {
    Marked,
    Unmarked,
}

/// One cell of a board: its number and whether it has been called.
#[derive(Clone, Copy, Debug, PartialEq, Eq, Structural)]
pub struct GridValue {
    pub value: u32,
    pub state: State,
}

/// The cell after `v` is drawn.
pub open spec fn mark_cell(c: GridValue, v: u32) -> GridValue {
    if c.value == v {
        GridValue { value: c.value, state: State::Marked }
    } else {
        c
    }
}

impl GridValue {
    /// An unmarked cell holding `value`.
    pub fn new(value: u32) -> (r: GridValue)
        ensures
            r == (GridValue { value, state: State::Unmarked }),
    {
        GridValue { value, state: State::Unmarked }
    }

    /// Marks the cell if it holds `value`.
    pub fn mark(&mut self, value: u32)
        ensures
            *final(self) == mark_cell(*old(self), value),
    {
        if self.value == value {
            self.state = State::Marked;
        }
    }
}

/// The rows of a board, as a grid of cells.
pub type Cells = Seq<Seq<GridValue>>;

/// Every cell of `row` marked.
pub open spec fn row_marked(row: Seq<GridValue>) -> bool {
    forall|j: int| 0 <= j < row.len() ==> (#[trigger] row[j]).state == State::Marked
}

/// Every cell in column `j` of `cells` marked.
pub open spec fn column_marked(cells: Cells, j: int) -> bool {
    forall|i: int| 0 <= i < cells.len() ==> (#[trigger] cells[i])[j].state == State::Marked
}

/// A board is complete when a full row or a full column is marked.
pub open spec fn complete(cells: Cells) -> bool {
    ||| exists|i: int| 0 <= i < cells.len() && row_marked(#[trigger] cells[i])
    ||| exists|j: int| 0 <= j < cells[0].len() && #[trigger] column_marked(cells, j)
}

/// Sum of the values of the unmarked cells of a row.
pub open spec fn row_unmarked(row: Seq<GridValue>) -> int
    decreases row.len(),
{
    if row.len() == 0 {
        0
    } else {
        row_unmarked(row.drop_last()) + if row.last().state == State::Unmarked {
            row.last().value as int
        } else {
            0
        }
    }
}

/// Sum of the values of the unmarked cells of a board.
pub open spec fn unmarked(cells: Cells) -> int
    decreases cells.len(),
{
    if cells.len() == 0 {
        0
    } else {
        unmarked(cells.drop_last()) + row_unmarked(cells.last())
    }
}

/// Sum of the values of all cells of a row.
pub open spec fn row_total(row: Seq<GridValue>) -> int
    decreases row.len(),
{
    if row.len() == 0 {
        0
    } else {
        row_total(row.drop_last()) + row.last().value as int
    }
}

/// Sum of the values of all cells of a board.
pub open spec fn total(cells: Cells) -> int
    decreases cells.len(),
{
    if cells.len() == 0 {
        0
    } else {
        total(cells.drop_last()) + row_total(cells.last())
    }
}

/// A board: at least one row and one column, all rows of one length, and
/// values whose sum fits in a `u32`.
pub open spec fn cells_wf(cells: Cells) -> bool {
    &&& cells.len() > 0
    &&& cells[0].len() > 0
    &&& forall|i: int| 0 <= i < cells.len() ==> (#[trigger] cells[i]).len() == cells[0].len()
    &&& total(cells) <= u32::MAX
}

/// The row after `v` is drawn.
pub open spec fn mark_row(row: Seq<GridValue>, v: u32) -> Seq<GridValue> {
    row.map_values(|c: GridValue| mark_cell(c, v))
}

/// The board after `v` is drawn.
pub open spec fn mark_cells(cells: Cells, v: u32) -> Cells {
    cells.map_values(|row: Seq<GridValue>| mark_row(row, v))
}

proof fn lemma_row_unmarked_bounds(row: Seq<GridValue>, n: int)
    requires
        0 <= n <= row.len(),
    ensures
        0 <= row_unmarked(row.take(n)) <= row_unmarked(row) <= row_total(row),
    decreases row.len(),
{
    if row.len() > 0 {
        if n == row.len() {
            assert(row.take(n) == row);
            lemma_row_unmarked_bounds(row.drop_last(), 0);
        } else {
            assert(row.drop_last().take(n) == row.take(n));
            lemma_row_unmarked_bounds(row.drop_last(), n);
        }
    } else {
        assert(row.take(n) == row);
    }
}

proof fn lemma_unmarked_bounds(cells: Cells, n: int)
    requires
        0 <= n <= cells.len(),
    ensures
        0 <= unmarked(cells.take(n)) <= unmarked(cells) <= total(cells),
    decreases cells.len(),
{
    if cells.len() > 0 {
        lemma_row_unmarked_bounds(cells.last(), 0);
        if n == cells.len() {
            assert(cells.take(n) == cells);
            lemma_unmarked_bounds(cells.drop_last(), 0);
        } else {
            assert(cells.drop_last().take(n) == cells.take(n));
            lemma_unmarked_bounds(cells.drop_last(), n);
        }
    } else {
        assert(cells.take(n) == cells);
    }
}

proof fn lemma_row_unmarked_step(row: Seq<GridValue>, n: int)
    requires
        0 <= n < row.len(),
    ensures
        row_unmarked(row.take(n + 1)) == row_unmarked(row.take(n)) + if row[n].state
            == State::Unmarked {
            row[n].value as int
        } else {
            0
        },
{
    assert(row.take(n + 1).drop_last() == row.take(n));
}

proof fn lemma_unmarked_step(cells: Cells, n: int)
    requires
        0 <= n < cells.len(),
    ensures
        unmarked(cells.take(n + 1)) == unmarked(cells.take(n)) + row_unmarked(cells[n]),
{
    assert(cells.take(n + 1).drop_last() == cells.take(n));
}

proof fn lemma_mark_row_total(row: Seq<GridValue>, v: u32)
    ensures
        row_total(mark_row(row, v)) == row_total(row),
    decreases row.len(),
{
    if row.len() > 0 {
        assert(mark_row(row, v).drop_last() == mark_row(row.drop_last(), v));
        lemma_mark_row_total(row.drop_last(), v);
    }
}

proof fn lemma_mark_total(cells: Cells, v: u32)
    ensures
        total(mark_cells(cells, v)) == total(cells),
    decreases cells.len(),
{
    if cells.len() > 0 {
        assert(mark_cells(cells, v).drop_last() == mark_cells(cells.drop_last(), v));
        lemma_mark_row_total(cells.last(), v);
        lemma_mark_total(cells.drop_last(), v);
    }
}

proof fn lemma_total_bounds(cells: Cells, n: int)
    requires
        0 <= n <= cells.len(),
    ensures
        0 <= total(cells.take(n)) <= total(cells),
    decreases cells.len(),
{
    if cells.len() > 0 {
        lemma_row_total_bounds(cells.last(), 0);
        if n == cells.len() {
            assert(cells.take(n) == cells);
            lemma_total_bounds(cells.drop_last(), 0);
        } else {
            assert(cells.drop_last().take(n) == cells.take(n));
            lemma_total_bounds(cells.drop_last(), n);
        }
    } else {
        assert(cells.take(n) == cells);
    }
}

proof fn lemma_row_total_bounds(row: Seq<GridValue>, n: int)
    requires
        0 <= n <= row.len(),
    ensures
        0 <= row_total(row.take(n)) <= row_total(row),
    decreases row.len(),
{
    if row.len() > 0 {
        if n == row.len() {
            assert(row.take(n) == row);
            lemma_row_total_bounds(row.drop_last(), 0);
        } else {
            assert(row.drop_last().take(n) == row.take(n));
            lemma_row_total_bounds(row.drop_last(), n);
        }
    } else {
        assert(row.take(n) == row);
    }
}

/// A row of unmarked cells holding `values`.
pub open spec fn fresh_row(values: Seq<u32>) -> Seq<GridValue> {
    values.map_values(|v: u32| GridValue { value: v, state: State::Unmarked })
}

/// A board of unmarked cells holding `rows`.
pub open spec fn fresh_cells(rows: Seq<Seq<u32>>) -> Cells {
    rows.map_values(|r: Seq<u32>| fresh_row(r))
}

/// A bingo board.
#[derive(Debug)]
pub struct Grid {
    values: Vec<Vec<GridValue>>,
}

impl Grid {
    /// The board's cells, row by row.
    pub closed spec fn cells(&self) -> Cells {
        self.values@.map_values(|row: Vec<GridValue>| row@)
    }

    pub open spec fn wf(&self) -> bool {
        cells_wf(self.cells())
    }

    /// A board of unmarked cells holding `rows`; `None` where there is no
    /// row or no column, where rows differ in length, or where the values
    /// add up past `u32::MAX`.
    pub fn new(rows: Vec<Vec<u32>>) -> (r: Option<Grid>)
        ensures
            r is Some <==> cells_wf(fresh_cells(rows@.map_values(|row: Vec<u32>| row@))),
            r matches Some(g) ==> g.cells() == fresh_cells(rows@.map_values(|row: Vec<u32>| row@)),
    {
        let ghost want = fresh_cells(rows@.map_values(|row: Vec<u32>| row@));
        let mut values: Vec<Vec<GridValue>> = Vec::new();
        let mut i: usize = 0;
        while i < rows.len()
            invariant
                want == fresh_cells(rows@.map_values(|row: Vec<u32>| row@)),
                0 <= i <= rows@.len(),
                values@.len() == i,
                forall|k: int| 0 <= k < i ==> (#[trigger] values@[k])@ == want[k],
            decreases rows@.len() - i,
        {
            let src = &rows[i];
            let mut row: Vec<GridValue> = Vec::new();
            let mut j: usize = 0;
            while j < src.len()
                invariant
                    0 <= j <= src@.len(),
                    row@ == fresh_row(src@).take(j as int),
                decreases src@.len() - j,
            {
                row.push(GridValue::new(src[j]));
                j += 1;
                assert(row@ == fresh_row(src@).take(j as int));
            }
            assert(fresh_row(src@).take(j as int) == fresh_row(src@));
            values.push(row);
            i += 1;
        }
        let g = Grid { values };
        assert(g.cells() == want);
        if g.values.len() == 0 || g.values[0].len() == 0 {
            return None;
        }
        let columns = g.values[0].len();
        let mut i: usize = 0;
        while i < g.values.len()
            invariant
                want == fresh_cells(rows@.map_values(|row: Vec<u32>| row@)),
                g.cells() == want,
                want.len() > 0,
                columns == want[0].len(),
                0 <= i <= want.len(),
                forall|k: int| 0 <= k < i ==> (#[trigger] want[k]).len() == columns,
            decreases want.len() - i,
        {
            assert(g.values@[i as int]@ == want[i as int]);
            if g.values[i].len() != columns {
                return None;
            }
            i += 1;
        }
        let mut sum: u32 = 0;
        let mut i: usize = 0;
        proof {
            lemma_total_bounds(want, 0);
        }
        while i < g.values.len()
            invariant
                want == fresh_cells(rows@.map_values(|row: Vec<u32>| row@)),
                g.cells() == want,
                want.len() > 0,
                forall|k: int| 0 <= k < want.len() ==> (#[trigger] want[k]).len() == want[0].len(),
                0 <= i <= want.len(),
                sum == total(want.take(i as int)),
            decreases want.len() - i,
        {
            let row = &g.values[i];
            assert(row@ == want[i as int]);
            assert(want.take(i + 1).drop_last() == want.take(i as int));
            proof {
                lemma_total_bounds(want, i + 1);
                assert(row@.take(0) == Seq::<GridValue>::empty());
            }
            let mut j: usize = 0;
            while j < row.len()
                invariant
                    want == fresh_cells(rows@.map_values(|row: Vec<u32>| row@)),
                    g.cells() == want,
                    0 <= i < want.len(),
                    row@ == want[i as int],
                    0 <= j <= row@.len(),
                    sum == total(want.take(i as int)) + row_total(row@.take(j as int)),
                    total(want.take(i as int + 1)) == total(want.take(i as int)) + row_total(row@),
                    total(want.take(i as int + 1)) <= total(want),
                decreases row@.len() - j,
            {
                proof {
                    assert(row@.take(j + 1).drop_last() == row@.take(j as int));
                    lemma_row_total_bounds(row@, j + 1);
                }
                if row[j].value > u32::MAX - sum {
                    assert(row_total(row@.take(j + 1)) == row_total(row@.take(j as int)) + row@[j as int].value);
                    assert(total(want) > u32::MAX);
                    return None;
                }
                sum = sum + row[j].value;
                j += 1;
            }
            assert(row@.take(j as int) == row@);
            i += 1;
        }
        assert(want.take(i as int) == want);
        Some(g)
    }

    /// A board with the same cells, marked and unmarked alike.
    pub fn copy(&self) -> (r: Grid)
        ensures
            r.cells() == self.cells(),
    {
        let mut values: Vec<Vec<GridValue>> = Vec::new();
        let mut i: usize = 0;
        while i < self.values.len()
            invariant
                0 <= i <= self.values@.len(),
                values@.len() == i,
                forall|k: int| 0 <= k < i ==> (#[trigger] values@[k])@ == self.values@[k]@,
            decreases self.values@.len() - i,
        {
            let src = &self.values[i];
            let mut row: Vec<GridValue> = Vec::new();
            let mut j: usize = 0;
            while j < src.len()
                invariant
                    0 <= j <= src@.len(),
                    row@ == src@.take(j as int),
                decreases src@.len() - j,
            {
                row.push(src[j]);
                j += 1;
                assert(row@ == src@.take(j as int));
            }
            assert(src@.take(j as int) == src@);
            values.push(row);
            i += 1;
        }
        let r = Grid { values };
        assert(r.cells() == self.cells());
        r
    }

    /// Whether a full row or a full column is marked.
    pub fn is_complete(&self) -> (r: bool)
        requires
            self.wf(),
        ensures
            r == complete(self.cells()),
    {
        let rows = self.values.len();
        let columns = self.values[0].len();
        let mut i: usize = 0;
        while i < rows
            invariant
                self.wf(),
                rows == self.cells().len(),
                columns == self.cells()[0].len(),
                0 <= i <= rows,
                forall|k: int| 0 <= k < i ==> !row_marked(#[trigger] self.cells()[k]),
            decreases rows - i,
        {
            let row = &self.values[i];
            let mut j: usize = 0;
            let mut all = true;
            while j < columns
                invariant
                    self.wf(),
                    0 <= i < rows,
                    rows == self.cells().len(),
                    columns == self.cells()[0].len(),
                    row@ == self.cells()[i as int],
                    0 <= j <= columns,
                    all == forall|k: int| 0 <= k < j ==> (#[trigger] row@[k]).state == State::Marked,
                decreases columns - j,
            {
                if row[j].state != State::Marked {
                    all = false;
                }
                j += 1;
            }
            if all {
                assert(row_marked(self.cells()[i as int]));
                return true;
            }
            i += 1;
        }
        let mut j: usize = 0;
        while j < columns
            invariant
                self.wf(),
                rows == self.cells().len(),
                columns == self.cells()[0].len(),
                0 <= j <= columns,
                forall|k: int| 0 <= k < rows ==> !row_marked(#[trigger] self.cells()[k]),
                forall|k: int| 0 <= k < j ==> !column_marked(self.cells(), k),
            decreases columns - j,
        {
            let mut i: usize = 0;
            let mut all = true;
            while i < rows
                invariant
                    self.wf(),
                    rows == self.cells().len(),
                    columns == self.cells()[0].len(),
                    0 <= j < columns,
                    0 <= i <= rows,
                    all == forall|k: int| 0 <= k < i ==> (#[trigger] self.cells()[k])[j as int].state == State::Marked,
                decreases rows - i,
            {
                let row = &self.values[i];
                assert(row@ == self.cells()[i as int]);
                if row[j].state != State::Marked {
                    all = false;
                }
                i += 1;
            }
            if all {
                assert(column_marked(self.cells(), j as int));
                return true;
            }
            j += 1;
        }
        false
    }

    /// Sum of the values of the unmarked cells.
    pub fn unmarked_sum(&self) -> (r: u32)
        requires
            self.wf(),
        ensures
            r == unmarked(self.cells()),
    {
        let mut sum: u32 = 0;
        let mut i: usize = 0;
        proof {
            lemma_unmarked_bounds(self.cells(), 0);
        }
        while i < self.values.len()
            invariant
                self.wf(),
                0 <= i <= self.cells().len(),
                sum == unmarked(self.cells().take(i as int)),
            decreases self.cells().len() - i,
        {
            let row = &self.values[i];
            assert(row@ == self.cells()[i as int]);
            let mut j: usize = 0;
            proof {
                lemma_unmarked_step(self.cells(), i as int);
                lemma_unmarked_bounds(self.cells(), i as int + 1);
                lemma_row_unmarked_bounds(row@, 0);
                assert(row@.take(0) == Seq::<GridValue>::empty());
            }
            while j < row.len()
                invariant
                    self.wf(),
                    0 <= i < self.cells().len(),
                    row@ == self.cells()[i as int],
                    0 <= j <= row@.len(),
                    sum == unmarked(self.cells().take(i as int)) + row_unmarked(row@.take(j as int)),
                    unmarked(self.cells().take(i as int + 1)) == unmarked(self.cells().take(i as int)) + row_unmarked(row@),
                    unmarked(self.cells().take(i as int + 1)) <= total(self.cells()),
                decreases row@.len() - j,
            {
                proof {
                    lemma_row_unmarked_step(row@, j as int);
                    lemma_row_unmarked_bounds(row@, j as int + 1);
                }
                if row[j].state == State::Unmarked {
                    sum = sum + row[j].value;
                }
                j += 1;
            }
            assert(row@.take(j as int) == row@);
            i += 1;
        }
        assert(self.cells().take(i as int) == self.cells());
        sum
    }

    /// Marks every cell holding `value`; if the board is then complete,
    /// returns its score: `value` times the sum of its unmarked values.
    pub fn mark(&mut self, value: u32) -> (r: Option<u64>)
        requires
            old(self).wf(),
        ensures
            final(self).wf(),
            final(self).cells() == mark_cells(old(self).cells(), value),
            r is Some <==> complete(final(self).cells()),
            r matches Some(s) ==> s == value * unmarked(final(self).cells()),
    {
        let ghost before = self.cells();
        let mut i: usize = 0;
        while i < self.values.len()
            invariant
                cells_wf(before),
                self.cells().len() == before.len(),
                0 <= i <= before.len(),
                forall|k: int| 0 <= k < i ==> #[trigger] self.cells()[k] == mark_row(before[k], value),
                forall|k: int| i <= k < before.len() ==> #[trigger] self.cells()[k] == before[k],
            decreases before.len() - i,
        {
            let mut j: usize = 0;
            while j < self.values[i].len()
                invariant
                    cells_wf(before),
                    self.cells().len() == before.len(),
                    0 <= i < before.len(),
                    self.cells()[i as int].len() == before[i as int].len(),
                    0 <= j <= before[i as int].len(),
                    forall|l: int| 0 <= l < j ==> #[trigger] self.cells()[i as int][l] == mark_cell(before[i as int][l], value),
                    forall|l: int| j <= l < before[i as int].len() ==> #[trigger] self.cells()[i as int][l] == before[i as int][l],
                    forall|k: int| 0 <= k < i ==> #[trigger] self.cells()[k] == mark_row(before[k], value),
                    forall|k: int| i < k < before.len() ==> #[trigger] self.cells()[k] == before[k],
                decreases before[i as int].len() - j,
            {
                let ghost prev = self.values@;
                let ghost prev_cells = self.cells();
                self.values[i][j].mark(value);
                assert forall|k: int| 0 <= k < before.len() && k != i implies #[trigger] self.cells()[k] == prev_cells[k] by {
                    assert(self.values@[k] == prev[k]);
                }
                j += 1;
            }
            assert(self.cells()[i as int] == mark_row(before[i as int], value));
            i += 1;
        }
        assert(self.cells() == mark_cells(before, value));
        proof {
            lemma_mark_total(before, value);
        }
        if self.is_complete() {
            let sum = self.unmarked_sum();
            proof {
                lemma_unmarked_bounds(self.cells(), 0);
            }
            assert(value * unmarked(self.cells()) <= u32::MAX * u32::MAX) by (nonlinear_arith)
                requires
                    0 <= unmarked(self.cells()) <= u32::MAX,
                    value <= u32::MAX;
            Some(value as u64 * sum as u64)
        } else {
            None
        }
    }
}

/// The board after the first `n` numbers of `order` are drawn.
pub open spec fn after(cells: Cells, order: Seq<u32>, n: int) -> Cells
    decreases n,
{
    if n <= 0 {
        cells
    } else {
        mark_cells(after(cells, order, n - 1), order[n - 1])
    }
}

/// The board completes on draw `k` (counting from 0): it is complete once
/// `order[k]` is marked and was not after any earlier draw.
pub open spec fn wins_at(cells: Cells, order: Seq<u32>, k: int) -> bool {
    &&& 0 <= k < order.len()
    &&& complete(after(cells, order, k + 1))
    &&& forall|m: int| 0 <= m < k ==> !complete(#[trigger] after(cells, order, m + 1))
}

/// The score of a board that completes on draw `k`.
pub open spec fn score(cells: Cells, order: Seq<u32>, k: int) -> int {
    order[k] * unmarked(after(cells, order, k + 1))
}

/// Board `i` completes on draw `k`, and no board completes earlier, nor
/// on the same draw before it in board order.
pub open spec fn is_first_win(boards: Seq<Cells>, order: Seq<u32>, i: int, k: int) -> bool {
    &&& 0 <= i < boards.len()
    &&& wins_at(boards[i], order, k)
    &&& forall|j: int, m: int|
        0 <= j < boards.len() && #[trigger] wins_at(boards[j], order, m) ==> k < m || (k == m
            && i <= j)
}

/// The board completes on a draw before `k`, or on draw `k` itself where
/// `same_draw` holds.
pub open spec fn wins_by(cells: Cells, order: Seq<u32>, k: int, same_draw: bool) -> bool {
    exists|m: int| #[trigger] wins_at(cells, order, m) && (m < k || (m == k && same_draw))
}

/// Every board completes; board `i` completes on draw `k`, and no board
/// completes later, nor on the same draw after it in board order.
pub open spec fn is_last_win(boards: Seq<Cells>, order: Seq<u32>, i: int, k: int) -> bool {
    &&& 0 <= i < boards.len()
    &&& wins_at(boards[i], order, k)
    &&& forall|j: int| 0 <= j < boards.len() ==> wins_by(#[trigger] boards[j], order, k, j <= i)
}

/// The score of the first board to complete, if any board completes.
pub open spec fn first_winner(boards: Seq<Cells>, order: Seq<u32>) -> Option<int> {
    if exists|i: int, k: int| is_first_win(boards, order, i, k) {
        let (i, k) = choose|i: int, k: int| is_first_win(boards, order, i, k);
        Some(score(boards[i], order, k))
    } else {
        None
    }
}

/// The score of the last board to complete, if every board completes.
pub open spec fn last_winner(boards: Seq<Cells>, order: Seq<u32>) -> Option<int> {
    if exists|i: int, k: int| is_last_win(boards, order, i, k) {
        let (i, k) = choose|i: int, k: int| is_last_win(boards, order, i, k);
        Some(score(boards[i], order, k))
    } else {
        None
    }
}

proof fn lemma_first_win_unique(boards: Seq<Cells>, order: Seq<u32>, i: int, k: int, i2: int, k2: int)
    requires
        is_first_win(boards, order, i, k),
        is_first_win(boards, order, i2, k2),
    ensures
        i == i2 && k == k2,
{
    assert(wins_at(boards[i2], order, k2));
    assert(wins_at(boards[i], order, k));
}

proof fn lemma_last_win_unique(boards: Seq<Cells>, order: Seq<u32>, i: int, k: int, i2: int, k2: int)
    requires
        is_last_win(boards, order, i, k),
        is_last_win(boards, order, i2, k2),
    ensures
        i == i2 && k == k2,
{
    assert(wins_by(boards[i2], order, k, i2 <= i));
    assert(wins_by(boards[i], order, k2, i <= i2));
    let m = choose|m: int| wins_at(boards[i2], order, m) && (m < k || (m == k && i2 <= i));
    let m2 = choose|m: int| wins_at(boards[i], order, m) && (m < k2 || (m == k2 && i <= i2));
    lemma_wins_at_unique(boards[i2], order, m, k2);
    lemma_wins_at_unique(boards[i], order, m2, k);
}

proof fn lemma_wins_at_unique(cells: Cells, order: Seq<u32>, k: int, k2: int)
    requires
        wins_at(cells, order, k),
        wins_at(cells, order, k2),
    ensures
        k == k2,
{
    if k < k2 {
        assert(!complete(after(cells, order, k + 1)));
    } else if k2 < k {
        assert(!complete(after(cells, order, k2 + 1)));
    }
}

/// Once complete, a board stays complete when another number is drawn.
pub proof fn lemma_complete_stays(cells: Cells, v: u32)
    requires
        cells_wf(cells),
        complete(cells),
    ensures
        complete(mark_cells(cells, v)),
{
    let marked = mark_cells(cells, v);
    if exists|i: int| 0 <= i < cells.len() && row_marked(#[trigger] cells[i]) {
        let i = choose|i: int| 0 <= i < cells.len() && row_marked(#[trigger] cells[i]);
        assert(row_marked(marked[i]));
    } else {
        let j = choose|j: int| 0 <= j < cells[0].len() && #[trigger] column_marked(cells, j);
        assert forall|i: int| 0 <= i < marked.len() implies (#[trigger] marked[i])[j].state == State::Marked by {
            assert(cells[i][j].state == State::Marked);
        }
        assert(column_marked(marked, j));
    }
}

/// Marking keeps a board well formed.
pub proof fn lemma_mark_wf(cells: Cells, v: u32)
    requires
        cells_wf(cells),
    ensures
        cells_wf(mark_cells(cells, v)),
{
    lemma_mark_total(cells, v);
}

/// Drawing keeps a board well formed.
pub proof fn lemma_after_wf(cells: Cells, order: Seq<u32>, n: int)
    requires
        cells_wf(cells),
        0 <= n <= order.len(),
    ensures
        cells_wf(after(cells, order, n)),
    decreases n,
{
    if n > 0 {
        lemma_after_wf(cells, order, n - 1);
        lemma_mark_wf(after(cells, order, n - 1), order[n - 1]);
    }
}

/// Completion is monotonic over a run: a board complete after the first `n`
/// draws is complete after the first `m` draws, for every `m >= n`.
pub proof fn lemma_complete_monotonic(cells: Cells, order: Seq<u32>, n: int, m: int)
    requires
        cells_wf(cells),
        0 <= n <= m <= order.len(),
        complete(after(cells, order, n)),
    ensures
        complete(after(cells, order, m)),
    decreases m - n,
{
    if n < m {
        lemma_complete_monotonic(cells, order, n, m - 1);
        lemma_after_wf(cells, order, m - 1);
        lemma_complete_stays(after(cells, order, m - 1), order[m - 1]);
    }
}

proof fn lemma_row_unmarked_mark(row: Seq<GridValue>, v: u32)
    ensures
        row_unmarked(mark_row(row, v)) <= row_unmarked(row),
        row_unmarked(mark_row(row, v)) < row_unmarked(row) ==> exists|j: int|
            0 <= j < row.len() && (#[trigger] row[j]).value == v && row[j].state == State::Unmarked,
        forall|j: int|
            0 <= j < row.len() && (#[trigger] row[j]).value == v && row[j].state == State::Unmarked
                && v > 0 ==> row_unmarked(mark_row(row, v)) < row_unmarked(row),
    decreases row.len(),
{
    if row.len() > 0 {
        let rest = row.drop_last();
        assert(mark_row(row, v).drop_last() == mark_row(rest, v));
        lemma_row_unmarked_mark(rest, v);
        if row_unmarked(mark_row(rest, v)) < row_unmarked(rest) {
            let j = choose|j: int| 0 <= j < rest.len() && (#[trigger] rest[j]).value == v && rest[j].state == State::Unmarked;
            assert(row[j] == rest[j]);
        }
        assert forall|j: int|
            0 <= j < row.len() && (#[trigger] row[j]).value == v && row[j].state == State::Unmarked
                && v > 0 implies row_unmarked(mark_row(row, v)) < row_unmarked(row) by {
            if j < row.len() - 1 {
                assert(rest[j] == row[j]);
            }
        }
    }
}

/// Sum of the unmarked values never grows when a number is drawn, and
/// shrinks only where the number is on an unmarked cell; it does shrink
/// there when the number is not 0.
pub proof fn lemma_unmarked_mark(cells: Cells, v: u32)
    ensures
        unmarked(mark_cells(cells, v)) <= unmarked(cells),
        unmarked(mark_cells(cells, v)) < unmarked(cells) ==> exists|i: int, j: int|
            0 <= i < cells.len() && 0 <= j < cells[i].len() && (#[trigger] cells[i][j]).value == v
                && cells[i][j].state == State::Unmarked,
        forall|i: int, j: int|
            0 <= i < cells.len() && 0 <= j < cells[i].len() && (#[trigger] cells[i][j]).value == v
                && cells[i][j].state == State::Unmarked && v > 0 ==> unmarked(mark_cells(cells, v))
                < unmarked(cells),
    decreases cells.len(),
{
    if cells.len() > 0 {
        let rest = cells.drop_last();
        let last = cells.last();
        assert(mark_cells(cells, v).drop_last() == mark_cells(rest, v));
        lemma_unmarked_mark(rest, v);
        lemma_row_unmarked_mark(last, v);
        if unmarked(mark_cells(cells, v)) < unmarked(cells) {
            if unmarked(mark_cells(rest, v)) < unmarked(rest) {
                let (i, j) = choose|i: int, j: int|
                    0 <= i < rest.len() && 0 <= j < rest[i].len() && (#[trigger] rest[i][j]).value == v
                        && rest[i][j].state == State::Unmarked;
                assert(cells[i][j] == rest[i][j]);
            } else {
                let j = choose|j: int| 0 <= j < last.len() && (#[trigger] last[j]).value == v && last[j].state == State::Unmarked;
                assert(cells[cells.len() - 1][j] == last[j]);
            }
        }
        assert forall|i: int, j: int|
            0 <= i < cells.len() && 0 <= j < cells[i].len() && (#[trigger] cells[i][j]).value == v
                && cells[i][j].state == State::Unmarked && v > 0 implies unmarked(mark_cells(cells, v))
                < unmarked(cells) by {
            if i < cells.len() - 1 {
                assert(rest[i][j] == cells[i][j]);
            } else {
                assert(last[j] == cells[i][j]);
            }
        }
    }
}

/// Over a run, the sum of the unmarked values after the first `m` draws is
/// at most the sum after the first `n` draws, for every `m >= n`.
pub proof fn lemma_unmarked_nonincreasing(cells: Cells, order: Seq<u32>, n: int, m: int)
    requires
        0 <= n <= m <= order.len(),
    ensures
        unmarked(after(cells, order, m)) <= unmarked(after(cells, order, n)),
    decreases m - n,
{
    if n < m {
        lemma_unmarked_nonincreasing(cells, order, n, m - 1);
        lemma_unmarked_mark(after(cells, order, m - 1), order[m - 1]);
    }
}

/// With a single board, the first board to complete is also the last.
pub proof fn lemma_single_board(boards: Seq<Cells>, order: Seq<u32>)
    requires
        boards.len() == 1,
    ensures
        first_winner(boards, order) == last_winner(boards, order),
{
    assert forall|i: int, k: int| is_first_win(boards, order, i, k) implies is_last_win(boards, order, i, k) by {
        assert forall|j: int| 0 <= j < boards.len() implies wins_by(#[trigger] boards[j], order, k, j <= i) by {
            assert(wins_at(boards[j], order, k));
        }
    }
    assert forall|i: int, k: int| is_last_win(boards, order, i, k) implies is_first_win(boards, order, i, k) by {
        assert forall|j: int, m: int|
            0 <= j < boards.len() && #[trigger] wins_at(boards[j], order, m) implies k < m || (k == m && i <= j) by {
            lemma_wins_at_unique(boards[0], order, k, m);
        }
    }
    if exists|i: int, k: int| is_first_win(boards, order, i, k) {
        let (i, k) = choose|i: int, k: int| is_first_win(boards, order, i, k);
        let (i2, k2) = choose|i2: int, k2: int| is_last_win(boards, order, i2, k2);
        lemma_first_win_unique(boards, order, i, k, i2, k2);
    }
}

/// A fully marked column completes a board, whatever its rows hold.
pub proof fn lemma_full_column_completes(cells: Cells, j: int)
    requires
        cells_wf(cells),
        0 <= j < cells[0].len(),
        column_marked(cells, j),
    ensures
        complete(cells),
{
}

/// Where no board is complete after any draw, neither query has a winner;
/// where one board never completes, the last-winner query has none.
pub proof fn lemma_no_completion_no_winner(boards: Seq<Cells>, order: Seq<u32>, b: int)
    requires
        0 <= b < boards.len(),
        forall|k: int| 0 <= k < order.len() ==> !complete(#[trigger] after(boards[b], order, k + 1)),
    ensures
        last_winner(boards, order) is None,
        (forall|i: int, k: int|
            0 <= i < boards.len() && 0 <= k < order.len() ==> !complete(#[trigger] after(boards[i], order, k + 1)))
            ==> first_winner(boards, order) is None,
{
    if exists|i: int, k: int| is_last_win(boards, order, i, k) {
        let (i, k) = choose|i: int, k: int| is_last_win(boards, order, i, k);
        assert(wins_by(boards[b], order, k, b <= i));
        let m = choose|m: int| #[trigger] wins_at(boards[b], order, m) && (m < k || (m == k && b <= i));
        assert(complete(after(boards[b], order, m + 1)));
    }
    if forall|i: int, k: int|
        0 <= i < boards.len() && 0 <= k < order.len() ==> !complete(#[trigger] after(boards[i], order, k + 1)) {
        if exists|i: int, k: int| is_first_win(boards, order, i, k) {
            let (i, k) = choose|i: int, k: int| is_first_win(boards, order, i, k);
            assert(complete(after(boards[i], order, k + 1)));
        }
    }
}

/// The queries depend on the boards and the draws alone: two games built
/// alike give the same first and the same last winner.
pub proof fn lemma_queries_deterministic(g1: &BingoFile, g2: &BingoFile)
    requires
        g1.boards() == g2.boards(),
        g1.order() == g2.order(),
    ensures
        first_winner(g1.boards(), g1.order()) == first_winner(g2.boards(), g2.order()),
        last_winner(g1.boards(), g1.order()) == last_winner(g2.boards(), g2.order()),
{
}

/// The numbers on each of `ls`, read as words of decimal digits; `None`
/// where a word is not decimal or does not fit in a `u32`.
pub open spec fn rows_of(ls: Seq<Seq<u8>>) -> Option<Seq<Seq<u32>>>
    decreases ls.len(),
{
    if ls.len() == 0 {
        Some(Seq::empty())
    } else {
        match (rows_of(ls.drop_last()), numbers_u32(words(ls.last()))) {
            (Some(rows), Some(row)) => Some(rows.push(row)),
            _ => None,
        }
    }
}

/// `rows` grouped into boards: consecutive non-empty rows form a board,
/// empty rows part them. The flag says whether the last board is still
/// open to more rows.
pub open spec fn group(rows: Seq<Seq<u32>>) -> (Seq<Seq<Seq<u32>>>, bool)
    decreases rows.len(),
{
    if rows.len() == 0 {
        (Seq::empty(), false)
    } else {
        let (boards, open) = group(rows.drop_last());
        let row = rows.last();
        if row.len() == 0 {
            (boards, false)
        } else if open {
            (boards.update(boards.len() - 1, boards.last().push(row)), true)
        } else {
            (boards.push(seq![row]), true)
        }
    }
}

/// A game as text: the first line lists the draws, split by commas; the
/// lines after it hold the boards' rows, numbers split by spaces, boards
/// parted by blank lines. At least one board.
pub open spec fn bingo_input(s: Seq<u8>) -> Option<(Seq<u32>, Seq<Seq<Seq<u32>>>)> {
    let ls = lines(s);
    if ls.len() == 0 {
        None
    } else {
        match (numbers_u32(split(ls[0], 44)), rows_of(ls.drop_first())) {
            (Some(order), Some(rows)) => if group(rows).0.len() > 0 {
                Some((order, group(rows).0))
            } else {
                None
            },
            _ => None,
        }
    }
}

proof fn lemma_rows_none_stays(ls: Seq<Seq<u8>>, n: int)
    requires
        0 <= n <= ls.len(),
        rows_of(ls.take(n)) is None,
    ensures
        rows_of(ls) is None,
    decreases ls.len() - n,
{
    if n < ls.len() {
        assert(ls.take(n + 1).drop_last() == ls.take(n));
        lemma_rows_none_stays(ls, n + 1);
    } else {
        assert(ls.take(n) == ls);
    }
}

pub open spec fn row_views(rows: Seq<Vec<u32>>) -> Seq<Seq<u32>> {
    rows.map_values(|r: Vec<u32>| r@)
}

pub open spec fn board_views(boards: Seq<Vec<Vec<u32>>>) -> Seq<Seq<Seq<u32>>> {
    boards.map_values(|b: Vec<Vec<u32>>| row_views(b@))
}

/// The rows on `ls`, or `None` where a word is not a `u32` in decimal.
fn parse_rows(ls: &[Vec<u8>]) -> (r: Option<Vec<Vec<u32>>>)
    ensures
        match (r, rows_of(views(ls@))) {
            (Some(v), Some(w)) => row_views(v@) == w,
            (None, None) => true,
            _ => false,
        },
{
    let ghost lv = views(ls@);
    let mut rows: Vec<Vec<u32>> = Vec::new();
    let mut i: usize = 0;
    while i < ls.len()
        invariant
            lv == views(ls@),
            0 <= i <= ls@.len(),
            rows_of(lv.take(i as int)) == Some(row_views(rows@)),
        decreases ls@.len() - i,
    {
        assert(lv.take(i + 1).drop_last() == lv.take(i as int));
        assert(lv.take(i + 1).last() == ls@[i as int]@);
        let ws = split_words(ls[i].as_slice());
        match parse_u32_list(&ws) {
            Some(row) => {
                rows.push(row);
                assert(row_views(rows@) == row_views(rows@).drop_last().push(row@));
            },
            None => {
                proof {
                    lemma_rows_none_stays(lv, i + 1);
                }
                return None;
            },
        }
        i += 1;
    }
    assert(lv.take(i as int) == lv);
    Some(rows)
}

/// `rows` grouped into boards at empty rows.
fn group_rows(rows: Vec<Vec<u32>>) -> (r: Vec<Vec<Vec<u32>>>)
    ensures
        board_views(r@) == group(row_views(rows@)).0,
{
    let ghost rv = row_views(rows@);
    let mut boards: Vec<Vec<Vec<u32>>> = Vec::new();
    let mut cur: Vec<Vec<u32>> = Vec::new();
    let mut i: usize = 0;
    while i < rows.len()
        invariant
            rv == row_views(rows@),
            0 <= i <= rows@.len(),
            group(rv.take(i as int)).1 == (cur@.len() > 0),
            group(rv.take(i as int)).0 == if cur@.len() > 0 {
                board_views(boards@).push(row_views(cur@))
            } else {
                board_views(boards@)
            },
        decreases rows@.len() - i,
    {
        assert(rv.take(i + 1).drop_last() == rv.take(i as int));
        assert(rv.take(i + 1).last() == rows@[i as int]@);
        let row = copy_row(&rows[i]);
        let ghost old_cur = row_views(cur@);
        let ghost old_boards = board_views(boards@);
        if row.len() == 0 {
            if cur.len() > 0 {
                let full = cur;
                boards.push(full);
                cur = Vec::new();
                assert(board_views(boards@) == board_views(boards@).drop_last().push(row_views(full@)));
            }
        } else {
            cur.push(row);
            assert(row_views(cur@) == old_cur.push(row@));
            proof {
                if old_cur.len() > 0 {
                    assert(old_boards.push(old_cur).update(old_boards.len() as int, old_cur.push(row@))
                        == old_boards.push(old_cur.push(row@)));
                } else {
                    assert(old_cur.push(row@) == seq![row@]);
                }
            }
        }
        i += 1;
    }
    assert(rv.take(i as int) == rv);
    if cur.len() > 0 {
        boards.push(cur);
        assert(board_views(boards@) == board_views(boards@).drop_last().push(row_views(cur@)));
    }
    boards
}

fn copy_board(board: &Vec<Vec<u32>>) -> (r: Vec<Vec<u32>>)
    ensures
        row_views(r@) == row_views(board@),
{
    let mut r: Vec<Vec<u32>> = Vec::new();
    let mut i: usize = 0;
    while i < board.len()
        invariant
            0 <= i <= board@.len(),
            row_views(r@) == row_views(board@).take(i as int),
        decreases board@.len() - i,
    {
        let ghost before = row_views(r@);
        let c = copy_row(&board[i]);
        r.push(c);
        assert(row_views(r@) == before.push(c@));
        assert(row_views(board@).take(i + 1) == row_views(board@).take(i as int).push(board@[i as int]@));
        i += 1;
    }
    assert(row_views(board@).take(i as int) == row_views(board@));
    r
}

fn copy_row(row: &Vec<u32>) -> (r: Vec<u32>)
    ensures
        r@ == row@,
{
    let mut r: Vec<u32> = Vec::new();
    let mut i: usize = 0;
    while i < row.len()
        invariant
            0 <= i <= row@.len(),
            r@ == row@.take(i as int),
        decreases row@.len() - i,
    {
        r.push(row[i]);
        i += 1;
        assert(r@ == row@.take(i as int));
    }
    assert(row@.take(i as int) == row@);
    r
}

/// A game: the numbers in the order they are drawn, and the boards.
#[derive(Debug)]
pub struct BingoFile {
    order: Vec<u32>,
    grids: Vec<Grid>,
}

impl BingoFile {
    /// The boards as they stand before any draw.
    pub closed spec fn boards(&self) -> Seq<Cells> {
        self.grids@.map_values(|g: Grid| g.cells())
    }

    /// The numbers in the order they are drawn.
    pub closed spec fn order(&self) -> Seq<u32> {
        self.order@
    }

    pub open spec fn wf(&self) -> bool {
        forall|i: int| 0 <= i < self.boards().len() ==> cells_wf(#[trigger] self.boards()[i])
    }

    /// A game drawing `order` over `grids`.
    pub fn new(order: Vec<u32>, grids: Vec<Grid>) -> (r: BingoFile)
        requires
            forall|i: int| 0 <= i < grids@.len() ==> (#[trigger] grids@[i]).wf(),
        ensures
            r.wf(),
            r.order() == order@,
            r.boards() == grids@.map_values(|g: Grid| g.cells()),
    {
        BingoFile { order, grids }
    }

    /// Reads a game from text (see `bingo_input`); `None` where the text is
    /// not of that form or a board is not well formed.
    pub fn parse(input: &[u8]) -> (r: Option<BingoFile>)
        ensures
            r is Some <==> (bingo_input(input@) is Some && forall|i: int|
                0 <= i < (bingo_input(input@)->Some_0).1.len() ==> cells_wf(
                    fresh_cells(#[trigger] (bingo_input(input@)->Some_0).1[i]),
                )),
            r matches Some(g) ==> g.wf() && g.order() == (bingo_input(input@)->Some_0).0 && g.boards()
                == (bingo_input(input@)->Some_0).1.map_values(|b: Seq<Seq<u32>>| fresh_cells(b)),
    {
        let ls = split_lines(input);
        if ls.len() == 0 {
            return None;
        }
        let ghost lv = views(ls@);
        let first = split_bytes(ls[0].as_slice(), 44);
        assert(lv[0] == ls@[0]@);
        let order = match parse_u32_list(&first) {
            Some(o) => o,
            None => {
                return None;
            },
        };
        let rest = ls.as_slice().split_at(1).1;
        assert(views(rest@) == lv.drop_first());
        let rows = match parse_rows(rest) {
            Some(rows) => rows,
            None => {
                return None;
            },
        };
        let boards = group_rows(rows);
        if boards.len() == 0 {
            return None;
        }
        assert(views(first@) == split(lv[0], 44));
        assert(bingo_input(input@) == Some((order@, board_views(boards@))));
        let ghost want = (bingo_input(input@)->Some_0).1;
        assert(board_views(boards@) == want);
        let mut grids: Vec<Grid> = Vec::new();
        let mut i: usize = 0;
        while i < boards.len()
            invariant
                board_views(boards@) == want,
                bingo_input(input@) is Some,
                want == (bingo_input(input@)->Some_0).1,
                0 <= i <= boards@.len(),
                grids@.len() == i,
                forall|k: int| 0 <= k < i ==> cells_wf(fresh_cells(#[trigger] want[k])),
                forall|k: int| 0 <= k < i ==> (#[trigger] grids@[k]).cells() == fresh_cells(want[k]),
                forall|k: int| 0 <= k < i ==> (#[trigger] grids@[k]).wf(),
            decreases boards@.len() - i,
        {
            let board = copy_board(&boards[i]);
            assert(row_views(board@) == want[i as int]);
            assert(board@.map_values(|row: Vec<u32>| row@) =~= row_views(board@));
            match Grid::new(board) {
                Some(g) => grids.push(g),
                None => {
                    assert(!cells_wf(fresh_cells(want[i as int])));
                    assert(!cells_wf(fresh_cells((bingo_input(input@)->Some_0).1[i as int])));
                    return None;
                },
            }
            i += 1;
        }
        let r = BingoFile::new(order, grids);
        assert(r.boards() == want.map_values(|b: Seq<Seq<u32>>| fresh_cells(b)));
        Some(r)
    }

    /// A copy of the boards, to be marked by one query.
    fn fresh_grids(&self) -> (r: Vec<Grid>)
        requires
            self.wf(),
        ensures
            r@.len() == self.boards().len(),
            forall|i: int| 0 <= i < r@.len() ==> (#[trigger] r@[i]).cells() == self.boards()[i],
    {
        let mut r: Vec<Grid> = Vec::new();
        let mut i: usize = 0;
        while i < self.grids.len()
            invariant
                0 <= i <= self.grids@.len(),
                r@.len() == i,
                forall|k: int| 0 <= k < i ==> (#[trigger] r@[k]).cells() == self.boards()[k],
            decreases self.grids@.len() - i,
        {
            r.push(self.grids[i].copy());
            i += 1;
        }
        r
    }

    /// The score of the first board to complete, replaying the draws in
    /// order and the boards in board order on each draw; `None` when no
    /// board completes.
    pub fn find_winner(&self) -> (r: Option<u64>)
        requires
            self.wf(),
        ensures
            r is None <==> first_winner(self.boards(), self.order()) is None,
            r matches Some(s) ==> first_winner(self.boards(), self.order()) == Some(s as int),
    {
        let ghost boards = self.boards();
        let ghost order = self.order();
        let n = self.grids.len();
        let mut grids = self.fresh_grids();
        let mut k: usize = 0;
        while k < self.order.len()
            invariant
                self.wf(),
                boards == self.boards(),
                order == self.order(),
                order.len() == self.order@.len(),
                n == boards.len(),
                grids@.len() == n,
                0 <= k <= order.len(),
                forall|j: int| 0 <= j < n ==> (#[trigger] grids@[j]).wf() && grids@[j].cells()
                    == after(boards[j], order, k as int),
                forall|j: int, m: int|
                    0 <= j < n && 0 <= m < k ==> !complete(#[trigger] after(boards[j], order, m + 1)),
            decreases order.len() - k,
        {
            let v = self.order[k];
            let mut i: usize = 0;
            while i < grids.len()
                invariant
                    self.wf(),
                    boards == self.boards(),
                    order == self.order(),
                    n == boards.len(),
                    grids@.len() == n,
                    0 <= k < order.len(),
                    v == order[k as int],
                    0 <= i <= n,
                    forall|j: int| 0 <= j < i ==> (#[trigger] grids@[j]).wf() && grids@[j].cells()
                        == after(boards[j], order, k + 1),
                    forall|j: int| 0 <= j < i ==> !complete(#[trigger] after(boards[j], order, k + 1)),
                    forall|j: int| i <= j < n ==> (#[trigger] grids@[j]).wf() && grids@[j].cells()
                        == after(boards[j], order, k as int),
                    forall|j: int, m: int|
                        0 <= j < n && 0 <= m < k ==> !complete(#[trigger] after(boards[j], order, m + 1)),
                decreases n - i,
            {
                let ghost prev = grids@;
                let res = grids[i].mark(v);
                assert forall|j: int| 0 <= j < n && j != i implies #[trigger] grids@[j] == prev[j] by {}
                assert(after(boards[i as int], order, k + 1) == mark_cells(after(boards[i as int], order, k as int), v));
                if let Some(s) = res {
                    proof {
                        let bi = boards[i as int];
                        assert(wins_at(bi, order, k as int));
                        assert forall|j: int, m: int|
                            0 <= j < boards.len() && #[trigger] wins_at(boards[j], order, m) implies k < m || (k == m && i <= j) by {
                            if m < k {
                                assert(complete(after(boards[j], order, m + 1)));
                            } else if m == k && j < i {
                                assert(complete(after(boards[j], order, k + 1)));
                            }
                        }
                        assert(is_first_win(boards, order, i as int, k as int));
                        let (i2, k2) = choose|i2: int, k2: int| is_first_win(boards, order, i2, k2);
                        lemma_first_win_unique(boards, order, i as int, k as int, i2, k2);
                    }
                    return Some(s);
                }
                i += 1;
            }
            k += 1;
        }
        proof {
            if exists|i: int, k: int| is_first_win(boards, order, i, k) {
                let (i2, k2) = choose|i2: int, k2: int| is_first_win(boards, order, i2, k2);
                assert(complete(after(boards[i2], order, k2 + 1)));
            }
        }
        None
    }

    /// The score of the last board to complete, replaying the draws in order;
    /// a board that has completed is marked no further. Where several boards
    /// complete on the final draw, the last of them in board order counts.
    /// `None` when some board never completes, or there is no board.
    pub fn find_loser(&self) -> (r: Option<u64>)
        requires
            self.wf(),
        ensures
            r is None <==> last_winner(self.boards(), self.order()) is None,
            r matches Some(s) ==> last_winner(self.boards(), self.order()) == Some(s as int),
    {
        let ghost boards = self.boards();
        let ghost order = self.order();
        let n = self.grids.len();
        let mut grids = self.fresh_grids();
        let mut won: Vec<bool> = Vec::new();
        while won.len() < n
            invariant
                won@.len() <= n,
                forall|j: int| 0 <= j < won@.len() ==> !won@[j],
            decreases n - won@.len(),
        {
            won.push(false);
        }
        let mut k: usize = 0;
        while k < self.order.len()
            invariant
                self.wf(),
                boards == self.boards(),
                order == self.order(),
                order.len() == self.order@.len(),
                n == boards.len(),
                grids@.len() == n,
                won@.len() == n,
                0 <= k <= order.len(),
                forall|j: int| 0 <= j < n ==> (#[trigger] grids@[j]).wf(),
                forall|j: int| 0 <= j < n && #[trigger] won@[j] ==> wins_by(boards[j], order, k as int, false),
                forall|j: int| 0 <= j < n && !#[trigger] won@[j] ==> grids@[j].cells() == after(boards[j], order, k as int),
                forall|j: int, m: int|
                    0 <= j < n && !won@[j] && 0 <= m < k ==> !complete(#[trigger] after(boards[j], order, m + 1)),
                k > 0 ==> exists|j: int| 0 <= j < n && !#[trigger] won@[j],
            decreases order.len() - k,
        {
            let v = self.order[k];
            let ghost w0 = won@;
            let ghost mut last_idx: int = -1;
            let mut last: Option<u64> = None;
            let mut i: usize = 0;
            while i < n
                invariant
                    self.wf(),
                    boards == self.boards(),
                    order == self.order(),
                    n == boards.len(),
                    grids@.len() == n,
                    won@.len() == n,
                    w0.len() == n,
                    0 <= k < order.len(),
                    v == order[k as int],
                    0 <= i <= n,
                    forall|j: int| 0 <= j < n ==> (#[trigger] grids@[j]).wf(),
                    forall|j: int| i <= j < n ==> #[trigger] won@[j] == w0[j],
                    forall|j: int| 0 <= j < n && #[trigger] w0[j] ==> won@[j],
                    forall|j: int| 0 <= j < n && #[trigger] w0[j] ==> wins_by(boards[j], order, k as int, false),
                    forall|j: int| 0 <= j < i && #[trigger] won@[j] ==> w0[j] || wins_at(boards[j], order, k as int),
                    forall|j: int| 0 <= j < n && !#[trigger] won@[j] ==> grids@[j].cells() == after(boards[j], order, if j < i { k + 1 } else { k as int }),
                    forall|j: int, m: int|
                        0 <= j < n && !w0[j] && 0 <= m < k ==> !complete(#[trigger] after(boards[j], order, m + 1)),
                    forall|j: int| 0 <= j < i && !#[trigger] won@[j] ==> !complete(after(boards[j], order, k + 1)),
                    -1 <= last_idx < i,
                    last_idx == -1 ==> last is None,
                    last_idx >= 0 ==> wins_at(boards[last_idx], order, k as int),
                    last_idx >= 0 ==> (last matches Some(s) && s == score(boards[last_idx], order, k as int)),
                    forall|j: int| last_idx < j < i ==> !wins_at(#[trigger] boards[j], order, k as int),
                decreases n - i,
            {
                proof {
                    if w0[i as int] {
                        let m = choose|m: int| #[trigger] wins_at(boards[i as int], order, m) && m < k;
                        if wins_at(boards[i as int], order, k as int) {
                            lemma_wins_at_unique(boards[i as int], order, m, k as int);
                        }
                    }
                }
                if !won[i] {
                    let ghost prev = grids@;
                    let res = grids[i].mark(v);
                    assert forall|j: int| 0 <= j < n && j != i implies #[trigger] grids@[j] == prev[j] by {}
                    assert(after(boards[i as int], order, k + 1) == mark_cells(after(boards[i as int], order, k as int), v));
                    if let Some(s) = res {
                        won.set(i, true);
                        last = Some(s);
                        proof {
                            assert(wins_at(boards[i as int], order, k as int));
                            last_idx = i as int;
                        }
                    }
                }
                i += 1;
            }
            let mut all = true;
            let mut j: usize = 0;
            while j < n
                invariant
                    won@.len() == n,
                    0 <= j <= n,
                    all == forall|l: int| 0 <= l < j ==> #[trigger] won@[l],
                decreases n - j,
            {
                if !won[j] {
                    all = false;
                }
                j += 1;
            }
            if all {
                proof {
                    if n > 0 {
                        let j0 = if k > 0 {
                            choose|j: int| 0 <= j < n && !#[trigger] w0[j]
                        } else {
                            0
                        };
                        assert(won@[j0]);
                        assert(last_idx >= 0);
                        assert forall|j: int| 0 <= j < n implies wins_by(#[trigger] boards[j], order, k as int, j <= last_idx) by {
                            assert(won@[j]);
                            if w0[j] {
                                let m = choose|m: int| #[trigger] wins_at(boards[j], order, m) && m < k;
                            } else {
                                assert(wins_at(boards[j], order, k as int));
                            }
                        }
                        assert(is_last_win(boards, order, last_idx, k as int));
                        let (i2, k2) = choose|i2: int, k2: int| is_last_win(boards, order, i2, k2);
                        lemma_last_win_unique(boards, order, last_idx, k as int, i2, k2);
                    }
                }
                return last;
            }
            proof {
                assert forall|j: int| 0 <= j < n && #[trigger] won@[j] implies wins_by(boards[j], order, k + 1, false) by {
                    if w0[j] {
                        let m = choose|m: int| #[trigger] wins_at(boards[j], order, m) && m < k;
                    } else {
                        assert(wins_at(boards[j], order, k as int));
                    }
                }
                assert forall|j: int, m: int|
                    0 <= j < n && !won@[j] && 0 <= m < k + 1 implies !complete(#[trigger] after(boards[j], order, m + 1)) by {
                    assert(!w0[j]);
                }
            }
            k += 1;
        }
        proof {
            if exists|i: int, k: int| is_last_win(boards, order, i, k) {
                let (i2, k2) = choose|i2: int, k2: int| is_last_win(boards, order, i2, k2);
                let j = choose|j: int| 0 <= j < n && !#[trigger] won@[j];
                assert(wins_by(boards[j], order, k2, j <= i2));
                let m = choose|m: int| #[trigger] wins_at(boards[j], order, m) && (m < k2 || (m == k2 && j <= i2));
                assert(complete(after(boards[j], order, m + 1)));
            }
        }
        None
    }
}

} // verus!
