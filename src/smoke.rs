//! A height map of digits: its low points, those lower than every
//! neighbour above, below, left and right.
use vstd::prelude::*;
use vstd::string::*;
use crate::text::{is_digit as is_digit_byte, lines, split_lines, views};

verus! {

pub open spec fn is_digit(c: char) -> bool {
    '0' <= c <= '9'
}

pub open spec fn digit_value(c: char) -> u32 {
    (c as u32 - '0' as u32) as u32
}

/// Height at row `x`, column `y`, where the map has such a cell.
pub open spec fn height_at(g: Seq<Seq<u32>>, x: int, y: int) -> Option<u32> {
    if 0 <= x < g.len() && 0 <= y < g[x].len() {
        Some(g[x][y])
    } else {
        None
    }
}

/// No cell at (`x`, `y`), or one higher than `c`.
pub open spec fn higher_or_absent(g: Seq<Seq<u32>>, x: int, y: int, c: u32) -> bool {
    match height_at(g, x, y) {
        Some(h) => h > c,
        None => true,
    }
}

/// Every neighbour of (`x`, `y`) that the map has is higher than it.
pub open spec fn is_low_point(g: Seq<Seq<u32>>, x: int, y: int) -> bool {
    let c = g[x][y];
    &&& higher_or_absent(g, x - 1, y, c)
    &&& higher_or_absent(g, x + 1, y, c)
    &&& higher_or_absent(g, x, y - 1, c)
    &&& higher_or_absent(g, x, y + 1, c)
}

/// Heights of the low points in the first `n` cells of row `x`, in order.
pub open spec fn row_low_points(g: Seq<Seq<u32>>, x: int, n: int) -> Seq<u32>
    decreases n,
{
    if n <= 0 {
        Seq::empty()
    } else {
        row_low_points(g, x, n - 1) + if is_low_point(g, x, n - 1) {
            seq![g[x][n - 1]]
        } else {
            Seq::empty()
        }
    }
}

/// Heights of the low points in the first `m` rows, row by row.
pub open spec fn low_points(g: Seq<Seq<u32>>, m: int) -> Seq<u32>
    decreases m,
{
    if m <= 0 {
        Seq::empty()
    } else {
        low_points(g, m - 1) + row_low_points(g, m - 1, g[m - 1].len() as int)
    }
}

/// Sum of one more than each height.
pub open spec fn risk(s: Seq<u32>) -> int
    decreases s.len(),
{
    if s.len() == 0 {
        0
    } else {
        risk(s.drop_last()) + s.last() + 1
    }
}

/// Heights, row by row.
#[derive(Debug)]
pub struct DepthMap {
    values: Vec<Vec<u32>>,
}

impl DepthMap {
    pub closed spec fn view(&self) -> Seq<Seq<u32>> {
        self.values@.map_values(|r: Vec<u32>| r@)
    }

    /// The map whose rows are the digits of `values`.
    pub fn new(values: Vec<&str>) -> (r: DepthMap)
        requires
            forall|i: int, j: int|
                0 <= i < values@.len() && 0 <= j < values@[i]@.len() ==> is_digit(#[trigger] values@[i]@[j]),
        ensures
            r@.len() == values@.len(),
            forall|i: int| 0 <= i < values@.len() ==> (#[trigger] r@[i]).len() == values@[i]@.len(),
            forall|i: int, j: int|
                0 <= i < values@.len() && 0 <= j < values@[i]@.len() ==> #[trigger] r@[i][j] == digit_value(
                    values@[i]@[j],
                ),
    {
        let mut rows: Vec<Vec<u32>> = Vec::new();
        let mut i: usize = 0;
        while i < values.len()
            invariant
                0 <= i <= values@.len(),
                rows@.len() == i,
                forall|a: int, b: int|
                    0 <= a < values@.len() && 0 <= b < values@[a]@.len() ==> is_digit(#[trigger] values@[a]@[b]),
                forall|a: int| 0 <= a < i ==> (#[trigger] rows@[a])@.len() == values@[a]@.len(),
                forall|a: int, b: int|
                    0 <= a < i && 0 <= b < values@[a]@.len() ==> #[trigger] rows@[a]@[b] == digit_value(values@[a]@[b]),
            decreases values@.len() - i,
        {
            let line: &str = values[i];
            let n = line.unicode_len();
            let mut row: Vec<u32> = Vec::new();
            let mut j: usize = 0;
            while j < n
                invariant
                    0 <= i < values@.len(),
                    line@ == values@[i as int]@,
                    n == line@.len(),
                    0 <= j <= n,
                    row@.len() == j,
                    forall|b: int| 0 <= b < n ==> is_digit(#[trigger] line@[b]),
                    forall|b: int| 0 <= b < j ==> #[trigger] row@[b] == digit_value(line@[b]),
                decreases n - j,
            {
                let c = line.get_char(j);
                assert(is_digit(line@[j as int]));
                row.push(c as u32 - '0' as u32);
                j += 1;
            }
            rows.push(row);
            i += 1;
        }
        let r = DepthMap { values: rows };
        assert forall|a: int| 0 <= a < values@.len() implies (#[trigger] r@[a]).len() == values@[a]@.len() by {
            assert(r@[a] == rows@[a]@);
        }
        assert forall|a: int, b: int|
            0 <= a < values@.len() && 0 <= b < values@[a]@.len() implies #[trigger] r@[a][b] == digit_value(values@[a]@[b]) by {
            assert(r@[a] == rows@[a]@);
        }
        r
    }

    /// Reads the map: one row per line, one digit per height.
    pub fn parse(input: &[u8]) -> (r: Option<DepthMap>)
        ensures
            r is Some <==> forall|i: int, j: int|
                0 <= i < lines(input@).len() && 0 <= j < lines(input@)[i].len() ==> is_digit_byte(
                    #[trigger] lines(input@)[i][j],
                ),
            r matches Some(m) ==> m@.len() == lines(input@).len() && forall|i: int|
                0 <= i < m@.len() ==> (#[trigger] m@[i]) == lines(input@)[i].map_values(|b: u8| (b - 48) as u32),
    {
        let ls = split_lines(input);
        let ghost lv = views(ls@);
        let mut rows: Vec<Vec<u32>> = Vec::new();
        let mut i: usize = 0;
        while i < ls.len()
            invariant
                lv == views(ls@),
                lv == lines(input@),
                0 <= i <= ls@.len(),
                rows@.len() == i,
                forall|a: int, b: int| 0 <= a < i && 0 <= b < lv[a].len() ==> is_digit_byte(#[trigger] lv[a][b]),
                forall|a: int| 0 <= a < i ==> (#[trigger] rows@[a])@ == lv[a].map_values(|b: u8| (b - 48) as u32),
            decreases ls@.len() - i,
        {
            let line = &ls[i];
            assert(line@ == lv[i as int]);
            let mut row: Vec<u32> = Vec::new();
            let mut j: usize = 0;
            while j < line.len()
                invariant
                    lv == views(ls@),
                    lv == lines(input@),
                    0 <= i < ls@.len(),
                    line@ == lv[i as int],
                    0 <= j <= line@.len(),
                    row@ == line@.take(j as int).map_values(|b: u8| (b - 48) as u32),
                    forall|b: int| 0 <= b < j ==> is_digit_byte(#[trigger] line@[b]),
                decreases line@.len() - j,
            {
                let c = line[j];
                if c < 48 || c > 57 {
                    assert(!is_digit_byte(lv[i as int][j as int]));
                    return None;
                }
                row.push((c - 48) as u32);
                j += 1;
                assert(row@ == line@.take(j as int).map_values(|b: u8| (b - 48) as u32));
            }
            assert(line@.take(j as int) == line@);
            rows.push(row);
            i += 1;
        }
        let r = DepthMap { values: rows };
        assert forall|a: int| 0 <= a < r@.len() implies (#[trigger] r@[a]) == lv[a].map_values(|b: u8| (b - 48) as u32) by {
            assert(r@[a] == rows@[a]@);
        }
        Some(r)
    }

    /// Whether every neighbour of (`x`, `y`) that the map has is higher.
    pub fn no_point_lower(&self, x: usize, y: usize) -> (r: bool)
        requires
            x < self@.len(),
            y < self@[x as int].len(),
        ensures
            r == is_low_point(self@, x as int, y as int),
    {
        let g = &self.values;
        assert(g@[x as int]@ == self@[x as int]);
        let centre = g[x][y];
        if x > 0 {
            assert(g@[x - 1]@ == self@[x - 1]);
            if y < g[x - 1].len() && g[x - 1][y] <= centre {
                return false;
            }
        }
        if x < g.len() - 1 {
            assert(g@[x + 1]@ == self@[x + 1]);
            if y < g[x + 1].len() && g[x + 1][y] <= centre {
                return false;
            }
        }
        if y > 0 && g[x][y - 1] <= centre {
            return false;
        }
        if y < g[x].len() - 1 && g[x][y + 1] <= centre {
            return false;
        }
        true
    }

    /// Heights of the low points, row by row.
    pub fn lowest_points(&self) -> (r: Vec<u32>)
        ensures
            r@ == low_points(self@, self@.len() as int),
    {
        let mut lowest: Vec<u32> = Vec::new();
        let mut x: usize = 0;
        while x < self.values.len()
            invariant
                0 <= x <= self@.len(),
                self@.len() == self.values@.len(),
                lowest@ == low_points(self@, x as int),
            decreases self@.len() - x,
        {
            let row = &self.values[x];
            assert(row@ == self@[x as int]);
            let mut y: usize = 0;
            while y < row.len()
                invariant
                    0 <= x < self@.len(),
                    row@ == self@[x as int],
                    0 <= y <= row@.len(),
                    lowest@ == low_points(self@, x as int) + row_low_points(self@, x as int, y as int),
                decreases row@.len() - y,
            {
                let v = row[y];
                if self.no_point_lower(x, y) {
                    lowest.push(v);
                }
                assert(lowest@ == low_points(self@, x as int) + row_low_points(self@, x as int, y + 1));
                y += 1;
            }
            x += 1;
        }
        lowest
    }
}

proof fn lemma_risk_prefix(s: Seq<u32>, n: int)
    requires
        0 <= n <= s.len(),
    ensures
        0 <= risk(s.take(n)) <= risk(s),
    decreases s.len(),
{
    if s.len() == 0 {
        assert(s.take(n) == s);
    } else if n == s.len() {
        assert(s.take(n) == s);
        lemma_risk_prefix(s.drop_last(), 0);
    } else {
        assert(s.drop_last().take(n) == s.take(n));
        lemma_risk_prefix(s.drop_last(), n);
    }
}

/// Sum of one more than each of `heights`.
pub fn risk_level(heights: &[u32]) -> (r: u64)
    requires
        risk(heights@) <= u64::MAX,
    ensures
        r == risk(heights@),
{
    let mut sum: u64 = 0;
    let mut i: usize = 0;
    while i < heights.len()
        invariant
            0 <= i <= heights@.len(),
            risk(heights@) <= u64::MAX,
            sum == risk(heights@.take(i as int)),
        decreases heights@.len() - i,
    {
        assert(heights@.take(i + 1).drop_last() == heights@.take(i as int));
        proof {
            lemma_risk_prefix(heights@, i + 1);
        }
        sum = sum + heights[i] as u64 + 1;
        i += 1;
    }
    assert(heights@.take(i as int) == heights@);
    sum
}

} // verus!
