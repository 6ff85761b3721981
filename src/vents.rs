//! Vent lines on a grid: the points each line covers, and how many points
//! two or more lines cover.
use vstd::prelude::*;
use std::collections::HashSet;
use crate::text::{lemma_numbers_i32_len, lines, numbers_i32, parse_i32_list, split, split_bytes, split_lines, split_words, views, words};

verus! {

broadcast use vstd::std_specs::hash::group_hash_axioms;

/// A point of the grid.
#[derive(Clone, Copy, Debug, PartialEq, Eq, Hash, Structural)]
pub struct Point {
    pub x: i32,
    pub y: i32,
}

/// A point as text: two numbers split by a comma.
pub open spec fn point_text(s: Seq<u8>) -> Option<Point> {
    let ps = split(s, 44);
    if ps.len() != 2 {
        None
    } else {
        match numbers_i32(ps) {
            Some(v) => Some(Point { x: v[0], y: v[1] }),
            None => None,
        }
    }
}

/// A line as text: two points with the word `->` between them.
pub open spec fn line_text(s: Seq<u8>) -> Option<Line> {
    let ws = words(s);
    if ws.len() != 3 || ws[1] != seq![45u8, 62] {
        None
    } else {
        match (point_text(ws[0]), point_text(ws[2])) {
            (Some(start), Some(end)) => Some(Line { start, end }),
            _ => None,
        }
    }
}

/// The lines on `ls`, one each; `None` where one is not a line.
pub open spec fn line_texts(ls: Seq<Seq<u8>>) -> Option<Seq<Line>>
    decreases ls.len(),
{
    if ls.len() == 0 {
        Some(Seq::empty())
    } else {
        match (line_texts(ls.drop_last()), line_text(ls.last())) {
            (Some(v), Some(l)) => Some(v.push(l)),
            _ => None,
        }
    }
}

proof fn lemma_line_texts_none_stays(ls: Seq<Seq<u8>>, n: int)
    requires
        0 <= n <= ls.len(),
        line_texts(ls.take(n)) is None,
    ensures
        line_texts(ls) is None,
    decreases ls.len() - n,
{
    if n < ls.len() {
        assert(ls.take(n + 1).drop_last() == ls.take(n));
        lemma_line_texts_none_stays(ls, n + 1);
    } else {
        assert(ls.take(n) == ls);
    }
}

impl Point {
    /// The point that `s` writes.
    pub fn parse(s: &[u8]) -> (r: Option<Point>)
        ensures
            r == point_text(s@),
    {
        let ps = split_bytes(s, 44);
        if ps.len() != 2 {
            return None;
        }
        proof {
            lemma_numbers_i32_len(views(ps@));
        }
        match parse_i32_list(&ps) {
            Some(v) => Some(Point { x: v[0], y: v[1] }),
            None => None,
        }
    }

    pub fn new(x: i32, y: i32) -> (r: Point)
        ensures
            r == (Point { x, y }),
    {
        Point { x, y }
    }
}

/// How a line runs.
#[derive(Clone, Copy, Debug, PartialEq, Eq, Structural)]
pub enum Direction {
    Horizontal,
    Vertical,
    Diagonal,
}

pub open spec fn direction_of(start: Point, end: Point) -> Direction {
    if start.x == end.x {
        Direction::Vertical
    } else if start.y == end.y {
        Direction::Horizontal
    } else {
        Direction::Diagonal
    }
}

impl Direction {
    /// Vertical where the two ends share `x`, else horizontal where they
    /// share `y`, else diagonal.
    pub fn from(start: Point, end: Point) -> (r: Direction)
        ensures
            r == direction_of(start, end),
    {
        if start.x == end.x {
            Direction::Vertical
        } else if start.y == end.y {
            Direction::Horizontal
        } else {
            Direction::Diagonal
        }
    }
}

/// A line from `start` to `end`, both ends included.
#[derive(Clone, Copy, Debug, PartialEq, Eq, Structural)]
pub struct Line {
    pub start: Point,
    pub end: Point,
}

pub open spec fn min_int(a: int, b: int) -> int {
    if a <= b {
        a
    } else {
        b
    }
}

pub open spec fn max_int(a: int, b: int) -> int {
    if a <= b {
        b
    } else {
        a
    }
}

pub open spec fn abs_int(a: int) -> int {
    if a < 0 {
        -a
    } else {
        a
    }
}

/// Integer division rounding toward zero; 0 for a zero divisor.
pub open spec fn trunc_div(a: int, b: int) -> int {
    if b == 0 {
        0
    } else if (a < 0) == (b < 0) {
        abs_int(a) / abs_int(b)
    } else {
        -(abs_int(a) / abs_int(b))
    }
}

/// Slope of the line through the two ends, rounded toward zero.
pub open spec fn slope(l: Line) -> int {
    trunc_div(l.end.y - l.start.y, l.end.x - l.start.x)
}

/// Where the line of that slope through `end` crosses `x == 0`.
pub open spec fn intercept(l: Line) -> int {
    l.end.y - l.end.x * slope(l)
}

/// The `y` of a diagonal line at `x`.
pub open spec fn diagonal_y(l: Line, x: int) -> int {
    slope(l) * x + intercept(l)
}

/// The points a line covers, in increasing `x` (or increasing `y` for a
/// vertical line). A diagonal line takes, at each `x` between its ends,
/// the `y` of the line through `end` with the rounded slope.
pub open spec fn line_points(l: Line) -> Seq<Point> {
    let lo_x = min_int(l.start.x as int, l.end.x as int);
    let hi_x = max_int(l.start.x as int, l.end.x as int);
    let lo_y = min_int(l.start.y as int, l.end.y as int);
    let hi_y = max_int(l.start.y as int, l.end.y as int);
    match direction_of(l.start, l.end) {
        Direction::Vertical => Seq::new(
            (hi_y - lo_y + 1) as nat,
            |i: int| Point { x: l.start.x, y: (lo_y + i) as i32 },
        ),
        Direction::Horizontal => Seq::new(
            (hi_x - lo_x + 1) as nat,
            |i: int| Point { x: (lo_x + i) as i32, y: l.start.y },
        ),
        Direction::Diagonal => Seq::new(
            (hi_x - lo_x + 1) as nat,
            |i: int| Point { x: (lo_x + i) as i32, y: diagonal_y(l, lo_x + i) as i32 },
        ),
    }
}

/// Every `y` that a diagonal line takes fits in an `i32`.
pub open spec fn line_fits(l: Line) -> bool {
    direction_of(l.start, l.end) == Direction::Diagonal ==> forall|x: int|
        min_int(l.start.x as int, l.end.x as int) <= x <= max_int(l.start.x as int, l.end.x as int)
            ==> i32::MIN <= #[trigger] diagonal_y(l, x) <= i32::MAX
}

impl Line {
    /// The line that `s` writes.
    pub fn parse(s: &[u8]) -> (r: Option<Line>)
        ensures
            r == line_text(s@),
    {
        let ws = split_words(s);
        if ws.len() != 3 {
            return None;
        }
        assert(views(ws@)[0] == ws@[0]@ && views(ws@)[1] == ws@[1]@ && views(ws@)[2] == ws@[2]@);
        let arrow = &ws[1];
        if !(arrow.len() == 2 && arrow[0] == 45 && arrow[1] == 62) {
            proof {
                if arrow@ == seq![45u8, 62] {
                    assert(arrow@[1] == 62);
                }
            }
            return None;
        }
        assert(arrow@ =~= seq![45u8, 62]);
        match (Point::parse(ws[0].as_slice()), Point::parse(ws[2].as_slice())) {
            (Some(start), Some(end)) => Some(Line { start, end }),
            _ => None,
        }
    }

    pub open spec fn is_straight(&self) -> bool {
        self.start.x == self.end.x || self.start.y == self.end.y
    }

    /// Whether the two ends share `x` or `y`.
    pub fn is_horizontal_or_vertical(&self) -> (r: bool)
        ensures
            r == self.is_straight(),
    {
        self.start.x == self.end.x || self.start.y == self.end.y
    }

    /// The points the line covers.
    pub fn points(&self) -> (r: Vec<Point>)
        requires
            line_fits(*self),
        ensures
            r@ == line_points(*self),
    {
        let direction = Direction::from(self.start, self.end);
        let mut r: Vec<Point> = Vec::new();
        match direction {
            Direction::Vertical => {
                let (lo, hi) = if self.start.y <= self.end.y {
                    (self.start.y as i64, self.end.y as i64)
                } else {
                    (self.end.y as i64, self.start.y as i64)
                };
                let mut y: i64 = lo;
                while y <= hi
                    invariant
                        lo <= y <= hi + 1,
                        lo == min_int(self.start.y as int, self.end.y as int),
                        hi == max_int(self.start.y as int, self.end.y as int),
                        r@ == line_points(*self).take(y - lo),
                        line_points(*self).len() == hi - lo + 1,
                        direction_of(self.start, self.end) == Direction::Vertical,
                    decreases hi + 1 - y,
                {
                    r.push(Point { x: self.start.x, y: y as i32 });
                    y += 1;
                    assert(r@ == line_points(*self).take(y - lo));
                }
            },
            Direction::Horizontal => {
                let (lo, hi) = if self.start.x <= self.end.x {
                    (self.start.x as i64, self.end.x as i64)
                } else {
                    (self.end.x as i64, self.start.x as i64)
                };
                let mut x: i64 = lo;
                while x <= hi
                    invariant
                        lo <= x <= hi + 1,
                        lo == min_int(self.start.x as int, self.end.x as int),
                        hi == max_int(self.start.x as int, self.end.x as int),
                        r@ == line_points(*self).take(x - lo),
                        line_points(*self).len() == hi - lo + 1,
                        direction_of(self.start, self.end) == Direction::Horizontal,
                    decreases hi + 1 - x,
                {
                    r.push(Point { x: x as i32, y: self.start.y });
                    x += 1;
                    assert(r@ == line_points(*self).take(x - lo));
                }
            },
            Direction::Diagonal => {
                let dy: i64 = self.end.y as i64 - self.start.y as i64;
                let dx: i64 = self.end.x as i64 - self.start.x as i64;
                let ady: u64 = if dy < 0 { (-dy) as u64 } else { dy as u64 };
                let adx: u64 = if dx < 0 { (-dx) as u64 } else { dx as u64 };
                let q: i128 = (ady / adx) as i128;
                let m: i128 = if (dy < 0) == (dx < 0) { q } else { -q };
                assert(m == slope(*self));
                assert(-0x1_0000_0000 <= m <= 0x1_0000_0000) by (nonlinear_arith)
                    requires
                        m == q || m == -q,
                        q == ady / adx,
                        0 <= ady <= 0x1_0000_0000,
                        adx >= 1;
                let ex = self.end.x as i128;
                assert(-0x1_0000_0000 * 0x8000_0000 <= ex * m <= 0x1_0000_0000 * 0x8000_0000) by (nonlinear_arith)
                    requires
                        -0x1_0000_0000 <= m <= 0x1_0000_0000,
                        i32::MIN <= ex <= i32::MAX;
                let c: i128 = self.end.y as i128 - ex * m;
                let (lo, hi) = if self.start.x <= self.end.x {
                    (self.start.x as i64, self.end.x as i64)
                } else {
                    (self.end.x as i64, self.start.x as i64)
                };
                let mut x: i64 = lo;
                while x <= hi
                    invariant
                        lo <= x <= hi + 1,
                        lo == min_int(self.start.x as int, self.end.x as int),
                        hi == max_int(self.start.x as int, self.end.x as int),
                        m == slope(*self),
                        c == intercept(*self),
                        -0x1_0000_0000_0000_0000 <= c <= 0x1_0000_0000_0000_0000,
                        -0x1_0000_0000 <= m <= 0x1_0000_0000,
                        i32::MIN <= lo && hi <= i32::MAX,
                        line_fits(*self),
                        r@ == line_points(*self).take(x - lo),
                        line_points(*self).len() == hi - lo + 1,
                        direction_of(self.start, self.end) == Direction::Diagonal,
                    decreases hi + 1 - x,
                {
                    assert(-0x1_0000_0000 * 0x8000_0000 <= m * x <= 0x1_0000_0000 * 0x8000_0000) by (nonlinear_arith)
                        requires
                            -0x1_0000_0000 <= m <= 0x1_0000_0000,
                            i32::MIN <= x <= i32::MAX;
                    let y: i128 = m * x as i128 + c;
                    assert(y == diagonal_y(*self, x as int));
                    r.push(Point { x: x as i32, y: y as i32 });
                    x += 1;
                    assert(r@ == line_points(*self).take(x - lo));
                }
            },
        }
        assert(r@ == line_points(*self));
        r
    }
}

/// The points covered by `lines`, line after line; diagonal lines count
/// only where `diagonals` holds.
pub open spec fn covered(lines: Seq<Line>, diagonals: bool) -> Seq<Point>
    decreases lines.len(),
{
    if lines.len() == 0 {
        Seq::empty()
    } else {
        covered(lines.drop_last(), diagonals) + if diagonals || lines.last().is_straight() {
            line_points(lines.last())
        } else {
            Seq::empty()
        }
    }
}

/// The points that occur at least twice in `pts`.
pub open spec fn repeated(pts: Seq<Point>) -> Set<Point> {
    pts.to_set().filter(
        |p: Point| exists|i: int, j: int| #[trigger] repeated_at(pts, i, j) && pts[j] == p,
    )
}

/// `pts` holds the same point at `i` and at a later `j`.
pub open spec fn repeated_at(pts: Seq<Point>, i: int, j: int) -> bool {
    0 <= i < j < pts.len() && pts[i] == pts[j]
}

/// Two coordinates as one integer: `x` in the high half, `y` in the low half.
pub open spec fn pair_key(x: i32, y: i32) -> u64 {
    ((x as int - i32::MIN) * 0x1_0000_0000 + (y as int - i32::MIN)) as u64
}

/// A point as one integer.
pub open spec fn point_key(p: Point) -> u64 {
    pair_key(p.x, p.y)
}

pub(crate) proof fn lemma_pair_key_injective(x1: i32, y1: i32, x2: i32, y2: i32)
    requires
        pair_key(x1, y1) == pair_key(x2, y2),
    ensures
        x1 == x2 && y1 == y2,
{
    let ax = x1 as int - i32::MIN;
    let ay = y1 as int - i32::MIN;
    let bx = x2 as int - i32::MIN;
    let by_ = y2 as int - i32::MIN;
    assert(0 <= ax * 0x1_0000_0000 + ay <= u64::MAX) by (nonlinear_arith)
        requires
            0 <= ax < 0x1_0000_0000,
            0 <= ay < 0x1_0000_0000;
    assert(0 <= bx * 0x1_0000_0000 + by_ <= u64::MAX) by (nonlinear_arith)
        requires
            0 <= bx < 0x1_0000_0000,
            0 <= by_ < 0x1_0000_0000;
    assert(ax == bx && ay == by_) by (nonlinear_arith)
        requires
            ax * 0x1_0000_0000 + ay == bx * 0x1_0000_0000 + by_,
            0 <= ay < 0x1_0000_0000,
            0 <= by_ < 0x1_0000_0000;
}

proof fn lemma_point_key_injective(a: Point, b: Point)
    requires
        point_key(a) == point_key(b),
    ensures
        a == b,
{
    lemma_pair_key_injective(a.x, a.y, b.x, b.y);
}

pub(crate) fn key_of(x: i32, y: i32) -> (r: u64)
    ensures
        r == pair_key(x, y),
{
    let hi = (x as i64 - i32::MIN as i64) as u64;
    let lo = (y as i64 - i32::MIN as i64) as u64;
    assert(hi * 0x1_0000_0000 + lo <= u64::MAX) by (nonlinear_arith)
        requires
            0 <= hi < 0x1_0000_0000,
            0 <= lo < 0x1_0000_0000;
    hi * 0x1_0000_0000 + lo
}

/// How many distinct points occur at least twice in `pts`.
pub fn count_repeated(pts: &Vec<Point>) -> (r: usize)
    ensures
        r == repeated(pts@).len(),
{
    let mut seen: HashSet<u64> = HashSet::new();
    let mut twice: HashSet<u64> = HashSet::new();
    let mut k: usize = 0;
    while k < pts.len()
        invariant
            0 <= k <= pts@.len(),
            forall|key: u64| #[trigger] seen@.contains(key) <==> exists|i: int| 0 <= i < k && point_key(#[trigger] pts@[i]) == key,
            forall|key: u64| #[trigger] twice@.contains(key) <==> exists|i: int, j: int|
                #[trigger] repeated_at(pts@, i, j) && j < k && point_key(pts@[j]) == key,
        decreases pts@.len() - k,
    {
        let p = pts[k];
        let key = key_of(p.x, p.y);
        let fresh = seen.insert(key);
        if !fresh {
            let ghost i = choose|i: int| 0 <= i < k && point_key(#[trigger] pts@[i]) == key;
            proof {
                lemma_point_key_injective(pts@[i], p);
            }
            twice.insert(key);
            assert forall|key2: u64| #[trigger] twice@.contains(key2) <==> exists|i: int, j: int|
                #[trigger] repeated_at(pts@, i, j) && j < k + 1 && point_key(pts@[j]) == key2 by {
                if key2 == key {
                    assert(repeated_at(pts@, i, k as int));
                    assert(point_key(pts@[k as int]) == key2);
                }
                if exists|i: int, j: int| #[trigger] repeated_at(pts@, i, j) && j < k + 1 && point_key(pts@[j]) == key2 {
                    let (i, j) = choose|i: int, j: int| #[trigger] repeated_at(pts@, i, j) && j < k + 1 && point_key(pts@[j]) == key2;
                    if j < k {
                        assert(twice@.contains(key2));
                    } else {
                        assert(key2 == key);
                    }
                }
            }
        } else {
            assert forall|key2: u64| #[trigger] twice@.contains(key2) <==> exists|i: int, j: int|
                #[trigger] repeated_at(pts@, i, j) && j < k + 1 && point_key(pts@[j]) == key2 by {
                if exists|i: int, j: int| #[trigger] repeated_at(pts@, i, j) && j < k + 1 && point_key(pts@[j]) == key2 {
                    let (i, j) = choose|i: int, j: int| #[trigger] repeated_at(pts@, i, j) && j < k + 1 && point_key(pts@[j]) == key2;
                    if j == k {
                        assert(point_key(pts@[i]) == key);
                        assert(false);
                    }
                }
            }
        }
        k += 1;
    }
    proof {
        broadcast use vstd::set_lib::group_set_properties, vstd::seq_lib::group_seq_properties;
        let rep = repeated(pts@);
        assert(pts@.to_set().finite());
        assert(rep.finite());
        assert forall|a: Point, b: Point| rep.contains(a) && rep.contains(b) && point_key(a) == point_key(b) implies a == b by {
            lemma_point_key_injective(a, b);
        }
        assert(vstd::relations::injective_on(|p: Point| point_key(p), rep));
        assert forall|key: u64| #[trigger] twice@.contains(key) <==> rep.map(|p: Point| point_key(p)).contains(key) by {
            if twice@.contains(key) {
                let (i, j) = choose|i: int, j: int| #[trigger] repeated_at(pts@, i, j) && j < k && point_key(pts@[j]) == key;
                assert(pts@.contains(pts@[j]));
                assert(rep.contains(pts@[j]));
            }
            if rep.map(|p: Point| point_key(p)).contains(key) {
                let p = choose|p: Point| rep.contains(p) && point_key(p) == key;
                let (i, j) = choose|i: int, j: int| #[trigger] repeated_at(pts@, i, j) && pts@[j] == p;
                assert(point_key(pts@[j]) == key);
            }
        }
        assert(twice@ == rep.map(|p: Point| point_key(p)));
        vstd::set_lib::lemma_map_size(rep, twice@, |p: Point| point_key(p));
    }
    twice.len()
}

/// The vent lines of one survey.
#[derive(Debug)]
pub struct Input {
    pub lines: Vec<Line>,
}

impl Input {
    /// The lines of `input`, one per line of text.
    pub fn parse(input: &[u8]) -> (r: Option<Input>)
        ensures
            match (r, line_texts(lines(input@))) {
                (Some(v), Some(w)) => v.lines@ == w,
                (None, None) => true,
                _ => false,
            },
    {
        let ls = split_lines(input);
        let ghost lv = views(ls@);
        let mut out: Vec<Line> = Vec::new();
        let mut i: usize = 0;
        while i < ls.len()
            invariant
                lv == views(ls@),
                lv == lines(input@),
                0 <= i <= ls@.len(),
                line_texts(lv.take(i as int)) == Some(out@),
            decreases ls@.len() - i,
        {
            assert(lv.take(i + 1).drop_last() == lv.take(i as int));
            assert(lv.take(i + 1).last() == ls@[i as int]@);
            match Line::parse(ls[i].as_slice()) {
                Some(l) => out.push(l),
                None => {
                    proof {
                        lemma_line_texts_none_stays(lv, i + 1);
                    }
                    return None;
                },
            }
            i += 1;
        }
        assert(lv.take(i as int) == lv);
        Some(Input { lines: out })
    }

    /// The points that `lines` cover, line after line.
    fn covered_points(&self, diagonals: bool) -> (r: Vec<Point>)
        requires
            diagonals ==> forall|i: int| 0 <= i < self.lines@.len() ==> line_fits(#[trigger] self.lines@[i]),
        ensures
            r@ == covered(self.lines@, diagonals),
    {
        let mut r: Vec<Point> = Vec::new();
        let mut i: usize = 0;
        while i < self.lines.len()
            invariant
                0 <= i <= self.lines@.len(),
                diagonals ==> forall|k: int| 0 <= k < self.lines@.len() ==> line_fits(#[trigger] self.lines@[k]),
                r@ == covered(self.lines@.take(i as int), diagonals),
            decreases self.lines@.len() - i,
        {
            let line = self.lines[i];
            assert(self.lines@.take(i + 1).drop_last() == self.lines@.take(i as int));
            if diagonals || line.is_horizontal_or_vertical() {
                let mut ps = line.points();
                r.append(&mut ps);
            }
            i += 1;
        }
        assert(self.lines@.take(i as int) == self.lines@);
        r
    }

    /// How many points two or more horizontal or vertical lines cover.
    pub fn calculate_dangerous_point_count(&self) -> (r: usize)
        ensures
            r == repeated(covered(self.lines@, false)).len(),
    {
        let pts = self.covered_points(false);
        count_repeated(&pts)
    }

    /// How many points two or more lines cover, diagonal lines included.
    pub fn calculate_dangerous_point_count_with_diagonals(&self) -> (r: usize)
        requires
            forall|i: int| 0 <= i < self.lines@.len() ==> line_fits(#[trigger] self.lines@[i]),
        ensures
            r == repeated(covered(self.lines@, true)).len(),
    {
        let pts = self.covered_points(true);
        count_repeated(&pts)
    }
}

} // verus!
