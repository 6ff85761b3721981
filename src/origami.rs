//! Transparent paper marked with dots, folded along lines: the dots left
//! after each fold, and the picture they draw.
use vstd::prelude::*;
use vstd::string::*;
use crate::text::{
    lemma_numbers_i32_len, lines, numbers_i32, parse_i32, parse_i32_list, signed_value, split,
    split_bytes, split_lines, split_words, views, words,
};

verus! {

/// The axis a fold line runs across: `X` folds along `x == position`.
#[derive(Clone, Copy, Debug, PartialEq, Eq, Structural)]
pub enum Direction {
    X,
    Y,
}

/// A dot on the paper.
#[derive(Clone, Copy, Debug, PartialEq, Eq, Hash, Structural)]
pub struct Dot {
    pub x: i32,
    pub y: i32,
}

/// A fold of the paper along a line.
#[derive(Clone, Copy, Debug, PartialEq, Eq, Structural)]
pub struct Instruction {
    pub direction: Direction,
    pub position: i32,
}

/// Where a fold takes a dot: a dot before the line stays; one on or past
/// it is mirrored across the line.
pub open spec fn fold_dot(ins: Instruction, d: Dot) -> Dot {
    match ins.direction {
        Direction::X => if d.x < ins.position {
            d
        } else {
            Dot { x: (2 * ins.position - d.x) as i32, y: d.y }
        },
        Direction::Y => if d.y < ins.position {
            d
        } else {
            Dot { x: d.x, y: (2 * ins.position - d.y) as i32 }
        },
    }
}

/// The mirrored coordinate, where the fold moves `d`, fits in an `i32`.
pub open spec fn fold_fits(ins: Instruction, d: Dot) -> bool {
    match ins.direction {
        Direction::X => d.x >= ins.position ==> i32::MIN <= 2 * ins.position - d.x <= i32::MAX,
        Direction::Y => d.y >= ins.position ==> i32::MIN <= 2 * ins.position - d.y <= i32::MAX,
    }
}

/// The dots after each instruction of `ins` in turn.
pub open spec fn fold_all_dots(dots: Set<Dot>, ins: Seq<Instruction>) -> Set<Dot>
    decreases ins.len(),
{
    if ins.len() == 0 {
        dots
    } else {
        fold_all_dots(dots, ins.drop_last()).map(|d: Dot| fold_dot(ins.last(), d))
    }
}

/// Every fold of `ins`, made in turn, has room for the dots it moves.
pub open spec fn folds_fit(dots: Set<Dot>, ins: Seq<Instruction>) -> bool {
    forall|n: int, d: Dot|
        0 <= n < ins.len() && #[trigger] fold_all_dots(dots, ins.take(n)).contains(d) ==> fold_fits(
            ins[n],
            d,
        )
}

/// A dot as text: two numbers split by a comma.
pub open spec fn dot_text(s: Seq<u8>) -> Option<Dot> {
    let ps = split(s, 44);
    if ps.len() != 2 {
        None
    } else {
        match numbers_i32(ps) {
            Some(v) => Some(Dot { x: v[0], y: v[1] }),
            None => None,
        }
    }
}

/// The axis a word names: `x` or `y`.
pub open spec fn axis_named(w: Seq<u8>) -> Option<Direction> {
    if w == seq![120u8] {
        Some(Direction::X)
    } else if w == seq![121u8] {
        Some(Direction::Y)
    } else {
        None
    }
}

/// A fold as text: the words `fold` and `along`, then the axis, `=` and
/// the position.
pub open spec fn instruction_text(s: Seq<u8>) -> Option<Instruction> {
    let ws = words(s);
    if ws.len() != 3 || ws[0] != seq![102u8, 111, 108, 100] || ws[1] != seq![97u8, 108, 111, 110, 103] {
        None
    } else {
        let parts = split(ws[2], 61);
        if parts.len() != 2 {
            None
        } else {
            match (axis_named(parts[0]), signed_value(parts[1])) {
                (Some(direction), Some(p)) => if i32::MIN <= p <= i32::MAX {
                    Some(Instruction { direction, position: p as i32 })
                } else {
                    None
                },
                _ => None,
            }
        }
    }
}

/// The dots on `ls`, one each.
pub open spec fn dot_texts(ls: Seq<Seq<u8>>) -> Option<Seq<Dot>>
    decreases ls.len(),
{
    if ls.len() == 0 {
        Some(Seq::empty())
    } else {
        match (dot_texts(ls.drop_last()), dot_text(ls.last())) {
            (Some(v), Some(d)) => Some(v.push(d)),
            _ => None,
        }
    }
}

/// The folds on `ls`, one each.
pub open spec fn instruction_texts(ls: Seq<Seq<u8>>) -> Option<Seq<Instruction>>
    decreases ls.len(),
{
    if ls.len() == 0 {
        Some(Seq::empty())
    } else {
        match (instruction_texts(ls.drop_last()), instruction_text(ls.last())) {
            (Some(v), Some(d)) => Some(v.push(d)),
            _ => None,
        }
    }
}

/// Index of the first empty line of `ls`, if there is one.
pub open spec fn first_blank(ls: Seq<Seq<u8>>) -> Option<int>
    decreases ls.len(),
{
    if ls.len() == 0 {
        None
    } else if ls[0].len() == 0 {
        Some(0)
    } else {
        match first_blank(ls.drop_first()) {
            Some(k) => Some(k + 1),
            None => None,
        }
    }
}

/// The paper's dots and the folds as text: a dot per line, an empty line,
/// then a fold per line.
pub open spec fn origami_text(s: Seq<u8>) -> Option<(Seq<Dot>, Seq<Instruction>)> {
    let ls = lines(s);
    match first_blank(ls) {
        Some(k) => match (dot_texts(ls.take(k)), instruction_texts(ls.skip(k + 1))) {
            (Some(dots), Some(ins)) => Some((dots, ins)),
            _ => None,
        },
        None => None,
    }
}

proof fn lemma_dot_texts_none_stays(ls: Seq<Seq<u8>>, n: int)
    requires
        0 <= n <= ls.len(),
        dot_texts(ls.take(n)) is None,
    ensures
        dot_texts(ls) is None,
    decreases ls.len() - n,
{
    if n < ls.len() {
        assert(ls.take(n + 1).drop_last() == ls.take(n));
        lemma_dot_texts_none_stays(ls, n + 1);
    } else {
        assert(ls.take(n) == ls);
    }
}

proof fn lemma_instruction_texts_none_stays(ls: Seq<Seq<u8>>, n: int)
    requires
        0 <= n <= ls.len(),
        instruction_texts(ls.take(n)) is None,
    ensures
        instruction_texts(ls) is None,
    decreases ls.len() - n,
{
    if n < ls.len() {
        assert(ls.take(n + 1).drop_last() == ls.take(n));
        lemma_instruction_texts_none_stays(ls, n + 1);
    } else {
        assert(ls.take(n) == ls);
    }
}

proof fn lemma_first_blank(ls: Seq<Seq<u8>>, k: int)
    requires
        0 <= k <= ls.len(),
        forall|j: int| 0 <= j < k ==> (#[trigger] ls[j]).len() > 0,
    ensures
        k < ls.len() && ls[k].len() == 0 ==> first_blank(ls) == Some(k),
        k == ls.len() ==> first_blank(ls) is None,
    decreases k,
{
    if k > 0 {
        lemma_first_blank(ls.drop_first(), k - 1);
    } else if ls.len() > 0 && k == ls.len() {
    }
}

impl Direction {
    /// The axis `w` names.
    pub fn parse(w: &[u8]) -> (r: Option<Direction>)
        ensures
            r == axis_named(w@),
    {
        if w.len() == 1 && w[0] == 120 {
            assert(w@ =~= seq![120u8]);
            Some(Direction::X)
        } else if w.len() == 1 && w[0] == 121 {
            assert(w@ =~= seq![121u8]);
            Some(Direction::Y)
        } else {
            proof {
                if w@ == seq![120u8] || w@ == seq![121u8] {
                    assert(w@[0] == 120 || w@[0] == 121);
                }
            }
            None
        }
    }
}

impl Dot {
    /// The dot that `s` writes.
    pub fn parse(s: &[u8]) -> (r: Option<Dot>)
        ensures
            r == dot_text(s@),
    {
        let ps = split_bytes(s, 44);
        if ps.len() != 2 {
            return None;
        }
        proof {
            lemma_numbers_i32_len(views(ps@));
        }
        match parse_i32_list(&ps) {
            Some(v) => Some(Dot { x: v[0], y: v[1] }),
            None => None,
        }
    }
}

impl Instruction {
    /// The fold that `s` writes.
    pub fn parse(s: &[u8]) -> (r: Option<Instruction>)
        ensures
            r == instruction_text(s@),
    {
        let ws = split_words(s);
        if ws.len() != 3 {
            return None;
        }
        assert(views(ws@)[0] == ws@[0]@ && views(ws@)[1] == ws@[1]@ && views(ws@)[2] == ws@[2]@);
        let w0 = &ws[0];
        let w1 = &ws[1];
        if !(w0.len() == 4 && w0[0] == 102 && w0[1] == 111 && w0[2] == 108 && w0[3] == 100) {
            proof {
                if w0@ == seq![102u8, 111, 108, 100] {
                    assert(w0@[3] == 100);
                }
            }
            return None;
        }
        assert(w0@ =~= seq![102u8, 111, 108, 100]);
        if !(w1.len() == 5 && w1[0] == 97 && w1[1] == 108 && w1[2] == 111 && w1[3] == 110 && w1[4]
            == 103) {
            proof {
                if w1@ == seq![97u8, 108, 111, 110, 103] {
                    assert(w1@[4] == 103);
                }
            }
            return None;
        }
        assert(w1@ =~= seq![97u8, 108, 111, 110, 103]);
        let parts = split_bytes(ws[2].as_slice(), 61);
        if parts.len() != 2 {
            return None;
        }
        assert(views(parts@)[0] == parts@[0]@ && views(parts@)[1] == parts@[1]@);
        match (Direction::parse(parts[0].as_slice()), parse_i32(parts[1].as_slice())) {
            (Some(direction), Some(position)) => Some(Instruction { direction, position }),
            _ => None,
        }
    }

    /// Where this fold takes `dot`.
    pub fn apply(&self, dot: Dot) -> (r: Dot)
        requires
            fold_fits(*self, dot),
        ensures
            r == fold_dot(*self, dot),
    {
        if (self.direction == Direction::Y && dot.y < self.position) || (self.direction == Direction::X
            && dot.x < self.position) {
            return dot;
        }
        match self.direction {
            Direction::X => Dot { x: (2 * self.position as i64 - dot.x as i64) as i32, y: dot.y },
            Direction::Y => Dot { x: dot.x, y: (2 * self.position as i64 - dot.y as i64) as i32 },
        }
    }

    /// The paper after this fold.
    pub fn fold(&self, paper: &Paper) -> (r: Paper)
        requires
            paper.wf(),
            forall|d: Dot| #[trigger] paper@.contains(d) ==> fold_fits(*self, d),
        ensures
            r.wf(),
            r@ == paper@.map(|d: Dot| fold_dot(*self, d)),
    {
        let mut moved: Vec<Dot> = Vec::new();
        let mut i: usize = 0;
        while i < paper.dots.len()
            invariant
                0 <= i <= paper.dots@.len(),
                forall|d: Dot| #[trigger] paper@.contains(d) ==> fold_fits(*self, d),
                paper@ == paper.dots@.to_set(),
                moved@ == paper.dots@.take(i as int).map_values(|d: Dot| fold_dot(*self, d)),
            decreases paper.dots@.len() - i,
        {
            let d = paper.dots[i];
            assert(paper.dots@[i as int] == d);
            assert(paper.dots@.contains(d));
            assert(paper.dots@.to_set().contains(d));
            assert(paper@.contains(d));
            moved.push(self.apply(d));
            i += 1;
            assert(moved@ == paper.dots@.take(i as int).map_values(|d: Dot| fold_dot(*self, d)));
        }
        assert(paper.dots@.take(i as int) == paper.dots@);
        let r = Paper::new(moved);
        assert forall|d: Dot| r@.contains(d) <==> paper@.map(|d: Dot| fold_dot(*self, d)).contains(d) by {
            if r@.contains(d) {
                let k = choose|k: int| 0 <= k < moved@.len() && moved@[k] == d;
                assert(paper@.contains(paper.dots@[k]));
            }
            if paper@.map(|d: Dot| fold_dot(*self, d)).contains(d) {
                let e = choose|e: Dot| paper@.contains(e) && fold_dot(*self, e) == d;
                let k = choose|k: int| 0 <= k < paper.dots@.len() && paper.dots@[k] == e;
                assert(moved@[k] == d);
                assert(moved@.contains(d));
            }
        }
        assert(r@ == paper@.map(|d: Dot| fold_dot(*self, d)));
        r
    }
}

/// Row `y` of the picture, over `x` from 0 up to `width`: `#` where there
/// is a dot and `.` where there is none, each followed by a space.
pub open spec fn picture_row(dots: Set<Dot>, y: int, width: int) -> Seq<char>
    decreases width,
{
    if width <= 0 {
        Seq::empty()
    } else {
        picture_row(dots, y, width - 1) + seq![
            if dots.contains(Dot { x: (width - 1) as i32, y: y as i32 }) {
                '#'
            } else {
                '.'
            },
            ' ',
        ]
    }
}

/// The picture: rows `y` from 0 up to `height`, each ended by a newline.
pub open spec fn picture(dots: Set<Dot>, width: int, height: int) -> Seq<char>
    decreases height,
{
    if height <= 0 {
        Seq::empty()
    } else {
        picture(dots, width, height - 1) + picture_row(dots, height - 1, width) + seq!['\n']
    }
}

/// `mx` and `my` are the largest `x` and `y` of the dots, or 0 where that
/// is larger.
pub open spec fn is_extent(dots: Set<Dot>, mx: int, my: int) -> bool {
    &&& mx >= 0 && my >= 0
    &&& forall|d: Dot| #[trigger] dots.contains(d) ==> d.x <= mx && d.y <= my
    &&& mx == 0 || exists|d: Dot| #[trigger] dots.contains(d) && d.x == mx
    &&& my == 0 || exists|d: Dot| #[trigger] dots.contains(d) && d.y == my
}

/// The dots on the paper, each once.
#[derive(Debug)]
pub struct Paper {
    dots: Vec<Dot>,
}

impl Paper {
    pub closed spec fn view(&self) -> Set<Dot> {
        self.dots@.to_set()
    }

    pub closed spec fn wf(&self) -> bool {
        self.dots@.no_duplicates()
    }

    /// The paper with `dots` on it; a dot given twice is there once.
    pub fn new(dots: Vec<Dot>) -> (r: Paper)
        ensures
            r.wf(),
            r@ == dots@.to_set(),
    {
        let mut r = Paper { dots: Vec::new() };
        let mut i: usize = 0;
        while i < dots.len()
            invariant
                0 <= i <= dots@.len(),
                r.wf(),
                forall|d: Dot| #[trigger] r.dots@.contains(d) <==> dots@.take(i as int).contains(d),
            decreases dots@.len() - i,
        {
            let d = dots[i];
            let ghost pre0 = dots@.take(i as int);
            let ghost pre1 = dots@.take(i + 1);
            assert(pre1 == pre0.push(d));
            let ghost before = r.dots@;
            if !r.contains(d) {
                r.dots.push(d);
                assert forall|e: Dot| #[trigger] r.dots@.contains(e) <==> pre1.contains(e) by {
                    if r.dots@.contains(e) && e != d {
                        let k = choose|k: int| 0 <= k < r.dots@.len() && r.dots@[k] == e;
                        assert(before[k] == e);
                        assert(before.contains(e));
                        assert(pre0.contains(e));
                        let j = choose|j: int| 0 <= j < pre0.len() && pre0[j] == e;
                        assert(pre1[j] == e);
                    }
                    if pre1.contains(e) && e != d {
                        let k = choose|k: int| 0 <= k < pre1.len() && pre1[k] == e;
                        assert(pre0[k] == e);
                        assert(before.contains(e));
                        let j = choose|j: int| 0 <= j < before.len() && before[j] == e;
                        assert(r.dots@[j] == e);
                    }
                    if e == d {
                        assert(r.dots@[r.dots@.len() - 1] == d);
                        assert(pre1[i as int] == d);
                    }
                }
            } else {
                assert forall|e: Dot| #[trigger] r.dots@.contains(e) <==> pre1.contains(e) by {
                    if pre1.contains(e) && e != d {
                        let k = choose|k: int| 0 <= k < pre1.len() && pre1[k] == e;
                        assert(pre0[k] == e);
                    }
                    if e == d {
                        assert(pre1[i as int] == d);
                    }
                    if r.dots@.contains(e) {
                        assert(pre0.contains(e));
                        let k = choose|k: int| 0 <= k < pre0.len() && pre0[k] == e;
                        assert(pre1[k] == e);
                    }
                }
            }
            i += 1;
        }
        assert(dots@.take(i as int) == dots@);
        assert(r@ == dots@.to_set());
        r
    }

    /// The dots, each once, in no particular order.
    pub fn dots(&self) -> (r: &Vec<Dot>)
        requires
            self.wf(),
        ensures
            r@.to_set() == self@,
            r@.no_duplicates(),
    {
        &self.dots
    }

    /// How many dots are on the paper.
    pub fn len(&self) -> (r: usize)
        requires
            self.wf(),
        ensures
            r == self@.len(),
    {
        proof {
            self.dots@.unique_seq_to_set();
        }
        self.dots.len()
    }

    /// Whether `dot` is on the paper.
    pub fn contains(&self, dot: Dot) -> (r: bool)
        ensures
            r == self@.contains(dot),
    {
        let mut i: usize = 0;
        while i < self.dots.len()
            invariant
                0 <= i <= self.dots@.len(),
                forall|k: int| 0 <= k < i ==> self.dots@[k] != dot,
            decreases self.dots@.len() - i,
        {
            if self.dots[i] == dot {
                assert(self.dots@.contains(dot));
                return true;
            }
            i += 1;
        }
        false
    }

    /// The picture the dots draw, from (0, 0) to the largest coordinates.
    pub fn render(&self) -> (r: String)
        ensures
            exists|mx: int, my: int| is_extent(self@, mx, my) && r@ == picture(self@, mx + 1, my + 1),
    {
        let mut mx: i32 = 0;
        let mut my: i32 = 0;
        let mut i: usize = 0;
        while i < self.dots.len()
            invariant
                0 <= i <= self.dots@.len(),
                mx >= 0 && my >= 0,
                forall|k: int| 0 <= k < i ==> (#[trigger] self.dots@[k]).x <= mx && self.dots@[k].y <= my,
                mx == 0 || exists|k: int| 0 <= k < i && (#[trigger] self.dots@[k]).x == mx,
                my == 0 || exists|k: int| 0 <= k < i && (#[trigger] self.dots@[k]).y == my,
            decreases self.dots@.len() - i,
        {
            let d = self.dots[i];
            if d.x > mx {
                mx = d.x;
            }
            if d.y > my {
                my = d.y;
            }
            i += 1;
        }
        proof {
            assert forall|d: Dot| #[trigger] self@.contains(d) implies d.x <= mx && d.y <= my by {
                let k = choose|k: int| 0 <= k < self.dots@.len() && self.dots@[k] == d;
            }
            if mx != 0 {
                let k = choose|k: int| 0 <= k < i && (#[trigger] self.dots@[k]).x == mx;
                assert(self@.contains(self.dots@[k]));
            }
            if my != 0 {
                let k = choose|k: int| 0 <= k < i && (#[trigger] self.dots@[k]).y == my;
                assert(self@.contains(self.dots@[k]));
            }
            assert(is_extent(self@, mx as int, my as int));
            reveal_strlit("# ");
            reveal_strlit(". ");
            reveal_strlit("\n");
        }
        let mut r = String::new();
        let mut y: i64 = 0;
        while y <= my as i64
            invariant
                0 <= y <= my + 1,
                0 <= mx <= i32::MAX,
                0 <= my <= i32::MAX,
                r@ == picture(self@, mx + 1, y as int),
                "# "@ == seq!['#', ' '],
                ". "@ == seq!['.', ' '],
                "\n"@ == seq!['\n'],
            decreases my + 1 - y,
        {
            let ghost start = r@;
            let mut x: i64 = 0;
            while x <= mx as i64
                invariant
                    0 <= x <= mx + 1,
                    0 <= y <= my,
                    0 <= mx <= i32::MAX,
                    0 <= my <= i32::MAX,
                    r@ == start + picture_row(self@, y as int, x as int),
                    "# "@ == seq!['#', ' '],
                    ". "@ == seq!['.', ' '],
                decreases mx + 1 - x,
            {
                if self.contains(Dot { x: x as i32, y: y as i32 }) {
                    r.append("# ");
                } else {
                    r.append(". ");
                }
                x += 1;
            }
            r.append("\n");
            y += 1;
        }
        r
    }

    /// The same dots on a new sheet.
    pub fn copy(&self) -> (r: Paper)
        requires
            self.wf(),
        ensures
            r.wf(),
            r@ == self@,
    {
        let mut dots: Vec<Dot> = Vec::new();
        let mut i: usize = 0;
        while i < self.dots.len()
            invariant
                0 <= i <= self.dots@.len(),
                dots@ == self.dots@.take(i as int),
            decreases self.dots@.len() - i,
        {
            dots.push(self.dots[i]);
            i += 1;
            assert(dots@ == self.dots@.take(i as int));
        }
        assert(self.dots@.take(i as int) == self.dots@);
        Paper { dots }
    }
}

/// The paper and the folds to make, in order.
#[derive(Debug)]
pub struct Input {
    pub paper: Paper,
    pub instructions: Vec<Instruction>,
}

impl Input {
    /// Reads the dots and the folds (see `origami_text`).
    pub fn parse(input: &[u8]) -> (r: Option<Input>)
        ensures
            match (r, origami_text(input@)) {
                (Some(v), Some((dots, ins))) => v.paper.wf() && v.paper@ == dots.to_set()
                    && v.instructions@ == ins,
                (None, None) => true,
                _ => false,
            },
    {
        let ls = split_lines(input);
        let ghost lv = views(ls@);
        let mut k: usize = 0;
        while k < ls.len() && ls[k].len() > 0
            invariant
                lv == views(ls@),
                0 <= k <= ls@.len(),
                forall|j: int| 0 <= j < k ==> (#[trigger] lv[j]).len() > 0,
            decreases ls@.len() - k,
        {
            assert(lv[k as int] == ls@[k as int]@);
            k += 1;
        }
        proof {
            if k < ls@.len() {
                assert(lv[k as int] == ls@[k as int]@);
            }
            lemma_first_blank(lv, k as int);
        }
        if k == ls.len() {
            return None;
        }
        let mut dots: Vec<Dot> = Vec::new();
        let mut i: usize = 0;
        while i < k
            invariant
                lv == views(ls@),
                lv == lines(input@),
                first_blank(lv) == Some(k as int),
                0 <= i <= k < ls@.len(),
                dot_texts(lv.take(k as int).take(i as int)) == Some(dots@),
            decreases k - i,
        {
            let ghost pre = lv.take(k as int);
            assert(pre.take(i + 1).drop_last() == pre.take(i as int));
            assert(pre.take(i + 1).last() == ls@[i as int]@);
            match Dot::parse(ls[i].as_slice()) {
                Some(d) => dots.push(d),
                None => {
                    proof {
                        lemma_dot_texts_none_stays(pre, i + 1);
                    }
                    return None;
                },
            }
            i += 1;
        }
        assert(lv.take(k as int).take(i as int) == lv.take(k as int));
        let mut ins: Vec<Instruction> = Vec::new();
        let mut i: usize = k + 1;
        while i < ls.len()
            invariant
                lv == views(ls@),
                lv == lines(input@),
                first_blank(lv) == Some(k as int),
                dot_texts(lv.take(k as int)) == Some(dots@),
                k + 1 <= i <= ls@.len(),
                instruction_texts(lv.skip(k + 1).take(i - k - 1)) == Some(ins@),
            decreases ls@.len() - i,
        {
            let ghost post = lv.skip(k + 1);
            assert(post.take(i - k).drop_last() == post.take(i - k - 1));
            assert(post.take(i - k).last() == ls@[i as int]@);
            match Instruction::parse(ls[i].as_slice()) {
                Some(f) => ins.push(f),
                None => {
                    proof {
                        lemma_instruction_texts_none_stays(post, i - k);
                    }
                    return None;
                },
            }
            i += 1;
        }
        assert(lv.skip(k + 1).take(i - k - 1) == lv.skip(k + 1));
        Some(Input { paper: Paper::new(dots), instructions: ins })
    }

    /// The paper after the first fold.
    pub fn fold_first(&self) -> (r: Paper)
        requires
            self.paper.wf(),
            self.instructions@.len() > 0,
            forall|d: Dot| #[trigger] self.paper@.contains(d) ==> fold_fits(self.instructions@[0], d),
        ensures
            r.wf(),
            r@ == self.paper@.map(|d: Dot| fold_dot(self.instructions@[0], d)),
    {
        self.instructions[0].fold(&self.paper)
    }

    /// The paper after every fold, in order.
    pub fn fold_all(&self) -> (r: Paper)
        requires
            self.paper.wf(),
            folds_fit(self.paper@, self.instructions@),
        ensures
            r.wf(),
            r@ == fold_all_dots(self.paper@, self.instructions@),
    {
        let ins = &self.instructions;
        let mut p = self.paper.copy();
        let mut i: usize = 0;
        assert(ins@.take(0) == Seq::<Instruction>::empty());
        while i < ins.len()
            invariant
                0 <= i <= ins@.len(),
                folds_fit(self.paper@, ins@),
                p.wf(),
                p@ == fold_all_dots(self.paper@, ins@.take(i as int)),
            decreases ins@.len() - i,
        {
            assert(ins@.take(i + 1).drop_last() == ins@.take(i as int));
            assert forall|d: Dot| #[trigger] p@.contains(d) implies fold_fits(ins@[i as int], d) by {
                assert(fold_all_dots(self.paper@, ins@.take(i as int)).contains(d));
            }
            p = ins[i].fold(&p);
            i += 1;
        }
        assert(ins@.take(i as int) == ins@);
        p
    }
}

} // verus!
