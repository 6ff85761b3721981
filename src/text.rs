//! Reading puzzle input as bytes: splitting at a separator, splitting into
//! words, and reading decimal numbers.
use vstd::prelude::*;

verus! {

/// The pieces of `s` between occurrences of `sep`: one more piece than
/// there are separators, empty pieces included.
pub open spec fn split(s: Seq<u8>, sep: u8) -> Seq<Seq<u8>>
    decreases s.len(),
{
    if s.len() == 0 {
        seq![Seq::empty()]
    } else {
        let p = split(s.drop_last(), sep);
        if s.last() == sep {
            p.push(Seq::empty())
        } else {
            p.update(p.len() - 1, p.last().push(s.last()))
        }
    }
}

pub proof fn lemma_split_len(s: Seq<u8>, sep: u8)
    ensures
        split(s, sep).len() >= 1,
    decreases s.len(),
{
    if s.len() > 0 {
        lemma_split_len(s.drop_last(), sep);
    }
}

pub open spec fn views(v: Seq<Vec<u8>>) -> Seq<Seq<u8>> {
    v.map_values(|b: Vec<u8>| b@)
}

/// The pieces of `s` between occurrences of `sep`.
pub fn split_bytes(s: &[u8], sep: u8) -> (r: Vec<Vec<u8>>)
    ensures
        views(r@) == split(s@, sep),
{
    let mut out: Vec<Vec<u8>> = Vec::new();
    let mut cur: Vec<u8> = Vec::new();
    let mut i: usize = 0;
    while i < s.len()
        invariant
            0 <= i <= s@.len(),
            views(out@).push(cur@) == split(s@.take(i as int), sep),
        decreases s@.len() - i,
    {
        let b = s[i];
        assert(s@.take(i + 1).drop_last() == s@.take(i as int));
        proof {
            lemma_split_len(s@.take(i as int), sep);
        }
        if b == sep {
            let piece = cur;
            out.push(piece);
            cur = Vec::new();
            assert(views(out@) == views(out@).drop_last().push(piece@));
        } else {
            cur.push(b);
        }
        assert(views(out@).push(cur@) == split(s@.take(i + 1), sep));
        i += 1;
    }
    assert(s@.take(i as int) == s@);
    out.push(cur);
    assert(views(out@) == split(s@, sep));
    out
}

/// The non-empty pieces of `ps`, in order.
pub open spec fn nonempty(ps: Seq<Seq<u8>>) -> Seq<Seq<u8>>
    decreases ps.len(),
{
    if ps.len() == 0 {
        Seq::empty()
    } else {
        nonempty(ps.drop_last()) + if ps.last().len() > 0 {
            seq![ps.last()]
        } else {
            Seq::empty()
        }
    }
}

/// The words of `s`: the runs of bytes between spaces.
pub open spec fn words(s: Seq<u8>) -> Seq<Seq<u8>> {
    nonempty(split(s, 32))
}

/// The words of `s`: the runs of bytes between spaces.
pub fn split_words(s: &[u8]) -> (r: Vec<Vec<u8>>)
    ensures
        views(r@) == words(s@),
{
    let pieces = split_bytes(s, 32);
    let mut out: Vec<Vec<u8>> = Vec::new();
    let mut i: usize = 0;
    while i < pieces.len()
        invariant
            0 <= i <= pieces@.len(),
            views(out@) == nonempty(views(pieces@).take(i as int)),
        decreases pieces@.len() - i,
    {
        assert(views(pieces@).take(i + 1).drop_last() == views(pieces@).take(i as int));
        if pieces[i].len() > 0 {
            let w = copy_bytes(&pieces[i]);
            out.push(w);
        }
        assert(views(out@) == nonempty(views(pieces@).take(i + 1)));
        i += 1;
    }
    assert(views(pieces@).take(i as int) == views(pieces@));
    out
}

/// A copy of `b`.
pub fn copy_bytes(b: &[u8]) -> (r: Vec<u8>)
    ensures
        r@ == b@,
{
    let mut r: Vec<u8> = Vec::new();
    let mut i: usize = 0;
    while i < b.len()
        invariant
            0 <= i <= b@.len(),
            r@ == b@.take(i as int),
        decreases b@.len() - i,
    {
        r.push(b[i]);
        i += 1;
        assert(r@ == b@.take(i as int));
    }
    assert(b@.take(i as int) == b@);
    r
}

pub open spec fn is_digit(b: u8) -> bool {
    48 <= b <= 57
}

/// One or more decimal digits.
pub open spec fn is_decimal(s: Seq<u8>) -> bool {
    s.len() > 0 && forall|i: int| 0 <= i < s.len() ==> is_digit(#[trigger] s[i])
}

/// The number that decimal digits `s` write.
pub open spec fn decimal_value(s: Seq<u8>) -> int
    decreases s.len(),
{
    if s.len() == 0 {
        0
    } else {
        decimal_value(s.drop_last()) * 10 + (s.last() - 48)
    }
}

/// The number that `s` writes: decimal digits after an optional `-`.
pub open spec fn signed_value(s: Seq<u8>) -> Option<int> {
    if s.len() > 0 && s[0] == 45 {
        if is_decimal(s.drop_first()) {
            Some(-decimal_value(s.drop_first()))
        } else {
            None
        }
    } else if is_decimal(s) {
        Some(decimal_value(s))
    } else {
        None
    }
}

proof fn lemma_decimal_prefix(s: Seq<u8>, n: int)
    requires
        0 <= n <= s.len(),
        forall|i: int| 0 <= i < s.len() ==> is_digit(#[trigger] s[i]),
    ensures
        0 <= decimal_value(s.take(n)) <= decimal_value(s),
    decreases s.len(),
{
    if s.len() == 0 {
        assert(s.take(n) == s);
    } else if n == s.len() {
        assert(s.take(n) == s);
        lemma_decimal_prefix(s.drop_last(), 0);
    } else {
        assert(s.drop_last().take(n) == s.take(n));
        lemma_decimal_prefix(s.drop_last(), n);
    }
}

/// The value of decimal digits `s`, where it is at most `bound`.
fn read_decimal(s: &[u8], start: usize, bound: u64) -> (r: Option<u64>)
    requires
        start <= s@.len(),
    ensures
        r == if is_decimal(s@.skip(start as int)) && decimal_value(s@.skip(start as int)) <= bound {
            Some(decimal_value(s@.skip(start as int)) as u64)
        } else {
            None::<u64>
        },
{
    let ghost t = s@.skip(start as int);
    if start >= s.len() {
        return None;
    }
    let mut acc: u64 = 0;
    let mut i: usize = start;
    while i < s.len()
        invariant
            t == s@.skip(start as int),
            start <= i <= s@.len(),
            forall|k: int| 0 <= k < i - start ==> is_digit(#[trigger] t[k]),
            acc == decimal_value(t.take(i - start)),
            acc <= bound,
        decreases s@.len() - i,
    {
        let b = s[i];
        assert(t[i - start] == b);
        if b < 48 || b > 57 {
            assert(!is_decimal(t));
            return None;
        }
        assert(t.take(i - start + 1).drop_last() == t.take(i - start));
        let d = (b - 48) as u64;
        if d > bound || acc > (bound - d) / 10 {
            proof {
                assert(forall|k: int| 0 <= k < i - start + 1 ==> is_digit(#[trigger] t.take(i - start + 1)[k]));
                if is_decimal(t) {
                    lemma_decimal_prefix(t, i - start + 1);
                }
            }
            return None;
        }
        assert(acc * 10 + d <= bound) by (nonlinear_arith)
            requires
                d <= bound,
                acc <= (bound - d) / 10;
        acc = acc * 10 + d;
        i += 1;
    }
    assert(t.take(i - start) == t);
    Some(acc)
}

/// The number that decimal digits `s` write, where it fits in a `u32`.
pub fn parse_u32(s: &[u8]) -> (r: Option<u32>)
    ensures
        r == if is_decimal(s@) && decimal_value(s@) <= u32::MAX {
            Some(decimal_value(s@) as u32)
        } else {
            None::<u32>
        },
{
    assert(s@.skip(0) == s@);
    proof {
        if is_decimal(s@) {
            lemma_decimal_prefix(s@, 0);
        }
    }
    match read_decimal(s, 0, u32::MAX as u64) {
        Some(v) => Some(v as u32),
        None => None,
    }
}

/// The number that decimal digits `s` write, where it fits in a `u64`.
pub fn parse_u64(s: &[u8]) -> (r: Option<u64>)
    ensures
        r == if is_decimal(s@) && decimal_value(s@) <= u64::MAX {
            Some(decimal_value(s@) as u64)
        } else {
            None::<u64>
        },
{
    assert(s@.skip(0) == s@);
    read_decimal(s, 0, u64::MAX)
}

/// The number that `s` writes, an optional `-` and decimal digits, where
/// it fits in an `i64`.
pub fn parse_i64(s: &[u8]) -> (r: Option<i64>)
    ensures
        r == match signed_value(s@) {
            Some(v) => if i64::MIN <= v <= i64::MAX {
                Some(v as i64)
            } else {
                None::<i64>
            },
            None => None::<i64>,
        },
{
    proof {
        if is_decimal(s@) {
            lemma_decimal_prefix(s@, 0);
        }
        if s@.len() > 0 && is_decimal(s@.drop_first()) {
            lemma_decimal_prefix(s@.drop_first(), 0);
        }
    }
    if s.len() > 0 && s[0] == 45 {
        assert(s@.skip(1) == s@.drop_first());
        match read_decimal(s, 1, 0x8000_0000_0000_0000) {
            Some(v) => Some((0 - v as i128) as i64),
            None => None,
        }
    } else {
        assert(s@.skip(0) == s@);
        match read_decimal(s, 0, i64::MAX as u64) {
            Some(v) => Some(v as i64),
            None => None,
        }
    }
}

/// The number that `s` writes, an optional `-` and decimal digits, where
/// it fits in an `i32`.
pub fn parse_i32(s: &[u8]) -> (r: Option<i32>)
    ensures
        r == match signed_value(s@) {
            Some(v) => if i32::MIN <= v <= i32::MAX {
                Some(v as i32)
            } else {
                None::<i32>
            },
            None => None::<i32>,
        },
{
    match parse_i64(s) {
        Some(v) => if i32::MIN as i64 <= v && v <= i32::MAX as i64 {
            Some(v as i32)
        } else {
            None
        },
        None => {
            proof {
                if is_decimal(s@) {
                    lemma_decimal_prefix(s@, 0);
                }
                if s@.len() > 0 && is_decimal(s@.drop_first()) {
                    lemma_decimal_prefix(s@.drop_first(), 0);
                }
            }
            None
        },
    }
}

/// The lines of `s`; a final newline ends the last line rather than
/// starting an empty one.
pub open spec fn lines(s: Seq<u8>) -> Seq<Seq<u8>> {
    let p = split(s, 10);
    if p.last().len() == 0 {
        p.drop_last()
    } else {
        p
    }
}

/// The lines of `s`.
pub fn split_lines(s: &[u8]) -> (r: Vec<Vec<u8>>)
    ensures
        views(r@) == lines(s@),
{
    let mut p = split_bytes(s, 10);
    proof {
        lemma_split_len(s@, 10);
    }
    let last = p.len() - 1;
    assert(views(p@).last() == p@[last as int]@);
    if p[last].len() == 0 {
        p.pop();
        assert(views(p@) == lines(s@));
    }
    p
}

/// The numbers that `pieces` write in decimal, where each is decimal and
/// fits in a `u32`.
pub open spec fn numbers_u32(pieces: Seq<Seq<u8>>) -> Option<Seq<u32>>
    decreases pieces.len(),
{
    if pieces.len() == 0 {
        Some(Seq::empty())
    } else {
        match numbers_u32(pieces.drop_last()) {
            Some(vs) => if is_decimal(pieces.last()) && decimal_value(pieces.last()) <= u32::MAX {
                Some(vs.push(decimal_value(pieces.last()) as u32))
            } else {
                None
            },
            None => None,
        }
    }
}

proof fn lemma_numbers_none_stays(pieces: Seq<Seq<u8>>, n: int)
    requires
        0 <= n <= pieces.len(),
        numbers_u32(pieces.take(n)) is None,
    ensures
        numbers_u32(pieces) is None,
    decreases pieces.len() - n,
{
    if n < pieces.len() {
        assert(pieces.take(n + 1).drop_last() == pieces.take(n));
        lemma_numbers_none_stays(pieces, n + 1);
    } else {
        assert(pieces.take(n) == pieces);
    }
}

/// The numbers that `pieces` write in decimal; `None` where one is not
/// decimal or does not fit in a `u32`.
pub fn parse_u32_list(pieces: &Vec<Vec<u8>>) -> (r: Option<Vec<u32>>)
    ensures
        match (r, numbers_u32(views(pieces@))) {
            (Some(v), Some(w)) => v@ == w,
            (None, None) => true,
            _ => false,
        },
{
    let ghost ps = views(pieces@);
    let mut out: Vec<u32> = Vec::new();
    let mut i: usize = 0;
    while i < pieces.len()
        invariant
            ps == views(pieces@),
            0 <= i <= pieces@.len(),
            numbers_u32(ps.take(i as int)) == Some(out@),
        decreases pieces@.len() - i,
    {
        assert(ps.take(i + 1).drop_last() == ps.take(i as int));
        assert(ps.take(i + 1).last() == pieces@[i as int]@);
        match parse_u32(pieces[i].as_slice()) {
            Some(v) => out.push(v),
            None => {
                proof {
                    lemma_numbers_none_stays(ps, i + 1);
                }
                return None;
            },
        }
        i += 1;
    }
    assert(ps.take(i as int) == ps);
    Some(out)
}

/// The numbers that `pieces` write, each an optional `-` and decimal
/// digits, where each fits in an `i32`.
pub open spec fn numbers_i32(pieces: Seq<Seq<u8>>) -> Option<Seq<i32>>
    decreases pieces.len(),
{
    if pieces.len() == 0 {
        Some(Seq::empty())
    } else {
        match (numbers_i32(pieces.drop_last()), signed_value(pieces.last())) {
            (Some(vs), Some(v)) => if i32::MIN <= v <= i32::MAX {
                Some(vs.push(v as i32))
            } else {
                None
            },
            _ => None,
        }
    }
}

proof fn lemma_numbers_i32_none_stays(pieces: Seq<Seq<u8>>, n: int)
    requires
        0 <= n <= pieces.len(),
        numbers_i32(pieces.take(n)) is None,
    ensures
        numbers_i32(pieces) is None,
    decreases pieces.len() - n,
{
    if n < pieces.len() {
        assert(pieces.take(n + 1).drop_last() == pieces.take(n));
        lemma_numbers_i32_none_stays(pieces, n + 1);
    } else {
        assert(pieces.take(n) == pieces);
    }
}

pub proof fn lemma_numbers_i32_len(pieces: Seq<Seq<u8>>)
    ensures
        numbers_i32(pieces) matches Some(v) ==> v.len() == pieces.len(),
    decreases pieces.len(),
{
    if pieces.len() > 0 {
        lemma_numbers_i32_len(pieces.drop_last());
    }
}

/// The numbers that `pieces` write; `None` where one is not an optional
/// `-` and decimal digits, or does not fit in an `i32`.
pub fn parse_i32_list(pieces: &Vec<Vec<u8>>) -> (r: Option<Vec<i32>>)
    ensures
        match (r, numbers_i32(views(pieces@))) {
            (Some(v), Some(w)) => v@ == w,
            (None, None) => true,
            _ => false,
        },
{
    let ghost ps = views(pieces@);
    let mut out: Vec<i32> = Vec::new();
    let mut i: usize = 0;
    while i < pieces.len()
        invariant
            ps == views(pieces@),
            0 <= i <= pieces@.len(),
            numbers_i32(ps.take(i as int)) == Some(out@),
        decreases pieces@.len() - i,
    {
        assert(ps.take(i + 1).drop_last() == ps.take(i as int));
        assert(ps.take(i + 1).last() == pieces@[i as int]@);
        match parse_i32(pieces[i].as_slice()) {
            Some(v) => out.push(v),
            None => {
                proof {
                    lemma_numbers_i32_none_stays(ps, i + 1);
                }
                return None;
            },
        }
        i += 1;
    }
    assert(ps.take(i as int) == ps);
    Some(out)
}

/// The numbers that `pieces` write in decimal, where each is decimal and
/// fits in a `u64`.
pub open spec fn numbers_u64(pieces: Seq<Seq<u8>>) -> Option<Seq<u64>>
    decreases pieces.len(),
{
    if pieces.len() == 0 {
        Some(Seq::empty())
    } else {
        match numbers_u64(pieces.drop_last()) {
            Some(vs) => if is_decimal(pieces.last()) && decimal_value(pieces.last()) <= u64::MAX {
                Some(vs.push(decimal_value(pieces.last()) as u64))
            } else {
                None
            },
            None => None,
        }
    }
}

proof fn lemma_numbers_u64_none_stays(pieces: Seq<Seq<u8>>, n: int)
    requires
        0 <= n <= pieces.len(),
        numbers_u64(pieces.take(n)) is None,
    ensures
        numbers_u64(pieces) is None,
    decreases pieces.len() - n,
{
    if n < pieces.len() {
        assert(pieces.take(n + 1).drop_last() == pieces.take(n));
        lemma_numbers_u64_none_stays(pieces, n + 1);
    } else {
        assert(pieces.take(n) == pieces);
    }
}

/// The numbers that `pieces` write in decimal; `None` where one is not
/// decimal or does not fit in a `u64`.
pub fn parse_u64_list(pieces: &Vec<Vec<u8>>) -> (r: Option<Vec<u64>>)
    ensures
        match (r, numbers_u64(views(pieces@))) {
            (Some(v), Some(w)) => v@ == w,
            (None, None) => true,
            _ => false,
        },
{
    let ghost ps = views(pieces@);
    let mut out: Vec<u64> = Vec::new();
    let mut i: usize = 0;
    while i < pieces.len()
        invariant
            ps == views(pieces@),
            0 <= i <= pieces@.len(),
            numbers_u64(ps.take(i as int)) == Some(out@),
        decreases pieces@.len() - i,
    {
        assert(ps.take(i + 1).drop_last() == ps.take(i as int));
        assert(ps.take(i + 1).last() == pieces@[i as int]@);
        match parse_u64(pieces[i].as_slice()) {
            Some(v) => out.push(v),
            None => {
                proof {
                    lemma_numbers_u64_none_stays(ps, i + 1);
                }
                return None;
            },
        }
        i += 1;
    }
    assert(ps.take(i as int) == ps);
    Some(out)
}

/// The single line of `s`, split at commas.
pub open spec fn comma_line(s: Seq<u8>) -> Option<Seq<Seq<u8>>> {
    if lines(s).len() == 1 {
        Some(split(lines(s)[0], 44))
    } else {
        None
    }
}

/// The single line of `s`, split at commas; `None` where `s` has not
/// exactly one line.
pub fn split_comma_line(s: &[u8]) -> (r: Option<Vec<Vec<u8>>>)
    ensures
        match (r, comma_line(s@)) {
            (Some(v), Some(w)) => views(v@) == w,
            (None, None) => true,
            _ => false,
        },
{
    let ls = split_lines(s);
    if ls.len() != 1 {
        return None;
    }
    assert(views(ls@)[0] == ls@[0]@);
    Some(split_bytes(ls[0].as_slice(), 44))
}

} // verus!
