//! Seven-segment display notes: how many output patterns can only stand
//! for one digit by their number of segments.
use vstd::prelude::*;
use crate::text::{lines, split, split_bytes, split_lines, split_words, views, words};

verus! {

/// A pattern of 2, 3, 4 or 7 segments can only be a 1, 7, 4 or 8.
pub open spec fn unique_len(n: int) -> bool {
    n == 2 || n == 3 || n == 4 || n == 7
}

/// Whether the pattern's length names a single digit.
pub fn is_unique(value: &[u8]) -> (r: bool)
    ensures
        r == unique_len(value@.len() as int),
{
    let n = value.len();
    n == 2 || n == 3 || n == 4 || n == 7
}

/// One line of notes: the ten patterns seen and the four output patterns.
#[derive(Debug)]
pub struct Entry {
    pub signals: Vec<Vec<u8>>,
    pub outputs: Vec<Vec<u8>>,
}

/// How many patterns of `outs` name a single digit by their length.
pub open spec fn unique_count(outs: Seq<Vec<u8>>) -> int
    decreases outs.len(),
{
    if outs.len() == 0 {
        0
    } else {
        unique_count(outs.drop_last()) + if unique_len(outs.last()@.len() as int) {
            1int
        } else {
            0
        }
    }
}

/// How many output patterns of `es` name a single digit by their length.
pub open spec fn entries_unique_count(es: Seq<Entry>) -> int
    decreases es.len(),
{
    if es.len() == 0 {
        0
    } else {
        entries_unique_count(es.drop_last()) + unique_count(es.last().outputs@)
    }
}

proof fn lemma_unique_count_prefix(outs: Seq<Vec<u8>>, n: int)
    requires
        0 <= n <= outs.len(),
    ensures
        0 <= unique_count(outs.take(n)) <= unique_count(outs),
    decreases outs.len(),
{
    if outs.len() == 0 {
        assert(outs.take(n) == outs);
    } else if n == outs.len() {
        assert(outs.take(n) == outs);
        lemma_unique_count_prefix(outs.drop_last(), 0);
    } else {
        assert(outs.drop_last().take(n) == outs.take(n));
        lemma_unique_count_prefix(outs.drop_last(), n);
    }
}

proof fn lemma_entries_count_prefix(es: Seq<Entry>, n: int)
    requires
        0 <= n <= es.len(),
    ensures
        0 <= entries_unique_count(es.take(n)) <= entries_unique_count(es),
    decreases es.len(),
{
    if es.len() == 0 {
        assert(es.take(n) == es);
    } else {
        lemma_unique_count_prefix(es.last().outputs@, 0);
        if n == es.len() {
            assert(es.take(n) == es);
            lemma_entries_count_prefix(es.drop_last(), 0);
        } else {
            assert(es.drop_last().take(n) == es.take(n));
            lemma_entries_count_prefix(es.drop_last(), n);
        }
    }
}

pub open spec fn is_letter(b: u8) -> bool {
    (65 <= b <= 90) || (97 <= b <= 122)
}

/// Every word of `ws` is one or more ASCII letters.
pub open spec fn all_letters(ws: Seq<Seq<u8>>) -> bool {
    forall|i: int, j: int| 0 <= i < ws.len() && 0 <= j < ws[i].len() ==> is_letter(#[trigger] ws[i][j])
}

/// A line of notes as text: ten patterns, a `|`, four patterns; patterns
/// are runs of letters split by spaces.
pub open spec fn entry_text(s: Seq<u8>) -> Option<(Seq<Seq<u8>>, Seq<Seq<u8>>)> {
    let halves = split(s, 124);
    if halves.len() != 2 {
        None
    } else {
        let signals = words(halves[0]);
        let outputs = words(halves[1]);
        if signals.len() == 10 && outputs.len() == 4 && all_letters(signals) && all_letters(outputs) {
            Some((signals, outputs))
        } else {
            None
        }
    }
}

/// The notes on `ls`, one line each.
pub open spec fn entry_texts(ls: Seq<Seq<u8>>) -> Option<Seq<(Seq<Seq<u8>>, Seq<Seq<u8>>)>>
    decreases ls.len(),
{
    if ls.len() == 0 {
        Some(Seq::empty())
    } else {
        match (entry_texts(ls.drop_last()), entry_text(ls.last())) {
            (Some(v), Some(e)) => Some(v.push(e)),
            _ => None,
        }
    }
}

pub open spec fn entry_view(e: Entry) -> (Seq<Seq<u8>>, Seq<Seq<u8>>) {
    (views(e.signals@), views(e.outputs@))
}

proof fn lemma_entry_texts_none_stays(ls: Seq<Seq<u8>>, n: int)
    requires
        0 <= n <= ls.len(),
        entry_texts(ls.take(n)) is None,
    ensures
        entry_texts(ls) is None,
    decreases ls.len() - n,
{
    if n < ls.len() {
        assert(ls.take(n + 1).drop_last() == ls.take(n));
        lemma_entry_texts_none_stays(ls, n + 1);
    } else {
        assert(ls.take(n) == ls);
    }
}

/// Whether every byte of every word is an ASCII letter.
fn letters_only(ws: &Vec<Vec<u8>>) -> (r: bool)
    ensures
        r == all_letters(views(ws@)),
{
    let mut i: usize = 0;
    while i < ws.len()
        invariant
            0 <= i <= ws@.len(),
            forall|a: int, b: int| 0 <= a < i && 0 <= b < ws@[a]@.len() ==> is_letter(#[trigger] ws@[a]@[b]),
        decreases ws@.len() - i,
    {
        let w = &ws[i];
        let mut j: usize = 0;
        while j < w.len()
            invariant
                0 <= i < ws@.len(),
                w@ == ws@[i as int]@,
                0 <= j <= w@.len(),
                forall|a: int, b: int| 0 <= a < i && 0 <= b < ws@[a]@.len() ==> is_letter(#[trigger] ws@[a]@[b]),
                forall|b: int| 0 <= b < j ==> is_letter(#[trigger] w@[b]),
            decreases w@.len() - j,
        {
            let c = w[j];
            if !((65 <= c && c <= 90) || (97 <= c && c <= 122)) {
                assert(views(ws@)[i as int][j as int] == c);
                return false;
            }
            j += 1;
        }
        i += 1;
    }
    assert forall|a: int, b: int| 0 <= a < views(ws@).len() && 0 <= b < views(ws@)[a].len() implies is_letter(#[trigger] views(ws@)[a][b]) by {
        assert(views(ws@)[a] == ws@[a]@);
    }
    true
}

impl Entry {
    /// The notes on `line`.
    pub fn parse(line: &[u8]) -> (r: Option<Entry>)
        ensures
            match (r, entry_text(line@)) {
                (Some(e), Some(w)) => entry_view(e) == w,
                (None, None) => true,
                _ => false,
            },
    {
        let halves = split_bytes(line, 124);
        if halves.len() != 2 {
            return None;
        }
        assert(views(halves@)[0] == halves@[0]@ && views(halves@)[1] == halves@[1]@);
        let signals = split_words(halves[0].as_slice());
        let outputs = split_words(halves[1].as_slice());
        if signals.len() == 10 && outputs.len() == 4 && letters_only(&signals) && letters_only(&outputs) {
            Some(Entry { signals, outputs })
        } else {
            None
        }
    }
}

/// All the notes.
#[derive(Debug)]
pub struct Input {
    pub entries: Vec<Entry>,
}

impl Input {
    /// The notes, one entry per line.
    pub fn parse(input: &[u8]) -> (r: Option<Input>)
        ensures
            match (r, entry_texts(lines(input@))) {
                (Some(v), Some(w)) => v.entries@.map_values(|e: Entry| entry_view(e)) == w,
                (None, None) => true,
                _ => false,
            },
    {
        let ls = split_lines(input);
        let ghost lv = views(ls@);
        let mut out: Vec<Entry> = Vec::new();
        let mut i: usize = 0;
        while i < ls.len()
            invariant
                lv == views(ls@),
                lv == lines(input@),
                0 <= i <= ls@.len(),
                entry_texts(lv.take(i as int)) == Some(out@.map_values(|e: Entry| entry_view(e))),
            decreases ls@.len() - i,
        {
            assert(lv.take(i + 1).drop_last() == lv.take(i as int));
            assert(lv.take(i + 1).last() == ls@[i as int]@);
            match Entry::parse(ls[i].as_slice()) {
                Some(e) => {
                    let ghost before = out@.map_values(|e: Entry| entry_view(e));
                    out.push(e);
                    assert(out@.map_values(|e: Entry| entry_view(e)) == before.push(entry_view(e)));
                },
                None => {
                    proof {
                        lemma_entry_texts_none_stays(lv, i + 1);
                    }
                    return None;
                },
            }
            i += 1;
        }
        assert(lv.take(i as int) == lv);
        Some(Input { entries: out })
    }

    /// How many output patterns name a single digit by their length.
    pub fn unique_digit_outputs(&self) -> (r: usize)
        requires
            entries_unique_count(self.entries@) <= usize::MAX,
        ensures
            r == entries_unique_count(self.entries@),
    {
        let es = &self.entries;
        let mut count: usize = 0;
        let mut i: usize = 0;
        while i < es.len()
            invariant
                0 <= i <= es@.len(),
                entries_unique_count(es@) <= usize::MAX,
                count == entries_unique_count(es@.take(i as int)),
            decreases es@.len() - i,
        {
            let outs = &es[i].outputs;
            assert(es@.take(i + 1).drop_last() == es@.take(i as int));
            proof {
                lemma_entries_count_prefix(es@, i + 1);
                lemma_unique_count_prefix(outs@, 0);
                assert(outs@.take(0) == Seq::<Vec<u8>>::empty());
            }
            let mut j: usize = 0;
            while j < outs.len()
                invariant
                    0 <= i < es@.len(),
                    outs@ == es@[i as int].outputs@,
                    0 <= j <= outs@.len(),
                    entries_unique_count(es@.take(i + 1)) <= usize::MAX,
                    entries_unique_count(es@.take(i + 1)) == entries_unique_count(es@.take(i as int))
                        + unique_count(outs@),
                    count == entries_unique_count(es@.take(i as int)) + unique_count(outs@.take(j as int)),
                decreases outs@.len() - j,
            {
                assert(outs@.take(j + 1).drop_last() == outs@.take(j as int));
                proof {
                    lemma_unique_count_prefix(outs@, j + 1);
                }
                if is_unique(outs[j].as_slice()) {
                    count = count + 1;
                }
                j += 1;
            }
            assert(outs@.take(j as int) == outs@);
            i += 1;
        }
        assert(es@.take(i as int) == es@);
        count
    }
}

} // verus!
