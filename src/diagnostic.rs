//! Diagnostic report of binary numbers: bit counts per position, and the
//! rating found by keeping, position after position, the numbers whose
//! bit there is the most (or least) common one.
use vstd::prelude::*;
use vstd::string::*;

verus! {

/// How many zeros and how many other digits were seen at one position.
#[derive(Clone, Copy, Debug, Default, PartialEq, Eq, Structural)]
pub struct IndexCount {
    pub zeros: usize,
    pub ones: usize,
}

impl IndexCount {
    /// Counts `value`: a `'0'` as a zero, anything else as a one.
    pub fn update(&mut self, value: char)
        requires
            value == '0' ==> old(self).zeros < usize::MAX,
            value != '0' ==> old(self).ones < usize::MAX,
        ensures
            value == '0' ==> final(self).zeros == old(self).zeros + 1 && final(self).ones == old(self).ones,
            value != '0' ==> final(self).zeros == old(self).zeros && final(self).ones == old(self).ones + 1,
    {
        if value == '0' {
            self.zeros = self.zeros + 1;
        } else {
            self.ones = self.ones + 1;
        }
    }

    /// 1 where ones outnumber zeros, else 0.
    pub fn resolve(self) -> (r: usize)
        ensures
            r == if self.zeros < self.ones { 1usize } else { 0usize },
    {
        if self.zeros < self.ones {
            1
        } else {
            0
        }
    }
}

/// Which bit a position keeps.
#[derive(Clone, Copy, Debug, PartialEq, Eq, Structural)]
pub enum BitCriteria {
    MostCommon,
    LeastCommon,
}

/// The most common bit, `'1'` on a tie.
pub open spec fn most_common(zeros: int, ones: int) -> char {
    if zeros > ones {
        '0'
    } else {
        '1'
    }
}

/// The least common bit, `'0'` on a tie.
pub open spec fn least_common(zeros: int, ones: int) -> char {
    if ones < zeros {
        '1'
    } else {
        '0'
    }
}

pub open spec fn criteria_bit(criteria: BitCriteria, zeros: int, ones: int) -> char {
    match criteria {
        BitCriteria::MostCommon => most_common(zeros, ones),
        BitCriteria::LeastCommon => least_common(zeros, ones),
    }
}

pub fn resolve_most_common(zeros: usize, ones: usize) -> (r: char)
    ensures
        r == most_common(zeros as int, ones as int),
{
    if zeros > ones {
        '0'
    } else {
        '1'
    }
}

pub fn resolve_least_common(zeros: usize, ones: usize) -> (r: char)
    ensures
        r == least_common(zeros as int, ones as int),
{
    if ones < zeros {
        '1'
    } else {
        '0'
    }
}

impl BitCriteria {
    /// The bit to keep, given the counts of zeros and ones.
    pub fn resolve(&self, zeros: usize, ones: usize) -> (r: char)
        ensures
            r == criteria_bit(*self, zeros as int, ones as int),
    {
        match *self {
            BitCriteria::MostCommon => resolve_most_common(zeros, ones),
            BitCriteria::LeastCommon => resolve_least_common(zeros, ones),
        }
    }
}

/// How many of `vs` hold `c` at `index`.
pub open spec fn count_at(vs: Seq<Seq<char>>, index: int, c: char) -> int
    decreases vs.len(),
{
    if vs.len() == 0 {
        0
    } else {
        count_at(vs.drop_last(), index, c) + if vs.last()[index] == c {
            1int
        } else {
            0
        }
    }
}

/// Those of `vs` that hold `c` at `index`, in order.
pub open spec fn keep(vs: Seq<Seq<char>>, index: int, c: char) -> Seq<Seq<char>>
    decreases vs.len(),
{
    if vs.len() == 0 {
        Seq::empty()
    } else {
        keep(vs.drop_last(), index, c) + if vs.last()[index] == c {
            seq![vs.last()]
        } else {
            Seq::empty()
        }
    }
}

/// One filtering step at `index`: keep the numbers holding the criteria's
/// bit there, unless that keeps none.
pub open spec fn filter_step(vs: Seq<Seq<char>>, criteria: BitCriteria, index: int) -> Seq<Seq<char>> {
    let bit = criteria_bit(criteria, count_at(vs, index, '0'), count_at(vs, index, '1'));
    let kept = keep(vs, index, bit);
    if kept.len() == 0 {
        vs
    } else {
        kept
    }
}

/// The numbers left after filtering at positions `0 .. n`.
pub open spec fn filter_upto(vs: Seq<Seq<char>>, criteria: BitCriteria, n: int) -> Seq<Seq<char>>
    decreases n,
{
    if n <= 0 {
        vs
    } else {
        filter_step(filter_upto(vs, criteria, n - 1), criteria, n - 1)
    }
}

/// The number written in binary digits `s`.
pub open spec fn binary_value(s: Seq<char>) -> int
    decreases s.len(),
{
    if s.len() == 0 {
        0
    } else {
        binary_value(s.drop_last()) * 2 + if s.last() == '1' {
            1int
        } else {
            0
        }
    }
}

pub open spec fn is_binary(s: Seq<char>) -> bool {
    forall|i: int| 0 <= i < s.len() ==> (#[trigger] s[i] == '0' || s[i] == '1')
}

pub open spec fn views(values: Seq<&str>) -> Seq<Seq<char>> {
    values.map_values(|s: &str| s@)
}

proof fn lemma_keep_from(vs: Seq<Seq<char>>, index: int, c: char)
    ensures
        forall|v: Seq<char>| #[trigger] keep(vs, index, c).contains(v) ==> vs.contains(v),
        keep(vs, index, c).len() <= vs.len(),
    decreases vs.len(),
{
    if vs.len() > 0 {
        lemma_keep_from(vs.drop_last(), index, c);
        assert forall|v: Seq<char>| #[trigger] keep(vs, index, c).contains(v) implies vs.contains(v) by {
            if keep(vs.drop_last(), index, c).contains(v) {
                let k = choose|k: int| 0 <= k < vs.drop_last().len() && vs.drop_last()[k] == v;
                assert(vs[k] == v);
            } else {
                assert(vs[vs.len() - 1] == v);
            }
        }
    }
}

proof fn lemma_filter_upto_from(vs: Seq<Seq<char>>, criteria: BitCriteria, n: int)
    ensures
        forall|v: Seq<char>| #[trigger] filter_upto(vs, criteria, n).contains(v) ==> vs.contains(v),
        vs.len() > 0 ==> filter_upto(vs, criteria, n).len() > 0,
        filter_upto(vs, criteria, n).len() <= vs.len(),
    decreases n,
{
    if n > 0 {
        let prev = filter_upto(vs, criteria, n - 1);
        lemma_filter_upto_from(vs, criteria, n - 1);
        let bit = criteria_bit(criteria, count_at(prev, n - 1, '0'), count_at(prev, n - 1, '1'));
        lemma_keep_from(prev, n - 1, bit);
    }
}

/// Keeps those of `values` whose digit at `index` is the bit that
/// `criteria` picks from the counts of zeros and ones there; keeps them all
/// where none would be left.
pub fn filter_by_index<'a>(values: Vec<&'a str>, criteria: BitCriteria, index: usize) -> (r: Vec<&'a str>)
    requires
        forall|i: int| 0 <= i < values@.len() ==> index < (#[trigger] values@[i])@.len(),
    ensures
        views(r@) == filter_step(views(values@), criteria, index as int),
{
    let ghost vs = views(values@);
    let mut zeros: usize = 0;
    let mut ones: usize = 0;
    let mut i: usize = 0;
    while i < values.len()
        invariant
            vs == views(values@),
            forall|k: int| 0 <= k < values@.len() ==> index < (#[trigger] values@[k])@.len(),
            0 <= i <= values@.len(),
            zeros == count_at(vs.take(i as int), index as int, '0'),
            ones == count_at(vs.take(i as int), index as int, '1'),
            zeros <= i && ones <= i,
        decreases values@.len() - i,
    {
        assert(vs.take(i + 1).drop_last() == vs.take(i as int));
        let c = values[i].get_char(index);
        if c == '0' {
            zeros = zeros + 1;
        } else if c == '1' {
            ones = ones + 1;
        }
        i += 1;
    }
    assert(vs.take(i as int) == vs);
    let bit = criteria.resolve(zeros, ones);
    let mut filtered: Vec<&'a str> = Vec::new();
    let mut i: usize = 0;
    while i < values.len()
        invariant
            vs == views(values@),
            forall|k: int| 0 <= k < values@.len() ==> index < (#[trigger] values@[k])@.len(),
            0 <= i <= values@.len(),
            views(filtered@) == keep(vs.take(i as int), index as int, bit),
        decreases values@.len() - i,
    {
        assert(vs.take(i + 1).drop_last() == vs.take(i as int));
        let v = values[i];
        if v.get_char(index) == bit {
            filtered.push(v);
        }
        assert(views(filtered@) == keep(vs.take(i + 1), index as int, bit));
        i += 1;
    }
    assert(vs.take(i as int) == vs);
    if filtered.len() == 0 {
        values
    } else {
        filtered
    }
}

/// The value of binary digits `s`.
fn parse_binary(s: &str) -> (r: usize)
    requires
        is_binary(s@),
        binary_value(s@) <= usize::MAX,
    ensures
        r == binary_value(s@),
{
    let n = s.unicode_len();
    let mut acc: usize = 0;
    let mut i: usize = 0;
    while i < n
        invariant
            n == s@.len(),
            is_binary(s@),
            binary_value(s@) <= usize::MAX,
            0 <= i <= n,
            acc == binary_value(s@.take(i as int)),
        decreases n - i,
    {
        assert(s@.take(i + 1).drop_last() == s@.take(i as int));
        proof {
            lemma_binary_value_prefix(s@, i + 1);
        }
        let c = s.get_char(i);
        acc = acc * 2 + if c == '1' { 1 } else { 0 };
        i += 1;
    }
    assert(s@.take(n as int) == s@);
    acc
}

proof fn lemma_binary_value_prefix(s: Seq<char>, n: int)
    requires
        0 <= n <= s.len(),
    ensures
        0 <= binary_value(s.take(n)) <= binary_value(s),
    decreases s.len(),
{
    if s.len() == 0 {
        assert(s.take(n) == s);
    } else if n == s.len() {
        assert(s.take(n) == s);
        lemma_binary_value_prefix(s.drop_last(), 0);
    } else {
        assert(s.drop_last().take(n) == s.take(n));
        lemma_binary_value_prefix(s.drop_last(), n);
    }
}

/// The rating: filter at each position of the first number in turn, then
/// read the first number left as binary.
pub fn filter(values: Vec<&str>, criteria: BitCriteria) -> (r: usize)
    requires
        values@.len() > 0,
        forall|i: int| 0 <= i < values@.len() ==> (#[trigger] values@[i])@.len() >= values@[0]@.len(),
        forall|i: int| 0 <= i < values@.len() ==> is_binary((#[trigger] values@[i])@),
        forall|i: int| 0 <= i < values@.len() ==> binary_value((#[trigger] values@[i])@) <= usize::MAX,
    ensures
        r == binary_value(filter_upto(views(values@), criteria, values@[0]@.len() as int)[0]),
{
    let ghost vs = views(values@);
    let width = values[0].unicode_len();
    let mut current = values;
    let mut i: usize = 0;
    proof {
        lemma_filter_upto_from(vs, criteria, 0);
    }
    while i < width
        invariant
            0 <= i <= width,
            vs.len() > 0,
            forall|k: int| 0 <= k < vs.len() ==> (#[trigger] vs[k]).len() >= width,
            forall|k: int| 0 <= k < vs.len() ==> is_binary(#[trigger] vs[k]),
            forall|k: int| 0 <= k < vs.len() ==> binary_value(#[trigger] vs[k]) <= usize::MAX,
            views(current@) == filter_upto(vs, criteria, i as int),
        decreases width - i,
    {
        proof {
            lemma_filter_upto_from(vs, criteria, i as int);
            assert forall|k: int| 0 <= k < current@.len() implies i < (#[trigger] current@[k])@.len() by {
                assert(views(current@)[k] == current@[k]@);
                assert(filter_upto(vs, criteria, i as int).contains(current@[k]@));
            }
        }
        current = filter_by_index(current, criteria, i);
        i += 1;
    }
    proof {
        lemma_filter_upto_from(vs, criteria, i as int);
        assert(views(current@)[0] == current@[0]@);
        assert(filter_upto(vs, criteria, i as int).contains(current@[0]@));
    }
    parse_binary(current[0])
}

/// How many of `vs` hold a `'0'` at `index`.
pub open spec fn zeros_at(vs: Seq<Seq<char>>, index: int) -> int
    decreases vs.len(),
{
    if vs.len() == 0 {
        0
    } else {
        zeros_at(vs.drop_last(), index) + if index < vs.last().len() && vs.last()[index] == '0' {
            1int
        } else {
            0
        }
    }
}

/// How many of `vs` hold something other than `'0'` at `index`.
pub open spec fn others_at(vs: Seq<Seq<char>>, index: int) -> int
    decreases vs.len(),
{
    if vs.len() == 0 {
        0
    } else {
        others_at(vs.drop_last(), index) + if index < vs.last().len() && vs.last()[index] != '0' {
            1int
        } else {
            0
        }
    }
}

/// The most common bit at each of the first `width` positions, `'0'` on
/// a tie.
pub open spec fn gamma_bits(vs: Seq<Seq<char>>, width: int) -> Seq<char> {
    Seq::new(width as nat, |i: int| if zeros_at(vs, i) < others_at(vs, i) { '1' } else { '0' })
}

/// The opposite bit at each position.
pub open spec fn flipped(bits: Seq<char>) -> Seq<char> {
    bits.map_values(|c: char| if c == '1' { '0' } else { '1' })
}

/// `width` ones.
pub open spec fn all_ones(width: int) -> Seq<char> {
    Seq::new(width as nat, |i: int| '1')
}

proof fn lemma_binary_value_le_ones(s: Seq<char>)
    ensures
        0 <= binary_value(s) <= binary_value(all_ones(s.len() as int)),
    decreases s.len(),
{
    if s.len() > 0 {
        lemma_binary_value_le_ones(s.drop_last());
        assert(all_ones(s.len() as int).drop_last() == all_ones(s.len() - 1));
    }
}

/// The gamma and epsilon rates of `values`: over the first value's
/// positions, the numbers whose bits are the most and the least common
/// bits there (counting every digit but `'0'` as a one).
pub fn power_rates(values: &Vec<&str>) -> (r: (usize, usize))
    requires
        values@.len() > 0,
        values@.len() < usize::MAX,
        binary_value(all_ones(values@[0]@.len() as int)) <= usize::MAX,
    ensures
        r.0 == binary_value(gamma_bits(views(values@), values@[0]@.len() as int)),
        r.1 == binary_value(flipped(gamma_bits(views(values@), values@[0]@.len() as int))),
{
    let ghost vs = views(values@);
    let width = values[0].unicode_len();
    let mut counts: Vec<IndexCount> = Vec::new();
    while counts.len() < width
        invariant
            counts@.len() <= width,
            forall|k: int| 0 <= k < counts@.len() ==> (#[trigger] counts@[k]).zeros == 0 && counts@[k].ones == 0,
        decreases width - counts@.len(),
    {
        counts.push(IndexCount { zeros: 0, ones: 0 });
    }
    let mut v: usize = 0;
    while v < values.len()
        invariant
            vs == views(values@),
            values@.len() < usize::MAX,
            counts@.len() == width,
            0 <= v <= values@.len(),
            forall|k: int| 0 <= k < width ==> (#[trigger] counts@[k]).zeros == zeros_at(vs.take(v as int), k)
                && counts@[k].ones == others_at(vs.take(v as int), k),
            forall|k: int| 0 <= k < width ==> (#[trigger] counts@[k]).zeros + counts@[k].ones <= v,
        decreases values@.len() - v,
    {
        assert(vs.take(v + 1).drop_last() == vs.take(v as int));
        let value = values[v];
        assert(vs.take(v + 1).last() == value@);
        let n = value.unicode_len();
        let mut k: usize = 0;
        while k < width
            invariant
                vs == views(values@),
                0 <= v < values@.len() < usize::MAX,
                vs.take(v + 1).drop_last() == vs.take(v as int),
                vs.take(v + 1).last() == value@,
                n == value@.len(),
                counts@.len() == width,
                0 <= k <= width,
                forall|j: int| 0 <= j < k ==> (#[trigger] counts@[j]).zeros == zeros_at(vs.take(v + 1), j)
                    && counts@[j].ones == others_at(vs.take(v + 1), j),
                forall|j: int| k <= j < width ==> (#[trigger] counts@[j]).zeros == zeros_at(vs.take(v as int), j)
                    && counts@[j].ones == others_at(vs.take(v as int), j),
                forall|j: int| 0 <= j < k ==> (#[trigger] counts@[j]).zeros + counts@[j].ones <= v + 1,
                forall|j: int| k <= j < width ==> (#[trigger] counts@[j]).zeros + counts@[j].ones <= v,
            decreases width - k,
        {
            if k < n {
                let c = value.get_char(k);
                let mut count = counts[k];
                count.update(c);
                counts.set(k, count);
            }
            k += 1;
        }
        v += 1;
    }
    assert(vs.take(v as int) == vs);
    let ghost bits = gamma_bits(vs, width as int);
    let mut gamma: usize = 0;
    let mut epsilon: usize = 0;
    let mut k: usize = 0;
    proof {
        lemma_binary_value_le_ones(bits);
        lemma_binary_value_le_ones(flipped(bits));
    }
    while k < width
        invariant
            bits == gamma_bits(vs, width as int),
            counts@.len() == width,
            forall|j: int| 0 <= j < width ==> (#[trigger] counts@[j]).zeros == zeros_at(vs, j)
                && counts@[j].ones == others_at(vs, j),
            binary_value(bits) <= usize::MAX,
            binary_value(flipped(bits)) <= usize::MAX,
            0 <= k <= width,
            gamma == binary_value(bits.take(k as int)),
            epsilon == binary_value(flipped(bits).take(k as int)),
        decreases width - k,
    {
        assert(bits.take(k + 1).drop_last() == bits.take(k as int));
        assert(flipped(bits).take(k + 1).drop_last() == flipped(bits).take(k as int));
        proof {
            lemma_binary_value_prefix(bits, k + 1);
            lemma_binary_value_prefix(flipped(bits), k + 1);
        }
        let bit = counts[k].resolve();
        gamma = gamma * 2 + bit;
        epsilon = epsilon * 2 + (1 - bit);
        k += 1;
    }
    assert(bits.take(k as int) == bits);
    assert(flipped(bits).take(k as int) == flipped(bits));
    (gamma, epsilon)
}

/// The gamma rate times the epsilon rate.
pub fn power_consumption(values: &Vec<&str>) -> (r: u128)
    requires
        values@.len() > 0,
        values@.len() < usize::MAX,
        binary_value(all_ones(values@[0]@.len() as int)) <= usize::MAX,
    ensures
        r == binary_value(gamma_bits(views(values@), values@[0]@.len() as int)) * binary_value(
            flipped(gamma_bits(views(values@), values@[0]@.len() as int)),
        ),
{
    let (gamma, epsilon) = power_rates(values);
    assert(gamma as int * epsilon as int <= u64::MAX as int * u64::MAX as int) by (nonlinear_arith)
        requires
            0 <= gamma <= u64::MAX,
            0 <= epsilon <= u64::MAX;
    gamma as u128 * epsilon as u128
}

} // verus!
