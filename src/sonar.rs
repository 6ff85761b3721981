//! Depth readings: how often a reading is larger than the one before, and
//! the sums of sliding windows of three readings.
use vstd::prelude::*;
use crate::text::{lines, numbers_u64, parse_u64_list, split_lines};

verus! {

/// How many readings of `s` are larger than the reading before them.
pub open spec fn increases(s: Seq<u64>) -> int
    decreases s.len(),
{
    if s.len() < 2 {
        0
    } else {
        increases(s.drop_last()) + if s[s.len() - 2] < s[s.len() - 1] {
            1int
        } else {
            0
        }
    }
}

proof fn lemma_increases_bound(s: Seq<u64>)
    ensures
        0 <= increases(s) <= s.len(),
    decreases s.len(),
{
    if s.len() >= 2 {
        lemma_increases_bound(s.drop_last());
    }
}

/// How many readings are larger than the reading before them.
pub fn calculate_larger_pairs(values: &[u64]) -> (r: u64)
    ensures
        r == increases(values@),
{
    let mut count: u64 = 0;
    let mut i: usize = 1;
    if values.len() < 2 {
        return 0;
    }
    while i < values.len()
        invariant
            1 <= i <= values@.len(),
            count == increases(values@.take(i as int)),
        decreases values@.len() - i,
    {
        assert(values@.take(i + 1).drop_last() == values@.take(i as int));
        proof {
            lemma_increases_bound(values@.take(i as int));
        }
        if values[i - 1] < values[i] {
            count = count + 1;
        }
        i += 1;
    }
    assert(values@.take(i as int) == values@);
    count
}

/// The sum of the three readings from `i` on.
pub open spec fn window_sum(s: Seq<u64>, i: int) -> int {
    s[i] + s[i + 1] + s[i + 2]
}

/// The sums of each window of three consecutive readings, in order.
pub fn window_sums(values: &[u64]) -> (r: Vec<u64>)
    requires
        forall|i: int| 0 <= i && i + 2 < values@.len() ==> #[trigger] window_sum(values@, i) <= u64::MAX,
    ensures
        r@.len() == if values@.len() < 3 { 0 } else { values@.len() - 2 },
        forall|i: int| 0 <= i < r@.len() ==> r@[i] == #[trigger] window_sum(values@, i),
{
    let mut r: Vec<u64> = Vec::new();
    if values.len() < 3 {
        return r;
    }
    let n = values.len() - 2;
    let mut i: usize = 0;
    while i < n
        invariant
            forall|k: int| 0 <= k && k + 2 < values@.len() ==> #[trigger] window_sum(values@, k) <= u64::MAX,
            r@.len() == i,
            n == values@.len() - 2,
            i <= n,
            forall|k: int| 0 <= k < i ==> r@[k] == #[trigger] window_sum(values@, k),
        decreases values@.len() - i,
    {
        assert(window_sum(values@, i as int) <= u64::MAX);
        r.push(values[i] + values[i + 1] + values[i + 2]);
        i += 1;
    }
    r
}

/// The readings, one decimal number per line; `None` where a line is not
/// one that fits in a `u64`.
pub fn parse_depths(input: &[u8]) -> (r: Option<Vec<u64>>)
    ensures
        match (r, numbers_u64(lines(input@))) {
            (Some(v), Some(w)) => v@ == w,
            (None, None) => true,
            _ => false,
        },
{
    let ls = split_lines(input);
    parse_u64_list(&ls)
}

} // verus!
