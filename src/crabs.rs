//! Lining up crabs: the least fuel to bring every crab to one position,
//! at a constant cost per step or at a cost that grows with each step.
use vstd::prelude::*;
use crate::text::{comma_line, numbers_i32, parse_i32_list, split_comma_line};

verus! {

pub open spec fn abs_int(a: int) -> int {
    if a < 0 {
        -a
    } else {
        a
    }
}

/// Fuel to move from `p` to `i` when the n-th step costs n.
pub open spec fn fuel(i: int, p: int) -> int {
    abs_int(i - p) * (abs_int(i - p) + 1) / 2
}

/// Fuel to move every crab of `ps` to `i` when the n-th step costs n.
pub open spec fn total_fuel(i: int, ps: Seq<i32>) -> int
    decreases ps.len(),
{
    if ps.len() == 0 {
        0
    } else {
        total_fuel(i, ps.drop_last()) + fuel(i, ps.last() as int)
    }
}

/// Fuel to move every crab of `ps` to `m` at one unit per step.
pub open spec fn linear_fuel(m: int, ps: Seq<i32>) -> int
    decreases ps.len(),
{
    if ps.len() == 0 {
        0
    } else {
        linear_fuel(m, ps.drop_last()) + abs_int(ps.last() - m)
    }
}

pub open spec fn sorted(s: Seq<i32>) -> bool {
    forall|a: int, b: int| 0 <= a <= b < s.len() ==> s[a] <= s[b]
}

/// Integer division by 2 rounding toward zero.
pub open spec fn half_toward_zero(a: int) -> int {
    if a >= 0 {
        a / 2
    } else {
        -((-a) / 2)
    }
}

/// The middle position of sorted `ps`; for an even count, the two middle
/// positions' sum halved toward zero.
pub open spec fn median_of(ps: Seq<i32>) -> int {
    let mid = ps.len() / 2;
    if ps.len() % 2 == 0 {
        half_toward_zero(ps[mid as int] + ps[mid - 1])
    } else {
        ps[mid as int] as int
    }
}

proof fn lemma_fuel_nonneg(i: int, p: int)
    ensures
        fuel(i, p) >= 0,
{
    assert(abs_int(i - p) * (abs_int(i - p) + 1) >= 0) by (nonlinear_arith);
}

proof fn lemma_total_fuel_prefix(i: int, ps: Seq<i32>, n: int)
    requires
        0 <= n <= ps.len(),
    ensures
        0 <= total_fuel(i, ps.take(n)) <= total_fuel(i, ps),
    decreases ps.len(),
{
    if ps.len() == 0 {
        assert(ps.take(n) == ps);
    } else {
        lemma_fuel_nonneg(i, ps.last() as int);
        if n == ps.len() {
            assert(ps.take(n) == ps);
            lemma_total_fuel_prefix(i, ps.drop_last(), 0);
        } else {
            assert(ps.drop_last().take(n) == ps.take(n));
            lemma_total_fuel_prefix(i, ps.drop_last(), n);
        }
    }
}

proof fn lemma_linear_fuel_prefix(m: int, ps: Seq<i32>, n: int)
    requires
        0 <= n <= ps.len(),
    ensures
        0 <= linear_fuel(m, ps.take(n)) <= linear_fuel(m, ps),
    decreases ps.len(),
{
    if ps.len() == 0 {
        assert(ps.take(n) == ps);
    } else if n == ps.len() {
        assert(ps.take(n) == ps);
        lemma_linear_fuel_prefix(m, ps.drop_last(), 0);
    } else {
        assert(ps.drop_last().take(n) == ps.take(n));
        lemma_linear_fuel_prefix(m, ps.drop_last(), n);
    }
}

/// Fuel to move a crab from `position` to `i` when the n-th step costs n.
pub fn calculate_fuel_cost_for_position(i: i32, position: i32) -> (r: i32)
    requires
        fuel(i as int, position as int) <= i32::MAX,
    ensures
        r == fuel(i as int, position as int),
{
    let diff: i64 = i as i64 - position as i64;
    let d: u64 = if diff < 0 { (-diff) as u64 } else { diff as u64 };
    assert(d * (d + 1) <= 0xffff_ffff * 0x1_0000_0000) by (nonlinear_arith)
        requires
            d <= 0xffff_ffff;
    assert(d * (d + 1) >= 0) by (nonlinear_arith);
    (d * (d + 1) / 2) as i32
}

/// Fuel to move every crab to `i` when the n-th step costs n.
pub fn compute_fuel_cost_for_all_positions(i: i32, positions: &[i32]) -> (r: i32)
    requires
        total_fuel(i as int, positions@) <= i32::MAX,
    ensures
        r == total_fuel(i as int, positions@),
{
    let mut sum: i32 = 0;
    let mut k: usize = 0;
    while k < positions.len()
        invariant
            0 <= k <= positions@.len(),
            total_fuel(i as int, positions@) <= i32::MAX,
            sum == total_fuel(i as int, positions@.take(k as int)),
        decreases positions@.len() - k,
    {
        assert(positions@.take(k + 1).drop_last() == positions@.take(k as int));
        proof {
            lemma_total_fuel_prefix(i as int, positions@, k + 1);
            lemma_total_fuel_prefix(i as int, positions@.take(k + 1), k as int);
            assert(positions@.take(k + 1).take(k as int) == positions@.take(k as int));
            lemma_fuel_nonneg(i as int, positions[k as int] as int);
        }
        sum = sum + calculate_fuel_cost_for_position(i, positions[k]);
        k += 1;
    }
    assert(positions@.take(k as int) == positions@);
    sum
}

/// Relies on `slice::sort`: afterwards the elements are in non-decreasing
/// order, and they are the elements that were there before.
#[verifier::external_body]
fn sort_positions(v: &mut Vec<i32>)
    ensures
        sorted(final(v)@),
        final(v)@.to_multiset() == old(v)@.to_multiset(),
{
    v.sort();
}

/// The crabs' positions, in increasing order.
#[derive(Debug)]
pub struct Crabs {
    positions: Vec<i32>,
}

impl Crabs {
    /// The positions, in increasing order.
    pub closed spec fn view(&self) -> Seq<i32> {
        self.positions@
    }

    pub fn new(positions: Vec<i32>) -> (r: Crabs)
        ensures
            sorted(r@),
            r@.to_multiset() == positions@.to_multiset(),
    {
        let mut positions = positions;
        sort_positions(&mut positions);
        Crabs { positions }
    }

    /// The positions, in increasing order.
    pub fn positions(&self) -> (r: &Vec<i32>)
        ensures
            r@ == self@,
    {
        &self.positions
    }

    /// Reads the positions from one line of numbers split by commas.
    pub fn parse(input: &[u8]) -> (r: Option<Crabs>)
        ensures
            match (r, comma_line(input@)) {
                (Some(c), Some(pieces)) => numbers_i32(pieces) matches Some(ps) && sorted(c@)
                    && c@.to_multiset() == ps.to_multiset(),
                (None, Some(pieces)) => numbers_i32(pieces) is None,
                (None, None) => true,
                _ => false,
            },
    {
        match split_comma_line(input) {
            Some(pieces) => match parse_i32_list(&pieces) {
                Some(v) => Some(Crabs::new(v)),
                None => None,
            },
            None => None,
        }
    }

    /// Fuel to bring every crab to the median position at one unit per step.
    pub fn calculate_minimal_fuel(&self) -> (r: i32)
        requires
            self@.len() > 0,
            linear_fuel(median_of(self@), self@) <= i32::MAX,
        ensures
            r == linear_fuel(median_of(self@), self@),
    {
        let len = self.positions.len();
        let midpoint = len / 2;
        let median: i64 = if len % 2 == 0 {
            let s: i64 = self.positions[midpoint] as i64 + self.positions[midpoint - 1] as i64;
            if s >= 0 {
                s / 2
            } else {
                -((-s) / 2)
            }
        } else {
            self.positions[midpoint] as i64
        };
        assert(median == median_of(self@));
        let mut sum: i64 = 0;
        let mut k: usize = 0;
        while k < len
            invariant
                len == self@.len(),
                0 <= k <= len,
                median == median_of(self@),
                i32::MIN <= median <= i32::MAX,
                linear_fuel(median as int, self@) <= i32::MAX,
                sum == linear_fuel(median as int, self@.take(k as int)),
            decreases len - k,
        {
            assert(self@.take(k + 1).drop_last() == self@.take(k as int));
            proof {
                lemma_linear_fuel_prefix(median as int, self@, k + 1);
            }
            let d: i64 = self.positions[k] as i64 - median;
            sum = sum + if d < 0 { -d } else { d };
            k += 1;
        }
        assert(self@.take(k as int) == self@);
        proof {
            lemma_linear_fuel_prefix(median as int, self@, 0);
        }
        sum as i32
    }

    /// The least fuel, when the n-th step costs n, over the target
    /// positions from the first crab's up to, not including, the last
    /// crab's.
    pub fn calculate_complex_minimal_fuel(&self) -> (r: i32)
        requires
            self@.len() > 0,
            self@[0] < self@.last(),
            forall|i: int| self@[0] <= i < self@.last() ==> #[trigger] total_fuel(i, self@) <= i32::MAX,
        ensures
            exists|i: int| self@[0] <= i < self@.last() && r == total_fuel(i, self@),
            forall|i: int| self@[0] <= i < self@.last() ==> r <= #[trigger] total_fuel(i, self@),
    {
        let lo = self.positions[0];
        let hi = self.positions[self.positions.len() - 1];
        let mut best = compute_fuel_cost_for_all_positions(lo, self.positions.as_slice());
        let mut i: i32 = lo + 1;
        while i < hi
            invariant
                lo == self@[0],
                hi == self@.last(),
                lo < i <= hi,
                forall|j: int| lo <= j < hi ==> #[trigger] total_fuel(j, self@) <= i32::MAX,
                exists|j: int| lo <= j < i && best == total_fuel(j, self@),
                forall|j: int| lo <= j < i ==> best <= #[trigger] total_fuel(j, self@),
            decreases hi - i,
        {
            let cost = compute_fuel_cost_for_all_positions(i, self.positions.as_slice());
            if cost < best {
                best = cost;
            }
            i += 1;
        }
        best
    }
}

} // verus!
