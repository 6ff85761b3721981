//! A school of lanternfish, each counting down the days to its next spawn.
use vstd::prelude::*;
use crate::text::{comma_line, numbers_u32, parse_u32_list, split_comma_line};

verus! {

/// The school one day on: a fish at 0 becomes 6 and spawns a new fish at 8
/// right after it; any other fish counts down by one.
pub open spec fn next_day(s: Seq<u32>) -> Seq<u32>
    decreases s.len(),
{
    if s.len() == 0 {
        Seq::empty()
    } else {
        next_day(s.drop_last()) + if s.last() == 0 {
            seq![6u32, 8u32]
        } else {
            seq![(s.last() - 1) as u32]
        }
    }
}

/// The school after `n` days.
pub open spec fn after_days(s: Seq<u32>, n: nat) -> Seq<u32>
    decreases n,
{
    if n == 0 {
        s
    } else {
        next_day(after_days(s, (n - 1) as nat))
    }
}

/// The timers of every fish in the school.
#[derive(Debug)]
pub struct State {
    pub lanternfish: Vec<u32>,
}

fn copy_timers(v: &Vec<u32>) -> (r: Vec<u32>)
    ensures
        r@ == v@,
{
    let mut r: Vec<u32> = Vec::new();
    let mut i: usize = 0;
    while i < v.len()
        invariant
            0 <= i <= v@.len(),
            r@ == v@.take(i as int),
        decreases v@.len() - i,
    {
        r.push(v[i]);
        i += 1;
        assert(r@ == v@.take(i as int));
    }
    assert(v@.take(i as int) == v@);
    r
}

impl State {
    pub fn new(lanternfish: Vec<u32>) -> (r: State)
        ensures
            r.lanternfish@ == lanternfish@,
    {
        State { lanternfish }
    }

    /// Reads the timers from one line of decimal numbers split by commas.
    pub fn parse(input: &[u8]) -> (r: Option<State>)
        ensures
            match (r, comma_line(input@)) {
                (Some(st), Some(pieces)) => numbers_u32(pieces) == Some(st.lanternfish@),
                (None, Some(pieces)) => numbers_u32(pieces) is None,
                (None, None) => true,
                _ => false,
            },
    {
        match split_comma_line(input) {
            Some(pieces) => match parse_u32_list(&pieces) {
                Some(v) => Some(State::new(v)),
                None => None,
            },
            None => None,
        }
    }

    /// The school one day later.
    pub fn tick(&self) -> (r: State)
        requires
            self.lanternfish@.len() * 2 <= usize::MAX,
        ensures
            r.lanternfish@ == next_day(self.lanternfish@),
    {
        let mut next: Vec<u32> = Vec::new();
        let mut i: usize = 0;
        while i < self.lanternfish.len()
            invariant
                0 <= i <= self.lanternfish@.len(),
                next@ == next_day(self.lanternfish@.take(i as int)),
            decreases self.lanternfish@.len() - i,
        {
            assert(self.lanternfish@.take(i + 1).drop_last() == self.lanternfish@.take(i as int));
            let fish = self.lanternfish[i];
            if fish == 0 {
                next.push(6);
                next.push(8);
            } else {
                next.push(fish - 1);
            }
            i += 1;
        }
        assert(self.lanternfish@.take(i as int) == self.lanternfish@);
        State::new(next)
    }

    /// The school `days` days later.
    pub fn simulate(&self, days: usize) -> (r: State)
        requires
            forall|k: nat| k < days ==> #[trigger] after_days(self.lanternfish@, k).len() * 2 <= usize::MAX,
        ensures
            r.lanternfish@ == after_days(self.lanternfish@, days as nat),
    {
        let mut s = State::new(copy_timers(&self.lanternfish));
        let mut d: usize = 0;
        while d < days
            invariant
                0 <= d <= days,
                forall|k: nat| k < days ==> #[trigger] after_days(self.lanternfish@, k).len() * 2 <= usize::MAX,
                s.lanternfish@ == after_days(self.lanternfish@, d as nat),
            decreases days - d,
        {
            assert(after_days(self.lanternfish@, d as nat).len() * 2 <= usize::MAX);
            s = s.tick();
            d += 1;
        }
        s
    }
}

} // verus!
