//! Steering a submarine by a list of commands, with and without aim.
use vstd::prelude::*;
use crate::text::{lines, signed_value, split_lines, split_words, parse_i64, views, words};

verus! {

/// Where a command steers.
#[derive(Clone, Copy, Debug, PartialEq, Eq, Structural)]
pub enum Direction {
    Forward,
    Up,
    Down,
}

/// One command: a direction and how far.
#[derive(Clone, Copy, Debug, PartialEq, Eq, Structural)]
pub struct Command {
    pub direction: Direction,
    pub magnitude: i64,
}

/// Horizontal position and depth.
#[derive(Clone, Copy, Debug, PartialEq, Eq, Structural)]
pub struct State {
    pub position: i64,
    pub depth: i64,
}

/// The plain reading of a command: forward moves, up and down change depth.
pub open spec fn step(position: int, depth: int, c: Command) -> (int, int) {
    match c.direction {
        Direction::Forward => (position + c.magnitude, depth),
        Direction::Up => (position, depth - c.magnitude),
        Direction::Down => (position, depth + c.magnitude),
    }
}

/// The reading with aim: up and down change the aim, and forward moves
/// and dives by aim times the distance.
pub open spec fn step_with_aim(position: int, depth: int, aim: int, c: Command) -> (int, int, int) {
    match c.direction {
        Direction::Forward => (position + c.magnitude, depth + aim * c.magnitude, aim),
        Direction::Up => (position, depth, aim - c.magnitude),
        Direction::Down => (position, depth, aim + c.magnitude),
    }
}

pub open spec fn fits_i64(v: int) -> bool {
    i64::MIN <= v <= i64::MAX
}

impl State {
    pub fn new(position: i64, depth: i64) -> (r: State)
        ensures
            r == (State { position, depth }),
    {
        State { position, depth }
    }

    /// The state after `command`.
    pub fn apply(self, command: Command) -> (r: State)
        requires
            fits_i64(step(self.position as int, self.depth as int, command).0),
            fits_i64(step(self.position as int, self.depth as int, command).1),
        ensures
            (r.position as int, r.depth as int) == step(self.position as int, self.depth as int, command),
    {
        let Command { direction, magnitude } = command;
        match direction {
            Direction::Forward => State::new(self.position + magnitude, self.depth),
            Direction::Up => State::new(self.position, self.depth - magnitude),
            Direction::Down => State::new(self.position, self.depth + magnitude),
        }
    }

    /// Position times depth.
    pub fn compute_answer(self) -> (r: i64)
        requires
            fits_i64(self.position * self.depth),
        ensures
            r == self.position * self.depth,
    {
        self.position * self.depth
    }
}

/// Position, depth and aim.
#[derive(Clone, Copy, Debug, PartialEq, Eq, Structural)]
pub struct StateWithAim {
    pub state: State,
    pub aim: i64,
}

impl StateWithAim {
    pub fn new(position: i64, depth: i64, aim: i64) -> (r: StateWithAim)
        ensures
            r == (StateWithAim { state: State { position, depth }, aim }),
    {
        StateWithAim { state: State::new(position, depth), aim }
    }

    /// The state after `command`.
    pub fn apply(self, command: Command) -> (r: StateWithAim)
        requires
            ({
                let (p, d, a) = step_with_aim(
                    self.state.position as int,
                    self.state.depth as int,
                    self.aim as int,
                    command,
                );
                fits_i64(p) && fits_i64(d) && fits_i64(a) && fits_i64(self.aim * command.magnitude)
            }),
        ensures
            (r.state.position as int, r.state.depth as int, r.aim as int) == step_with_aim(
                self.state.position as int,
                self.state.depth as int,
                self.aim as int,
                command,
            ),
    {
        let Command { direction, magnitude } = command;
        match direction {
            Direction::Forward => StateWithAim::new(
                self.state.position + magnitude,
                self.state.depth + self.aim * magnitude,
                self.aim,
            ),
            Direction::Up => StateWithAim::new(self.state.position, self.state.depth, self.aim - magnitude),
            Direction::Down => StateWithAim::new(self.state.position, self.state.depth, self.aim + magnitude),
        }
    }

    /// Position times depth.
    pub fn compute_answer(self) -> (r: i64)
        requires
            fits_i64(self.state.position * self.state.depth),
        ensures
            r == self.state.position * self.state.depth,
    {
        self.state.compute_answer()
    }
}

/// Position and depth after `cs`, from the surface at 0.
pub open spec fn course(cs: Seq<Command>) -> (int, int)
    decreases cs.len(),
{
    if cs.len() == 0 {
        (0, 0)
    } else {
        let (p, d) = course(cs.drop_last());
        step(p, d, cs.last())
    }
}

/// Position, depth and aim after `cs`, from the surface at 0.
pub open spec fn course_with_aim(cs: Seq<Command>) -> (int, int, int)
    decreases cs.len(),
{
    if cs.len() == 0 {
        (0, 0, 0)
    } else {
        let (p, d, a) = course_with_aim(cs.drop_last());
        step_with_aim(p, d, a, cs.last())
    }
}

/// Every state along the plain course fits in `i64`.
pub open spec fn course_fits(cs: Seq<Command>) -> bool {
    forall|n: int| 0 <= n <= cs.len() ==> fits_i64((#[trigger] course(cs.take(n))).0) && fits_i64(course(cs.take(n)).1)
}

/// Every state along the course with aim fits in `i64`, and so does each
/// dive.
pub open spec fn course_with_aim_fits(cs: Seq<Command>) -> bool {
    forall|n: int| 0 <= n <= cs.len() ==> {
        let (p, d, a) = #[trigger] course_with_aim(cs.take(n));
        fits_i64(p) && fits_i64(d) && fits_i64(a) && (n < cs.len() ==> fits_i64(a * cs[n].magnitude))
    }
}

/// Follows `commands` from the surface at 0, reading them plainly.
pub fn follow(commands: &Vec<Command>) -> (r: State)
    requires
        course_fits(commands@),
    ensures
        (r.position as int, r.depth as int) == course(commands@),
{
    let mut state = State::new(0, 0);
    let mut i: usize = 0;
    while i < commands.len()
        invariant
            0 <= i <= commands@.len(),
            course_fits(commands@),
            (state.position as int, state.depth as int) == course(commands@.take(i as int)),
        decreases commands@.len() - i,
    {
        assert(commands@.take(i + 1).drop_last() == commands@.take(i as int));
        assert(course(commands@.take(i + 1)) == course(commands@.take(i + 1)));
        state = state.apply(commands[i]);
        i += 1;
    }
    assert(commands@.take(i as int) == commands@);
    state
}

/// Follows `commands` from the surface at 0 with aim 0.
pub fn follow_with_aim(commands: &Vec<Command>) -> (r: StateWithAim)
    requires
        course_with_aim_fits(commands@),
    ensures
        (r.state.position as int, r.state.depth as int, r.aim as int) == course_with_aim(commands@),
{
    let mut state = StateWithAim::new(0, 0, 0);
    let mut i: usize = 0;
    while i < commands.len()
        invariant
            0 <= i <= commands@.len(),
            course_with_aim_fits(commands@),
            (state.state.position as int, state.state.depth as int, state.aim as int) == course_with_aim(
                commands@.take(i as int),
            ),
        decreases commands@.len() - i,
    {
        assert(commands@.take(i + 1).drop_last() == commands@.take(i as int));
        assert(course_with_aim(commands@.take(i + 1)) == course_with_aim(commands@.take(i + 1)));
        state = state.apply(commands[i]);
        i += 1;
    }
    assert(commands@.take(i as int) == commands@);
    state
}

/// The direction a word names: `forward`, `up` or `down`.
pub open spec fn direction_named(w: Seq<u8>) -> Option<Direction> {
    if w == seq![102u8, 111, 114, 119, 97, 114, 100] {
        Some(Direction::Forward)
    } else if w == seq![117u8, 112] {
        Some(Direction::Up)
    } else if w == seq![100u8, 111, 119, 110] {
        Some(Direction::Down)
    } else {
        None
    }
}

/// A command as text: a direction word, then the distance as an optional
/// `-` and decimal digits fitting in an `i64`, split by spaces.
pub open spec fn command_line(line: Seq<u8>) -> Option<Command> {
    let ws = words(line);
    if ws.len() != 2 {
        None
    } else {
        match (direction_named(ws[0]), signed_value(ws[1])) {
            (Some(direction), Some(m)) => if i64::MIN <= m <= i64::MAX {
                Some(Command { direction, magnitude: m as i64 })
            } else {
                None
            },
            _ => None,
        }
    }
}

/// The commands on the lines of `s`; `None` where a line is not one.
pub open spec fn command_lines(ls: Seq<Seq<u8>>) -> Option<Seq<Command>>
    decreases ls.len(),
{
    if ls.len() == 0 {
        Some(Seq::empty())
    } else {
        match (command_lines(ls.drop_last()), command_line(ls.last())) {
            (Some(cs), Some(c)) => Some(cs.push(c)),
            _ => None,
        }
    }
}

proof fn lemma_command_lines_none_stays(ls: Seq<Seq<u8>>, n: int)
    requires
        0 <= n <= ls.len(),
        command_lines(ls.take(n)) is None,
    ensures
        command_lines(ls) is None,
    decreases ls.len() - n,
{
    if n < ls.len() {
        assert(ls.take(n + 1).drop_last() == ls.take(n));
        lemma_command_lines_none_stays(ls, n + 1);
    } else {
        assert(ls.take(n) == ls);
    }
}

impl Direction {
    /// The direction `word` names.
    pub fn parse(word: &[u8]) -> (r: Option<Direction>)
        ensures
            r == direction_named(word@),
    {
        if word.len() == 7 && word[0] == 102 && word[1] == 111 && word[2] == 114 && word[3] == 119
            && word[4] == 97 && word[5] == 114 && word[6] == 100 {
            assert(word@ =~= seq![102u8, 111, 114, 119, 97, 114, 100]);
            Some(Direction::Forward)
        } else if word.len() == 2 && word[0] == 117 && word[1] == 112 {
            assert(word@ =~= seq![117u8, 112]);
            Some(Direction::Up)
        } else if word.len() == 4 && word[0] == 100 && word[1] == 111 && word[2] == 119 && word[3]
            == 110 {
            assert(word@ =~= seq![100u8, 111, 119, 110]);
            Some(Direction::Down)
        } else {
            proof {
                if word@ == seq![102u8, 111, 114, 119, 97, 114, 100] {
                    assert(word@[6] == 100);
                }
                if word@ == seq![117u8, 112] {
                    assert(word@[1] == 112);
                }
                if word@ == seq![100u8, 111, 119, 110] {
                    assert(word@[3] == 110);
                }
            }
            None
        }
    }
}

impl Command {
    /// The command on `line`.
    pub fn parse(line: &[u8]) -> (r: Option<Command>)
        ensures
            r == command_line(line@),
    {
        let ws = split_words(line);
        if ws.len() != 2 {
            return None;
        }
        assert(views(ws@)[0] == ws@[0]@ && views(ws@)[1] == ws@[1]@);
        match (Direction::parse(ws[0].as_slice()), parse_i64(ws[1].as_slice())) {
            (Some(direction), Some(magnitude)) => Some(Command { direction, magnitude }),
            _ => None,
        }
    }
}

/// The commands on the lines of `input`; `None` where a line is not one.
pub fn parse_commands(input: &[u8]) -> (r: Option<Vec<Command>>)
    ensures
        match (r, command_lines(lines(input@))) {
            (Some(v), Some(w)) => v@ == w,
            (None, None) => true,
            _ => false,
        },
{
    let ls = split_lines(input);
    let ghost lv = views(ls@);
    let mut out: Vec<Command> = Vec::new();
    let mut i: usize = 0;
    while i < ls.len()
        invariant
            lv == views(ls@),
            lv == lines(input@),
            0 <= i <= ls@.len(),
            command_lines(lv.take(i as int)) == Some(out@),
        decreases ls@.len() - i,
    {
        assert(lv.take(i + 1).drop_last() == lv.take(i as int));
        assert(lv.take(i + 1).last() == ls@[i as int]@);
        match Command::parse(ls[i].as_slice()) {
            Some(c) => out.push(c),
            None => {
                proof {
                    lemma_command_lines_none_stays(lv, i + 1);
                }
                return None;
            },
        }
        i += 1;
    }
    assert(lv.take(i as int) == lv);
    Some(out)
}

} // verus!
