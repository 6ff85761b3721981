use aoc_bingo::crabs::{
    calculate_fuel_cost_for_position, compute_fuel_cost_for_all_positions, Crabs,
};
use aoc_bingo::diagnostic::{
    filter, filter_by_index, resolve_least_common, resolve_most_common, BitCriteria, IndexCount,
};
use aoc_bingo::dive::{follow, follow_with_aim, Command, Direction, State, StateWithAim};
use aoc_bingo::lanternfish;
use aoc_bingo::segments::{is_unique, Entry, Input as Notes};
use aoc_bingo::smoke::{risk_level, DepthMap};
use aoc_bingo::sonar::{calculate_larger_pairs, window_sums};

#[test]
fn sonar_sample() {
    let depths = [199, 200, 208, 210, 200, 207, 240, 269, 260, 263];
    assert_eq!(calculate_larger_pairs(&depths), 7);
    let sums = window_sums(&depths);
    assert_eq!(sums, vec![607, 618, 618, 617, 647, 716, 769, 792]);
    assert_eq!(calculate_larger_pairs(&sums), 5);
    assert_eq!(calculate_larger_pairs(&[]), 0);
    assert_eq!(calculate_larger_pairs(&[5]), 0);
    assert_eq!(window_sums(&[1, 2]), Vec::<u64>::new());
}

fn commands() -> Vec<Command> {
    let c = |direction, magnitude| Command { direction, magnitude };
    vec![
        c(Direction::Forward, 5),
        c(Direction::Down, 5),
        c(Direction::Forward, 8),
        c(Direction::Up, 3),
        c(Direction::Down, 8),
        c(Direction::Forward, 2),
    ]
}

#[test]
fn dive_sample() {
    let s = follow(&commands());
    assert_eq!(s, State::new(15, 10));
    assert_eq!(s.compute_answer(), 150);
    let a = follow_with_aim(&commands());
    assert_eq!(a, StateWithAim::new(15, 60, 10));
    assert_eq!(a.compute_answer(), 900);
}

#[test]
fn dive_steps() {
    let s = State::new(1, 2).apply(Command { direction: Direction::Up, magnitude: 5 });
    assert_eq!(s, State::new(1, -3));
    let a = StateWithAim::new(1, 2, 3).apply(Command { direction: Direction::Forward, magnitude: 4 });
    assert_eq!(a, StateWithAim::new(5, 14, 3));
}

#[test]
fn lanternfish_sample() {
    let mut s = lanternfish::State::new(vec![3, 4, 3, 1, 2]);
    s = s.tick();
    assert_eq!(s.lanternfish, vec![2, 3, 2, 0, 1]);
    s = s.tick();
    assert_eq!(s.lanternfish, vec![1, 2, 1, 6, 8, 0]);
    for _ in 0..16 {
        s = s.tick();
    }
    assert_eq!(s.lanternfish.len(), 26);
}

#[test]
fn crabs_sample() {
    let crabs = Crabs::new(vec![16, 1, 2, 0, 4, 2, 7, 1, 2, 14]);
    assert_eq!(crabs.calculate_minimal_fuel(), 37);
    assert_eq!(crabs.calculate_complex_minimal_fuel(), 168);
    assert_eq!(calculate_fuel_cost_for_position(5, 16), 66);
    assert_eq!(calculate_fuel_cost_for_position(16, 5), 66);
    assert_eq!(compute_fuel_cost_for_all_positions(2, &[1, 2, 3]), 2);
}

#[test]
fn crabs_median_of_even_count_rounds_toward_zero() {
    let crabs = Crabs::new(vec![-3, 0]);
    // Median (-3 + 0) / 2 = -1: fuel 2 + 1.
    assert_eq!(crabs.calculate_minimal_fuel(), 3);
}

fn words(s: &str) -> Vec<Vec<u8>> {
    s.split_whitespace().map(|w| w.as_bytes().to_vec()).collect()
}

#[test]
fn segments_sample() {
    let notes = Notes {
        entries: vec![
            Entry {
                signals: words("be cfbegad cbdgef fgaecd cgeb fdcge agebfd fecdb fabcd edb"),
                outputs: words("fdgacbe cefdb cefbgd gcbe"),
            },
            Entry {
                signals: words("edbfga begcd cbg gc gcadebf fbgde acbgfd abcde gfcbed gfec"),
                outputs: words("fcgedb cgb dgebacf gc"),
            },
        ],
    };
    assert_eq!(notes.unique_digit_outputs(), 5);
    assert!(is_unique(b"ab"));
    assert!(!is_unique(b"abcde"));
}

#[test]
fn smoke_sample() {
    let map = DepthMap::new(vec![
        "2199943210",
        "3987894921",
        "9856789892",
        "8767896789",
        "9899965678",
    ]);
    let lows = map.lowest_points();
    assert_eq!(lows, vec![1, 0, 5, 5]);
    assert_eq!(risk_level(&lows), 15);
    assert!(map.no_point_lower(0, 1));
    assert!(!map.no_point_lower(0, 0));
}

const REPORT: [&str; 12] = [
    "00100", "11110", "10110", "10111", "10101", "01111", "00111", "11100", "10000", "11001",
    "00010", "01010",
];

#[test]
fn diagnostic_sample() {
    assert_eq!(filter(REPORT.to_vec(), BitCriteria::MostCommon), 23);
    assert_eq!(filter(REPORT.to_vec(), BitCriteria::LeastCommon), 10);
}

#[test]
fn diagnostic_steps() {
    let kept = filter_by_index(REPORT.to_vec(), BitCriteria::MostCommon, 0);
    assert_eq!(kept.len(), 7);
    assert!(kept.iter().all(|v| v.starts_with('1')));
    // Nothing holds a '2': every number is kept.
    let none = filter_by_index(vec!["01", "00"], BitCriteria::LeastCommon, 0);
    assert_eq!(none, vec!["01", "00"]);
    assert_eq!(resolve_most_common(3, 3), '1');
    assert_eq!(resolve_most_common(4, 3), '0');
    assert_eq!(resolve_least_common(3, 3), '0');
    assert_eq!(resolve_least_common(4, 3), '1');
    let mut c = IndexCount::default();
    c.update('0');
    c.update('1');
    c.update('1');
    assert_eq!(c, IndexCount { zeros: 1, ones: 2 });
    assert_eq!(c.resolve(), 1);
}

#[test]
fn diagnostic_power() {
    let values = REPORT.to_vec();
    assert_eq!(aoc_bingo::diagnostic::power_rates(&values), (22, 9));
    assert_eq!(aoc_bingo::diagnostic::power_consumption(&values), 198);
}

#[test]
fn lanternfish_days() {
    let s = lanternfish::State::new(vec![3, 4, 3, 1, 2]);
    assert_eq!(s.simulate(18).lanternfish.len(), 26);
    assert_eq!(s.simulate(80).lanternfish.len(), 5934);
    assert_eq!(s.simulate(0).lanternfish, vec![3, 4, 3, 1, 2]);
}

#[test]
fn crab_positions_are_sorted() {
    let crabs = Crabs::new(vec![16, 1, 2, 0, 4, 2, 7, 1, 2, 14]);
    assert_eq!(crabs.positions(), &vec![0, 1, 1, 2, 2, 2, 4, 7, 14, 16]);
}
