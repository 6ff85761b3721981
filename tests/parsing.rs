use aoc_bingo::bingo::BingoFile;
use aoc_bingo::crabs::Crabs;
use aoc_bingo::dive::{parse_commands, Command, Direction};
use aoc_bingo::lanternfish;
use aoc_bingo::origami;
use aoc_bingo::segments;
use aoc_bingo::smoke::DepthMap;
use aoc_bingo::sonar::parse_depths;
use aoc_bingo::text::{parse_i32, parse_u32, parse_u64, split_bytes, split_lines, split_words};
use aoc_bingo::vents::{self, Line, Point};

const BINGO: &str = "7,4,9,5,11,17,23,2,0,14,21,24,10,16,13,6,15,25,12,22,18,20,8,19,3,26,1

22 13 17 11  0
 8  2 23  4 24
21  9 14 16  7
 6 10  3 18  5
 1 12 20 15 19

 3 15  0  2 22
 9 18 13 17  5
19  8  7 25 23
20 11 10 24  4
14 21 16 12  6

14 21 17 24  4
10 16 15  9 19
18  8 23 26 20
22 11 13  6  5
 2  0 12  3  7
";

#[test]
fn bingo_sample_from_text() {
    let game = BingoFile::parse(BINGO.as_bytes()).unwrap();
    assert_eq!(game.find_winner(), Some(4512));
    assert_eq!(game.find_loser(), Some(1924));
    // Parsing afresh gives the same first winner.
    let again = BingoFile::parse(BINGO.as_bytes()).unwrap();
    assert_eq!(again.find_winner(), Some(4512));
}

#[test]
fn bingo_text_refused() {
    assert!(BingoFile::parse(b"").is_none());
    assert!(BingoFile::parse(b"1,2,3\n").is_none());
    assert!(BingoFile::parse(b"1,x,3\n\n1 2\n3 4\n").is_none());
    assert!(BingoFile::parse(b"1,2\n\n1 2\n3\n").is_none());
    assert!(BingoFile::parse(b"1,2\n\n1 2\n3 4\n").is_some());
}

#[test]
fn numbers_and_splits() {
    assert_eq!(parse_u32(b"4294967295"), Some(u32::MAX));
    assert_eq!(parse_u32(b"4294967296"), None);
    assert_eq!(parse_u32(b""), None);
    assert_eq!(parse_u32(b"12a"), None);
    assert_eq!(parse_u64(b"007"), Some(7));
    assert_eq!(parse_i32(b"-2147483648"), Some(i32::MIN));
    assert_eq!(parse_i32(b"2147483648"), None);
    assert_eq!(parse_i32(b"-"), None);
    assert_eq!(split_bytes(b"a,,b", b','), vec![b"a".to_vec(), vec![], b"b".to_vec()]);
    assert_eq!(split_lines(b"x\ny\n"), vec![b"x".to_vec(), b"y".to_vec()]);
    assert_eq!(split_words(b"  ab  c "), vec![b"ab".to_vec(), b"c".to_vec()]);
}

#[test]
fn commands_from_text() {
    let cs = parse_commands(b"forward 5\ndown 5\nup 3\n").unwrap();
    assert_eq!(
        cs,
        vec![
            Command { direction: Direction::Forward, magnitude: 5 },
            Command { direction: Direction::Down, magnitude: 5 },
            Command { direction: Direction::Up, magnitude: 3 },
        ]
    );
    assert!(parse_commands(b"sideways 5\n").is_none());
    assert!(Command::parse(b"up").is_none());
}

#[test]
fn lists_from_text() {
    let s = lanternfish::State::parse(b"3,4,3,1,2\n").unwrap();
    assert_eq!(s.lanternfish, vec![3, 4, 3, 1, 2]);
    assert!(lanternfish::State::parse(b"3,4\n5\n").is_none());
    let crabs = Crabs::parse(b"16,1,2,0,4,2,7,1,2,14").unwrap();
    assert_eq!(crabs.calculate_minimal_fuel(), 37);
    assert!(Crabs::parse(b"1,,2").is_none());
    assert_eq!(parse_depths(b"199\n200\n208\n"), Some(vec![199, 200, 208]));
    assert_eq!(parse_depths(b"199\n-1\n"), None);
}

#[test]
fn vents_from_text() {
    let input = vents::Input::parse(b"0,9 -> 5,9\n8,0 -> 0,8\n").unwrap();
    assert_eq!(
        input.lines,
        vec![
            Line { start: Point::new(0, 9), end: Point::new(5, 9) },
            Line { start: Point::new(8, 0), end: Point::new(0, 8) },
        ]
    );
    assert_eq!(Point::parse(b"-3,4"), Some(Point::new(-3, 4)));
    assert!(Line::parse(b"0,9 => 5,9").is_none());
}

#[test]
fn origami_from_text() {
    let input = origami::Input::parse(b"6,10\n0,14\n9,10\n\nfold along y=7\nfold along x=5\n").unwrap();
    assert_eq!(input.paper.len(), 3);
    assert_eq!(
        input.instructions,
        vec![
            origami::Instruction { direction: origami::Direction::Y, position: 7 },
            origami::Instruction { direction: origami::Direction::X, position: 5 },
        ]
    );
    assert!(origami::Input::parse(b"6,10\nfold along y=7\n").is_none());
    assert!(origami::Instruction::parse(b"fold along z=7").is_none());
}

#[test]
fn notes_from_text() {
    let line = b"be cfbegad cbdgef fgaecd cgeb fdcge agebfd fecdb fabcd edb | fdgacbe cefdb cefbgd gcbe";
    let e = segments::Entry::parse(line).unwrap();
    assert_eq!(e.signals.len(), 10);
    assert_eq!(e.outputs[3], b"gcbe".to_vec());
    let notes = segments::Input::parse(line).unwrap();
    assert_eq!(notes.unique_digit_outputs(), 2);
    assert!(segments::Entry::parse(b"ab | cd").is_none());
}

#[test]
fn height_map_from_text() {
    let map = DepthMap::parse(b"2199943210\n3987894921\n9856789892\n8767896789\n9899965678\n").unwrap();
    assert_eq!(map.lowest_points(), vec![1, 0, 5, 5]);
    assert!(DepthMap::parse(b"12\n3x\n").is_none());
}
