use aoc_bingo::bingo::{BingoFile, Grid, GridValue, State};

const ORDER: [u32; 27] = [
    7, 4, 9, 5, 11, 17, 23, 2, 0, 14, 21, 24, 10, 16, 13, 6, 15, 25, 12, 22, 18, 20, 8, 19, 3,
    26, 1,
];

const BOARDS: [[[u32; 5]; 5]; 3] = [
    [
        [22, 13, 17, 11, 0],
        [8, 2, 23, 4, 24],
        [21, 9, 14, 16, 7],
        [6, 10, 3, 18, 5],
        [1, 12, 20, 15, 19],
    ],
    [
        [3, 15, 0, 2, 22],
        [9, 18, 13, 17, 5],
        [19, 8, 7, 25, 23],
        [20, 11, 10, 24, 4],
        [14, 21, 16, 12, 6],
    ],
    [
        [14, 21, 17, 24, 4],
        [10, 16, 15, 9, 19],
        [18, 8, 23, 26, 20],
        [22, 11, 13, 6, 5],
        [2, 0, 12, 3, 7],
    ],
];

fn grid(rows: &[[u32; 5]; 5]) -> Grid {
    Grid::new(rows.iter().map(|r| r.to_vec()).collect()).unwrap()
}

fn sample_game() -> BingoFile {
    BingoFile::new(ORDER.to_vec(), BOARDS.iter().map(grid).collect())
}

#[test]
fn sample_first_and_last_winner() {
    let game = sample_game();
    assert_eq!(game.find_winner(), Some(4512));
    assert_eq!(game.find_loser(), Some(1924));
}

#[test]
fn first_winner_is_deterministic() {
    assert_eq!(sample_game().find_winner(), Some(4512));
    assert_eq!(sample_game().find_winner(), Some(4512));
    let game = sample_game();
    assert_eq!(game.find_winner(), game.find_winner());
}

#[test]
fn single_board_first_equals_last() {
    for b in BOARDS.iter() {
        let game = BingoFile::new(ORDER.to_vec(), vec![grid(b)]);
        let first = game.find_winner();
        assert!(first.is_some());
        assert_eq!(first, game.find_loser());
    }
}

#[test]
fn column_completes_board() {
    let mut g = grid(&BOARDS[0]);
    for v in [13, 2, 9, 10] {
        assert_eq!(g.mark(v), None);
    }
    assert!(!g.is_complete());
    // Column 1 is now full; no row is.
    let total: u32 = BOARDS[0].iter().flatten().sum();
    assert_eq!(g.mark(12), Some(12 * (total - 13 - 2 - 9 - 10 - 12) as u64));
    assert!(g.is_complete());
}

#[test]
fn row_completes_board() {
    let mut g = grid(&BOARDS[1]);
    for v in [9, 18, 13, 17] {
        assert_eq!(g.mark(v), None);
    }
    let total: u32 = BOARDS[1].iter().flatten().sum();
    assert_eq!(g.mark(5), Some(5 * (total - 9 - 18 - 13 - 17 - 5) as u64));
}

#[test]
fn diagonal_does_not_complete() {
    let mut g = grid(&BOARDS[0]);
    for v in [22, 2, 14, 18, 19] {
        assert_eq!(g.mark(v), None);
    }
    assert!(!g.is_complete());
}

#[test]
fn no_winner_is_none() {
    let game = BingoFile::new(vec![99, 98, 22, 13], BOARDS.iter().map(grid).collect());
    assert_eq!(game.find_winner(), None);
    assert_eq!(game.find_loser(), None);
    let empty = BingoFile::new(ORDER.to_vec(), vec![]);
    assert_eq!(empty.find_winner(), None);
    assert_eq!(empty.find_loser(), None);
    let no_draws = BingoFile::new(vec![], BOARDS.iter().map(grid).collect());
    assert_eq!(no_draws.find_winner(), None);
}

#[test]
fn last_winner_needs_every_board() {
    // Board 1 completes on its first row; board 0 never completes.
    let game = BingoFile::new(vec![3, 15, 0, 2, 22], vec![grid(&BOARDS[0]), grid(&BOARDS[1])]);
    let total: u32 = BOARDS[1].iter().flatten().sum();
    assert_eq!(game.find_winner(), Some(22 * (total - 42) as u64));
    assert_eq!(game.find_loser(), None);
}

#[test]
fn last_of_simultaneous_winners_counts() {
    let a = Grid::new(vec![vec![1, 2]]).unwrap();
    let b = Grid::new(vec![vec![1, 3]]).unwrap();
    // Both complete on the draw of 1; b comes later in board order.
    let game = BingoFile::new(vec![1], vec![a, b]);
    assert_eq!(game.find_winner(), Some(2));
    assert_eq!(game.find_loser(), Some(3));
}

#[test]
fn unmarked_sum_shrinks_only_on_match() {
    let mut g = grid(&BOARDS[2]);
    let total: u32 = BOARDS[2].iter().flatten().sum();
    assert_eq!(g.unmarked_sum(), total);
    g.mark(99);
    assert_eq!(g.unmarked_sum(), total);
    g.mark(26);
    assert_eq!(g.unmarked_sum(), total - 26);
    g.mark(26);
    assert_eq!(g.unmarked_sum(), total - 26);
    g.mark(0);
    assert_eq!(g.unmarked_sum(), total - 26);
}

#[test]
fn ill_formed_boards_are_refused() {
    assert!(Grid::new(vec![]).is_none());
    assert!(Grid::new(vec![vec![]]).is_none());
    assert!(Grid::new(vec![vec![1, 2], vec![3]]).is_none());
    assert!(Grid::new(vec![vec![u32::MAX, 1]]).is_none());
    assert!(Grid::new(vec![vec![u32::MAX, 0]]).is_some());
}

#[test]
fn cell_marking() {
    let mut c = GridValue::new(5);
    assert_eq!(c.state, State::Unmarked);
    c.mark(4);
    assert_eq!(c.state, State::Unmarked);
    c.mark(5);
    assert_eq!(c, GridValue { value: 5, state: State::Marked });
}

#[test]
fn marking_after_completion_keeps_board_complete() {
    let mut g = grid(&BOARDS[1]);
    for v in [3, 15, 0, 2] {
        assert_eq!(g.mark(v), None);
    }
    let total: u32 = BOARDS[1].iter().flatten().sum();
    assert_eq!(g.mark(22), Some(22 * (total - 42) as u64));
    // Still complete; the score reflects the draw and the cells left.
    assert_eq!(g.mark(9), Some(9 * (total - 42 - 9) as u64));
    assert_eq!(g.mark(99), Some(99 * (total - 42 - 9) as u64));
}
