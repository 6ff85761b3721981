use aoc_bingo::vents::{count_repeated, Direction, Input, Line, Point};

#[test]
fn lines_are_as_expected() {
    let line = Line {
        start: Point { x: 5, y: 5 },
        end: Point { x: 5, y: 8 },
    };
    let expected = vec![
        Point { x: 5, y: 5 },
        Point { x: 5, y: 6 },
        Point { x: 5, y: 7 },
        Point { x: 5, y: 8 },
    ];

    assert_eq!(line.points(), expected);

    let line = Line {
        start: Point { x: 5, y: 8 },
        end: Point { x: 5, y: 5 },
    };
    let expected = vec![
        Point { x: 5, y: 5 },
        Point { x: 5, y: 6 },
        Point { x: 5, y: 7 },
        Point { x: 5, y: 8 },
    ];

    assert_eq!(line.points(), expected);

    let line = Line {
        start: Point { x: 5, y: 5 },
        end: Point { x: 8, y: 5 },
    };
    let expected = vec![
        Point { x: 5, y: 5 },
        Point { x: 6, y: 5 },
        Point { x: 7, y: 5 },
        Point { x: 8, y: 5 },
    ];

    assert_eq!(line.points(), expected);

    let line = Line {
        start: Point { x: 8, y: 5 },
        end: Point { x: 5, y: 5 },
    };
    let expected = vec![
        Point { x: 5, y: 5 },
        Point { x: 6, y: 5 },
        Point { x: 7, y: 5 },
        Point { x: 8, y: 5 },
    ];

    assert_eq!(line.points(), expected);
}

#[test]
fn diagonal_lines() {
    let line = Line {
        start: Point { x: 8, y: 8 },
        end: Point { x: 5, y: 5 },
    };
    let expected = vec![
        Point { x: 5, y: 5 },
        Point { x: 6, y: 6 },
        Point { x: 7, y: 7 },
        Point { x: 8, y: 8 },
    ];

    assert_eq!(line.points(), expected);

    let line = Line {
        start: Point { x: 5, y: 8 },
        end: Point { x: 8, y: 5 },
    };
    let expected = vec![
        Point { x: 5, y: 8 },
        Point { x: 6, y: 7 },
        Point { x: 7, y: 6 },
        Point { x: 8, y: 5 },
    ];

    assert_eq!(line.points(), expected);
}

#[test]
fn single_point_line() {
    let line = Line { start: Point::new(3, 4), end: Point::new(3, 4) };
    assert_eq!(line.points(), vec![Point::new(3, 4)]);
}

#[test]
fn steep_line_uses_rounded_slope() {
    // dy = 4, dx = 2: slope 2, through (2, 4), so y = 2x.
    let line = Line { start: Point::new(0, 0), end: Point::new(2, 4) };
    assert_eq!(line.points(), vec![Point::new(0, 0), Point::new(1, 2), Point::new(2, 4)]);
}

#[test]
fn directions() {
    assert_eq!(Direction::from(Point::new(1, 2), Point::new(1, 9)), Direction::Vertical);
    assert_eq!(Direction::from(Point::new(1, 2), Point::new(7, 2)), Direction::Horizontal);
    assert_eq!(Direction::from(Point::new(1, 2), Point::new(3, 4)), Direction::Diagonal);
}

fn sample() -> Input {
    let raw = [
        (0, 9, 5, 9),
        (8, 0, 0, 8),
        (9, 4, 3, 4),
        (2, 2, 2, 1),
        (7, 0, 7, 4),
        (6, 4, 2, 0),
        (0, 9, 2, 9),
        (3, 4, 1, 4),
        (0, 0, 8, 8),
        (5, 5, 8, 2),
    ];
    Input {
        lines: raw
            .iter()
            .map(|&(a, b, c, d)| Line { start: Point::new(a, b), end: Point::new(c, d) })
            .collect(),
    }
}

#[test]
fn sample_dangerous_points() {
    let input = sample();
    assert_eq!(input.calculate_dangerous_point_count(), 5);
    assert_eq!(input.calculate_dangerous_point_count_with_diagonals(), 12);
}

#[test]
fn repeated_points_counted_once() {
    let pts = vec![Point::new(1, 1), Point::new(1, 1), Point::new(1, 1), Point::new(2, 2)];
    assert_eq!(count_repeated(&pts), 1);
    assert_eq!(count_repeated(&vec![]), 0);
    assert_eq!(count_repeated(&vec![Point::new(-1, 5), Point::new(5, -1)]), 0);
}
