use aoc_bingo::origami::{Direction, Dot, Input, Instruction, Paper};

fn sample() -> Input {
    let dots = [
        (6, 10), (0, 14), (9, 10), (0, 3), (10, 4), (4, 11), (6, 0), (6, 12), (4, 1), (0, 13),
        (10, 12), (3, 4), (3, 0), (8, 4), (1, 10), (2, 14), (8, 10), (9, 0),
    ];
    Input {
        paper: Paper::new(dots.iter().map(|&(x, y)| Dot { x, y }).collect()),
        instructions: vec![
            Instruction { direction: Direction::Y, position: 7 },
            Instruction { direction: Direction::X, position: 5 },
        ],
    }
}

#[test]
fn origami_sample() {
    let input = sample();
    assert_eq!(input.paper.len(), 18);
    assert_eq!(input.fold_first().len(), 17);
    let all = input.fold_all();
    assert_eq!(all.len(), 16);
    assert!(all.contains(Dot { x: 0, y: 0 }));
    assert!(!all.contains(Dot { x: 2, y: 2 }));
}

#[test]
fn fold_moves_only_dots_past_the_line() {
    let f = Instruction { direction: Direction::X, position: 5 };
    assert_eq!(f.apply(Dot { x: 3, y: 9 }), Dot { x: 3, y: 9 });
    assert_eq!(f.apply(Dot { x: 8, y: 9 }), Dot { x: 2, y: 9 });
    assert_eq!(f.apply(Dot { x: 5, y: 1 }), Dot { x: 5, y: 1 });
    let p = Paper::new(vec![Dot { x: 1, y: 1 }, Dot { x: 1, y: 1 }]);
    assert_eq!(p.len(), 1);
}

#[test]
fn folded_picture() {
    let all = sample().fold_all();
    assert_eq!(
        all.render(),
        "# # # # # \n# . . . # \n# . . . # \n# . . . # \n# # # # # \n"
    );
    let empty = Paper::new(vec![]);
    assert_eq!(empty.render(), ". \n");
}
