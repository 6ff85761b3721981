use aoc_bingo::syntax::{
    autocomplete_character_to_score, character_to_score, compute_autocomplete_score,
    find_completion_string, find_incorrect_closing_character, get_matching_closing_char,
    get_matching_open_char, is_opening_char,
};

#[test]
fn corrupted_lines() {
    assert_eq!(find_incorrect_closing_character("{([(<{}[<>[]}>{[]{[(<()>"), Some('}'));
    assert_eq!(find_incorrect_closing_character("[[<[([]))<([[{}[[()]]]"), Some(')'));
    assert_eq!(find_incorrect_closing_character("<{([([[(<>()){}]>(<<{{"), Some('>'));
    assert_eq!(find_incorrect_closing_character("[({(<(())[]>[[{[]{<()<>>"), None);
    assert_eq!(find_incorrect_closing_character(")"), Some(')'));
    assert_eq!(find_incorrect_closing_character(""), None);
}

#[test]
fn completions() {
    let c = find_completion_string("[({(<(())[]>[[{[]{<()<>>");
    assert_eq!(c, "}}]])})]");
    assert_eq!(compute_autocomplete_score(c), 288957);
    assert_eq!(compute_autocomplete_score(String::from("])}>")), 294);
    assert_eq!(find_completion_string("()"), "");
}

#[test]
fn bracket_tables() {
    assert!(is_opening_char('<'));
    assert!(!is_opening_char('>'));
    assert_eq!(get_matching_open_char(']'), '[');
    assert_eq!(get_matching_closing_char('{'), '}');
    assert_eq!(character_to_score('>'), 25137);
    assert_eq!(autocomplete_character_to_score('}'), 3);
}

const NAV: [&str; 10] = [
    "[({(<(())[]>[[{[]{<()<>>",
    "[(()[<>])]({[<{<<[]>>(",
    "{([(<{}[<>[]}>{[]{[(<()>",
    "(((({<>}<{<{<>}{[]{[]{}",
    "[[<[([]))<([[{}[[()]]]",
    "[{[{({}]{}}([{[{{{}}([]",
    "{<[[]]>}<{[{[{[]{()[[[]",
    "[<(<(<(<{}))><([]([]()",
    "<{([([[(<>()){}]>(<<{{",
    "<{([{{}}[<[[[<>{}]]]>[]]",
];

#[test]
fn navigation_sample_totals() {
    let lines = NAV.to_vec();
    assert_eq!(aoc_bingo::syntax::syntax_error_score(&lines), 26397);
    assert_eq!(aoc_bingo::syntax::middle_completion_score(&lines), 288957);
}
