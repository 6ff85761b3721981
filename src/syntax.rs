//! Lines of brackets: the first closing bracket that does not match, and
//! the brackets that complete a line left open.
use vstd::prelude::*;
use vstd::string::*;

verus! {

pub open spec fn is_opening(c: char) -> bool {
    c == '(' || c == '[' || c == '{' || c == '<'
}

pub open spec fn is_closing(c: char) -> bool {
    c == ')' || c == ']' || c == '}' || c == '>'
}

/// Every character of `s` is a bracket.
pub open spec fn all_brackets(s: Seq<char>) -> bool {
    forall|i: int| 0 <= i < s.len() ==> is_opening(#[trigger] s[i]) || is_closing(s[i])
}

pub open spec fn open_of(c: char) -> char {
    if c == ')' {
        '('
    } else if c == ']' {
        '['
    } else if c == '}' {
        '{'
    } else {
        '<'
    }
}

pub open spec fn close_of(c: char) -> char {
    if c == '(' {
        ')'
    } else if c == '[' {
        ']'
    } else if c == '{' {
        '}'
    } else {
        '>'
    }
}

/// Reading `s` from the left: the brackets still open, innermost last, or
/// the first closing bracket that does not close the innermost open one.
pub open spec fn scan(s: Seq<char>) -> Result<Seq<char>, char>
    decreases s.len(),
{
    if s.len() == 0 {
        Ok(Seq::empty())
    } else {
        match scan(s.drop_last()) {
            Err(c) => Err(c),
            Ok(stack) => {
                let c = s.last();
                if is_opening(c) {
                    Ok(stack.push(c))
                } else if stack.len() > 0 && stack.last() == open_of(c) {
                    Ok(stack.drop_last())
                } else {
                    Err(c)
                }
            },
        }
    }
}

/// The closing brackets for `stack`, innermost first.
pub open spec fn completion(stack: Seq<char>) -> Seq<char>
    decreases stack.len(),
{
    if stack.len() == 0 {
        Seq::empty()
    } else {
        seq![close_of(stack.last())] + completion(stack.drop_last())
    }
}

pub open spec fn error_score(c: char) -> int {
    if c == ')' {
        3
    } else if c == ']' {
        57
    } else if c == '}' {
        1197
    } else {
        25137
    }
}

pub open spec fn completion_char_score(c: char) -> int {
    if c == ')' {
        1
    } else if c == ']' {
        2
    } else if c == '}' {
        3
    } else {
        4
    }
}

/// Each character multiplies what came before by 5 and adds its own score.
pub open spec fn completion_score(s: Seq<char>) -> int
    decreases s.len(),
{
    if s.len() == 0 {
        0
    } else {
        completion_score(s.drop_last()) * 5 + completion_char_score(s.last())
    }
}

pub fn is_opening_char(c: char) -> (r: bool)
    ensures
        r == is_opening(c),
{
    c == '(' || c == '[' || c == '{' || c == '<'
}

/// The opening bracket that `c` closes.
pub fn get_matching_open_char(c: char) -> (r: char)
    requires
        is_closing(c),
    ensures
        r == open_of(c),
{
    if c == ')' {
        '('
    } else if c == ']' {
        '['
    } else if c == '}' {
        '{'
    } else {
        '<'
    }
}

/// The closing bracket for `c`.
pub fn get_matching_closing_char(c: char) -> (r: char)
    requires
        is_opening(c),
    ensures
        r == close_of(c),
{
    if c == '(' {
        ')'
    } else if c == '[' {
        ']'
    } else if c == '{' {
        '}'
    } else {
        '>'
    }
}

/// The stack of open brackets after `input`, or the first closing bracket
/// that does not match.
fn scan_line(input: &str) -> (r: Result<Vec<char>, char>)
    requires
        all_brackets(input@),
    ensures
        match (r, scan(input@)) {
            (Ok(v), Ok(stack)) => v@ == stack,
            (Err(c), Err(d)) => c == d,
            _ => false,
        },
{
    let n = input.unicode_len();
    let mut stack: Vec<char> = Vec::new();
    let mut i: usize = 0;
    while i < n
        invariant
            n == input@.len(),
            all_brackets(input@),
            0 <= i <= n,
            scan(input@.take(i as int)) == Ok::<Seq<char>, char>(stack@),
        decreases n - i,
    {
        let c = input.get_char(i);
        assert(input@.take(i + 1).drop_last() == input@.take(i as int));
        assert(input@.take(i + 1).last() == c);
        if is_opening_char(c) {
            stack.push(c);
        } else {
            let opening_char = get_matching_open_char(c);
            let top = stack.pop();
            match top {
                Some(t) => {
                    if t != opening_char {
                        proof {
                            assert(scan(input@.take(i + 1)) == Err::<Seq<char>, char>(c));
                            lemma_scan_err_stays(input@, i + 1);
                        }
                        return Err(c);
                    }
                },
                None => {
                    proof {
                        lemma_scan_err_stays(input@, i + 1);
                    }
                    return Err(c);
                },
            }
        }
        i += 1;
    }
    assert(input@.take(n as int) == input@);
    Ok(stack)
}

proof fn lemma_scan_err_closing(s: Seq<char>)
    requires
        all_brackets(s),
    ensures
        scan(s) matches Err(c) ==> is_closing(c),
    decreases s.len(),
{
    if s.len() > 0 {
        assert(all_brackets(s.drop_last())) by {
            assert forall|i: int| 0 <= i < s.drop_last().len() implies is_opening(#[trigger] s.drop_last()[i]) || is_closing(s.drop_last()[i]) by {
                assert(s.drop_last()[i] == s[i]);
            }
        }
        lemma_scan_err_closing(s.drop_last());
        assert(is_opening(s[s.len() - 1]) || is_closing(s[s.len() - 1]));
    }
}

proof fn lemma_scan_err_stays(s: Seq<char>, n: int)
    requires
        0 <= n <= s.len(),
        scan(s.take(n)) is Err,
    ensures
        scan(s) == scan(s.take(n)),
    decreases s.len() - n,
{
    if n < s.len() {
        assert(s.take(n + 1).drop_last() == s.take(n));
        lemma_scan_err_stays(s, n + 1);
    } else {
        assert(s.take(n) == s);
    }
}

/// The first closing bracket that does not close the innermost open one,
/// if there is one.
pub fn find_incorrect_closing_character(input: &str) -> (r: Option<char>)
    requires
        all_brackets(input@),
    ensures
        r == match scan(input@) {
            Err(c) => Some(c),
            Ok(_) => None::<char>,
        },
{
    match scan_line(input) {
        Err(c) => Some(c),
        Ok(_) => None,
    }
}

/// Points for the first bracket that does not match.
pub fn character_to_score(c: char) -> (r: u64)
    requires
        is_closing(c),
    ensures
        r == error_score(c),
{
    if c == ')' {
        3
    } else if c == ']' {
        57
    } else if c == '}' {
        1197
    } else {
        25137
    }
}

/// Points for one bracket of a completion.
pub fn autocomplete_character_to_score(c: char) -> (r: u64)
    requires
        is_closing(c),
    ensures
        r == completion_char_score(c),
{
    if c == ')' {
        1
    } else if c == ']' {
        2
    } else if c == '}' {
        3
    } else {
        4
    }
}

proof fn lemma_completion_score_prefix(s: Seq<char>, n: int)
    requires
        0 <= n <= s.len(),
    ensures
        0 <= completion_score(s.take(n)) <= completion_score(s),
    decreases s.len(),
{
    if s.len() == 0 {
        assert(s.take(n) == s);
    } else if n == s.len() {
        assert(s.take(n) == s);
        lemma_completion_score_prefix(s.drop_last(), 0);
    } else {
        assert(s.drop_last().take(n) == s.take(n));
        lemma_completion_score_prefix(s.drop_last(), n);
    }
}

proof fn lemma_scan_stack_opening(s: Seq<char>)
    requires
        scan(s) is Ok,
    ensures
        forall|k: int| 0 <= k < (scan(s)->Ok_0).len() ==> is_opening(#[trigger] (scan(s)->Ok_0)[k]),
    decreases s.len(),
{
    if s.len() > 0 {
        lemma_scan_stack_opening(s.drop_last());
    }
}

/// The score of a completion string.
pub fn compute_autocomplete_score(input: String) -> (r: u64)
    requires
        forall|i: int| 0 <= i < input@.len() ==> is_closing(#[trigger] input@[i]),
        completion_score(input@) <= u64::MAX,
    ensures
        r == completion_score(input@),
{
    let n = input.as_str().unicode_len();
    let mut acc: u64 = 0;
    let mut i: usize = 0;
    while i < n
        invariant
            n == input@.len(),
            forall|k: int| 0 <= k < input@.len() ==> is_closing(#[trigger] input@[k]),
            completion_score(input@) <= u64::MAX,
            0 <= i <= n,
            acc == completion_score(input@.take(i as int)),
        decreases n - i,
    {
        let c = input.as_str().get_char(i);
        assert(input@.take(i + 1).drop_last() == input@.take(i as int));
        proof {
            lemma_completion_score_prefix(input@, i + 1);
        }
        acc = acc * 5 + autocomplete_character_to_score(c);
        i += 1;
    }
    assert(input@.take(n as int) == input@);
    acc
}

/// The closing brackets that complete a line with no mismatch.
pub fn find_completion_string(input: &str) -> (r: String)
    requires
        all_brackets(input@),
        scan(input@) is Ok,
    ensures
        r@ == completion(scan(input@)->Ok_0),
{
    let stack = match scan_line(input) {
        Ok(s) => s,
        Err(_) => {
            assert(false);
            Vec::new()
        },
    };
    let mut r = String::new();
    let mut i: usize = stack.len();
    proof {
        lemma_scan_stack_opening(input@);
        reveal_strlit(")");
        reveal_strlit("]");
        reveal_strlit("}");
        reveal_strlit(">");
        assert(stack@.take(i as int) == stack@);
    }
    while i > 0
        invariant
            0 <= i <= stack@.len(),
            forall|k: int| 0 <= k < stack@.len() ==> is_opening(#[trigger] stack@[k]),
            completion(stack@) == r@ + completion(stack@.take(i as int)),
            ")"@ == seq![')'],
            "]"@ == seq![']'],
            "}"@ == seq!['}'],
            ">"@ == seq!['>'],
        decreases i,
    {
        assert(stack@.take(i as int).drop_last() == stack@.take(i - 1));
        let c = get_matching_closing_char(stack[i - 1]);
        if c == ')' {
            r.append(")");
        } else if c == ']' {
            r.append("]");
        } else if c == '}' {
            r.append("}");
        } else {
            r.append(">");
        }
        i -= 1;
    }
    r
}

/// Points for every corrupted line of `ls`: each scores its first
/// mismatched closing bracket.
pub open spec fn error_total(ls: Seq<Seq<char>>) -> int
    decreases ls.len(),
{
    if ls.len() == 0 {
        0
    } else {
        error_total(ls.drop_last()) + match scan(ls.last()) {
            Err(c) => error_score(c),
            Ok(_) => 0,
        }
    }
}

/// The completion scores of the lines of `ls` that are not corrupted, in
/// order.
pub open spec fn completion_scores(ls: Seq<Seq<char>>) -> Seq<int>
    decreases ls.len(),
{
    if ls.len() == 0 {
        Seq::empty()
    } else {
        completion_scores(ls.drop_last()) + match scan(ls.last()) {
            Ok(stack) => seq![completion_score(completion(stack))],
            Err(_) => Seq::empty(),
        }
    }
}

pub open spec fn str_views(ls: Seq<&str>) -> Seq<Seq<char>> {
    ls.map_values(|l: &str| l@)
}

pub open spec fn sorted_u64(s: Seq<u64>) -> bool {
    forall|a: int, b: int| 0 <= a <= b < s.len() ==> s[a] <= s[b]
}

proof fn lemma_error_total_bound(ls: Seq<Seq<char>>)
    ensures
        0 <= error_total(ls) <= 25137 * ls.len(),
    decreases ls.len(),
{
    if ls.len() > 0 {
        lemma_error_total_bound(ls.drop_last());
    }
}

proof fn lemma_completion_closing(stack: Seq<char>)
    ensures
        forall|i: int| 0 <= i < completion(stack).len() ==> is_closing(#[trigger] completion(stack)[i]),
    decreases stack.len(),
{
    if stack.len() > 0 {
        lemma_completion_closing(stack.drop_last());
        let c = completion(stack);
        assert forall|i: int| 0 <= i < c.len() implies is_closing(#[trigger] c[i]) by {
            if i > 0 {
                assert(c[i] == completion(stack.drop_last())[i - 1]);
            }
        }
    }
}

/// The total of the points for the corrupted lines.
pub fn syntax_error_score(lines: &Vec<&str>) -> (r: u64)
    requires
        forall|i: int| 0 <= i < lines@.len() ==> all_brackets(#[trigger] lines@[i]@),
        lines@.len() * 25137 <= u64::MAX,
    ensures
        r == error_total(str_views(lines@)),
{
    let ghost lv = str_views(lines@);
    let mut total: u64 = 0;
    let mut i: usize = 0;
    while i < lines.len()
        invariant
            lv == str_views(lines@),
            forall|k: int| 0 <= k < lines@.len() ==> all_brackets(#[trigger] lines@[k]@),
            lines@.len() * 25137 <= u64::MAX,
            0 <= i <= lines@.len(),
            total == error_total(lv.take(i as int)),
        decreases lines@.len() - i,
    {
        assert(lv.take(i + 1).drop_last() == lv.take(i as int));
        assert(lv.take(i + 1).last() == lines@[i as int]@);
        proof {
            lemma_error_total_bound(lv.take(i + 1));
        }
        proof {
            lemma_scan_err_closing(lines@[i as int]@);
        }
        match find_incorrect_closing_character(lines[i]) {
            Some(c) => {
                total = total + character_to_score(c);
            },
            None => {},
        }
        i += 1;
    }
    assert(lv.take(i as int) == lv);
    total
}

/// Relies on `slice::sort`: afterwards the elements are in non-decreasing
/// order, and they are the elements that were there before.
#[verifier::external_body]
fn sort_scores(v: &mut Vec<u64>)
    ensures
        sorted_u64(final(v)@),
        final(v)@.to_multiset() == old(v)@.to_multiset(),
{
    v.sort();
}

/// The middle completion score of the lines that are not corrupted, in
/// the order of the scores.
pub fn middle_completion_score(lines: &Vec<&str>) -> (r: u64)
    requires
        forall|i: int| 0 <= i < lines@.len() ==> all_brackets(#[trigger] lines@[i]@),
        forall|i: int| 0 <= i < completion_scores(str_views(lines@)).len() ==> #[trigger] completion_scores(str_views(lines@))[i] <= u64::MAX,
        completion_scores(str_views(lines@)).len() > 0,
    ensures
        exists|u: Seq<u64>, s: Seq<u64>| {
            &&& u.map_values(|v: u64| v as int) == completion_scores(str_views(lines@))
            &&& sorted_u64(s)
            &&& s.to_multiset() == u.to_multiset()
            &&& r == s[(s.len() / 2) as int]
        },
{
    let ghost lv = str_views(lines@);
    let mut scores: Vec<u64> = Vec::new();
    let mut i: usize = 0;
    while i < lines.len()
        invariant
            lv == str_views(lines@),
            forall|k: int| 0 <= k < lines@.len() ==> all_brackets(#[trigger] lines@[k]@),
            forall|k: int| 0 <= k < completion_scores(lv).len() ==> #[trigger] completion_scores(lv)[k] <= u64::MAX,
            0 <= i <= lines@.len(),
            scores@.map_values(|v: u64| v as int) == completion_scores(lv.take(i as int)),
        decreases lines@.len() - i,
    {
        assert(lv.take(i + 1).drop_last() == lv.take(i as int));
        assert(lv.take(i + 1).last() == lines@[i as int]@);
        proof {
            lemma_completion_scores_prefix(lv, i + 1);
        }
        let line = lines[i];
        if find_incorrect_closing_character(line).is_none() {
            let completion_string = find_completion_string(line);
            proof {
                lemma_completion_closing(scan(line@)->Ok_0);
                let k = completion_scores(lv.take(i as int)).len() as int;
                assert(completion_scores(lv.take(i + 1))[k] == completion_score(completion_string@));
                assert(completion_scores(lv)[k] == completion_score(completion_string@));
            }
            let score = compute_autocomplete_score(completion_string);
            scores.push(score);
            assert(scores@.map_values(|v: u64| v as int) == completion_scores(lv.take(i + 1)));
        }
        i += 1;
    }
    assert(lv.take(i as int) == lv);
    let ghost unsorted = scores@;
    sort_scores(&mut scores);
    proof {
        unsorted.to_multiset_ensures();
        scores@.to_multiset_ensures();
        assert(scores@.len() == unsorted.len()) by {
            assert(scores@.to_multiset().len() == unsorted.to_multiset().len());
        }
    }
    scores[scores.len() / 2]
}

proof fn lemma_completion_scores_prefix(ls: Seq<Seq<char>>, n: int)
    requires
        0 <= n <= ls.len(),
    ensures
        completion_scores(ls.take(n)).len() <= completion_scores(ls).len(),
        forall|k: int| 0 <= k < completion_scores(ls.take(n)).len() ==> #[trigger] completion_scores(ls.take(n))[k] == completion_scores(ls)[k],
    decreases ls.len() - n,
{
    if n < ls.len() {
        lemma_completion_scores_prefix(ls, n + 1);
        assert(ls.take(n + 1).drop_last() == ls.take(n));
        let a = completion_scores(ls.take(n));
        let b = completion_scores(ls.take(n + 1));
        assert forall|k: int| 0 <= k < a.len() implies #[trigger] a[k] == completion_scores(ls)[k] by {
            assert(a[k] == b[k]);
        }
    } else {
        assert(ls.take(n) == ls);
    }
}

} // verus!
