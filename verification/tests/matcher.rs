use regex_vm::compiler::{compile, Char, Instruction};
use regex_vm::matcher::{find, search, search_bounded, OutOfSteps};
use regex_vm::parser::parse;

fn search_for(pat: &str, text: &str) -> Option<Vec<(usize, usize)>> {
    let ins = compile(parse(pat).unwrap()).unwrap();
    search(&ins, text.to_string())
}

#[test]
fn literal_pattern_matches_itself() {
    assert_eq!(search_for("hello", "hello"), Some(vec![(0, 5)]));
    assert_eq!(search_for("x", "x"), Some(vec![(0, 1)]));
    assert_eq!(search_for("a]b,c}", "a]b,c}"), Some(vec![(0, 6)]));
}

#[test]
fn leftmost_offset_wins() {
    assert_eq!(search_for("ab", "xxabyab"), Some(vec![(2, 4)]));
    assert_eq!(search_for("ab", "ba"), None);
}

#[test]
fn empty_text_has_no_offset_to_try() {
    assert_eq!(search_for("a*", ""), None);
    assert_eq!(search_for("^$", ""), None);
}

#[test]
fn anchors_hold_the_match_to_the_whole_text() {
    assert_eq!(search_for("^ab$", "ab"), Some(vec![(0, 2)]));
    assert_eq!(search_for("^ab$", "abc"), None);
    assert_eq!(search_for("^ab$", "cab"), None);
    assert_eq!(search_for("ab$", "cab"), Some(vec![(1, 3)]));
    assert_eq!(search_for("^ab", "abc"), Some(vec![(0, 2)]));
}

#[test]
fn first_alternative_wins() {
    assert_eq!(search_for("a|ab", "ab"), Some(vec![(0, 1)]));
    assert_eq!(search_for("ab|a", "ab"), Some(vec![(0, 2)]));
    assert_eq!(search_for("(a)|(ab)", "ab"), Some(vec![(0, 1), (0, 1)]));
}

#[test]
fn star_is_greedy() {
    assert_eq!(search_for("a*", "aaab"), Some(vec![(0, 3)]));
    assert_eq!(search_for("(a*)", "aaab"), Some(vec![(0, 3), (0, 3)]));
    assert_eq!(search_for("a*a", "aaab"), Some(vec![(0, 3)]));
    assert_eq!(search_for("a+", "baaa"), Some(vec![(1, 4)]));
    assert_eq!(search_for("a?a", "a"), Some(vec![(0, 1)]));
}

#[test]
fn groups_come_in_closing_order() {
    assert_eq!(search_for("(a)(b)", "ab"), Some(vec![(0, 2), (0, 1), (1, 2)]));
    assert_eq!(search_for("((a)b)", "ab"), Some(vec![(0, 2), (0, 1), (0, 2)]));
}

#[test]
fn classes() {
    assert_eq!(search_for("[abc]+", "xxbcay"), Some(vec![(2, 5)]));
    assert_eq!(search_for("[^abc]+", "abxyc"), Some(vec![(2, 4)]));
    assert_eq!(search_for(".", "z"), Some(vec![(0, 1)]));
}

#[test]
fn ranges() {
    assert_eq!(search_for("a{2,3}", "aaaa"), Some(vec![(0, 3)]));
    assert_eq!(search_for("a{2,3}", "a"), None);
    assert_eq!(search_for("^a{1,2}$", "aaa"), None);
}

#[test]
fn end_to_end() {
    let pat = "^a?b+[cde]{1,3}|hoge(.+)$";
    assert_eq!(search_for(pat, "abc"), Some(vec![(0, 3)]));
    assert_eq!(search_for(pat, "ac"), None);
    assert_eq!(search_for(pat, "xyz"), None);
    assert_eq!(search_for(pat, "hogeXXXX"), Some(vec![(0, 8), (4, 8)]));
}

#[test]
fn closed_groups_of_an_abandoned_path_stay() {
    // the first alternative closes its group before it fails on `b`
    assert_eq!(search_for("(a)b|ac", "ac"), Some(vec![(0, 2), (0, 1)]));
}

#[test]
fn closing_a_group_that_is_not_open_ends_the_attempt() {
    // after `(a` has closed and `c` has failed, the second alternative finds
    // no open group left to close
    assert_eq!(search_for("(a|ab)c", "abc"), None);
    assert_eq!(search_for("(a*)a", "aaab"), None);
    let ins = vec![Instruction::GroupParenR, Instruction::Finish];
    assert_eq!(search(&ins, "a".to_string()), None);
}

#[test]
fn target_outside_the_program_ends_the_attempt() {
    let ins = vec![Instruction::Jump(7), Instruction::Finish];
    assert_eq!(search(&ins, "a".to_string()), None);
    let ins = vec![Instruction::Jump(-1), Instruction::Finish];
    assert_eq!(search(&ins, "a".to_string()), None);
    let ins = vec![
        Instruction::Branch(2, -3),
        Instruction::Finish,
        Instruction::MatchChar(Char::Literal('x')),
    ];
    assert_eq!(search(&ins, "a".to_string()), None);
    let ins: Vec<Instruction> = vec![];
    assert_eq!(search(&ins, "a".to_string()), None);
}

#[test]
fn multibyte_text_counts_characters() {
    assert_eq!(search_for("é+", "caféé!"), Some(vec![(3, 5)]));
}

#[test]
fn bounded_search_agrees_with_search() {
    let ins = compile(parse("a+b").unwrap()).unwrap();
    assert_eq!(
        search_bounded(&ins, "xaab".to_string(), 100),
        Ok(Some(vec![(1, 4)]))
    );
    assert_eq!(search_bounded(&ins, "xaa".to_string(), 100), Ok(None));
    assert_eq!(search_bounded(&ins, "".to_string(), 0), Ok(None));
}

#[test]
fn bounded_search_gives_up_at_the_limit() {
    // `abc` on "abc" takes three tests and the `Finish`
    let ins = compile(parse("abc").unwrap()).unwrap();
    assert_eq!(
        search_bounded(&ins, "abc".to_string(), 4),
        Ok(Some(vec![(0, 3)]))
    );
    assert_eq!(
        search_bounded(&ins, "abc".to_string(), 3),
        Err(OutOfSteps { from: 0 })
    );
    // the attempt from offset 0 fails at once, the one from offset 1 needs four steps
    assert_eq!(
        search_bounded(&ins, "xabc".to_string(), 3),
        Err(OutOfSteps { from: 1 })
    );
}

#[test]
fn bounded_search_ends_where_an_attempt_does_not() {
    // the body of the outer star matches without taking a character
    let ins = compile(parse("(a*)*b").unwrap()).unwrap();
    assert_eq!(
        search_bounded(&ins, "c".to_string(), 10_000),
        Err(OutOfSteps { from: 0 })
    );
    let ins = vec![Instruction::Jump(0)];
    assert_eq!(
        search_bounded(&ins, "c".to_string(), 10_000),
        Err(OutOfSteps { from: 0 })
    );
}

#[test]
fn find_searches_where_the_search_is_sure_to_end() {
    assert_eq!(
        find(parse("^(a(bra)?(cad)?)+$").unwrap(), "abracadabra".to_string()),
        Some(Some(vec![(0, 11), (1, 4), (4, 7), (0, 7), (8, 11), (7, 11)]))
    );
    assert_eq!(
        find(parse("a+b").unwrap(), "xaab".to_string()),
        Some(Some(vec![(1, 4)]))
    );
    assert_eq!(find(parse("a+b").unwrap(), "xaa".to_string()), Some(None));
    // a loop whose body need not take a character
    assert_eq!(find(parse("(a*)*b").unwrap(), "c".to_string()), None);
    assert_eq!(find(parse("(a?)+").unwrap(), "c".to_string()), None);
    // bounds that cannot be compiled
    assert_eq!(find(parse("a{3,1}").unwrap(), "aaa".to_string()), None);
}
