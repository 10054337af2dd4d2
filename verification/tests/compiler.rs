use regex_vm::compiler::Char::{CharClass, Literal};
use regex_vm::compiler::Instruction::{
    Branch, Finish, GroupParenL, GroupParenR, Jump, MatchChar, MatchPos,
};
use regex_vm::compiler::Position::{Back, Front};
use regex_vm::compiler::{can_compile, compile, loops_advance, takes_characters, Char};
use regex_vm::parser::RegExp;

#[test]
fn test_compile() {
    // pat: `ab`
    assert_eq!(
        compile(RegExp::Branch(vec![RegExp::Connect(vec![
            RegExp::Literal('a'),
            RegExp::Literal('b')
        ])])),
        Ok(vec![
            MatchChar(Literal('a')),
            MatchChar(Literal('b')),
            Finish
        ])
    );

    // pat: `a?`
    assert_eq!(
        compile(RegExp::Branch(vec![RegExp::Connect(vec![RegExp::Maybe(
            Box::new(RegExp::Literal('a'))
        ),])])),
        Ok(vec![Branch(1, 2), MatchChar(Literal('a')), Finish])
    );

    // pat: `a*`
    assert_eq!(
        compile(RegExp::Branch(vec![RegExp::Connect(vec![
            RegExp::RepeatStar(Box::new(RegExp::Literal('a'))),
        ])])),
        Ok(vec![Branch(1, 3), MatchChar(Literal('a')), Jump(0), Finish])
    );

    // pat: `a|b*`
    assert_eq!(
        compile(RegExp::Branch(vec![
            RegExp::Connect(vec![RegExp::Literal('a'),]),
            RegExp::Connect(vec![RegExp::RepeatStar(Box::new(RegExp::Literal('b'))),])
        ])),
        Ok(vec![
            Branch(1, 3),
            MatchChar(Literal('a')),
            Jump(6),
            Branch(4, 6),
            MatchChar(Literal('b')),
            Jump(3),
            Finish
        ])
    );
}

#[test]
fn compile_plus_branches_back_into_the_body() {
    assert_eq!(
        compile(RegExp::RepeatPlus(Box::new(RegExp::Connect(vec![
            RegExp::Literal('a'),
            RegExp::Literal('b'),
        ])))),
        Ok(vec![
            MatchChar(Literal('a')),
            MatchChar(Literal('b')),
            Branch(0, 3),
            Finish
        ])
    );
}

#[test]
fn compile_group_and_anchors() {
    assert_eq!(
        compile(RegExp::PrefixSuffix(
            true,
            Box::new(RegExp::Group(Box::new(RegExp::AnyChar))),
            true
        )),
        Ok(vec![
            MatchPos(Front),
            GroupParenL,
            MatchChar(Char::Any),
            GroupParenR,
            MatchPos(Back),
            Finish
        ])
    );
    assert_eq!(
        compile(RegExp::PrefixSuffix(
            false,
            Box::new(RegExp::CharClass(true, vec!['x', 'y'])),
            false
        )),
        Ok(vec![MatchChar(CharClass(true, vec!['x', 'y'])), Finish])
    );
}

#[test]
fn compile_three_alternatives_nest_to_the_left() {
    assert_eq!(
        compile(RegExp::Branch(vec![
            RegExp::Literal('a'),
            RegExp::Literal('b'),
            RegExp::Literal('c'),
        ])),
        Ok(vec![
            Branch(1, 6),
            Branch(2, 4),
            MatchChar(Literal('a')),
            Jump(5),
            MatchChar(Literal('b')),
            Jump(7),
            MatchChar(Literal('c')),
            Finish
        ])
    );
}

#[test]
fn compile_range_expands_to_copies() {
    // `a{1,3}`: one copy that must match, two that may
    assert_eq!(
        compile(RegExp::RepeatRange(Box::new(RegExp::Literal('a')), 1, 3)),
        Ok(vec![
            MatchChar(Literal('a')),
            Branch(2, 3),
            MatchChar(Literal('a')),
            Branch(4, 5),
            MatchChar(Literal('a')),
            Finish
        ])
    );
    // `a{2,2}`: two copies, none optional
    assert_eq!(
        compile(RegExp::RepeatRange(Box::new(RegExp::Literal('a')), 2, 2)),
        Ok(vec![MatchChar(Literal('a')), MatchChar(Literal('a')), Finish])
    );
}

#[test]
fn can_compile_tells_what_compile_takes() {
    assert!(can_compile(&RegExp::Literal('a')));
    assert!(can_compile(&RegExp::RepeatRange(
        Box::new(RegExp::Literal('a')),
        0,
        1
    )));
    // a node without children
    assert!(!can_compile(&RegExp::Branch(vec![])));
    assert!(!can_compile(&RegExp::Connect(vec![])));
    assert!(!can_compile(&RegExp::Group(Box::new(RegExp::Branch(vec![
        RegExp::Literal('a'),
        RegExp::Connect(vec![]),
    ])))));
    // bounds that leave no copy, or fewer copies than must match
    assert!(!can_compile(&RegExp::RepeatRange(
        Box::new(RegExp::Literal('a')),
        0,
        0
    )));
    assert!(!can_compile(&RegExp::RepeatRange(
        Box::new(RegExp::Literal('a')),
        3,
        1
    )));
    // more code than an index can address
    assert!(!can_compile(&RegExp::RepeatRange(
        Box::new(RegExp::Literal('a')),
        1,
        usize::MAX
    )));
    assert!(!can_compile(&RegExp::RepeatRange(
        Box::new(RegExp::Connect(vec![
            RegExp::Literal('a'),
            RegExp::Literal('b'),
            RegExp::Literal('c'),
        ])),
        usize::MAX / 2,
        usize::MAX / 2
    )));
}

#[test]
fn every_target_is_an_index_of_the_program() {
    let ast = regex_vm::parser::parse("^(a|b)*c+(d?e){2,4}$").unwrap();
    let ins = compile(ast).unwrap();
    let n = ins.len() as isize;
    assert_eq!(ins.last(), Some(&Finish));
    for instruction in ins.iter() {
        match instruction {
            Jump(t) => assert!(0 <= *t && *t < n),
            Branch(x, y) => assert!(0 <= *x && *x < n && 0 <= *y && *y < n),
            _ => {}
        }
    }
}

#[test]
fn loops_advance_where_their_bodies_take_characters() {
    let ast = |pat: &str| regex_vm::parser::parse(pat).unwrap();
    assert!(loops_advance(&ast("a*b+[cd]{0,3}")));
    assert!(loops_advance(&ast("(ab|c)+")));
    assert!(loops_advance(&ast("(a?b)*")));
    assert!(loops_advance(&ast("^a?b+[cde]{1,3}|hoge(.+)$")));
    assert!(!loops_advance(&ast("(a*)*")));
    assert!(!loops_advance(&ast("(a?)+")));
    assert!(!loops_advance(&ast("(a|b?)*")));
    assert!(!loops_advance(&ast("(a{0,2})+")));
    assert!(loops_advance(&ast("(a{1,2})+")));
    assert!(takes_characters(&ast("a?b")));
    assert!(!takes_characters(&ast("a?b*")));
    assert!(!takes_characters(&ast("a|b?")));
}
