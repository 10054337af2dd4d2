use regex_vm::parser::parse;
use regex_vm::parser::RegExp;
use regex_vm::parser::RegExp::{
    AnyChar, Branch, CharClass, Connect, Group, Literal, Maybe, PrefixSuffix, RepeatPlus,
    RepeatRange, RepeatStar,
};

/// The root that the parser puts around a branch without `^` and `$`.
fn plain(body: RegExp) -> RegExp {
    PrefixSuffix(false, Box::new(body), false)
}

#[test]
fn test_parse() {
    assert_eq!(
        parse(r#"a\)"#).unwrap(),
        plain(Branch(vec![Connect(vec![Literal('a'), Literal(')')]),]))
    )
}

#[test]
fn test_parse_branch() {
    assert_eq!(
        parse("a|b").unwrap(),
        plain(Branch(vec![
            Connect(vec![Literal('a')]),
            Connect(vec![Literal('b')]),
        ]))
    );
    assert_eq!(
        parse("a|b|c").unwrap(),
        plain(Branch(vec![
            Connect(vec![Literal('a')]),
            Connect(vec![Literal('b')]),
            Connect(vec![Literal('c')]),
        ]))
    );
    assert_eq!(
        parse("ab|cd").unwrap(),
        plain(Branch(vec![
            Connect(vec![Literal('a'), Literal('b')]),
            Connect(vec![Literal('c'), Literal('d')]),
        ]))
    );
}

#[test]
fn test_parse_connect() {
    assert_eq!(
        parse("ab").unwrap(),
        plain(Branch(vec![Connect(vec![Literal('a'), Literal('b'),])]))
    );
    assert_eq!(
        parse("abcd").unwrap(),
        plain(Branch(vec![Connect(vec![
            Literal('a'),
            Literal('b'),
            Literal('c'),
            Literal('d'),
        ])]))
    );
}

#[test]
fn test_parse_repeat() {
    assert_eq!(
        parse("a*b*").unwrap(),
        plain(Branch(vec![Connect(vec![
            RepeatStar(Box::new(Literal('a'))),
            RepeatStar(Box::new(Literal('b'))),
        ])]))
    );
    assert_eq!(
        parse("ab+").unwrap(),
        plain(Branch(vec![Connect(vec![
            Literal('a'),
            RepeatPlus(Box::new(Literal('b'))),
        ])]))
    );
    assert_eq!(
        parse("a?").unwrap(),
        plain(Branch(vec![Connect(vec![Maybe(Box::new(Literal('a'))),])]))
    );
    assert_eq!(
        parse(".*").unwrap(),
        plain(Branch(vec![Connect(vec![RepeatStar(Box::new(AnyChar)),])]))
    );
}

#[test]
fn test_parse_group() {
    assert_eq!(
        parse("(ab)").unwrap(),
        plain(Branch(vec![Connect(vec![Group(Box::new(Branch(vec![
            Connect(vec![Literal('a'), Literal('b'),])
        ])))])]))
    );
    assert_eq!(
        parse("(ab)(cd)").unwrap(),
        plain(Branch(vec![Connect(vec![
            Group(Box::new(Branch(vec![Connect(vec![
                Literal('a'),
                Literal('b'),
            ])]))),
            Group(Box::new(Branch(vec![Connect(vec![
                Literal('c'),
                Literal('d'),
            ])])))
        ])]))
    );
    assert_eq!(
        parse("(ab)+(cd)").unwrap(),
        plain(Branch(vec![Connect(vec![
            RepeatPlus(Box::new(Group(Box::new(Branch(vec![Connect(vec![
                Literal('a'),
                Literal('b'),
            ])]))))),
            Group(Box::new(Branch(vec![Connect(vec![
                Literal('c'),
                Literal('d'),
            ])])))
        ])]))
    );
    assert_eq!(
        parse("(ab)?").unwrap(),
        plain(Branch(vec![Connect(vec![Maybe(Box::new(Group(Box::new(
            Branch(vec![Connect(vec![Literal('a'), Literal('b'),])])
        ))))])]))
    );
}

#[test]
fn test_parse_charclass() {
    assert_eq!(
        parse("[abcd]").unwrap(),
        plain(Branch(vec![Connect(vec![CharClass(
            false,
            vec!['a', 'b', 'c', 'd']
        )])]))
    );
    assert_eq!(
        parse("[^abcd]").unwrap(),
        plain(Branch(vec![Connect(vec![CharClass(
            true,
            vec!['a', 'b', 'c', 'd']
        )])]))
    );
    assert_eq!(
        parse("[^^]").unwrap(),
        plain(Branch(vec![Connect(vec![CharClass(true, vec!['^'])])]))
    );
    assert_eq!(
        parse(r#"[^\]\)]"#).unwrap(),
        plain(Branch(vec![Connect(vec![CharClass(true, vec![']', ')'])])]))
    );
    assert_eq!(
        parse(r#"[^|]"#).unwrap(),
        plain(Branch(vec![Connect(vec![CharClass(true, vec!['|'])])]))
    );
    assert_eq!(
        parse(r#"[^\\]"#).unwrap(),
        plain(Branch(vec![Connect(vec![CharClass(true, vec!['\\'])])]))
    );
    assert_eq!(
        parse("["),
        Err("Syntax Error: unclosed char-class, `]` not found".to_string())
    )
}

#[test]
fn parse_anchors() {
    assert_eq!(
        parse("^a$").unwrap(),
        PrefixSuffix(
            true,
            Box::new(Branch(vec![Connect(vec![Literal('a')])])),
            true
        )
    );
    assert_eq!(
        parse("^a").unwrap(),
        PrefixSuffix(
            true,
            Box::new(Branch(vec![Connect(vec![Literal('a')])])),
            false
        )
    );
    // `^` is a literal anywhere but at the start
    assert_eq!(
        parse("a^").unwrap(),
        plain(Branch(vec![Connect(vec![Literal('a'), Literal('^')])]))
    );
}

#[test]
fn parse_range() {
    assert_eq!(
        parse("a{1,3}").unwrap(),
        plain(Branch(vec![Connect(vec![RepeatRange(
            Box::new(Literal('a')),
            1,
            3
        )])]))
    );
    assert_eq!(
        parse("[cde]{12,345}").unwrap(),
        plain(Branch(vec![Connect(vec![RepeatRange(
            Box::new(CharClass(false, vec!['c', 'd', 'e'])),
            12,
            345
        )])]))
    );
}

#[test]
fn parse_range_without_digits_is_zero() {
    assert_eq!(
        parse("a{,}").unwrap(),
        plain(Branch(vec![Connect(vec![RepeatRange(
            Box::new(Literal('a')),
            0,
            0
        )])]))
    );
    assert_eq!(
        parse("a{,7}").unwrap(),
        plain(Branch(vec![Connect(vec![RepeatRange(
            Box::new(Literal('a')),
            0,
            7
        )])]))
    );
    // the bounds are not compared with each other
    assert_eq!(
        parse("a{3,1}").unwrap(),
        plain(Branch(vec![Connect(vec![RepeatRange(
            Box::new(Literal('a')),
            3,
            1
        )])]))
    );
}

#[test]
fn parse_range_bound_wraps_at_64_bits() {
    // 18446744073709551617 is 2^64 + 1
    assert_eq!(
        parse("a{18446744073709551617,2}").unwrap(),
        plain(Branch(vec![Connect(vec![RepeatRange(
            Box::new(Literal('a')),
            1,
            2
        )])]))
    );
}

#[test]
fn parse_escape_takes_any_character() {
    assert_eq!(
        parse(r#"\a\*\\"#).unwrap(),
        plain(Branch(vec![Connect(vec![
            Literal('a'),
            Literal('*'),
            Literal('\\')
        ])]))
    );
}

#[test]
fn parse_stops_reading_behind_the_branch() {
    // a `)` that closes nothing ends the branch, and the rest is not read
    assert_eq!(
        parse("a)b").unwrap(),
        plain(Branch(vec![Connect(vec![Literal('a')])]))
    );
    assert_eq!(
        parse("a$b").unwrap(),
        PrefixSuffix(
            false,
            Box::new(Branch(vec![Connect(vec![Literal('a')])])),
            true
        )
    );
}

#[test]
fn parse_errors() {
    assert_eq!(
        parse(""),
        Err("Syntax Error: expect a character but found End-Of-String".to_string())
    );
    assert_eq!(
        parse("a|"),
        Err("Syntax Error: expect a character but found End-Of-String".to_string())
    );
    assert_eq!(
        parse("(a"),
        Err("Syntax Error: expect `)` but found End-Of-String".to_string())
    );
    assert_eq!(
        parse("(a$"),
        Err("Syntax Error: expect `)` but found `$`".to_string())
    );
    assert_eq!(
        parse("a{1"),
        Err("Syntax Error: expect `,` but found End-Of-String".to_string())
    );
    assert_eq!(
        parse("a{1;2}"),
        Err("Syntax Error: expect `,` but found `;`".to_string())
    );
    assert_eq!(
        parse("a{1,2"),
        Err("Syntax Error: expect `}` but found End-Of-String".to_string())
    );
    assert_eq!(
        parse("a{1,2x"),
        Err("Syntax Error: expect `}` but found `x`".to_string())
    );
    assert_eq!(
        parse("a\\"),
        Err("Syntax Error: expect char but found End-Of-String".to_string())
    );
    assert_eq!(
        parse("[ab"),
        Err("Syntax Error: unclosed char-class, `]` not found".to_string())
    );
    assert_eq!(
        parse("[a\\"),
        Err("Syntax Error: expect char but found End-Of-String".to_string())
    );
}

#[test]
fn clone_copies_the_tree() {
    let ast = parse("^(a|[bc]+)d{2,3}.?$").unwrap();
    assert_eq!(ast.clone(), ast);
}
