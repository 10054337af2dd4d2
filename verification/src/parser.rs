//! The tree of a pattern, and the parser from pattern text to trees.

use crate::fragment::has_children;
use crate::syntax;
use crate::syntax::Parsed;
use crate::text::chars_of;
use vstd::prelude::*;

verus! {

/// A parsed pattern.
#[derive(Debug, PartialEq)]
pub enum RegExp {
    /// The root: whether the pattern starts with `^`, its body, whether it
    /// ends with `$`.
    PrefixSuffix(bool, Box<RegExp>, bool),
    /// Alternatives, tried from left to right; at least one.
    Branch(Vec<RegExp>),
    /// Factors that follow one another; at least one.
    Connect(Vec<RegExp>),
    /// Any number of copies of the body, as many as possible first.
    RepeatStar(Box<RegExp>),
    /// One copy of the body or more, as many as possible first.
    RepeatPlus(Box<RegExp>),
    /// A body, the number of copies that must match, and the greatest
    /// number of copies that may.
    RepeatRange(Box<RegExp>, usize, usize),
    /// The body or nothing, the body first.
    Maybe(Box<RegExp>),
    /// A body whose span is part of the result.
    Group(Box<RegExp>),
    /// Any one character.
    AnyChar,
    /// Whether the class is negated, and its members.
    CharClass(bool, Vec<char>),
    /// This one character.
    Literal(char),
}

/// The tree that a [`RegExp`] stands for, with sequences in place of vectors.
pub enum Pattern {
    PrefixSuffix(bool, Box<Pattern>, bool),
    Branch(Seq<Pattern>),
    Connect(Seq<Pattern>),
    RepeatStar(Box<Pattern>),
    RepeatPlus(Box<Pattern>),
    RepeatRange(Box<Pattern>, nat, nat),
    Maybe(Box<Pattern>),
    Group(Box<Pattern>),
    AnyChar,
    CharClass(bool, Seq<char>),
    Literal(char),
}

impl View for RegExp {
    type V = Pattern;

    open spec fn view(&self) -> Pattern {
        pattern_of(*self)
    }
}

impl Clone for RegExp {
    fn clone(&self) -> (r: Self)
        ensures
            r@ == self@,
    {
        copy_of(self)
    }
}

/// A copy of `e`, node by node.
fn copy_of(e: &RegExp) -> (r: RegExp)
    ensures
        r@ == e@,
    decreases e,
{
    match e {
        RegExp::PrefixSuffix(pre, body, suf) => RegExp::PrefixSuffix(
            *pre,
            Box::new(copy_of(body)),
            *suf,
        ),
        RegExp::Branch(v) => {
            let copies = copies_of(v);
            proof {
                lemma_children(*v);
                lemma_children(copies);
            }
            RegExp::Branch(copies)
        },
        RegExp::Connect(v) => {
            let copies = copies_of(v);
            proof {
                lemma_children(*v);
                lemma_children(copies);
            }
            RegExp::Connect(copies)
        },
        RegExp::RepeatStar(r) => RegExp::RepeatStar(Box::new(copy_of(r))),
        RegExp::RepeatPlus(r) => RegExp::RepeatPlus(Box::new(copy_of(r))),
        RegExp::RepeatRange(r, l, h) => RegExp::RepeatRange(Box::new(copy_of(r)), *l, *h),
        RegExp::Maybe(r) => RegExp::Maybe(Box::new(copy_of(r))),
        RegExp::Group(r) => RegExp::Group(Box::new(copy_of(r))),
        RegExp::AnyChar => RegExp::AnyChar,
        RegExp::CharClass(f, cs) => {
            let mut members: Vec<char> = Vec::new();
            let mut i: usize = 0;
            while i < cs.len()
                invariant
                    i <= cs.len(),
                    members@ == cs@.take(i as int),
                decreases cs.len() - i,
            {
                members.push(cs[i]);
                assert(cs@.take(i + 1) == cs@.take(i as int).push(cs@[i as int]));
                i += 1;
            }
            assert(cs@.take(cs.len() as int) == cs@);
            RegExp::CharClass(*f, members)
        },
        RegExp::Literal(c) => RegExp::Literal(*c),
    }
}

/// A copy of each node of `v`.
fn copies_of(v: &Vec<RegExp>) -> (r: Vec<RegExp>)
    ensures
        patterns_of(r@) == patterns_of(v@),
    decreases v,
{
    let mut copies: Vec<RegExp> = Vec::new();
    let mut i: usize = 0;
    while i < v.len()
        invariant
            i <= v.len(),
            patterns_of(copies@) == patterns_of(v@).take(i as int),
        decreases v.len() - i,
    {
        let copy = copy_of(&v[i]);
        assert(patterns_of(copies@.push(copy)) =~= patterns_of(copies@).push(copy@));
        assert(patterns_of(v@).take(i + 1) =~= patterns_of(v@).take(i as int).push(v@[i as int]@));
        copies.push(copy);
        i += 1;
    }
    assert(patterns_of(v@).take(v.len() as int) == patterns_of(v@));
    copies
}

/// The patterns of a sequence of nodes, element by element.
pub open spec fn patterns_of(v: Seq<RegExp>) -> Seq<Pattern> {
    Seq::new(v.len(), |i: int| pattern_of(v[i]))
}

/// The tree of `e`, node by node.
pub open spec fn pattern_of(e: RegExp) -> Pattern
    decreases e,
{
    match e {
        RegExp::PrefixSuffix(pre, body, suf) => Pattern::PrefixSuffix(
            pre,
            Box::new(pattern_of(*body)),
            suf,
        ),
        RegExp::Branch(v) => Pattern::Branch(
            Seq::new(
                v.len() as nat,
                |i: int|
                    if 0 <= i < v.len() {
                        pattern_of(v[i])
                    } else {
                        arbitrary()
                    },
            ),
        ),
        RegExp::Connect(v) => Pattern::Connect(
            Seq::new(
                v.len() as nat,
                |i: int|
                    if 0 <= i < v.len() {
                        pattern_of(v[i])
                    } else {
                        arbitrary()
                    },
            ),
        ),
        RegExp::RepeatStar(r) => Pattern::RepeatStar(Box::new(pattern_of(*r))),
        RegExp::RepeatPlus(r) => Pattern::RepeatPlus(Box::new(pattern_of(*r))),
        RegExp::RepeatRange(r, l, h) => Pattern::RepeatRange(
            Box::new(pattern_of(*r)),
            l as nat,
            h as nat,
        ),
        RegExp::Maybe(r) => Pattern::Maybe(Box::new(pattern_of(*r))),
        RegExp::Group(r) => Pattern::Group(Box::new(pattern_of(*r))),
        RegExp::AnyChar => Pattern::AnyChar,
        RegExp::CharClass(f, cs) => Pattern::CharClass(f, cs@),
        RegExp::Literal(c) => Pattern::Literal(c),
    }
}

/// The tree of a literal node is the literal.
pub proof fn lemma_literal(c: char)
    ensures
        RegExp::Literal(c)@ == Pattern::Literal(c),
{
}

/// The children of a `Branch` or `Connect` node are the patterns of its vector.
pub proof fn lemma_children(v: Vec<RegExp>)
    ensures
        RegExp::Branch(v)@ == Pattern::Branch(patterns_of(v@)),
        RegExp::Connect(v)@ == Pattern::Connect(patterns_of(v@)),
{
    assert(RegExp::Branch(v)@->Branch_0 =~= patterns_of(v@));
    assert(RegExp::Connect(v)@->Connect_0 =~= patterns_of(v@));
}

/// A result of the parser as the grammar states it.
pub open spec fn tree_of(r: Result<RegExp, String>) -> Result<Pattern, Seq<char>> {
    match r {
        Ok(ast) => Ok(ast@),
        Err(message) => Err(message@),
    }
}

/// A node that was read and the position behind it, as the grammar states them.
pub open spec fn node_of(r: Result<(RegExp, usize), String>) -> Parsed<Pattern> {
    match r {
        Ok((ast, next)) => Ok((ast@, next as int)),
        Err(message) => Err(message@),
    }
}

/// A character that was read and the position behind it, as the grammar
/// states them.
pub open spec fn char_of(r: Result<(char, usize), String>) -> Parsed<char> {
    match r {
        Ok((c, next)) => Ok((c, next as int)),
        Err(message) => Err(message@),
    }
}

/// Parses a pattern into its tree. The first error ends the parse and is
/// returned as its message.
///
/// A repeat bound that 64 bits cannot hold wraps around.
pub fn parse(pat: &str) -> (r: Result<RegExp, String>)
    ensures
        tree_of(r) == syntax::parse(pat@),
        r matches Ok(ast) ==> has_children(ast@),
{
    proof {
        syntax::lemma_parse_has_children(pat@);
    }
    let chars = chars_of(pat);
    match parse_regex(chars.as_slice(), 0) {
        Ok((ast, _)) => Ok(ast),
        Err(message) => Err(message),
    }
}

/// The character at `at`, if there is one.
fn peek(pat: &[char], at: usize) -> (r: Option<char>)
    ensures
        r == syntax::peek(pat@, at as int),
{
    if at < pat.len() {
        Some(pat[at])
    } else {
        None
    }
}

/// An optional `^`, a branch, and whether `$` follows it.
fn parse_regex(pat: &[char], at: usize) -> (r: Result<(RegExp, usize), String>)
    requires
        at <= pat.len(),
    ensures
        r matches Ok((ast, _)) ==> syntax::parse_regex(pat@, at as int) matches Ok((tree, _))
            && tree == ast@,
        r matches Err(message) ==> syntax::parse_regex(pat@, at as int) == Err::<
            (Pattern, int),
            Seq<char>,
        >(message@),
{
    let mut at = at;
    let prefix = if peek(pat, at) == Some('^') {
        at += 1;
        true
    } else {
        false
    };
    let (body, next) = parse_branch(pat, at)?;
    let suffix = peek(pat, next) == Some('$');
    Ok((RegExp::PrefixSuffix(prefix, Box::new(body), suffix), next))
}

/// One concatenation or more, with `|` between them.
fn parse_branch(pat: &[char], at: usize) -> (r: Result<(RegExp, usize), String>)
    requires
        at <= pat.len(),
    ensures
        node_of(r) == syntax::parse_branch(pat@, at as int),
        r matches Ok((_, next)) ==> at < next <= pat.len(),
    decreases pat.len() - at, 5int,
{
    let (first, next) = parse_connect(pat, at)?;
    let mut ret: Vec<RegExp> = Vec::new();
    ret.push(first);
    let mut at_now = next;
    assert(patterns_of(ret@) =~= Seq::<Pattern>::empty().push(first@));
    while peek(pat, at_now) == Some('|')
        invariant
            at < at_now <= pat.len(),
            syntax::parse_alternatives(pat@, at as int, Seq::empty()) == (if syntax::peek(
                pat@,
                at_now as int,
            ) == Some('|') {
                syntax::parse_alternatives(pat@, at_now + 1, patterns_of(ret@))
            } else {
                Ok::<(Seq<Pattern>, int), Seq<char>>((patterns_of(ret@), at_now as int))
            }),
        decreases pat.len() - at_now,
    {
        let (_, after) = expect_char('|', pat, at_now)?;
        let (alternative, next) = parse_connect(pat, after)?;
        assert(patterns_of(ret@.push(alternative)) =~= patterns_of(ret@).push(alternative@));
        ret.push(alternative);
        at_now = next;
    }
    proof {
        lemma_children(ret);
    }
    Ok((RegExp::Branch(ret), at_now))
}

/// Whether a concatenation ends before `c`.
fn is_end_of_connect(c: Option<char>) -> (r: bool)
    ensures
        r == syntax::ends_connect(c),
{
    c == None || c == Some('|') || c == Some(')') || c == Some('$')
}

/// One factor or more.
fn parse_connect(pat: &[char], at: usize) -> (r: Result<(RegExp, usize), String>)
    requires
        at <= pat.len(),
    ensures
        node_of(r) == syntax::parse_connect(pat@, at as int),
        r matches Ok((_, next)) ==> at < next <= pat.len(),
    decreases pat.len() - at, 3int,
{
    let (first, next) = parse_repeat(pat, at)?;
    let mut ret: Vec<RegExp> = Vec::new();
    ret.push(first);
    let mut at_now = next;
    assert(patterns_of(ret@) =~= Seq::<Pattern>::empty().push(first@));
    while !is_end_of_connect(peek(pat, at_now))
        invariant
            at < at_now <= pat.len(),
            syntax::parse_factors(pat@, at as int, Seq::empty()) == (if syntax::ends_connect(
                syntax::peek(pat@, at_now as int),
            ) {
                Ok::<(Seq<Pattern>, int), Seq<char>>((patterns_of(ret@), at_now as int))
            } else {
                syntax::parse_factors(pat@, at_now as int, patterns_of(ret@))
            }),
        decreases pat.len() - at_now,
    {
        let (factor, next) = parse_repeat(pat, at_now)?;
        assert(patterns_of(ret@.push(factor)) =~= patterns_of(ret@).push(factor@));
        ret.push(factor);
        at_now = next;
    }
    proof {
        lemma_children(ret);
    }
    Ok((RegExp::Connect(ret), at_now))
}

/// A group and the quantifier behind it, if any.
fn parse_repeat(pat: &[char], at: usize) -> (r: Result<(RegExp, usize), String>)
    requires
        at <= pat.len(),
    ensures
        node_of(r) == syntax::parse_repeat(pat@, at as int),
        r matches Ok((_, next)) ==> at < next <= pat.len(),
    decreases pat.len() - at, 1int,
{
    let (group, next) = parse_group(pat, at)?;
    match peek(pat, next) {
        Some('*') => Ok((RegExp::RepeatStar(Box::new(group)), next + 1)),
        Some('+') => Ok((RegExp::RepeatPlus(Box::new(group)), next + 1)),
        Some('?') => Ok((RegExp::Maybe(Box::new(group)), next + 1)),
        Some('{') => {
            let (low, comma) = get_number(pat, next + 1)?;
            let (_, second) = expect_char(',', pat, comma)?;
            let (high, brace) = get_number(pat, second)?;
            let (_, after) = expect_char('}', pat, brace)?;
            Ok(
                (
                    RegExp::RepeatRange(
                        Box::new(group),
                        #[verifier::truncate]
                        (low as usize),
                        #[verifier::truncate]
                        (high as usize),
                    ),
                    after,
                ),
            )
        },
        _ => Ok((group, next)),
    }
}

/// A parenthesised branch, or a single character.
fn parse_group(pat: &[char], at: usize) -> (r: Result<(RegExp, usize), String>)
    requires
        at <= pat.len(),
    ensures
        node_of(r) == syntax::parse_group(pat@, at as int),
        r matches Ok((_, next)) ==> at < next <= pat.len(),
    decreases pat.len() - at, 0int,
{
    match peek(pat, at) {
        Some('(') => {
            let (_, inside) = expect_char('(', pat, at)?;
            let (ret, end) = parse_branch(pat, inside)?;
            let (_, next) = expect_char(')', pat, end)?;
            Ok((RegExp::Group(Box::new(ret)), next))
        },
        _ => parse_char(pat, at),
    }
}

/// A class, `.`, or a literal.
fn parse_char(pat: &[char], at: usize) -> (r: Result<(RegExp, usize), String>)
    requires
        at <= pat.len(),
    ensures
        node_of(r) == syntax::parse_char(pat@, at as int),
        r matches Ok((_, next)) ==> at < next <= pat.len(),
{
    match peek(pat, at) {
        Some('[') => parse_charclass(pat, at),
        Some('.') => {
            let (_, next) = expect_char('.', pat, at)?;
            Ok((RegExp::AnyChar, next))
        },
        _ => parse_literal(pat, at),
    }
}

/// `[`, an optional `^`, the members, `]`.
fn parse_charclass(pat: &[char], at: usize) -> (r: Result<(RegExp, usize), String>)
    requires
        at <= pat.len(),
    ensures
        node_of(r) == syntax::parse_charclass(pat@, at as int),
        r matches Ok((_, next)) ==> at < next <= pat.len(),
{
    let (_, inside) = expect_char('[', pat, at)?;
    let mut at_now = inside;
    let flipped = if peek(pat, at_now) == Some('^') {
        at_now += 1;
        true
    } else {
        false
    };
    let ghost first = at_now;
    let mut char_set: Vec<char> = Vec::new();
    loop
        invariant
            at < at_now <= pat.len(),
            syntax::expect_char('[', pat@, at as int) == Ok::<(char, int), Seq<char>>(
                ('[', inside as int),
            ),
            flipped == (syntax::peek(pat@, inside as int) == Some('^')),
            first == if flipped {
                inside + 1
            } else {
                inside as int
            },
            syntax::class_members(pat@, first as int, Seq::empty()) == syntax::class_members(
                pat@,
                at_now as int,
                char_set@,
            ),
        ensures
            syntax::class_members(pat@, first as int, Seq::empty()) == Ok::<
                (Seq<char>, int),
                Seq<char>,
            >((char_set@, at_now as int)),
            syntax::peek(pat@, at_now as int) == Some(']'),
            at < at_now < pat.len(),
        decreases pat.len() - at_now,
    {
        let c = match peek(pat, at_now) {
            Some(']') => {
                break ;
            },
            None => {
                return Err(String::from_str("Syntax Error: unclosed char-class, `]` not found"));
            },
            _ => {
                let (c, next) = get_char(pat, at_now)?;
                at_now = next;
                c
            },
        };
        char_set.push(c);
    }
    let (_, next) = expect_char(']', pat, at_now)?;
    Ok((RegExp::CharClass(flipped, char_set), next))
}

/// One character that stands for itself.
fn parse_literal(pat: &[char], at: usize) -> (r: Result<(RegExp, usize), String>)
    requires
        at <= pat.len(),
    ensures
        node_of(r) == syntax::parse_literal(pat@, at as int),
        r matches Ok((_, next)) ==> at < next <= pat.len(),
{
    let (c, next) = get_char(pat, at)?;
    proof {
        lemma_literal(c);
    }
    Ok((RegExp::Literal(c), next))
}

/// One character of the pattern: an escaped one, or any other as it stands.
fn get_char(pat: &[char], at: usize) -> (r: Result<(char, usize), String>)
    requires
        at <= pat.len(),
    ensures
        char_of(r) == syntax::get_char(pat@, at as int),
        r matches Ok((_, next)) ==> at < next <= pat.len(),
{
    match peek(pat, at) {
        None => Err(String::from_str("Syntax Error: expect a character but found End-Of-String")),
        Some(tmp) => {
            if tmp == '\\' {
                get_escaped_char(pat, at)
            } else {
                Ok((tmp, at + 1))
            }
        },
    }
}

/// The character `expect`, and nothing else.
fn expect_char(expect: char, pat: &[char], at: usize) -> (r: Result<(char, usize), String>)
    requires
        at <= pat.len(),
    ensures
        char_of(r) == syntax::expect_char(expect, pat@, at as int),
        r matches Ok((c, next)) ==> c == expect && at < pat.len() && next == at + 1,
{
    match peek(pat, at) {
        None => {
            let mut message = String::from_str("Syntax Error: expect `");
            message.push(expect);
            message.append("` but found End-Of-String");
            Err(message)
        },
        Some(tmp) => {
            if tmp != expect {
                let mut message = String::from_str("Syntax Error: expect `");
                message.push(expect);
                message.append("` but found `");
                message.push(tmp);
                message.append("`");
                return Err(message);
            }
            Ok((tmp, at + 1))
        },
    }
}

/// A backslash and the character behind it, which is taken as it is.
fn get_escaped_char(pat: &[char], at: usize) -> (r: Result<(char, usize), String>)
    requires
        at <= pat.len(),
    ensures
        char_of(r) == syntax::get_escaped_char(pat@, at as int),
        r matches Ok((_, next)) ==> at < next <= pat.len(),
{
    let (_, next) = expect_char('\\', pat, at)?;
    match peek(pat, next) {
        None => Err(String::from_str("Syntax Error: expect char but found End-Of-String")),
        Some(c) => Ok((c, next + 1)),
    }
}

/// The decimal number that starts at `at`, or 0 where no digit stands.
/// What 64 bits cannot hold wraps around.
fn get_number(pat: &[char], at: usize) -> (r: Result<(u64, usize), String>)
    requires
        at <= pat.len(),
    ensures
        r matches Ok((ret, next)) && (ret, next as int) == syntax::get_number(pat@, at as int, 0)
            && at <= next <= pat.len(),
{
    let mut ret: u64 = 0;
    let mut at_now = at;
    loop
        invariant
            at <= at_now <= pat.len(),
            syntax::get_number(pat@, at as int, 0) == syntax::get_number(pat@, at_now as int, ret),
        ensures
            at <= at_now <= pat.len(),
            syntax::get_number(pat@, at as int, 0) == (ret, at_now as int),
        decreases pat.len() - at_now,
    {
        let next = peek(pat, at_now);
        if let Some(c) = next {
            if '0' <= c && c <= '9' {
                ret = ret.wrapping_mul(10);
                ret = ret.wrapping_add(c as u64 - 48);
            } else {
                break ;
            }
        } else {
            break ;
        }
        at_now += 1;
    }
    Ok((ret, at_now))
}

} // verus!
