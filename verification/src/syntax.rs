//! The grammar of patterns, as functions from a text and a position in it
//! to what stands there and the position behind it.
//!
//! ```text
//! PrefixSuffix = '^'? Branch '$'?
//! Branch       = Connect ('|' Connect)*
//! Connect      = Repeat+
//! Repeat       = Group ('*' | '+' | '?' | '{' number ',' number '}')?
//! Group        = '(' Branch ')' | '[' CharClass ']' | '.' | Literal
//! Literal      = any character; '\' takes the next one as it is
//! ```

use crate::fragment::has_children;
use crate::parser::Pattern;
use vstd::prelude::*;

verus! {

/// What was read and the position behind it, or the message of the error.
pub type Parsed<T> = Result<(T, int), Seq<char>>;

/// The character at `at`, if there is one.
pub open spec fn peek(s: Seq<char>, at: int) -> Option<char> {
    if 0 <= at < s.len() {
        Some(s[at])
    } else {
        None
    }
}

/// The message for the end of the pattern where `expect` should stand.
pub open spec fn expected_but_end(expect: char) -> Seq<char> {
    "Syntax Error: expect `"@.push(expect) + "` but found End-Of-String"@
}

/// The message for `found` where `expect` should stand.
pub open spec fn expected_but_found(expect: char, found: char) -> Seq<char> {
    "Syntax Error: expect `"@.push(expect) + "` but found `"@.push(found) + "`"@
}

/// The message for the end of the pattern where a character should stand.
pub open spec fn no_character() -> Seq<char> {
    "Syntax Error: expect a character but found End-Of-String"@
}

/// The message for the end of the pattern behind a backslash.
pub open spec fn no_escaped_character() -> Seq<char> {
    "Syntax Error: expect char but found End-Of-String"@
}

/// The message for a class without its `]`.
pub open spec fn unclosed_class() -> Seq<char> {
    "Syntax Error: unclosed char-class, `]` not found"@
}

/// The character `expect`, and nothing else.
pub open spec fn expect_char(expect: char, s: Seq<char>, at: int) -> Parsed<char> {
    match peek(s, at) {
        None => Err(expected_but_end(expect)),
        Some(c) => if c != expect {
            Err(expected_but_found(expect, c))
        } else {
            Ok((c, at + 1))
        },
    }
}

/// A backslash and the character behind it, which is taken as it is.
pub open spec fn get_escaped_char(s: Seq<char>, at: int) -> Parsed<char> {
    match expect_char('\\', s, at) {
        Err(e) => Err(e),
        Ok((_, next)) => match peek(s, next) {
            None => Err(no_escaped_character()),
            Some(c) => Ok((c, next + 1)),
        },
    }
}

/// One character of the pattern: an escaped one, or any other as it stands.
pub open spec fn get_char(s: Seq<char>, at: int) -> Parsed<char> {
    match peek(s, at) {
        None => Err(no_character()),
        Some(c) => if c == '\\' {
            get_escaped_char(s, at)
        } else {
            Ok((c, at + 1))
        },
    }
}

/// Whether `c` is a decimal digit.
pub open spec fn is_digit(c: char) -> bool {
    '0' <= c && c <= '9'
}

/// The value of the decimal digit `c`.
pub open spec fn digit_of(c: char) -> u64 {
    (c as u64 - '0' as u64) as u64
}

/// The value `acc` with one more decimal digit behind it, in 64 bits: what
/// does not fit wraps around.
pub open spec fn with_digit(acc: u64, c: char) -> u64 {
    acc.wrapping_mul(10).wrapping_add(digit_of(c))
}

/// The decimal number that starts at `at`, continuing the value `acc`, and
/// the position behind its last digit. Where no digit stands, the value is
/// `acc` and the position is `at`.
pub open spec fn get_number(s: Seq<char>, at: int, acc: u64) -> (u64, int)
    decreases s.len() - at,
{
    match peek(s, at) {
        Some(c) => if is_digit(c) {
            get_number(s, at + 1, with_digit(acc, c))
        } else {
            (acc, at)
        },
        None => (acc, at),
    }
}

/// The members of a class up to, and without, the closing `]`.
pub open spec fn class_members(s: Seq<char>, at: int, acc: Seq<char>) -> Parsed<Seq<char>>
    decreases s.len() - at,
{
    match peek(s, at) {
        None => Err(unclosed_class()),
        Some(c) => if c == ']' {
            Ok((acc, at))
        } else {
            match get_char(s, at) {
                Err(e) => Err(e),
                Ok((member, next)) => class_members(s, next, acc.push(member)),
            }
        },
    }
}

/// `[`, an optional `^`, the members, `]`.
pub open spec fn parse_charclass(s: Seq<char>, at: int) -> Parsed<Pattern> {
    match expect_char('[', s, at) {
        Err(e) => Err(e),
        Ok((_, inside)) => {
            let flipped = peek(s, inside) == Some('^');
            let first = if flipped {
                inside + 1
            } else {
                inside
            };
            match class_members(s, first, Seq::empty()) {
                Err(e) => Err(e),
                Ok((members, end)) => match expect_char(']', s, end) {
                    Err(e) => Err(e),
                    Ok((_, next)) => Ok((Pattern::CharClass(flipped, members), next)),
                },
            }
        },
    }
}

/// One character that stands for itself.
pub open spec fn parse_literal(s: Seq<char>, at: int) -> Parsed<Pattern> {
    match get_char(s, at) {
        Err(e) => Err(e),
        Ok((c, next)) => Ok((Pattern::Literal(c), next)),
    }
}

/// A class, `.`, or a literal.
pub open spec fn parse_char(s: Seq<char>, at: int) -> Parsed<Pattern> {
    if peek(s, at) == Some('[') {
        parse_charclass(s, at)
    } else if peek(s, at) == Some('.') {
        Ok((Pattern::AnyChar, at + 1))
    } else {
        parse_literal(s, at)
    }
}

/// Whether a concatenation ends before `c`: at the end of the text, `|`, `)` or `$`.
pub open spec fn ends_connect(c: Option<char>) -> bool {
    c == None::<char> || c == Some('|') || c == Some(')') || c == Some('$')
}

/// A parenthesised branch, or a single character.
pub open spec fn parse_group(s: Seq<char>, at: int) -> Parsed<Pattern>
    decreases s.len() - at, 0int,
{
    if peek(s, at) == Some('(') {
        match parse_branch(s, at + 1) {
            Err(e) => Err(e),
            Ok((body, end)) => match expect_char(')', s, end) {
                Err(e) => Err(e),
                Ok((_, next)) => Ok((Pattern::Group(Box::new(body)), next)),
            },
        }
    } else {
        parse_char(s, at)
    }
}

/// The bounds `{min,max}` behind the `{` that stands before `at`. A bound
/// without digits is 0.
pub open spec fn parse_bounds(s: Seq<char>, at: int) -> Parsed<(usize, usize)> {
    let (low, comma) = get_number(s, at, 0);
    match expect_char(',', s, comma) {
        Err(e) => Err(e),
        Ok((_, second)) => {
            let (high, brace) = get_number(s, second, 0);
            match expect_char('}', s, brace) {
                Err(e) => Err(e),
                Ok((_, next)) => Ok(((low as usize, high as usize), next)),
            }
        },
    }
}

/// A group and the quantifier behind it, if any.
pub open spec fn parse_repeat(s: Seq<char>, at: int) -> Parsed<Pattern>
    decreases s.len() - at, 1int,
{
    match parse_group(s, at) {
        Err(e) => Err(e),
        Ok((body, next)) => if peek(s, next) == Some('*') {
            Ok((Pattern::RepeatStar(Box::new(body)), next + 1))
        } else if peek(s, next) == Some('+') {
            Ok((Pattern::RepeatPlus(Box::new(body)), next + 1))
        } else if peek(s, next) == Some('?') {
            Ok((Pattern::Maybe(Box::new(body)), next + 1))
        } else if peek(s, next) == Some('{') {
            match parse_bounds(s, next + 1) {
                Err(e) => Err(e),
                Ok(((min, max), after)) => Ok(
                    (Pattern::RepeatRange(Box::new(body), min as nat, max as nat), after),
                ),
            }
        } else {
            Ok((body, next))
        },
    }
}

/// The factors of a concatenation from `at` on, behind those in `acc`.
///
/// A factor takes at least one character, so `next <= at` never holds; the
/// test makes the definition well-founded.
pub open spec fn parse_factors(s: Seq<char>, at: int, acc: Seq<Pattern>) -> Parsed<Seq<Pattern>>
    decreases s.len() - at, 2int,
{
    match parse_repeat(s, at) {
        Err(e) => Err(e),
        Ok((factor, next)) => if ends_connect(peek(s, next)) || next <= at {
            Ok((acc.push(factor), next))
        } else {
            parse_factors(s, next, acc.push(factor))
        },
    }
}

/// One factor or more.
pub open spec fn parse_connect(s: Seq<char>, at: int) -> Parsed<Pattern>
    decreases s.len() - at, 3int,
{
    match parse_factors(s, at, Seq::empty()) {
        Err(e) => Err(e),
        Ok((factors, next)) => Ok((Pattern::Connect(factors), next)),
    }
}

/// The alternatives of a branch from `at` on, behind those in `acc`.
///
/// A concatenation never ends before it began, so `at <= next` always
/// holds; the test makes the definition well-founded.
pub open spec fn parse_alternatives(s: Seq<char>, at: int, acc: Seq<Pattern>) -> Parsed<
    Seq<Pattern>,
>
    decreases s.len() - at, 4int,
{
    match parse_connect(s, at) {
        Err(e) => Err(e),
        Ok((alternative, next)) => if peek(s, next) == Some('|') && at <= next {
            parse_alternatives(s, next + 1, acc.push(alternative))
        } else {
            Ok((acc.push(alternative), next))
        },
    }
}

/// One concatenation or more, with `|` between them.
pub open spec fn parse_branch(s: Seq<char>, at: int) -> Parsed<Pattern>
    decreases s.len() - at, 5int,
{
    match parse_alternatives(s, at, Seq::empty()) {
        Err(e) => Err(e),
        Ok((alternatives, next)) => Ok((Pattern::Branch(alternatives), next)),
    }
}

/// The whole pattern: an optional `^`, a branch, and whether `$` follows it.
/// What stands behind that is not read.
pub open spec fn parse_regex(s: Seq<char>, at: int) -> Parsed<Pattern> {
    let prefix = peek(s, at) == Some('^');
    let first = if prefix {
        at + 1
    } else {
        at
    };
    match parse_branch(s, first) {
        Err(e) => Err(e),
        Ok((body, next)) => Ok(
            (Pattern::PrefixSuffix(prefix, Box::new(body), peek(s, next) == Some('$')), next + 1),
        ),
    }
}

/// The tree of pattern `s`, or the message of the first error in it.
pub open spec fn parse(s: Seq<char>) -> Result<Pattern, Seq<char>> {
    match parse_regex(s, 0) {
        Err(e) => Err(e),
        Ok((tree, _)) => Ok(tree),
    }
}

/// A number ends where it began or further on, and not behind the text.
pub proof fn lemma_number_ends(s: Seq<char>, at: int, acc: u64)
    ensures
        at <= get_number(s, at, acc).1,
        at <= s.len() ==> get_number(s, at, acc).1 <= s.len(),
    decreases s.len() - at,
{
    if let Some(c) = peek(s, at) {
        if is_digit(c) {
            lemma_number_ends(s, at + 1, with_digit(acc, c));
        }
    }
}

/// The members of a class end at a `]` of the text.
pub proof fn lemma_members_end(s: Seq<char>, at: int, acc: Seq<char>)
    ensures
        class_members(s, at, acc) matches Ok((_, end)) ==> at <= end < s.len() && s[end] == ']',
    decreases s.len() - at,
{
    if let Some(c) = peek(s, at) {
        if c != ']' {
            if let Ok((member, next)) = get_char(s, at) {
                lemma_members_end(s, next, acc.push(member));
            }
        }
    }
}

/// A group takes at least one character, and none behind the text.
pub proof fn lemma_group_advances(s: Seq<char>, at: int)
    ensures
        parse_group(s, at) matches Ok((_, next)) ==> at < next <= s.len(),
    decreases s.len() - at, 0int,
{
    if peek(s, at) == Some('(') {
        lemma_branch_advances(s, at + 1);
    } else if peek(s, at) == Some('[') {
        if let Ok((_, inside)) = expect_char('[', s, at) {
            let first = if peek(s, inside) == Some('^') {
                inside + 1
            } else {
                inside
            };
            lemma_members_end(s, first, Seq::empty());
        }
    }
}

/// A repeat takes at least one character, and none behind the text.
pub proof fn lemma_repeat_advances(s: Seq<char>, at: int)
    ensures
        parse_repeat(s, at) matches Ok((_, next)) ==> at < next <= s.len(),
    decreases s.len() - at, 1int,
{
    lemma_group_advances(s, at);
    if let Ok((_, next)) = parse_group(s, at) {
        if peek(s, next) == Some('{') {
            lemma_number_ends(s, next + 1, 0);
            let (_, comma) = get_number(s, next + 1, 0);
            if let Ok((_, second)) = expect_char(',', s, comma) {
                lemma_number_ends(s, second, 0);
            }
        }
    }
}

/// The factors of a concatenation take at least one character, and none
/// behind the text: the test `next <= at` in [`parse_factors`] never holds.
pub proof fn lemma_factors_advance(s: Seq<char>, at: int, acc: Seq<Pattern>)
    ensures
        parse_factors(s, at, acc) matches Ok((_, next)) ==> at < next <= s.len(),
    decreases s.len() - at, 2int,
{
    lemma_repeat_advances(s, at);
    if let Ok((factor, next)) = parse_repeat(s, at) {
        if !ends_connect(peek(s, next)) {
            lemma_factors_advance(s, next, acc.push(factor));
        }
    }
}

/// A concatenation takes at least one character, and none behind the text.
pub proof fn lemma_connect_advances(s: Seq<char>, at: int)
    ensures
        parse_connect(s, at) matches Ok((_, next)) ==> at < next <= s.len(),
    decreases s.len() - at, 3int,
{
    lemma_factors_advance(s, at, Seq::empty());
}

/// The alternatives of a branch take at least one character, and none
/// behind the text: the test `at <= next` in [`parse_alternatives`] always
/// holds.
pub proof fn lemma_alternatives_advance(s: Seq<char>, at: int, acc: Seq<Pattern>)
    ensures
        parse_alternatives(s, at, acc) matches Ok((_, next)) ==> at < next <= s.len(),
    decreases s.len() - at, 4int,
{
    lemma_connect_advances(s, at);
    if let Ok((alternative, next)) = parse_connect(s, at) {
        if peek(s, next) == Some('|') {
            lemma_alternatives_advance(s, next + 1, acc.push(alternative));
        }
    }
}

/// A branch takes at least one character, and none behind the text.
pub proof fn lemma_branch_advances(s: Seq<char>, at: int)
    ensures
        parse_branch(s, at) matches Ok((_, next)) ==> at < next <= s.len(),
    decreases s.len() - at, 5int,
{
    lemma_alternatives_advance(s, at, Seq::empty());
}

/// Every node of `ps` has the children that it needs.
pub open spec fn all_have_children(ps: Seq<Pattern>) -> bool {
    forall|i: int| 0 <= i < ps.len() ==> has_children(#[trigger] ps[i])
}

/// The `Branch` and `Connect` nodes of a group that was read have children.
pub proof fn lemma_group_has_children(s: Seq<char>, at: int)
    ensures
        parse_group(s, at) matches Ok((tree, _)) ==> has_children(tree),
    decreases s.len() - at, 0int,
{
    if peek(s, at) == Some('(') {
        lemma_branch_has_children(s, at + 1);
    }
}

/// The nodes of a repeat that was read have children.
pub proof fn lemma_repeat_has_children(s: Seq<char>, at: int)
    ensures
        parse_repeat(s, at) matches Ok((tree, _)) ==> has_children(tree),
    decreases s.len() - at, 1int,
{
    lemma_group_has_children(s, at);
}

/// The factors that were read are at least one, and their nodes have
/// children.
pub proof fn lemma_factors_have_children(s: Seq<char>, at: int, acc: Seq<Pattern>)
    requires
        all_have_children(acc),
    ensures
        parse_factors(s, at, acc) matches Ok((factors, _)) ==> factors.len() >= 1
            && all_have_children(factors),
    decreases s.len() - at, 2int,
{
    lemma_repeat_has_children(s, at);
    if let Ok((factor, next)) = parse_repeat(s, at) {
        let more = acc.push(factor);
        assert(all_have_children(more)) by {
            assert forall|i: int| 0 <= i < more.len() implies has_children(#[trigger] more[i]) by {
                if i < acc.len() {
                    assert(more[i] == acc[i]);
                }
            }
        }
        if !(ends_connect(peek(s, next)) || next <= at) {
            lemma_factors_have_children(s, next, more);
        }
    }
}

/// The nodes of a concatenation that was read have children.
pub proof fn lemma_connect_has_children(s: Seq<char>, at: int)
    ensures
        parse_connect(s, at) matches Ok((tree, _)) ==> has_children(tree),
    decreases s.len() - at, 3int,
{
    lemma_factors_have_children(s, at, Seq::empty());
}

/// The alternatives that were read are at least one, and their nodes have
/// children.
pub proof fn lemma_alternatives_have_children(s: Seq<char>, at: int, acc: Seq<Pattern>)
    requires
        all_have_children(acc),
    ensures
        parse_alternatives(s, at, acc) matches Ok((alternatives, _)) ==> alternatives.len() >= 1
            && all_have_children(alternatives),
    decreases s.len() - at, 4int,
{
    lemma_connect_has_children(s, at);
    if let Ok((alternative, next)) = parse_connect(s, at) {
        let more = acc.push(alternative);
        assert(all_have_children(more)) by {
            assert forall|i: int| 0 <= i < more.len() implies has_children(#[trigger] more[i]) by {
                if i < acc.len() {
                    assert(more[i] == acc[i]);
                }
            }
        }
        if peek(s, next) == Some('|') && at <= next {
            lemma_alternatives_have_children(s, next + 1, more);
        }
    }
}

/// The nodes of a branch that was read have children.
pub proof fn lemma_branch_has_children(s: Seq<char>, at: int)
    ensures
        parse_branch(s, at) matches Ok((tree, _)) ==> has_children(tree),
    decreases s.len() - at, 5int,
{
    lemma_alternatives_have_children(s, at, Seq::empty());
}

/// The parser never makes a `Branch` or a `Connect` without a child.
pub proof fn lemma_parse_has_children(s: Seq<char>)
    ensures
        parse(s) matches Ok(tree) ==> has_children(tree),
{
    let first = if peek(s, 0) == Some('^') {
        1int
    } else {
        0
    };
    lemma_branch_has_children(s, first);
}

} // verus!
