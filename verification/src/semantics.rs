//! What it means for a pattern to match a piece of a text, stated without
//! the machine.

use crate::compiler::CharTest;
use crate::machine::accepts;
use crate::parser::Pattern;
use vstd::prelude::*;

verus! {

/// `m` lies between `i` and `j`.
pub open spec fn between(i: int, m: int, j: int) -> bool {
    i <= m <= j
}

/// The character at offset `i` of `text` passes `test`, and `j` is the next offset.
pub open spec fn one_char(test: CharTest, text: Seq<char>, i: int, j: int) -> bool {
    0 <= i < text.len() && j == i + 1 && accepts(test, text[i])
}

/// Pattern `p` matches the characters of `text` from offset `i` up to,
/// and without, offset `j`.
pub open spec fn is_match(p: Pattern, text: Seq<char>, i: int, j: int) -> bool
    decreases p, 0int,
{
    match p {
        Pattern::PrefixSuffix(pre, body, suf) => {
            &&& pre ==> i == 0
            &&& suf ==> j == text.len()
            &&& is_match(*body, text, i, j)
        },
        Pattern::Branch(ps) => exists|k: int|
            0 <= k < ps.len() && is_match(#[trigger] ps[k], text, i, j),
        Pattern::Connect(ps) => all_match(ps, ps.len(), text, i, j),
        Pattern::RepeatStar(r) => star_match(*r, text, i, j),
        Pattern::RepeatPlus(r) => exists|m: int|
            #[trigger] between(i, m, j) && is_match(*r, text, i, m) && star_match(*r, text, m, j),
        Pattern::RepeatRange(r, min, max) => exists|n: nat|
            #[trigger] between(min as int, n as int, max as int) && copies_match(*r, n, text, i, j),
        Pattern::Maybe(r) => i == j || is_match(*r, text, i, j),
        Pattern::Group(r) => is_match(*r, text, i, j),
        Pattern::AnyChar => one_char(CharTest::Any, text, i, j),
        Pattern::CharClass(negated, members) => one_char(
            CharTest::CharClass(negated, members),
            text,
            i,
            j,
        ),
        Pattern::Literal(c) => one_char(CharTest::Literal(c), text, i, j),
    }
}

/// The first `n` members of `ps` match one after another from `i` to `j`.
pub open spec fn all_match(ps: Seq<Pattern>, n: nat, text: Seq<char>, i: int, j: int) -> bool
    decreases ps, n as int,
{
    if n == 0 || n > ps.len() {
        i == j
    } else {
        exists|m: int|
            #[trigger] between(i, m, j) && all_match(ps, (n - 1) as nat, text, i, m) && is_match(
                ps[n - 1],
                text,
                m,
                j,
            )
    }
}

/// `n` copies of `p` match one after another from `i` to `j`.
pub open spec fn copies_match(p: Pattern, n: nat, text: Seq<char>, i: int, j: int) -> bool
    decreases p, n as int,
{
    if n == 0 {
        i == j
    } else {
        exists|m: int|
            #[trigger] between(i, m, j) && copies_match(p, (n - 1) as nat, text, i, m) && is_match(
                p,
                text,
                m,
                j,
            )
    }
}

/// Copies of `p`, each of at least one character, match one after another
/// from `i` to `j`. A copy that takes no character adds nothing to what
/// the others match.
pub open spec fn star_match(p: Pattern, text: Seq<char>, i: int, j: int) -> bool
    decreases p, j - i + 1,
{
    i == j || exists|m: int|
        #[trigger] between(i + 1, m, j) && is_match(p, text, i, m) && star_match(p, text, m, j)
}

} // verus!
