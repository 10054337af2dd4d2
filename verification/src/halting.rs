//! Where no way through a program goes on for ever, every attempt ends.

use crate::compiler::Op;
use crate::machine::{backtrack, lemma_run_more, run, step, Machine, Step};
use crate::parser::Pattern;
use crate::semantics::{all_match, between, copies_match, is_match, star_match};
use crate::trace::{is_way, moves, point_of, Point};
use vstd::prelude::*;

verus! {

/// No way from `q` has more than `b` moves.
pub open spec fn ways_end(prog: Seq<Op>, text: Seq<char>, q: Point, b: nat) -> bool {
    forall|t: Seq<Point>| #[trigger] is_way(prog, text, t) && t[0] == q ==> t.len() <= b + 1
}

/// Three to the power of `b`.
pub open spec fn pow3(b: nat) -> nat
    decreases b,
{
    if b == 0 {
        1
    } else {
        3 * pow3((b - 1) as nat)
    }
}

/// The sum of three to the power of each member of `bs`.
pub open spec fn weight(bs: Seq<nat>) -> nat
    decreases bs.len(),
{
    if bs.len() == 0 {
        0
    } else {
        weight(bs.drop_last()) + pow3(bs.last())
    }
}

/// After a move, the ways are shorter by one.
pub proof fn lemma_ways_end_after(prog: Seq<Op>, text: Seq<char>, q: Point, next: Point, b: nat)
    requires
        ways_end(prog, text, q, b),
        moves(prog, text, q, next),
    ensures
        b >= 1,
        ways_end(prog, text, next, (b - 1) as nat),
{
    let two = seq![q, next];
    assert(is_way(prog, text, two));
    assert forall|t: Seq<Point>| #[trigger] is_way(prog, text, t) && t[0] == next implies t.len()
        <= (b - 1) as nat + 1 by {
        let longer = seq![q] + t;
        assert forall|i: int| 0 <= i < longer.len() - 1 implies moves(
            prog,
            text,
            #[trigger] longer[i],
            longer[i + 1],
        ) by {
            if i > 0 {
                assert(longer[i] == t[i - 1] && longer[i + 1] == t[i]);
            }
        }
        assert(is_way(prog, text, longer));
    }
}

/// The point of the saved continuation `j` of `m`.
pub open spec fn saved_point(m: Machine, j: int) -> Point {
    Point { pc: m.threads[j].pc, sp: m.threads[j].sp }
}

/// Where the ways from the machine and from each of its saved continuations
/// have an end, the attempt is over within as many steps as the weight of
/// the bounds on them.
pub proof fn lemma_bounded_halts(
    prog: Seq<Op>,
    text: Seq<char>,
    from: int,
    m: Machine,
    b: nat,
    bs: Seq<nat>,
)
    requires
        ways_end(prog, text, point_of(m), b),
        bs.len() == m.threads.len(),
        forall|j: int| 0 <= j < bs.len() ==> ways_end(prog, text, saved_point(m, j), #[trigger] bs[j]),
    ensures
        run(prog, text, from, m, pow3(b) + weight(bs)) is Some,
    decreases pow3(b) + weight(bs),
{
    let fuel = pow3(b) + weight(bs);
    assert(pow3(b) >= 1) by {
        reveal_with_fuel(pow3, 2);
        lemma_pow3_positive(b);
    }
    match step(prog, text, m) {
        Step::Next(next) => {
            let op = prog[m.pc];
            let back = backtrack(m) == Step::Next(next) && !(op is Branch || op is Jump
                || op is GroupParenL || op is GroupParenR);
            if back {
                let rest = bs.drop_last();
                assert forall|j: int| 0 <= j < rest.len() implies ways_end(
                    prog,
                    text,
                    saved_point(next, j),
                    #[trigger] rest[j],
                ) by {
                    assert(rest[j] == bs[j]);
                    assert(saved_point(next, j) == saved_point(m, j));
                }
                assert(point_of(next) == saved_point(m, bs.len() - 1));
                lemma_bounded_halts(prog, text, from, next, bs.last(), rest);
                lemma_run_more(
                    prog,
                    text,
                    from,
                    next,
                    pow3(bs.last()) + weight(rest),
                    (fuel - 1) as nat,
                );
            } else {
                assert(moves(prog, text, point_of(m), point_of(next)));
                lemma_ways_end_after(prog, text, point_of(m), point_of(next), b);
                let less = (b - 1) as nat;
                assert(pow3(b) == 3 * pow3(less));
                lemma_pow3_positive(less);
                match op {
                    Op::Branch(x, y) => {
                        let other = Point { pc: y, sp: m.sp };
                        assert(moves(prog, text, point_of(m), other));
                        lemma_ways_end_after(prog, text, point_of(m), other, b);
                        let more = bs.push(less);
                        assert(more.drop_last() == bs);
                        assert forall|j: int| 0 <= j < more.len() implies ways_end(
                            prog,
                            text,
                            saved_point(next, j),
                            #[trigger] more[j],
                        ) by {
                            if j < bs.len() {
                                assert(more[j] == bs[j]);
                                assert(saved_point(next, j) == saved_point(m, j));
                            }
                        }
                        lemma_bounded_halts(prog, text, from, next, less, more);
                        lemma_run_more(
                            prog,
                            text,
                            from,
                            next,
                            pow3(less) + weight(more),
                            (fuel - 1) as nat,
                        );
                    },
                    _ => {
                        assert forall|j: int| 0 <= j < bs.len() implies ways_end(
                            prog,
                            text,
                            saved_point(next, j),
                            #[trigger] bs[j],
                        ) by {
                            assert(saved_point(next, j) == saved_point(m, j));
                        }
                        lemma_bounded_halts(prog, text, from, next, less, bs);
                        lemma_run_more(
                            prog,
                            text,
                            from,
                            next,
                            pow3(less) + weight(bs),
                            (fuel - 1) as nat,
                        );
                    },
                }
            }
        },
        Step::Matched => {},
        Step::Failed => {},
    }
}

/// A power of three is at least one.
pub proof fn lemma_pow3_positive(b: nat)
    ensures
        pow3(b) >= 1,
    decreases b,
{
    if b > 0 {
        lemma_pow3_positive((b - 1) as nat);
    }
}

/// Whatever the pattern matches has a character in it.
pub open spec fn takes_characters(p: Pattern) -> bool
    decreases p,
{
    match p {
        Pattern::PrefixSuffix(_, body, _) => takes_characters(*body),
        Pattern::Branch(ps) => forall|i: int|
            0 <= i < ps.len() ==> takes_characters(#[trigger] ps[i]),
        Pattern::Connect(ps) => exists|i: int| 0 <= i < ps.len() && takes_characters(#[trigger] ps[i]),
        Pattern::RepeatStar(_) => false,
        Pattern::RepeatPlus(r) => takes_characters(*r),
        Pattern::RepeatRange(r, min, _) => min >= 1 && takes_characters(*r),
        Pattern::Maybe(_) => false,
        Pattern::Group(r) => takes_characters(*r),
        Pattern::AnyChar => true,
        Pattern::CharClass(_, _) => true,
        Pattern::Literal(_) => true,
    }
}

/// Every body under a `*` or a `+` takes characters, so that each turn of
/// a loop moves on in the text.
pub open spec fn loops_advance(p: Pattern) -> bool
    decreases p,
{
    match p {
        Pattern::PrefixSuffix(_, body, _) => loops_advance(*body),
        Pattern::Branch(ps) => forall|i: int| 0 <= i < ps.len() ==> loops_advance(#[trigger] ps[i]),
        Pattern::Connect(ps) => forall|i: int| 0 <= i < ps.len() ==> loops_advance(#[trigger] ps[i]),
        Pattern::RepeatStar(r) => takes_characters(*r) && loops_advance(*r),
        Pattern::RepeatPlus(r) => takes_characters(*r) && loops_advance(*r),
        Pattern::RepeatRange(r, _, _) => loops_advance(*r),
        Pattern::Maybe(r) => loops_advance(*r),
        Pattern::Group(r) => loops_advance(*r),
        Pattern::AnyChar => true,
        Pattern::CharClass(_, _) => true,
        Pattern::Literal(_) => true,
    }
}

/// What a pattern matches ends where it began or further on, and lies in
/// the text if it has a character.
pub proof fn lemma_match_in_text(p: Pattern, text: Seq<char>, i: int, j: int)
    requires
        is_match(p, text, i, j),
    ensures
        i <= j,
        i < j ==> 0 <= i && j <= text.len(),
    decreases p, 0int,
{
    match p {
        Pattern::PrefixSuffix(_, body, _) => lemma_match_in_text(*body, text, i, j),
        Pattern::Branch(ps) => {
            let k = choose|k: int| 0 <= k < ps.len() && is_match(#[trigger] ps[k], text, i, j);
            lemma_match_in_text(ps[k], text, i, j);
        },
        Pattern::Connect(ps) => lemma_all_in_text(ps, ps.len(), text, i, j),
        Pattern::RepeatStar(r) => lemma_star_in_text(*r, text, i, j),
        Pattern::RepeatPlus(r) => {
            let m = choose|m: int|
                #[trigger] between(i, m, j) && is_match(*r, text, i, m) && star_match(*r, text, m, j);
            lemma_match_in_text(*r, text, i, m);
            lemma_star_in_text(*r, text, m, j);
        },
        Pattern::RepeatRange(r, min, max) => {
            let n = choose|n: nat|
                #[trigger] between(min as int, n as int, max as int) && copies_match(*r, n, text, i, j);
            lemma_copies_in_text(*r, n, text, i, j);
        },
        Pattern::Maybe(r) => {
            if i != j {
                lemma_match_in_text(*r, text, i, j);
            }
        },
        Pattern::Group(r) => lemma_match_in_text(*r, text, i, j),
        Pattern::AnyChar => {},
        Pattern::CharClass(_, _) => {},
        Pattern::Literal(_) => {},
    }
}

/// What factors match one after another lies in the text if it has a character.
pub proof fn lemma_all_in_text(ps: Seq<Pattern>, n: nat, text: Seq<char>, i: int, j: int)
    requires
        all_match(ps, n, text, i, j),
    ensures
        i <= j,
        i < j ==> 0 <= i && j <= text.len(),
    decreases ps, n as int,
{
    if !(n == 0 || n > ps.len()) {
        let m = choose|m: int|
            #[trigger] between(i, m, j) && all_match(ps, (n - 1) as nat, text, i, m) && is_match(
                ps[n - 1],
                text,
                m,
                j,
            );
        lemma_all_in_text(ps, (n - 1) as nat, text, i, m);
        lemma_match_in_text(ps[n - 1], text, m, j);
    }
}

/// What copies match one after another lies in the text if it has a character.
pub proof fn lemma_copies_in_text(p: Pattern, n: nat, text: Seq<char>, i: int, j: int)
    requires
        copies_match(p, n, text, i, j),
    ensures
        i <= j,
        i < j ==> 0 <= i && j <= text.len(),
    decreases p, n as int,
{
    if n > 0 {
        let m = choose|m: int|
            #[trigger] between(i, m, j) && copies_match(p, (n - 1) as nat, text, i, m) && is_match(
                p,
                text,
                m,
                j,
            );
        lemma_copies_in_text(p, (n - 1) as nat, text, i, m);
        lemma_match_in_text(p, text, m, j);
    }
}

/// What a starred pattern matches lies in the text if it has a character.
pub proof fn lemma_star_in_text(p: Pattern, text: Seq<char>, i: int, j: int)
    requires
        star_match(p, text, i, j),
    ensures
        i <= j,
        i < j ==> 0 <= i && j <= text.len(),
    decreases p, j - i + 1,
{
    if i != j {
        let m = choose|m: int|
            #[trigger] between(i + 1, m, j) && is_match(p, text, i, m) && star_match(p, text, m, j);
        lemma_match_in_text(p, text, i, m);
        lemma_star_in_text(p, text, m, j);
    }
}

/// What a pattern that takes characters matches is not empty.
pub proof fn lemma_match_takes(p: Pattern, text: Seq<char>, i: int, j: int)
    requires
        takes_characters(p),
        is_match(p, text, i, j),
    ensures
        i < j,
    decreases p, 0int,
{
    match p {
        Pattern::PrefixSuffix(_, body, _) => lemma_match_takes(*body, text, i, j),
        Pattern::Branch(ps) => {
            let k = choose|k: int| 0 <= k < ps.len() && is_match(#[trigger] ps[k], text, i, j);
            lemma_match_takes(ps[k], text, i, j);
        },
        Pattern::Connect(ps) => {
            let k = choose|k: int| 0 <= k < ps.len() && takes_characters(#[trigger] ps[k]);
            lemma_all_take(ps, ps.len(), k, text, i, j);
        },
        Pattern::RepeatStar(_) => {},
        Pattern::RepeatPlus(r) => {
            let m = choose|m: int|
                #[trigger] between(i, m, j) && is_match(*r, text, i, m) && star_match(*r, text, m, j);
            lemma_match_takes(*r, text, i, m);
        },
        Pattern::RepeatRange(r, min, max) => {
            let n = choose|n: nat|
                #[trigger] between(min as int, n as int, max as int) && copies_match(*r, n, text, i, j);
            let m = choose|m: int|
                #[trigger] between(i, m, j) && copies_match(*r, (n - 1) as nat, text, i, m)
                    && is_match(*r, text, m, j);
            lemma_match_takes(*r, text, m, j);
        },
        Pattern::Maybe(_) => {},
        Pattern::Group(r) => lemma_match_takes(*r, text, i, j),
        Pattern::AnyChar => {},
        Pattern::CharClass(_, _) => {},
        Pattern::Literal(_) => {},
    }
}

/// What factors match one after another is not empty where one of them
/// takes characters.
pub proof fn lemma_all_take(ps: Seq<Pattern>, n: nat, k: int, text: Seq<char>, i: int, j: int)
    requires
        0 <= k < n <= ps.len(),
        takes_characters(ps[k]),
        all_match(ps, n, text, i, j),
    ensures
        i < j,
    decreases ps, n as int,
{
    let m = choose|m: int|
        #[trigger] between(i, m, j) && all_match(ps, (n - 1) as nat, text, i, m) && is_match(
            ps[n - 1],
            text,
            m,
            j,
        );
    if k == n - 1 {
        lemma_match_takes(ps[k], text, m, j);
    } else {
        lemma_all_take(ps, (n - 1) as nat, k, text, i, m);
    }
}

} // verus!
