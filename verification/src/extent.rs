//! How long the ways through the code of a pattern can be.

use crate::compiler::{CharTest, Op, Position};
use crate::embedding::holds_at;
use crate::fragment::{
    alternation, anchored, closed, counted, either, fragment, fragments, join,
    lemma_alternation_first, lemma_alternation_take, lemma_closed_add, lemma_closed_alternation,
    lemma_closed_join, lemma_closed_maybe, lemma_fragment_closed, lemma_join_take, maybe, plus,
    relocated, star, well_formed,
};
use crate::halting::{lemma_match_in_text, lemma_match_takes, loops_advance, takes_characters};
use crate::parser::Pattern;
use crate::soundness::{
    lemma_fragment_not_empty, lemma_holds_part, lemma_move_stays, lemma_passage_matches, passes,
};
use crate::trace::{is_way, lemma_way_part, moves, Point};
use vstd::prelude::*;

verus! {

/// `t` is a way from the first instruction of the code that stands at the
/// indices from `k` up to `k + len` of the program, and is in that code
/// everywhere but for its last point.
pub open spec fn explores(prog: Seq<Op>, text: Seq<char>, t: Seq<Point>, k: int, len: int) -> bool {
    &&& is_way(prog, text, t)
    &&& t[0].pc == k
    &&& forall|i: int| 0 <= i < t.len() - 1 ==> k <= (#[trigger] t[i]).pc < k + len
}

/// The index of the first point behind index `i` at which a way is outside
/// a closed code that it is in at `i`: there it is just behind the code.
/// Where the way stays in the code, that index is the length of the way.
proof fn lemma_leaves(prog: Seq<Op>, text: Seq<char>, t: Seq<Point>, code: Seq<Op>, k: int, i: int) -> (e:
    int)
    requires
        is_way(prog, text, t),
        closed(code),
        holds_at(prog, code, k),
        0 <= i < t.len(),
        k <= t[i].pc < k + code.len(),
    ensures
        i < e <= t.len(),
        forall|j: int| i <= j < e ==> k <= (#[trigger] t[j]).pc < k + code.len(),
        e < t.len() ==> t[e].pc == k + code.len(),
    decreases t.len() - i,
{
    if i == t.len() - 1 {
        t.len() as int
    } else {
        assert(moves(prog, text, t[i], t[i + 1]));
        lemma_move_stays(prog, text, code, k, t[i], t[i + 1]);
        if t[i + 1].pc == k + code.len() {
            i + 1
        } else {
            let e = lemma_leaves(prog, text, t, code, k, i + 1);
            e
        }
    }
}

/// The part of a way from index `i`, where it is at the start of a closed
/// code that lies at the end of a code that the way explores, explores the
/// closed code.
proof fn lemma_explores_end(
    prog: Seq<Op>,
    text: Seq<char>,
    t: Seq<Point>,
    k: int,
    len: int,
    code: Seq<Op>,
    inner: int,
    i: int,
)
    requires
        explores(prog, text, t, k, len),
        closed(code),
        holds_at(prog, code, inner),
        code.len() > 0,
        k <= inner,
        inner + code.len() == k + len,
        0 <= i < t.len(),
        t[i].pc == inner,
    ensures
        explores(prog, text, t.subrange(i, t.len() as int), inner, code.len() as int),
{
    let e = lemma_leaves(prog, text, t, code, inner, i);
    lemma_way_part(prog, text, t, i, t.len() as int);
    let rest = t.subrange(i, t.len() as int);
    assert forall|j: int| 0 <= j < rest.len() - 1 implies inner <= (#[trigger] rest[j]).pc < inner
        + code.len() by {
        assert(rest[j] == t[i + j]);
        if e < t.len() {
            assert(k <= t[e].pc < k + len || e == t.len() - 1);
        }
    }
}

/// A way that explores a code is also a way that explores a longer code
/// with the same start.
proof fn lemma_explores_more(prog: Seq<Op>, text: Seq<char>, t: Seq<Point>, k: int, len: int, more: int)
    requires
        explores(prog, text, t, k, len),
        len <= more,
    ensures
        explores(prog, text, t, k, more),
{
}

/// What comes of following a way into the first of two codes: the way
/// stays in it, or passes through it and goes on from the start of the
/// second.
pub struct Halves {
    pub first: Seq<Point>,
    pub second: Option<Seq<Point>>,
}

/// A way that explores two closed codes, one behind the other, explores
/// the first, or passes through the first and then explores the second.
proof fn lemma_explore_both(
    prog: Seq<Op>,
    text: Seq<char>,
    t: Seq<Point>,
    a: Seq<Op>,
    b: Seq<Op>,
    k: int,
) -> (r: Halves)
    requires
        closed(a),
        closed(b),
        a.len() > 0,
        b.len() > 0,
        holds_at(prog, a + b, k),
        explores(prog, text, t, k, (a + b).len() as int),
    ensures
        holds_at(prog, a, k),
        holds_at(prog, b, k + a.len()),
        explores(prog, text, r.first, k, a.len() as int),
        r.first[0] == t[0],
        match r.second {
            None => r.first == t,
            Some(second) => {
                &&& passes(prog, text, r.first, k, a.len() as int)
                &&& explores(prog, text, second, k + a.len(), b.len() as int)
                &&& second[0] == r.first.last()
                &&& t.len() == r.first.len() + second.len() - 1
            },
        },
{
    assert(Seq::<Op>::empty() + a + b =~= a + b);
    assert(a + b + Seq::<Op>::empty() =~= a + b);
    lemma_holds_part(prog, Seq::empty(), a, b, k);
    lemma_holds_part(prog, a, b, Seq::empty(), k);
    if t.len() == 1 {
        Halves { first: t, second: None }
    } else {
        let e = lemma_leaves(prog, text, t, a, k, 0);
        if e >= t.len() - 1 {
            Halves { first: t, second: None }
        } else {
            lemma_way_part(prog, text, t, 0, e + 1);
            let first = t.subrange(0, e + 1);
            assert forall|j: int| 0 <= j < first.len() - 1 implies k <= (#[trigger] first[j]).pc < k
                + a.len() by {
                assert(first[j] == t[j]);
            }
            lemma_explores_end(prog, text, t, k, (a + b).len() as int, b, k + a.len(), e);
            Halves { first, second: Some(t.subrange(e, t.len() as int)) }
        }
    }
}

/// A way that explores a code of one instruction which leads to the next
/// has at most one move.
proof fn lemma_explore_one(prog: Seq<Op>, text: Seq<char>, t: Seq<Point>, op: Op, k: int)
    requires
        holds_at(prog, seq![op], k),
        op is MatchChar || op is MatchPos || op is GroupParenL || op is GroupParenR,
        explores(prog, text, t, k, 1),
    ensures
        t.len() <= 2,
{
    let code = seq![op];
    assert(prog[k + 0] == relocated(code[0], k + 0));
    if t.len() > 2 {
        assert(moves(prog, text, t[0], t[1]));
        assert(k <= t[1].pc < k + 1);
    }
}

/// A way that explores a code with an instruction before it and one
/// behind it, each of which leads to the next, explores the code between
/// them after its first move, and makes at most one move behind it.
proof fn lemma_explore_wrapped(
    prog: Seq<Op>,
    text: Seq<char>,
    t: Seq<Point>,
    before: Op,
    body: Seq<Op>,
    after: Op,
    k: int,
) -> (sub: Seq<Point>)
    requires
        closed(body),
        body.len() > 0,
        before is MatchPos || before is GroupParenL,
        after is MatchPos || after is GroupParenR,
        holds_at(prog, seq![before] + body + seq![after], k),
        explores(prog, text, t, k, body.len() as int + 2),
        t.len() > 1,
    ensures
        holds_at(prog, body, k + 1),
        explores(prog, text, sub, k + 1, body.len() as int),
        sub[0].sp == t[0].sp,
        t.len() <= sub.len() + 2,
{
    let code = seq![before] + body + seq![after];
    let n = body.len() as int;
    lemma_holds_part(prog, seq![before], body, seq![after], k);
    assert(prog[k + 0] == relocated(code[0], k + 0));
    assert(moves(prog, text, t[0], t[1]));
    let e = lemma_leaves(prog, text, t, body, k + 1, 1);
    if e < t.len() - 1 {
        assert(prog[k + (n + 1)] == relocated(code[n + 1], k + (n + 1)));
        assert(moves(prog, text, t[e], t[e + 1]));
        if e + 1 < t.len() - 1 {
            assert(k <= t[e + 1].pc < k + (n + 2));
        }
        lemma_way_part(prog, text, t, 1, e + 1);
        let sub = t.subrange(1, e + 1);
        assert forall|j: int| 0 <= j < sub.len() - 1 implies k + 1 <= (#[trigger] sub[j]).pc < k + 1
            + n by {
            assert(sub[j] == t[1 + j]);
        }
        sub
    } else {
        lemma_way_part(prog, text, t, 1, t.len() as int);
        let sub = t.subrange(1, t.len() as int);
        assert forall|j: int| 0 <= j < sub.len() - 1 implies k + 1 <= (#[trigger] sub[j]).pc < k + 1
            + n by {
            assert(sub[j] == t[1 + j]);
        }
        sub
    }
}

/// A way that explores an anchored code makes at most one move, or
/// explores the body, with at most one move before it and one behind it.
proof fn lemma_explore_anchored(
    prog: Seq<Op>,
    text: Seq<char>,
    t: Seq<Point>,
    pre: bool,
    body: Seq<Op>,
    suf: bool,
    k: int,
) -> (r: Option<Seq<Point>>)
    requires
        closed(body),
        body.len() > 0,
        holds_at(prog, anchored(pre, body, suf), k),
        explores(prog, text, t, k, anchored(pre, body, suf).len() as int),
    ensures
        holds_at(prog, body, k + if pre { 1int } else { 0 }),
        match r {
            None => t.len() <= 2,
            Some(sub) => explores(prog, text, sub, k + if pre { 1int } else { 0 }, body.len() as int)
                && t.len() <= sub.len() + 2,
        },
{
    let front = seq![Op::MatchPos(Position::Front)];
    let back = seq![Op::MatchPos(Position::Back)];
    let rest_code = if suf {
        body + back
    } else {
        body
    };
    if suf {
        lemma_closed_add(body, back);
    }
    let after_front = if pre {
        assert(front + rest_code =~= anchored(pre, body, suf));
        let halves = lemma_explore_both(prog, text, t, front, rest_code, k);
        lemma_explore_one(prog, text, halves.first, Op::MatchPos(Position::Front), k);
        halves.second
    } else {
        assert(rest_code =~= anchored(pre, body, suf));
        Some(t)
    };
    let at = k + if pre { 1int } else { 0 };
    match after_front {
        None => {
            if suf {
                assert(Seq::<Op>::empty() + body + back =~= rest_code);
                lemma_holds_part(prog, front, body, back, k);
            } else {
                assert(body + Seq::<Op>::empty() =~= body);
                lemma_holds_part(prog, front, body, Seq::empty(), k);
            }
            None
        },
        Some(way) => {
            if suf {
                let halves = lemma_explore_both(prog, text, way, body, back, at);
                match halves.second {
                    None => {},
                    Some(tail) => {
                        lemma_explore_one(
                            prog,
                            text,
                            tail,
                            Op::MatchPos(Position::Back),
                            at + body.len(),
                        );
                    },
                }
                Some(halves.first)
            } else {
                if !pre {
                    assert(Seq::<Op>::empty() + body + Seq::<Op>::empty() =~= body);
                    lemma_holds_part(prog, Seq::empty(), body, Seq::empty(), k);
                }
                Some(way)
            }
        },
    }
}

/// A way that explores an optional code makes at most one move, or
/// explores the body after its first move.
proof fn lemma_explore_maybe(prog: Seq<Op>, text: Seq<char>, t: Seq<Point>, body: Seq<Op>, k: int) -> (r:
    Option<Seq<Point>>)
    requires
        closed(body),
        body.len() > 0,
        holds_at(prog, maybe(body), k),
        explores(prog, text, t, k, maybe(body).len() as int),
    ensures
        holds_at(prog, body, k + 1),
        match r {
            None => t.len() <= 2,
            Some(sub) => explores(prog, text, sub, k + 1, body.len() as int) && t.len() == sub.len()
                + 1,
        },
{
    let code = maybe(body);
    let n = body.len() as int;
    assert(seq![Op::Branch(1, 1 + n)] + body + Seq::<Op>::empty() =~= code);
    lemma_holds_part(prog, seq![Op::Branch(1, 1 + n)], body, Seq::empty(), k);
    if t.len() <= 1 {
        None
    } else {
        assert(prog[k + 0] == relocated(code[0], k + 0));
        assert(moves(prog, text, t[0], t[1]));
        if t[1].pc == k + 1 + n {
            if t.len() > 2 {
                assert(k <= t[1].pc < k + (1 + n));
            }
            None
        } else {
            lemma_explores_end(prog, text, t, k, 1 + n, body, k + 1, 1);
            Some(t.subrange(1, t.len() as int))
        }
    }
}

/// A way that explores two alternatives makes no move, or explores one of
/// them after its first move, and makes at most one move behind the first.
proof fn lemma_explore_either(
    prog: Seq<Op>,
    text: Seq<char>,
    t: Seq<Point>,
    x: Seq<Op>,
    y: Seq<Op>,
    k: int,
) -> (r: Option<(bool, Seq<Point>)>)
    requires
        closed(x),
        closed(y),
        x.len() > 0,
        y.len() > 0,
        holds_at(prog, either(x, y), k),
        explores(prog, text, t, k, either(x, y).len() as int),
    ensures
        holds_at(prog, x, k + 1),
        holds_at(prog, y, k + 2 + x.len()),
        match r {
            None => t.len() <= 1,
            Some((left, sub)) => if left {
                explores(prog, text, sub, k + 1, x.len() as int) && t.len() <= sub.len() + 2
            } else {
                explores(prog, text, sub, k + 2 + x.len(), y.len() as int) && t.len() == sub.len() + 1
            },
        },
{
    let code = either(x, y);
    let nx = x.len() as int;
    let ny = y.len() as int;
    let head = seq![Op::Branch(1, 2 + nx)];
    let mid = seq![Op::Jump(1 + ny)];
    assert(head + x + (mid + y) =~= code);
    assert(head + x + mid + y + Seq::<Op>::empty() =~= code);
    lemma_holds_part(prog, head, x, mid + y, k);
    lemma_holds_part(prog, head + x + mid, y, Seq::empty(), k);
    if t.len() <= 1 {
        None
    } else {
        assert(prog[k + 0] == relocated(code[0], k + 0));
        assert(moves(prog, text, t[0], t[1]));
        if t[1].pc == k + 1 {
            let e = lemma_leaves(prog, text, t, x, k + 1, 1);
            if e < t.len() - 1 {
                assert(prog[k + (nx + 1)] == relocated(code[nx + 1], k + (nx + 1)));
                assert(moves(prog, text, t[e], t[e + 1]));
                if e + 1 < t.len() - 1 {
                    assert(k <= t[e + 1].pc < k + (2 + nx + ny));
                }
                lemma_way_part(prog, text, t, 1, e + 1);
                let sub = t.subrange(1, e + 1);
                assert forall|j: int| 0 <= j < sub.len() - 1 implies k + 1 <= (#[trigger] sub[j]).pc
                    < k + 1 + nx by {
                    assert(sub[j] == t[1 + j]);
                }
                Some((true, sub))
            } else {
                lemma_way_part(prog, text, t, 1, t.len() as int);
                let sub = t.subrange(1, t.len() as int);
                assert forall|j: int| 0 <= j < sub.len() - 1 implies k + 1 <= (#[trigger] sub[j]).pc
                    < k + 1 + nx by {
                    assert(sub[j] == t[1 + j]);
                }
                Some((true, sub))
            }
        } else {
            lemma_explores_end(prog, text, t, k, 2 + nx + ny, y, k + 2 + nx, 1);
            Some((false, t.subrange(1, t.len() as int)))
        }
    }
}

/// What comes of following a way into a loop: the part in the body, and
/// the part from where the loop begins again.
pub struct Turn {
    pub body: Option<Seq<Point>>,
    pub rest: Option<Seq<Point>>,
}

/// A way that explores a starred code makes at most one move, or explores
/// the body after its first move, or passes through the body and then
/// explores the starred code again.
proof fn lemma_explore_star(prog: Seq<Op>, text: Seq<char>, t: Seq<Point>, body: Seq<Op>, k: int) -> (r:
    Turn)
    requires
        closed(body),
        body.len() > 0,
        holds_at(prog, star(body), k),
        explores(prog, text, t, k, star(body).len() as int),
    ensures
        holds_at(prog, body, k + 1),
        match r.body {
            None => t.len() <= 2,
            Some(sub) => {
                &&& explores(prog, text, sub, k + 1, body.len() as int)
                &&& sub[0].sp == t[0].sp
                &&& match r.rest {
                    None => t.len() == sub.len() + 1,
                    Some(rest) => {
                        &&& passes(prog, text, sub, k + 1, body.len() as int)
                        &&& explores(prog, text, rest, k, star(body).len() as int)
                        &&& rest[0].sp == sub.last().sp
                        &&& t.len() == 1 + sub.len() + rest.len()
                    },
                }
            },
        },
{
    let code = star(body);
    let n = body.len() as int;
    lemma_holds_part(prog, seq![Op::Branch(1, 2 + n)], body, seq![Op::Jump(-(1 + n))], k);
    if t.len() <= 1 {
        Turn { body: None, rest: None }
    } else {
        assert(prog[k + 0] == relocated(code[0], k + 0));
        assert(moves(prog, text, t[0], t[1]));
        if t[1].pc == k + 2 + n {
            if t.len() > 2 {
                assert(k <= t[1].pc < k + (2 + n));
            }
            Turn { body: None, rest: None }
        } else {
            let e = lemma_leaves(prog, text, t, body, k + 1, 1);
            if e < t.len() - 1 {
                assert(prog[k + (n + 1)] == relocated(code[n + 1], k + (n + 1)));
                assert(moves(prog, text, t[e], t[e + 1]));
                lemma_way_part(prog, text, t, 1, e + 1);
                let sub = t.subrange(1, e + 1);
                assert forall|j: int| 0 <= j < sub.len() - 1 implies k + 1 <= (#[trigger] sub[j]).pc
                    < k + 1 + n by {
                    assert(sub[j] == t[1 + j]);
                }
                lemma_way_part(prog, text, t, e + 1, t.len() as int);
                let rest = t.subrange(e + 1, t.len() as int);
                assert forall|j: int| 0 <= j < rest.len() - 1 implies k <= (#[trigger] rest[j]).pc < k
                    + (n + 2) by {
                    assert(rest[j] == t[e + 1 + j]);
                }
                Turn { body: Some(sub), rest: Some(rest) }
            } else {
                lemma_way_part(prog, text, t, 1, t.len() as int);
                let sub = t.subrange(1, t.len() as int);
                assert forall|j: int| 0 <= j < sub.len() - 1 implies k + 1 <= (#[trigger] sub[j]).pc
                    < k + 1 + n by {
                    assert(sub[j] == t[1 + j]);
                }
                Turn { body: Some(sub), rest: None }
            }
        }
    }
}

/// A way that explores a code with a plus explores the body, and makes at
/// most one move behind it; or it passes through the body and then
/// explores the code with the plus again.
proof fn lemma_explore_plus(prog: Seq<Op>, text: Seq<char>, t: Seq<Point>, body: Seq<Op>, k: int) -> (r:
    Halves)
    requires
        closed(body),
        body.len() > 0,
        holds_at(prog, plus(body), k),
        explores(prog, text, t, k, plus(body).len() as int),
    ensures
        holds_at(prog, body, k),
        explores(prog, text, r.first, k, body.len() as int),
        r.first[0] == t[0],
        match r.second {
            None => t.len() <= r.first.len() + 1,
            Some(rest) => {
                &&& passes(prog, text, r.first, k, body.len() as int)
                &&& explores(prog, text, rest, k, plus(body).len() as int)
                &&& rest[0].sp == r.first.last().sp
                &&& t.len() == r.first.len() + rest.len()
            },
        },
{
    let code = plus(body);
    let n = body.len() as int;
    assert(Seq::<Op>::empty() + body + seq![Op::Branch(-n, 1)] =~= code);
    lemma_holds_part(prog, Seq::empty(), body, seq![Op::Branch(-n, 1)], k);
    let e = lemma_leaves(prog, text, t, body, k, 0);
    if e < t.len() - 1 {
        assert(prog[k + n] == relocated(code[n], k + n));
        assert(moves(prog, text, t[e], t[e + 1]));
        lemma_way_part(prog, text, t, 0, e + 1);
        let first = t.subrange(0, e + 1);
        assert forall|j: int| 0 <= j < first.len() - 1 implies k <= (#[trigger] first[j]).pc < k + n by {
            assert(first[j] == t[j]);
        }
        if t[e + 1].pc == k + n + 1 {
            if e + 1 < t.len() - 1 {
                assert(k <= t[e + 1].pc < k + (n + 1));
            }
            Halves { first, second: None }
        } else {
            lemma_way_part(prog, text, t, e + 1, t.len() as int);
            let rest = t.subrange(e + 1, t.len() as int);
            assert forall|j: int| 0 <= j < rest.len() - 1 implies k <= (#[trigger] rest[j]).pc < k + (n
                + 1) by {
                assert(rest[j] == t[e + 1 + j]);
            }
            Halves { first, second: Some(rest) }
        }
    } else {
        assert forall|j: int| 0 <= j < t.len() - 1 implies k <= (#[trigger] t[j]).pc < k + n by {}
        Halves { first: t, second: None }
    }
}

/// `n` times `x`.
pub open spec fn times(n: nat, x: nat) -> nat
    decreases n,
{
    if n == 0 {
        0
    } else {
        times((n - 1) as nat, x) + x
    }
}

/// More times the same is not less.
pub proof fn lemma_times_more(n: nat, m: nat, x: nat)
    requires
        n <= m,
    ensures
        times(n, x) <= times(m, x),
    decreases m,
{
    if n < m {
        lemma_times_more(n, (m - 1) as nat, x);
    }
}

/// A number of moves that no way through the code of `p` exceeds, on a
/// text of `len` characters, where the loops of `p` advance.
pub open spec fn moves_bound(p: Pattern, len: nat) -> nat
    decreases p, 0int,
{
    match p {
        Pattern::PrefixSuffix(_, body, _) => moves_bound(*body, len) + 2,
        Pattern::Branch(ps) => moves_sum(ps, ps.len(), len, 2),
        Pattern::Connect(ps) => moves_sum(ps, ps.len(), len, 0),
        Pattern::RepeatStar(r) => times(len + 1, moves_bound(*r, len) + 2),
        Pattern::RepeatPlus(r) => times(len + 1, moves_bound(*r, len) + 1),
        Pattern::RepeatRange(r, _, max) => times(max, moves_bound(*r, len) + 1),
        Pattern::Maybe(r) => moves_bound(*r, len) + 1,
        Pattern::Group(r) => moves_bound(*r, len) + 2,
        Pattern::AnyChar => 1,
        Pattern::CharClass(_, _) => 1,
        Pattern::Literal(_) => 1,
    }
}

/// The bounds of the first `n` members of `ps`, and `extra` more for each.
pub open spec fn moves_sum(ps: Seq<Pattern>, n: nat, len: nat, extra: nat) -> nat
    decreases ps, n as int,
{
    if n == 0 || n > ps.len() {
        0
    } else {
        moves_sum(ps, (n - 1) as nat, len, extra) + moves_bound(ps[n - 1], len) + extra
    }
}

/// The characters of `text` from offset `sp` on, as a number.
pub open spec fn left(text: Seq<char>, sp: int) -> nat {
    if 0 <= sp <= text.len() {
        (text.len() - sp) as nat
    } else {
        0
    }
}

/// A way that explores no code is a single point.
proof fn lemma_explore_nothing(prog: Seq<Op>, text: Seq<char>, t: Seq<Point>, k: int)
    requires
        explores(prog, text, t, k, 0),
    ensures
        t.len() <= 1,
{
    if t.len() > 1 {
        assert(k <= t[0].pc < k + 0);
    }
}

/// A passage through the code of a pattern that takes characters ends
/// further on in the text than it began.
proof fn lemma_passage_advances(p: Pattern, prog: Seq<Op>, k: int, text: Seq<char>, t: Seq<Point>)
    requires
        well_formed(p),
        takes_characters(p),
        holds_at(prog, fragment(p), k),
        passes(prog, text, t, k, fragment(p).len() as int),
    ensures
        left(text, t.last().sp) < left(text, t[0].sp),
{
    lemma_passage_matches(p, prog, k, text, t);
    lemma_match_takes(p, text, t[0].sp, t.last().sp);
    lemma_match_in_text(p, text, t[0].sp, t.last().sp);
}

/// No way through the code of a well-formed pattern whose loops advance
/// has more moves than the bound.
pub proof fn lemma_explore_bound(p: Pattern, prog: Seq<Op>, k: int, text: Seq<char>, t: Seq<Point>)
    requires
        well_formed(p),
        loops_advance(p),
        holds_at(prog, fragment(p), k),
        explores(prog, text, t, k, fragment(p).len() as int),
    ensures
        t.len() <= moves_bound(p, text.len()) + 1,
    decreases p, 0nat, 0nat,
{
    let len = text.len();
    match p {
        Pattern::PrefixSuffix(pre, body, suf) => {
            lemma_fragment_closed(*body);
            lemma_fragment_not_empty(*body);
            match lemma_explore_anchored(prog, text, t, pre, fragment(*body), suf, k) {
                None => {},
                Some(sub) => {
                    lemma_explore_bound(*body, prog, k + if pre { 1int } else { 0 }, text, sub);
                },
            }
        },
        Pattern::Branch(ps) => {
            assert(fragments(ps).take(ps.len() as int) == fragments(ps));
            lemma_alternatives_bound(ps, ps.len(), prog, k, text, t);
        },
        Pattern::Connect(ps) => {
            assert(fragments(ps).take(ps.len() as int) == fragments(ps));
            lemma_factors_bound(ps, ps.len(), prog, k, text, t);
        },
        Pattern::RepeatStar(r) => {
            lemma_star_bound(*r, prog, k, text, t);
            lemma_times_more(left(text, t[0].sp) + 1, len + 1, moves_bound(*r, len) + 2);
        },
        Pattern::RepeatPlus(r) => {
            lemma_plus_bound(*r, prog, k, text, t);
            lemma_times_more(left(text, t[0].sp) + 1, len + 1, moves_bound(*r, len) + 1);
        },
        Pattern::RepeatRange(r, min, max) => {
            assert(counted(fragment(*r), min, max).take(max as int) == counted(
                fragment(*r),
                min,
                max,
            ));
            lemma_counted_bound(*r, min, max, max, prog, k, text, t);
        },
        Pattern::Maybe(r) => {
            lemma_fragment_closed(*r);
            lemma_fragment_not_empty(*r);
            match lemma_explore_maybe(prog, text, t, fragment(*r), k) {
                None => {},
                Some(sub) => {
                    lemma_explore_bound(*r, prog, k + 1, text, sub);
                },
            }
        },
        Pattern::Group(r) => {
            lemma_fragment_closed(*r);
            lemma_fragment_not_empty(*r);
            if t.len() > 1 {
                let sub = lemma_explore_wrapped(
                    prog,
                    text,
                    t,
                    Op::GroupParenL,
                    fragment(*r),
                    Op::GroupParenR,
                    k,
                );
                lemma_explore_bound(*r, prog, k + 1, text, sub);
            }
        },
        Pattern::AnyChar => {
            lemma_explore_one(prog, text, t, Op::MatchChar(CharTest::Any), k);
        },
        Pattern::CharClass(negated, members) => {
            lemma_explore_one(
                prog,
                text,
                t,
                Op::MatchChar(CharTest::CharClass(negated, members)),
                k,
            );
        },
        Pattern::Literal(c) => {
            lemma_explore_one(prog, text, t, Op::MatchChar(CharTest::Literal(c)), k);
        },
    }
}

/// No way through a starred code has more moves than one turn of the loop
/// for each character that is left, and one more.
proof fn lemma_star_bound(r: Pattern, prog: Seq<Op>, k: int, text: Seq<char>, t: Seq<Point>)
    requires
        well_formed(r),
        loops_advance(r),
        takes_characters(r),
        holds_at(prog, star(fragment(r)), k),
        explores(prog, text, t, k, star(fragment(r)).len() as int),
    ensures
        t.len() <= times(left(text, t[0].sp) + 1, moves_bound(r, text.len()) + 2) + 1,
    decreases r, 1nat, t.len(),
{
    let b = moves_bound(r, text.len());
    let here = left(text, t[0].sp);
    lemma_fragment_closed(r);
    lemma_fragment_not_empty(r);
    let turn = lemma_explore_star(prog, text, t, fragment(r), k);
    lemma_times_more(1, here + 1, b + 2);
    assert(times(1, b + 2) == b + 2) by {
        reveal_with_fuel(times, 2);
    }
    match turn.body {
        None => {},
        Some(sub) => {
            lemma_explore_bound(r, prog, k + 1, text, sub);
            match turn.rest {
                None => {},
                Some(rest) => {
                    lemma_passage_advances(r, prog, k + 1, text, sub);
                    lemma_star_bound(r, prog, k, text, rest);
                    let there = left(text, rest[0].sp);
                    lemma_times_more(there + 2, here + 1, b + 2);
                },
            }
        },
    }
}

/// No way through a code with a plus has more moves than one turn of the
/// loop for each character that is left, and one more.
proof fn lemma_plus_bound(r: Pattern, prog: Seq<Op>, k: int, text: Seq<char>, t: Seq<Point>)
    requires
        well_formed(r),
        loops_advance(r),
        takes_characters(r),
        holds_at(prog, plus(fragment(r)), k),
        explores(prog, text, t, k, plus(fragment(r)).len() as int),
    ensures
        t.len() <= times(left(text, t[0].sp) + 1, moves_bound(r, text.len()) + 1) + 1,
    decreases r, 1nat, t.len(),
{
    let b = moves_bound(r, text.len());
    let here = left(text, t[0].sp);
    lemma_fragment_closed(r);
    lemma_fragment_not_empty(r);
    let halves = lemma_explore_plus(prog, text, t, fragment(r), k);
    lemma_times_more(1, here + 1, b + 1);
    assert(times(1, b + 1) == b + 1) by {
        reveal_with_fuel(times, 2);
    }
    lemma_explore_bound(r, prog, k, text, halves.first);
    match halves.second {
        None => {},
        Some(rest) => {
            lemma_passage_advances(r, prog, k, text, halves.first);
            lemma_plus_bound(r, prog, k, text, rest);
            let there = left(text, rest[0].sp);
            lemma_times_more(there + 2, here + 1, b + 1);
        },
    }
}

/// No way through the code of the first `n` alternatives has more moves
/// than their bounds together, and two more for each.
proof fn lemma_alternatives_bound(
    ps: Seq<Pattern>,
    n: nat,
    prog: Seq<Op>,
    k: int,
    text: Seq<char>,
    t: Seq<Point>,
)
    requires
        1 <= n <= ps.len(),
        forall|i: int| 0 <= i < ps.len() ==> well_formed(#[trigger] ps[i]),
        forall|i: int| 0 <= i < ps.len() ==> loops_advance(#[trigger] ps[i]),
        holds_at(prog, alternation(fragments(ps).take(n as int)), k),
        explores(prog, text, t, k, alternation(fragments(ps).take(n as int)).len() as int),
    ensures
        t.len() <= moves_sum(ps, n, text.len(), 2) + 1,
    decreases ps, n, 0nat,
{
    let parts = fragments(ps);
    lemma_alternation_first(parts.take(n as int));
    assert(parts.take(n as int).take(1) == parts.take(1));
    lemma_alternation_first(parts);
    if n == 1 {
        lemma_explore_bound(ps[0], prog, k, text, t);
        assert(moves_sum(ps, 1, text.len(), 2) == moves_bound(ps[0], text.len()) + 2) by {
            reveal_with_fuel(moves_sum, 2);
        }
    } else {
        let last = (n - 1) as nat;
        lemma_alternation_take(parts, last as int);
        let x = alternation(parts.take(last as int));
        let y = parts[last as int];
        assert forall|i: int| 0 <= i < parts.take(last as int).len() implies closed(
            #[trigger] parts.take(last as int)[i],
        ) by {
            lemma_fragment_closed(ps[i]);
        }
        lemma_closed_alternation(parts.take(last as int));
        lemma_alternation_first(parts.take(last as int));
        lemma_fragment_not_empty(ps[0]);
        lemma_fragment_closed(ps[last as int]);
        lemma_fragment_not_empty(ps[last as int]);
        match lemma_explore_either(prog, text, t, x, y, k) {
            None => {},
            Some((left, sub)) => {
                if left {
                    lemma_alternatives_bound(ps, last, prog, k + 1, text, sub);
                } else {
                    lemma_explore_bound(ps[last as int], prog, k + 2 + x.len(), text, sub);
                }
            },
        }
    }
}

/// No way through the code of the first `n` factors has more moves than
/// their bounds together.
proof fn lemma_factors_bound(
    ps: Seq<Pattern>,
    n: nat,
    prog: Seq<Op>,
    k: int,
    text: Seq<char>,
    t: Seq<Point>,
)
    requires
        n <= ps.len(),
        forall|i: int| 0 <= i < ps.len() ==> well_formed(#[trigger] ps[i]),
        forall|i: int| 0 <= i < ps.len() ==> loops_advance(#[trigger] ps[i]),
        holds_at(prog, join(fragments(ps).take(n as int)), k),
        explores(prog, text, t, k, join(fragments(ps).take(n as int)).len() as int),
    ensures
        t.len() <= moves_sum(ps, n, text.len(), 0) + 1,
    decreases ps, n, 0nat,
{
    let parts = fragments(ps);
    if n == 0 {
        assert(parts.take(0).len() == 0);
        lemma_explore_nothing(prog, text, t, k);
    } else {
        let last = (n - 1) as nat;
        lemma_join_take(parts, last as int);
        let x = join(parts.take(last as int));
        let y = parts[last as int];
        lemma_fragment_closed(ps[last as int]);
        lemma_fragment_not_empty(ps[last as int]);
        if x.len() == 0 {
            assert(x + y =~= y);
            lemma_explore_bound(ps[last as int], prog, k, text, t);
        } else {
            assert forall|i: int| 0 <= i < parts.take(last as int).len() implies closed(
                #[trigger] parts.take(last as int)[i],
            ) by {
                lemma_fragment_closed(ps[i]);
            }
            lemma_closed_join(parts.take(last as int));
            let halves = lemma_explore_both(prog, text, t, x, y, k);
            lemma_factors_bound(ps, last, prog, k, text, halves.first);
            match halves.second {
                None => {},
                Some(second) => {
                    lemma_explore_bound(ps[last as int], prog, k + x.len(), text, second);
                },
            }
        }
    }
}

/// No way through the first `n` parts of a counted repetition has more
/// moves than `n` times the bound of the body and one.
proof fn lemma_counted_bound(
    r: Pattern,
    min: nat,
    max: nat,
    n: nat,
    prog: Seq<Op>,
    k: int,
    text: Seq<char>,
    t: Seq<Point>,
)
    requires
        n <= max,
        well_formed(r),
        loops_advance(r),
        holds_at(prog, join(counted(fragment(r), min, max).take(n as int)), k),
        explores(prog, text, t, k, join(counted(fragment(r), min, max).take(n as int)).len() as int),
    ensures
        t.len() <= times(n, moves_bound(r, text.len()) + 1) + 1,
    decreases r, n + 1, 0nat,
{
    let body = fragment(r);
    let parts = counted(body, min, max);
    let b = moves_bound(r, text.len());
    if n == 0 {
        assert(parts.take(0).len() == 0);
        lemma_explore_nothing(prog, text, t, k);
    } else {
        let last = (n - 1) as nat;
        lemma_join_take(parts, last as int);
        let x = join(parts.take(last as int));
        let y = parts[last as int];
        lemma_fragment_closed(r);
        lemma_fragment_not_empty(r);
        lemma_closed_maybe(body);
        let (way, at) = if x.len() == 0 {
            assert(x + y =~= y);
            (Some(t), k)
        } else {
            lemma_closed_join(parts.take(last as int));
            let halves = lemma_explore_both(prog, text, t, x, y, k);
            lemma_counted_bound(r, min, max, last, prog, k, text, halves.first);
            (halves.second, k + x.len())
        };
        match way {
            None => {},
            Some(second) => {
                if last < min {
                    lemma_explore_bound(r, prog, at, text, second);
                } else {
                    match lemma_explore_maybe(prog, text, second, body, at) {
                        None => {},
                        Some(sub) => {
                            lemma_explore_bound(r, prog, at + 1, text, sub);
                        },
                    }
                }
            },
        }
    }
}

} // verus!
