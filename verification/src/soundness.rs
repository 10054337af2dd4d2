//! Every way through the code of a pattern is a match of the pattern.

use crate::compiler::{CharTest, Op, Position};
use crate::fragment::{
    alternation, anchored, closed, counted, either, fragment, fragments, group, join, lands_within,
    lemma_alternation_first, lemma_alternation_take, lemma_closed_add, lemma_closed_alternation,
    lemma_closed_join,
    lemma_closed_maybe, lemma_fragment_closed, lemma_join_part, lemma_join_take, maybe, plus,
    relocated, star, well_formed,
};
use crate::embedding::holds_at;
use crate::parser::Pattern;
use crate::semantics::{all_match, between, copies_match, is_match, one_char, star_match};
use crate::trace::{is_way, lemma_way_part, lemma_way_rises, moves, Point};
use vstd::prelude::*;

verus! {

/// `t` passes through the code that stands at the indices from `k` up to
/// `k + len` of the program: it begins at the first of them, ends just
/// behind the last, and is at one of them everywhere between.
pub open spec fn passes(prog: Seq<Op>, text: Seq<char>, t: Seq<Point>, k: int, len: int) -> bool {
    &&& is_way(prog, text, t)
    &&& t[0].pc == k
    &&& t.last().pc == k + len
    &&& forall|i: int| 0 <= i < t.len() - 1 ==> k <= (#[trigger] t[i]).pc < k + len
}

/// Where a program holds a code, it holds each part of that code.
pub proof fn lemma_holds_part(prog: Seq<Op>, before: Seq<Op>, code: Seq<Op>, after: Seq<Op>, k: int)
    requires
        holds_at(prog, before + code + after, k),
    ensures
        holds_at(prog, code, k + before.len()),
{
    let whole = before + code + after;
    assert forall|i: int| 0 <= i < code.len() implies #[trigger] prog[k + before.len() + i]
        == relocated(code[i], k + before.len() + i) by {
        assert(whole[before.len() + i] == code[i]);
        assert(prog[k + (before.len() + i)] == relocated(whole[before.len() + i], k + (before.len() + i)));
    }
}

/// A move from an instruction of a closed code stays in the code or ends
/// just behind it.
pub proof fn lemma_move_stays(prog: Seq<Op>, text: Seq<char>, code: Seq<Op>, k: int, a: Point, b: Point)
    requires
        closed(code),
        holds_at(prog, code, k),
        k <= a.pc < k + code.len(),
        moves(prog, text, a, b),
    ensures
        k <= b.pc <= k + code.len(),
{
    let i = a.pc - k;
    assert(prog[k + i] == relocated(code[i], k + i));
    assert(lands_within(code[i], i, code.len() as int));
}

/// A way that is in a closed code and ends outside it leaves the code just
/// behind its last instruction: the index of the first point outside.
pub proof fn lemma_first_exit(
    prog: Seq<Op>,
    text: Seq<char>,
    t: Seq<Point>,
    code: Seq<Op>,
    k: int,
    i: int,
) -> (e: int)
    requires
        is_way(prog, text, t),
        closed(code),
        holds_at(prog, code, k),
        0 <= i < t.len(),
        k <= t[i].pc < k + code.len(),
        !(k <= t.last().pc < k + code.len()),
    ensures
        i < e < t.len(),
        t[e].pc == k + code.len(),
        forall|j: int| i <= j < e ==> k <= (#[trigger] t[j]).pc < k + code.len(),
    decreases t.len() - i,
{
    assert(i < t.len() - 1);
    assert(moves(prog, text, t[i], t[i + 1]));
    lemma_move_stays(prog, text, code, k, t[i], t[i + 1]);
    if t[i + 1].pc == k + code.len() {
        i + 1
    } else {
        lemma_first_exit(prog, text, t, code, k, i + 1)
    }
}

/// The part of a way from an entry of a closed code to where it first
/// leaves the code passes through the code.
pub proof fn lemma_passage(
    prog: Seq<Op>,
    text: Seq<char>,
    t: Seq<Point>,
    code: Seq<Op>,
    k: int,
    i: int,
) -> (e: int)
    requires
        is_way(prog, text, t),
        closed(code),
        holds_at(prog, code, k),
        0 <= i < t.len(),
        t[i].pc == k,
        code.len() > 0,
        !(k <= t.last().pc < k + code.len()),
    ensures
        i < e < t.len(),
        passes(prog, text, t.subrange(i, e + 1), k, code.len() as int),
        t.subrange(i, e + 1)[0] == t[i],
        t.subrange(i, e + 1).last() == t[e],
{
    let e = lemma_first_exit(prog, text, t, code, k, i);
    lemma_way_part(prog, text, t, i, e + 1);
    let part = t.subrange(i, e + 1);
    assert forall|j: int| 0 <= j < part.len() - 1 implies k <= (#[trigger] part[j]).pc < k
        + code.len() by {
        assert(part[j] == t[i + j]);
    }
    e
}

/// The fragment of a well-formed pattern has an instruction.
pub proof fn lemma_fragment_not_empty(p: Pattern)
    requires
        well_formed(p),
    ensures
        fragment(p).len() > 0,
    decreases p,
{
    match p {
        Pattern::PrefixSuffix(_, body, _) => {
            lemma_fragment_not_empty(*body);
        },
        Pattern::Branch(ps) => {
            lemma_fragment_not_empty(ps[0]);
            lemma_alternation_first(fragments(ps));
        },
        Pattern::Connect(ps) => {
            lemma_fragment_not_empty(ps[0]);
            lemma_join_part(fragments(ps), 0);
        },
        Pattern::RepeatRange(r, min, max) => {
            lemma_fragment_not_empty(*r);
            lemma_join_part(counted(fragment(*r), min, max), 0);
        },
        _ => {},
    }
}

/// In a passage, a point just behind the code is the last one.
proof fn lemma_out_is_last(prog: Seq<Op>, text: Seq<char>, t: Seq<Point>, k: int, len: int, e: int)
    requires
        passes(prog, text, t, k, len),
        0 <= e < t.len(),
        t[e].pc == k + len,
    ensures
        e == t.len() - 1,
{
}

/// The end of a passage is a passage from wherever the way is at the first
/// instruction of the code.
proof fn lemma_passage_rest(prog: Seq<Op>, text: Seq<char>, t: Seq<Point>, k: int, len: int, a: int)
    requires
        passes(prog, text, t, k, len),
        0 <= a < t.len(),
        t[a].pc == k,
    ensures
        passes(prog, text, t.subrange(a, t.len() as int), k, len),
        t.subrange(a, t.len() as int)[0] == t[a],
        t.subrange(a, t.len() as int).last() == t.last(),
{
    lemma_way_part(prog, text, t, a, t.len() as int);
    let rest = t.subrange(a, t.len() as int);
    assert forall|i: int| 0 <= i < rest.len() - 1 implies k <= (#[trigger] rest[i]).pc < k + len by {
        assert(rest[i] == t[a + i]);
    }
}

/// A passage through one test takes one character that passes the test.
proof fn lemma_through_test(prog: Seq<Op>, text: Seq<char>, t: Seq<Point>, test: CharTest, k: int)
    requires
        holds_at(prog, seq![Op::MatchChar(test)], k),
        passes(prog, text, t, k, 1),
    ensures
        one_char(test, text, t[0].sp, t.last().sp),
{
    let code = seq![Op::MatchChar(test)];
    assert(prog[k + 0] == relocated(code[0], k + 0));
    assert(moves(prog, text, t[0], t[1]));
    lemma_out_is_last(prog, text, t, k, 1, 1);
}

/// A passage through two codes that stand one behind the other is a
/// passage through the first and then one through the second.
proof fn lemma_through_both(
    prog: Seq<Op>,
    text: Seq<char>,
    t: Seq<Point>,
    a: Seq<Op>,
    b: Seq<Op>,
    k: int,
) -> (r: (Seq<Point>, Seq<Point>))
    requires
        closed(a),
        closed(b),
        holds_at(prog, a + b, k),
        passes(prog, text, t, k, (a + b).len() as int),
    ensures
        passes(prog, text, r.0, k, a.len() as int),
        passes(prog, text, r.1, k + a.len(), b.len() as int),
        holds_at(prog, a, k),
        holds_at(prog, b, k + a.len()),
        r.0[0].sp == t[0].sp,
        r.0.last().sp == r.1[0].sp,
        r.1.last().sp == t.last().sp,
        r.0.len() <= t.len(),
        r.1.len() <= t.len(),
{
    assert(Seq::<Op>::empty() + a + b =~= a + b);
    assert(a + b + Seq::<Op>::empty() =~= a + b);
    lemma_holds_part(prog, Seq::empty(), a, b, k);
    lemma_holds_part(prog, a, b, Seq::empty(), k);
    if a.len() == 0 {
        let first = seq![t[0]];
        (first, t)
    } else if b.len() == 0 {
        let second = seq![t.last()];
        (t, second)
    } else {
        let e = lemma_passage(prog, text, t, a, k, 0);
        let first = t.subrange(0, e + 1);
        let e2 = lemma_passage(prog, text, t, b, k + a.len(), e);
        lemma_out_is_last(prog, text, t, k, (a + b).len() as int, e2);
        let second = t.subrange(e, t.len() as int);
        (first, second)
    }
}

/// A passage through one anchor takes no character, and is at the place
/// that the anchor asks for.
proof fn lemma_through_anchor(prog: Seq<Op>, text: Seq<char>, t: Seq<Point>, at: Position, k: int)
    requires
        holds_at(prog, seq![Op::MatchPos(at)], k),
        passes(prog, text, t, k, 1),
    ensures
        t.last().sp == t[0].sp,
        at == Position::Front ==> t[0].sp == 0,
        at == Position::Back ==> t[0].sp == text.len(),
{
    let code = seq![Op::MatchPos(at)];
    assert(prog[k + 0] == relocated(code[0], k + 0));
    assert(moves(prog, text, t[0], t[1]));
    lemma_out_is_last(prog, text, t, k, 1, 1);
}

/// A passage through no code is a single point.
proof fn lemma_through_nothing(prog: Seq<Op>, text: Seq<char>, t: Seq<Point>, k: int)
    requires
        passes(prog, text, t, k, 0),
    ensures
        t.len() == 1,
{
    if t.len() > 1 {
        assert(k <= t[0].pc < k + 0);
    }
}

/// A passage through an anchored code is a passage through its body, from
/// offset 0 where `^` stands and to the end of the text where `$` stands.
proof fn lemma_through_anchored(
    prog: Seq<Op>,
    text: Seq<char>,
    t: Seq<Point>,
    pre: bool,
    body: Seq<Op>,
    suf: bool,
    k: int,
) -> (sub: Seq<Point>)
    requires
        closed(body),
        holds_at(prog, anchored(pre, body, suf), k),
        passes(prog, text, t, k, anchored(pre, body, suf).len() as int),
    ensures
        passes(prog, text, sub, k + if pre { 1int } else { 0 }, body.len() as int),
        holds_at(prog, body, k + if pre { 1int } else { 0 }),
        sub[0].sp == t[0].sp,
        sub.last().sp == t.last().sp,
        sub.len() <= t.len(),
        pre ==> t[0].sp == 0,
        suf ==> t.last().sp == text.len(),
{
    let front = if pre {
        seq![Op::MatchPos(Position::Front)]
    } else {
        Seq::empty()
    };
    let back = if suf {
        seq![Op::MatchPos(Position::Back)]
    } else {
        Seq::empty()
    };
    lemma_closed_add(front, body);
    let (most, end) = lemma_through_both(prog, text, t, front + body, back, k);
    let (begin, sub) = lemma_through_both(prog, text, most, front, body, k);
    if pre {
        lemma_through_anchor(prog, text, begin, Position::Front, k);
    } else {
        lemma_through_nothing(prog, text, begin, k);
    }
    if suf {
        lemma_through_anchor(prog, text, end, Position::Back, k + front.len() + body.len());
    } else {
        lemma_through_nothing(prog, text, end, k + front.len() + body.len());
    }
    sub
}

/// A passage through a group is a passage through its body.
proof fn lemma_through_group(prog: Seq<Op>, text: Seq<char>, t: Seq<Point>, body: Seq<Op>, k: int) -> (sub:
    Seq<Point>)
    requires
        closed(body),
        body.len() > 0,
        holds_at(prog, group(body), k),
        passes(prog, text, t, k, group(body).len() as int),
    ensures
        passes(prog, text, sub, k + 1, body.len() as int),
        holds_at(prog, body, k + 1),
        sub[0].sp == t[0].sp,
        sub.last().sp == t.last().sp,
        sub.len() <= t.len(),
{
    let code = group(body);
    let n = body.len() as int;
    lemma_holds_part(prog, seq![Op::GroupParenL], body, seq![Op::GroupParenR], k);
    assert(prog[k + 0] == relocated(code[0], k + 0));
    assert(moves(prog, text, t[0], t[1]));
    let e = lemma_passage(prog, text, t, body, k + 1, 1);
    assert(prog[k + (n + 1)] == relocated(code[n + 1], k + (n + 1)));
    assert(moves(prog, text, t[e], t[e + 1]));
    lemma_out_is_last(prog, text, t, k, code.len() as int, e + 1);
    t.subrange(1, e + 1)
}

/// A passage through an optional code skips its body, or is a passage
/// through the body.
proof fn lemma_through_maybe(prog: Seq<Op>, text: Seq<char>, t: Seq<Point>, body: Seq<Op>, k: int) -> (r:
    Option<Seq<Point>>)
    requires
        closed(body),
        body.len() > 0,
        holds_at(prog, maybe(body), k),
        passes(prog, text, t, k, maybe(body).len() as int),
    ensures
        holds_at(prog, body, k + 1),
        match r {
            None => t.last().sp == t[0].sp,
            Some(sub) => {
                &&& passes(prog, text, sub, k + 1, body.len() as int)
                &&& sub[0].sp == t[0].sp
                &&& sub.last().sp == t.last().sp
                &&& sub.len() <= t.len()
            },
        },
{
    let code = maybe(body);
    let n = body.len() as int;
    assert(seq![Op::Branch(1, 1 + n)] + body + Seq::<Op>::empty() =~= code);
    lemma_holds_part(prog, seq![Op::Branch(1, 1 + n)], body, Seq::empty(), k);
    assert(prog[k + 0] == relocated(code[0], k + 0));
    assert(moves(prog, text, t[0], t[1]));
    if t[1].pc == k + 1 + n {
        lemma_out_is_last(prog, text, t, k, code.len() as int, 1);
        None
    } else {
        let e = lemma_passage(prog, text, t, body, k + 1, 1);
        lemma_out_is_last(prog, text, t, k, code.len() as int, e);
        Some(t.subrange(1, e + 1))
    }
}

/// A passage through a starred code leaves at once, or is a passage
/// through the body and then a shorter passage through the starred code.
proof fn lemma_through_star(prog: Seq<Op>, text: Seq<char>, t: Seq<Point>, body: Seq<Op>, k: int) -> (r:
    Option<(Seq<Point>, Seq<Point>)>)
    requires
        closed(body),
        body.len() > 0,
        holds_at(prog, star(body), k),
        passes(prog, text, t, k, star(body).len() as int),
    ensures
        holds_at(prog, body, k + 1),
        match r {
            None => t.last().sp == t[0].sp,
            Some((sub, rest)) => {
                &&& passes(prog, text, sub, k + 1, body.len() as int)
                &&& passes(prog, text, rest, k, star(body).len() as int)
                &&& sub[0].sp == t[0].sp
                &&& sub.last().sp == rest[0].sp
                &&& rest.last().sp == t.last().sp
                &&& sub.len() <= t.len()
                &&& rest.len() < t.len()
            },
        },
{
    let code = star(body);
    let n = body.len() as int;
    lemma_holds_part(prog, seq![Op::Branch(1, 2 + n)], body, seq![Op::Jump(-(1 + n))], k);
    assert(prog[k + 0] == relocated(code[0], k + 0));
    assert(moves(prog, text, t[0], t[1]));
    if t[1].pc == k + 2 + n {
        lemma_out_is_last(prog, text, t, k, code.len() as int, 1);
        None
    } else {
        let e = lemma_passage(prog, text, t, body, k + 1, 1);
        assert(prog[k + (n + 1)] == relocated(code[n + 1], k + (n + 1)));
        assert(moves(prog, text, t[e], t[e + 1]));
        lemma_passage_rest(prog, text, t, k, code.len() as int, e + 1);
        Some((t.subrange(1, e + 1), t.subrange(e + 1, t.len() as int)))
    }
}

/// A passage through a code with a plus is a passage through the body, and
/// then the end or a shorter passage through the code with the plus.
proof fn lemma_through_plus(prog: Seq<Op>, text: Seq<char>, t: Seq<Point>, body: Seq<Op>, k: int) -> (r: (
    Seq<Point>,
    Option<Seq<Point>>,
))
    requires
        closed(body),
        body.len() > 0,
        holds_at(prog, plus(body), k),
        passes(prog, text, t, k, plus(body).len() as int),
    ensures
        holds_at(prog, body, k),
        passes(prog, text, r.0, k, body.len() as int),
        r.0[0].sp == t[0].sp,
        r.0.len() <= t.len(),
        match r.1 {
            None => r.0.last().sp == t.last().sp,
            Some(rest) => {
                &&& passes(prog, text, rest, k, plus(body).len() as int)
                &&& r.0.last().sp == rest[0].sp
                &&& rest.last().sp == t.last().sp
                &&& rest.len() < t.len()
            },
        },
{
    let code = plus(body);
    let n = body.len() as int;
    assert(Seq::<Op>::empty() + body + seq![Op::Branch(-n, 1)] =~= code);
    lemma_holds_part(prog, Seq::empty(), body, seq![Op::Branch(-n, 1)], k);
    let e = lemma_passage(prog, text, t, body, k, 0);
    assert(prog[k + n] == relocated(code[n], k + n));
    assert(moves(prog, text, t[e], t[e + 1]));
    if t[e + 1].pc == k + n + 1 {
        lemma_out_is_last(prog, text, t, k, code.len() as int, e + 1);
        (t.subrange(0, e + 1), None)
    } else {
        lemma_passage_rest(prog, text, t, k, code.len() as int, e + 1);
        (t.subrange(0, e + 1), Some(t.subrange(e + 1, t.len() as int)))
    }
}

/// A passage through two alternatives is a passage through one of them.
proof fn lemma_through_either(
    prog: Seq<Op>,
    text: Seq<char>,
    t: Seq<Point>,
    x: Seq<Op>,
    y: Seq<Op>,
    k: int,
) -> (r: (bool, Seq<Point>))
    requires
        closed(x),
        closed(y),
        x.len() > 0,
        y.len() > 0,
        holds_at(prog, either(x, y), k),
        passes(prog, text, t, k, either(x, y).len() as int),
    ensures
        holds_at(prog, x, k + 1),
        holds_at(prog, y, k + 2 + x.len()),
        r.0 ==> passes(prog, text, r.1, k + 1, x.len() as int),
        !r.0 ==> passes(prog, text, r.1, k + 2 + x.len(), y.len() as int),
        r.1[0].sp == t[0].sp,
        r.1.last().sp == t.last().sp,
        r.1.len() <= t.len(),
{
    let code = either(x, y);
    let nx = x.len() as int;
    let ny = y.len() as int;
    let head = seq![Op::Branch(1, 2 + nx)];
    let mid = seq![Op::Jump(1 + ny)];
    assert(head + x + (mid + y) =~= code);
    assert(head + x + mid + y + Seq::<Op>::empty() =~= code);
    lemma_holds_part(prog, head, x, mid + y, k);
    lemma_holds_part(prog, head + x + mid, y, Seq::empty(), k);
    assert(prog[k + 0] == relocated(code[0], k + 0));
    assert(moves(prog, text, t[0], t[1]));
    if t[1].pc == k + 1 {
        let e = lemma_passage(prog, text, t, x, k + 1, 1);
        assert(prog[k + (nx + 1)] == relocated(code[nx + 1], k + (nx + 1)));
        assert(moves(prog, text, t[e], t[e + 1]));
        lemma_out_is_last(prog, text, t, k, code.len() as int, e + 1);
        (true, t.subrange(1, e + 1))
    } else {
        let e = lemma_passage(prog, text, t, y, k + 2 + nx, 1);
        lemma_out_is_last(prog, text, t, k, code.len() as int, e);
        (false, t.subrange(1, e + 1))
    }
}

/// A passage ends at an offset that is not before the one at which it began.
proof fn lemma_passage_rises(prog: Seq<Op>, text: Seq<char>, t: Seq<Point>, k: int, len: int)
    requires
        passes(prog, text, t, k, len),
    ensures
        t[0].sp <= t.last().sp,
{
    lemma_way_rises(prog, text, t, 0, t.len() - 1);
}

/// A passage through the code of a well-formed pattern takes characters
/// that the pattern matches.
pub proof fn lemma_passage_matches(p: Pattern, prog: Seq<Op>, k: int, text: Seq<char>, t: Seq<Point>)
    requires
        well_formed(p),
        holds_at(prog, fragment(p), k),
        passes(prog, text, t, k, fragment(p).len() as int),
    ensures
        is_match(p, text, t[0].sp, t.last().sp),
    decreases p, 0nat, t.len(),
{
    let i = t[0].sp;
    let j = t.last().sp;
    match p {
        Pattern::PrefixSuffix(pre, body, suf) => {
            lemma_fragment_closed(*body);
            lemma_fragment_not_empty(*body);
            let sub = lemma_through_anchored(prog, text, t, pre, fragment(*body), suf, k);
            lemma_passage_matches(*body, prog, k + if pre { 1int } else { 0 }, text, sub);
        },
        Pattern::Branch(ps) => {
            assert(fragments(ps).take(ps.len() as int) == fragments(ps));
            lemma_alternatives_match(ps, ps.len(), prog, k, text, t);
        },
        Pattern::Connect(ps) => {
            assert(fragments(ps).take(ps.len() as int) == fragments(ps));
            lemma_factors_match(ps, ps.len(), prog, k, text, t);
        },
        Pattern::RepeatStar(r) => {
            lemma_fragment_closed(*r);
            lemma_fragment_not_empty(*r);
            match lemma_through_star(prog, text, t, fragment(*r), k) {
                None => {},
                Some((sub, rest)) => {
                    lemma_passage_matches(*r, prog, k + 1, text, sub);
                    lemma_passage_matches(p, prog, k, text, rest);
                    lemma_passage_rises(prog, text, sub, k + 1, fragment(*r).len() as int);
                    lemma_passage_rises(prog, text, rest, k, fragment(p).len() as int);
                    let m = rest[0].sp;
                    assert(star_match(*r, text, m, j));
                    if m > i {
                        assert(between(i + 1, m, j));
                    }
                },
            }
            assert(star_match(*r, text, i, j));
        },
        Pattern::RepeatPlus(r) => {
            lemma_fragment_closed(*r);
            lemma_fragment_not_empty(*r);
            let (sub, more) = lemma_through_plus(prog, text, t, fragment(*r), k);
            lemma_passage_matches(*r, prog, k, text, sub);
            lemma_passage_rises(prog, text, sub, k, fragment(*r).len() as int);
            let m = sub.last().sp;
            match more {
                None => {
                    assert(between(i, m, j));
                },
                Some(rest) => {
                    lemma_passage_matches(p, prog, k, text, rest);
                    lemma_passage_rises(prog, text, rest, k, fragment(p).len() as int);
                    let m2 = choose|m2: int|
                        #[trigger] between(m, m2, j) && is_match(*r, text, m, m2) && star_match(
                            *r,
                            text,
                            m2,
                            j,
                        );
                    if m2 > m {
                        assert(between(m + 1, m2, j));
                    }
                    assert(star_match(*r, text, m, j));
                    assert(between(i, m, j));
                },
            }
            assert(between(i, m, j) && is_match(*r, text, i, m) && star_match(*r, text, m, j));
        },
        Pattern::RepeatRange(r, min, max) => {
            assert(counted(fragment(*r), min, max).take(max as int) == counted(
                fragment(*r),
                min,
                max,
            ));
            lemma_counted_match(*r, min, max, max, prog, k, text, t);
            let c = choose|c: nat|
                #[trigger] between(fewest(max, min), c as int, max as int)
                    && copies_match(*r, c, text, i, j);
            assert(between(min as int, c as int, max as int));
        },
        Pattern::Maybe(r) => {
            lemma_fragment_closed(*r);
            lemma_fragment_not_empty(*r);
            match lemma_through_maybe(prog, text, t, fragment(*r), k) {
                None => {},
                Some(sub) => {
                    lemma_passage_matches(*r, prog, k + 1, text, sub);
                },
            }
        },
        Pattern::Group(r) => {
            lemma_fragment_closed(*r);
            lemma_fragment_not_empty(*r);
            let sub = lemma_through_group(prog, text, t, fragment(*r), k);
            lemma_passage_matches(*r, prog, k + 1, text, sub);
        },
        Pattern::AnyChar => {
            lemma_through_test(prog, text, t, CharTest::Any, k);
        },
        Pattern::CharClass(negated, members) => {
            lemma_through_test(prog, text, t, CharTest::CharClass(negated, members), k);
        },
        Pattern::Literal(c) => {
            lemma_through_test(prog, text, t, CharTest::Literal(c), k);
        },
    }
}

/// A passage through the code of the first `n` alternatives takes
/// characters that one of them matches.
proof fn lemma_alternatives_match(
    ps: Seq<Pattern>,
    n: nat,
    prog: Seq<Op>,
    k: int,
    text: Seq<char>,
    t: Seq<Point>,
)
    requires
        1 <= n <= ps.len(),
        forall|i: int| 0 <= i < ps.len() ==> well_formed(#[trigger] ps[i]),
        holds_at(prog, alternation(fragments(ps).take(n as int)), k),
        passes(prog, text, t, k, alternation(fragments(ps).take(n as int)).len() as int),
    ensures
        exists|i: int| 0 <= i < n && is_match(#[trigger] ps[i], text, t[0].sp, t.last().sp),
    decreases ps, n, 0nat,
{
    let parts = fragments(ps);
    lemma_alternation_first(parts.take(n as int));
    assert(parts.take(n as int).take(1) == parts.take(1));
    lemma_alternation_first(parts);
    if n == 1 {
        lemma_passage_matches(ps[0], prog, k, text, t);
    } else {
        let last = (n - 1) as nat;
        lemma_alternation_take(parts, last as int);
        let x = alternation(parts.take(last as int));
        let y = parts[last as int];
        assert forall|i: int| 0 <= i < parts.take(last as int).len() implies closed(
            #[trigger] parts.take(last as int)[i],
        ) by {
            lemma_fragment_closed(ps[i]);
        }
        lemma_closed_alternation(parts.take(last as int));
        lemma_alternation_first(parts.take(last as int));
        lemma_fragment_not_empty(ps[0]);
        lemma_fragment_closed(ps[last as int]);
        lemma_fragment_not_empty(ps[last as int]);
        let (left, sub) = lemma_through_either(prog, text, t, x, y, k);
        if left {
            lemma_alternatives_match(ps, last, prog, k + 1, text, sub);
        } else {
            lemma_passage_matches(ps[last as int], prog, k + 2 + x.len(), text, sub);
        }
    }
}

/// A passage through the code of the first `n` factors takes characters
/// that they match one after another.
proof fn lemma_factors_match(
    ps: Seq<Pattern>,
    n: nat,
    prog: Seq<Op>,
    k: int,
    text: Seq<char>,
    t: Seq<Point>,
)
    requires
        n <= ps.len(),
        forall|i: int| 0 <= i < ps.len() ==> well_formed(#[trigger] ps[i]),
        holds_at(prog, join(fragments(ps).take(n as int)), k),
        passes(prog, text, t, k, join(fragments(ps).take(n as int)).len() as int),
    ensures
        all_match(ps, n, text, t[0].sp, t.last().sp),
    decreases ps, n, 0nat,
{
    let parts = fragments(ps);
    if n == 0 {
        assert(parts.take(0).len() == 0);
        assert(t.len() == 1) by {
            if t.len() > 1 {
                assert(k <= t[0].pc < k + 0);
            }
        }
    } else {
        let last = (n - 1) as nat;
        lemma_join_take(parts, last as int);
        let x = join(parts.take(last as int));
        let y = parts[last as int];
        assert forall|i: int| 0 <= i < parts.take(last as int).len() implies closed(
            #[trigger] parts.take(last as int)[i],
        ) by {
            lemma_fragment_closed(ps[i]);
        }
        lemma_closed_join(parts.take(last as int));
        lemma_fragment_closed(ps[last as int]);
        let (first, second) = lemma_through_both(prog, text, t, x, y, k);
        lemma_factors_match(ps, last, prog, k, text, first);
        lemma_passage_matches(ps[last as int], prog, k + x.len(), text, second);
        lemma_passage_rises(prog, text, first, k, x.len() as int);
        lemma_passage_rises(prog, text, second, k + x.len(), y.len() as int);
        assert(between(t[0].sp, first.last().sp, t.last().sp));
    }
}

/// The fewest copies that a passage through the first `n` parts of a counted
/// repetition has gone through: all of them while they are among the `min`
/// that must match.
pub open spec fn fewest(n: nat, min: nat) -> int {
    if n <= min {
        n as int
    } else {
        min as int
    }
}

/// A passage through the first `n` copies of a counted repetition takes
/// characters that as many copies of the pattern match as the passage
/// went through: each of the copies that must match, and any of the others.
proof fn lemma_counted_match(
    r: Pattern,
    min: nat,
    max: nat,
    n: nat,
    prog: Seq<Op>,
    k: int,
    text: Seq<char>,
    t: Seq<Point>,
)
    requires
        min <= max,
        n <= max,
        well_formed(r),
        holds_at(prog, join(counted(fragment(r), min, max).take(n as int)), k),
        passes(prog, text, t, k, join(counted(fragment(r), min, max).take(n as int)).len() as int),
    ensures
        exists|c: nat|
            #[trigger] between(fewest(n, min), c as int, n as int)
                && copies_match(r, c, text, t[0].sp, t.last().sp),
    decreases r, n, 0nat,
{
    let body = fragment(r);
    let parts = counted(body, min, max);
    let i = t[0].sp;
    let j = t.last().sp;
    if n == 0 {
        assert(parts.take(0).len() == 0);
        assert(t.len() == 1) by {
            if t.len() > 1 {
                assert(k <= t[0].pc < k + 0);
            }
        }
        assert(between(fewest(n, min), 0nat as int, n as int) && copies_match(r, 0, text, i, j));
    } else {
        let last = (n - 1) as nat;
        lemma_join_take(parts, last as int);
        let x = join(parts.take(last as int));
        let y = parts[last as int];
        lemma_fragment_closed(r);
        lemma_fragment_not_empty(r);
        lemma_closed_maybe(body);
        lemma_closed_join(parts.take(last as int));
        let (first, second) = lemma_through_both(prog, text, t, x, y, k);
        lemma_counted_match(r, min, max, last, prog, k, text, first);
        lemma_passage_rises(prog, text, first, k, x.len() as int);
        lemma_passage_rises(prog, text, second, k + x.len(), y.len() as int);
        let m = first.last().sp;
        let c = choose|c: nat|
            #[trigger] between(fewest(last, min), c as int, last as int)
                && copies_match(r, c, text, i, m);
        assert(between(i, m, j));
        let with_one = (c + 1) as nat;
        if last < min {
            lemma_passage_matches(r, prog, k + x.len(), text, second);
            assert(copies_match(r, with_one, text, i, j));
            assert(between(fewest(n, min), with_one as int, n as int));
        } else {
            match lemma_through_maybe(prog, text, second, body, k + x.len()) {
                None => {
                    assert(copies_match(r, c, text, i, j));
                    assert(between(fewest(n, min), c as int, n as int));
                },
                Some(sub) => {
                    lemma_passage_matches(r, prog, k + x.len() + 1, text, sub);
                    assert(copies_match(r, with_one, text, i, j));
                    assert(between(fewest(n, min), with_one as int, n as int));
                },
            }
        }
    }
}

} // verus!
