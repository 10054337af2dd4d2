//! Where a way leads to `Finish`, the machine finds one.

use crate::compiler::{CharTest, Op, Position};
use crate::embedding::holds_at;
use crate::fragment::{
    alternation, counted, either, fragment, fragments, join, lemma_alternation_first,
    lemma_alternation_take, lemma_join_take, lemma_program_targets, maybe, plus, program, relocated,
    star, valid_targets, well_formed,
};
use crate::machine::{backtrack, run, step, Machine, Step};
use crate::parser::Pattern;
use crate::semantics::{all_match, between, copies_match, is_match, one_char, star_match};
use crate::soundness::{fewest, lemma_holds_part, passes};
use crate::trace::{is_way, lemma_way_part, moves, point_of, Point};
use vstd::prelude::*;

verus! {

/// No instruction of `code` closes a group.
pub open spec fn closes_no_group(code: Seq<Op>) -> bool {
    forall|i: int| 0 <= i < code.len() ==> #[trigger] code[i] != Op::GroupParenR
}

/// `prog` ends in `Finish`, and every target in it is one of its indices.
pub open spec fn well_ended(prog: Seq<Op>) -> bool {
    &&& prog.len() > 0
    &&& prog.last() == Op::Finish
    &&& valid_targets(prog)
}

/// The machine and its saved continuations stand at instructions of `prog`.
pub open spec fn in_program(m: Machine, prog: Seq<Op>) -> bool {
    &&& 0 <= m.pc < prog.len()
    &&& forall|j: int| 0 <= j < m.threads.len() ==> 0 <= (#[trigger] m.threads[j]).pc < prog.len()
}

/// The point of the machine where `which` is -1, else that of its saved
/// continuation `which`.
pub open spec fn point_at(m: Machine, which: int) -> Point {
    if which < 0 {
        point_of(m)
    } else {
        Point { pc: m.threads[which].pc, sp: m.threads[which].sp }
    }
}

/// An attempt that ends without a match leaves no way to a `Finish`
/// untried: none leads there from where the machine stands, and none from
/// a continuation that it has saved. This holds of a program that ends in
/// `Finish`, has valid targets and closes no group.
pub proof fn lemma_no_way_left(
    prog: Seq<Op>,
    text: Seq<char>,
    from: int,
    m: Machine,
    fuel: nat,
    which: int,
    t: Seq<Point>,
)
    requires
        well_ended(prog),
        closes_no_group(prog),
        in_program(m, prog),
        run(prog, text, from, m, fuel) == Some(None::<Seq<(int, int)>>),
        -1 <= which < m.threads.len(),
        is_way(prog, text, t),
        t[0] == point_at(m, which),
        0 <= t.last().pc < prog.len(),
    ensures
        prog[t.last().pc] != Op::Finish,
    decreases fuel, t.len(),
{
    let op = prog[m.pc];
    assert(op != Op::GroupParenR);
    match step(prog, text, m) {
        Step::Next(next) => {
            assert(in_program(next, prog)) by {
                assert forall|j: int| 0 <= j < next.threads.len() implies 0 <= (
                #[trigger] next.threads[j]).pc < prog.len() by {
                    if j < m.threads.len() {
                        assert(next.threads[j] == m.threads[j]);
                    }
                }
                if backtrack(m) == Step::Next(next) {
                    assert(next.pc == m.threads.last().pc);
                }
            }
            let forward = !(backtrack(m) == Step::Next(next)) || op is Branch || op is Jump
                || op is GroupParenL;
            if which >= 0 {
                if forward {
                    assert(next.threads[which] == m.threads[which]);
                    lemma_no_way_left(prog, text, from, next, (fuel - 1) as nat, which, t);
                } else if which == m.threads.len() - 1 {
                    lemma_no_way_left(prog, text, from, next, (fuel - 1) as nat, -1, t);
                } else {
                    assert(next.threads[which] == m.threads[which]);
                    lemma_no_way_left(prog, text, from, next, (fuel - 1) as nat, which, t);
                }
            } else if t.len() > 1 {
                assert(moves(prog, text, t[0], t[1]));
                lemma_way_part(prog, text, t, 1, t.len() as int);
                let rest = t.subrange(1, t.len() as int);
                assert(rest.last() == t.last());
                match op {
                    Op::Branch(x, y) => {
                        if t[1].pc == x {
                            lemma_no_way_left(prog, text, from, next, (fuel - 1) as nat, -1, rest);
                        } else {
                            lemma_no_way_left(
                                prog,
                                text,
                                from,
                                next,
                                (fuel - 1) as nat,
                                next.threads.len() - 1,
                                rest,
                            );
                        }
                    },
                    _ => {
                        lemma_no_way_left(prog, text, from, next, (fuel - 1) as nat, -1, rest);
                    },
                }
            }
        },
        Step::Matched => {},
        Step::Failed => {
            if which < 0 && t.len() > 1 {
                assert(moves(prog, text, t[0], t[1]));
            }
        },
    }
}

/// Every point of `t` is at an instruction of the code that stands at the
/// indices from `k` up to `k + len`.
pub open spec fn stays(t: Seq<Point>, k: int, len: int) -> bool {
    forall|i: int| 0 <= i < t.len() ==> k <= (#[trigger] t[i]).pc < k + len
}

/// A way that stays in a code, and then a move out of it to just behind
/// it, is a passage through the code.
proof fn lemma_pass_out(prog: Seq<Op>, text: Seq<char>, t: Seq<Point>, k: int, len: int, out: Point)
    requires
        is_way(prog, text, t),
        t[0].pc == k,
        stays(t, k, len),
        moves(prog, text, t.last(), out),
        out.pc == k + len,
    ensures
        passes(prog, text, t.push(out), k, len),
        t.push(out)[0] == t[0],
        t.push(out).last() == out,
{
    crate::trace::lemma_way_push(prog, text, t, out);
    let whole = t.push(out);
    assert forall|i: int| 0 <= i < whole.len() - 1 implies k <= (#[trigger] whole[i]).pc < k + len by {
        assert(whole[i] == t[i]);
    }
}

/// `t` is a way that ends just behind the code that stands at the indices
/// from `k` up to `k + len`, and is in that code before.
pub open spec fn comes_out(prog: Seq<Op>, text: Seq<char>, t: Seq<Point>, k: int, len: int) -> bool {
    &&& is_way(prog, text, t)
    &&& t.last().pc == k + len
    &&& forall|i: int| 0 <= i < t.len() - 1 ==> k <= (#[trigger] t[i]).pc < k + len
}

/// Two ways, with a move from the end of the first to the start of the
/// second, make one way.
proof fn lemma_way_then(prog: Seq<Op>, text: Seq<char>, t: Seq<Point>, rest: Seq<Point>)
    requires
        is_way(prog, text, t),
        is_way(prog, text, rest),
        moves(prog, text, t.last(), rest[0]),
    ensures
        is_way(prog, text, t + rest),
        (t + rest)[0] == t[0],
        (t + rest).last() == rest.last(),
{
    let whole = t + rest;
    assert forall|i: int| 0 <= i < whole.len() - 1 implies moves(
        prog,
        text,
        #[trigger] whole[i],
        whole[i + 1],
    ) by {
        if i < t.len() - 1 {
            assert(whole[i] == t[i] && whole[i + 1] == t[i + 1]);
        } else if i == t.len() - 1 {
            assert(whole[i] == t.last() && whole[i + 1] == rest[0]);
        } else {
            assert(whole[i] == rest[i - t.len()] && whole[i + 1] == rest[i - t.len() + 1]);
        }
    }
}

/// Two ways that stay in a code, with a move from the end of the first to
/// the start of the second, make a way that stays in the code.
proof fn lemma_stays_then(t: Seq<Point>, rest: Seq<Point>, k: int, len: int)
    requires
        stays(t, k, len),
        stays(rest, k, len),
    ensures
        stays(t + rest, k, len),
{
    let whole = t + rest;
    assert forall|i: int| 0 <= i < whole.len() implies k <= (#[trigger] whole[i]).pc < k + len by {
        if i < t.len() {
            assert(whole[i] == t[i]);
        } else {
            assert(whole[i] == rest[i - t.len()]);
        }
    }
}

/// A way that stays in a code, and then a move from its end to a way that
/// comes out of that code, is a way that comes out of the code.
proof fn lemma_go_on(prog: Seq<Op>, text: Seq<char>, t: Seq<Point>, rest: Seq<Point>, k: int, len: int)
    requires
        is_way(prog, text, t),
        stays(t, k, len),
        moves(prog, text, t.last(), rest[0]),
        comes_out(prog, text, rest, k, len),
    ensures
        comes_out(prog, text, t + rest, k, len),
        (t + rest)[0] == t[0],
        (t + rest).last() == rest.last(),
{
    lemma_way_then(prog, text, t, rest);
    let whole = t + rest;
    assert forall|i: int| 0 <= i < whole.len() - 1 implies k <= (#[trigger] whole[i]).pc < k + len by {
        if i < t.len() {
            assert(whole[i] == t[i]);
        } else {
            assert(whole[i] == rest[i - t.len()]);
        }
    }
}

/// A way that stays in a code, and then a move from its end to a way that
/// comes out of that code, is a passage through the code.
proof fn lemma_pass_on_out(
    prog: Seq<Op>,
    text: Seq<char>,
    t: Seq<Point>,
    rest: Seq<Point>,
    k: int,
    len: int,
)
    requires
        is_way(prog, text, t),
        t[0].pc == k,
        stays(t, k, len),
        moves(prog, text, t.last(), rest[0]),
        comes_out(prog, text, rest, k, len),
    ensures
        passes(prog, text, t + rest, k, len),
        (t + rest)[0] == t[0],
        (t + rest).last() == rest.last(),
{
    lemma_go_on(prog, text, t, rest, k, len);
}

/// A passage through a code stays in any code that holds it and more
/// behind it.
proof fn lemma_pass_within(prog: Seq<Op>, text: Seq<char>, t: Seq<Point>, inner: int, inner_len: int, k: int, len: int)
    requires
        passes(prog, text, t, inner, inner_len),
        k <= inner,
        inner + inner_len < k + len,
        0 <= inner_len,
    ensures
        stays(t, k, len),
{
    assert forall|i: int| 0 <= i < t.len() implies k <= (#[trigger] t[i]).pc < k + len by {
        if i < t.len() - 1 {
            assert(inner <= t[i].pc < inner + inner_len);
        }
    }
}

/// A way that stays in a code, and then a move from its end to the start
/// of a passage through the end of that code, is a passage through the code.
proof fn lemma_pass_on(
    prog: Seq<Op>,
    text: Seq<char>,
    t: Seq<Point>,
    rest: Seq<Point>,
    k: int,
    inner: int,
    inner_len: int,
    len: int,
)
    requires
        is_way(prog, text, t),
        t[0].pc == k,
        stays(t, k, len),
        moves(prog, text, t.last(), rest[0]),
        passes(prog, text, rest, inner, inner_len),
        k <= inner,
        inner + inner_len == k + len,
    ensures
        passes(prog, text, t + rest, k, len),
        (t + rest)[0] == t[0],
        (t + rest).last() == rest.last(),
{
    assert(comes_out(prog, text, rest, k, len));
    lemma_pass_on_out(prog, text, t, rest, k, len);
}

/// A passage stays in its code but for its last point.
proof fn lemma_pass_stays(prog: Seq<Op>, text: Seq<char>, t: Seq<Point>, k: int, len: int)
    requires
        passes(prog, text, t, k, len),
    ensures
        stays(t.drop_last(), k, len),
        t.len() > 1 ==> is_way(prog, text, t.drop_last()) && t.drop_last()[0] == t[0] && moves(
            prog,
            text,
            t.drop_last().last(),
            t.last(),
        ),
{
    let most = t.drop_last();
    assert forall|i: int| 0 <= i < most.len() implies k <= (#[trigger] most[i]).pc < k + len by {
        assert(most[i] == t[i]);
    }
    if t.len() > 1 {
        lemma_way_part(prog, text, t, 0, t.len() - 1);
        assert(moves(prog, text, t[t.len() - 2], t[t.len() - 1]));
    }
}

/// Passages through two codes that stand one behind the other, the second
/// beginning where the first ends, make a passage through both.
proof fn lemma_pass_both(
    prog: Seq<Op>,
    text: Seq<char>,
    a: Seq<Point>,
    b: Seq<Point>,
    k: int,
    la: int,
    lb: int,
) -> (t: Seq<Point>)
    requires
        passes(prog, text, a, k, la),
        passes(prog, text, b, k + la, lb),
        a.last() == b[0],
        0 <= la,
        0 <= lb,
    ensures
        passes(prog, text, t, k, la + lb),
        t[0] == a[0],
        t.last() == b.last(),
{
    if a.len() == 1 {
        b
    } else {
        lemma_pass_stays(prog, text, a, k, la);
        let most = a.drop_last();
        assert(stays(most, k, la + lb)) by {
            assert forall|i: int| 0 <= i < most.len() implies k <= (#[trigger] most[i]).pc < k + (la
                + lb) by {}
        }
        lemma_pass_on(prog, text, most, b, k, k + la, lb, la + lb);
        most + b
    }
}

/// One move from the instruction before a code into a passage through the
/// code is a passage through both.
proof fn lemma_pass_in(prog: Seq<Op>, text: Seq<char>, p: Point, t: Seq<Point>, k: int, len: int) -> (r:
    Seq<Point>)
    requires
        p.pc == k,
        moves(prog, text, p, t[0]),
        passes(prog, text, t, k + 1, len),
        0 <= len,
    ensures
        passes(prog, text, r, k, len + 1),
        r[0] == p,
        r.last() == t.last(),
{
    let head = seq![p];
    assert(is_way(prog, text, head));
    assert(stays(head, k, len + 1));
    lemma_pass_on(prog, text, head, t, k, k + 1, len, len + 1);
    head + t
}

/// A passage through a code and one move from behind it to behind the next
/// instruction is a passage through both.
proof fn lemma_pass_then(prog: Seq<Op>, text: Seq<char>, t: Seq<Point>, k: int, len: int, out: Point) -> (r:
    Seq<Point>)
    requires
        passes(prog, text, t, k, len),
        moves(prog, text, t.last(), out),
        out.pc == k + len + 1,
        0 <= len,
    ensures
        passes(prog, text, r, k, len + 1),
        r[0] == t[0],
        r.last() == out,
{
    crate::trace::lemma_way_push(prog, text, t, out);
    let whole = t.push(out);
    assert forall|i: int| 0 <= i < whole.len() - 1 implies k <= (#[trigger] whole[i]).pc < k + (len
        + 1) by {
        assert(whole[i] == t[i]);
    }
    whole
}

/// Where a well-formed pattern matches a piece of the text, a passage
/// through its code takes that piece.
pub proof fn lemma_match_passes(
    p: Pattern,
    prog: Seq<Op>,
    k: int,
    text: Seq<char>,
    i: int,
    j: int,
) -> (t: Seq<Point>)
    requires
        well_formed(p),
        holds_at(prog, fragment(p), k),
        is_match(p, text, i, j),
    ensures
        passes(prog, text, t, k, fragment(p).len() as int),
        t[0] == (Point { pc: k, sp: i }),
        t.last().sp == j,
    decreases p, 0int,
{
    let code = fragment(p);
    match p {
        Pattern::PrefixSuffix(pre, body, suf) => {
            let inner = fragment(*body);
            let n = inner.len() as int;
            let front = if pre {
                seq![Op::MatchPos(Position::Front)]
            } else {
                Seq::empty()
            };
            let back = if suf {
                seq![Op::MatchPos(Position::Back)]
            } else {
                Seq::empty()
            };
            lemma_holds_part(prog, front, inner, back, k);
            let sub = lemma_match_passes(*body, prog, k + front.len(), text, i, j);
            let with_front = if pre {
                assert(prog[k + 0] == relocated(code[0], k + 0));
                lemma_pass_in(prog, text, Point { pc: k, sp: i }, sub, k, n)
            } else {
                sub
            };
            if suf {
                assert(prog[k + (front.len() + n)] == relocated(
                    code[front.len() + n],
                    k + (front.len() + n),
                ));
                lemma_pass_then(
                    prog,
                    text,
                    with_front,
                    k,
                    front.len() + n,
                    Point { pc: k + front.len() + n + 1, sp: j },
                )
            } else {
                with_front
            }
        },
        Pattern::Branch(ps) => {
            let idx = choose|idx: int| 0 <= idx < ps.len() && is_match(#[trigger] ps[idx], text, i, j);
            assert(fragments(ps).take(ps.len() as int) == fragments(ps));
            lemma_alternatives_pass(ps, ps.len(), idx, prog, k, text, i, j)
        },
        Pattern::Connect(ps) => {
            assert(fragments(ps).take(ps.len() as int) == fragments(ps));
            lemma_factors_pass(ps, ps.len(), prog, k, text, i, j)
        },
        Pattern::RepeatStar(r) => lemma_star_passes(*r, prog, k, text, i, j),
        Pattern::RepeatPlus(r) => {
            let inner = fragment(*r);
            let n = inner.len() as int;
            assert(Seq::<Op>::empty() + inner + seq![Op::Branch(-n, 1)] =~= code);
            lemma_holds_part(prog, Seq::empty(), inner, seq![Op::Branch(-n, 1)], k);
            let m = choose|m: int|
                #[trigger] between(i, m, j) && is_match(*r, text, i, m) && star_match(*r, text, m, j);
            let sub = lemma_match_passes(*r, prog, k, text, i, m);
            let rest = lemma_plus_goes_on(*r, prog, k, text, m, j);
            lemma_pass_stays(prog, text, sub, k, n);
            crate::soundness::lemma_fragment_not_empty(*r);
            let most = sub.drop_last();
            assert(stays(most, k, n + 1)) by {
                assert forall|a: int| 0 <= a < most.len() implies k <= (#[trigger] most[a]).pc < k + (n
                    + 1) by {}
            }
            assert(sub.last() == rest[0]);
            lemma_pass_on_out(prog, text, most, rest, k, n + 1);
            most + rest
        },
        Pattern::RepeatRange(r, min, max) => {
            let c = choose|c: nat|
                #[trigger] between(min as int, c as int, max as int) && copies_match(*r, c, text, i, j);
            assert(counted(fragment(*r), min, max).take(max as int) == counted(
                fragment(*r),
                min,
                max,
            ));
            lemma_counted_passes(*r, min, max, max, c, prog, k, text, i, j)
        },
        Pattern::Maybe(r) => {
            let inner = fragment(*r);
            let n = inner.len() as int;
            assert(seq![Op::Branch(1, 1 + n)] + inner + Seq::<Op>::empty() =~= code);
            lemma_holds_part(prog, seq![Op::Branch(1, 1 + n)], inner, Seq::empty(), k);
            lemma_skip_or_take(*r, prog, k, text, i, j)
        },
        Pattern::Group(r) => {
            let inner = fragment(*r);
            let n = inner.len() as int;
            lemma_holds_part(prog, seq![Op::GroupParenL], inner, seq![Op::GroupParenR], k);
            let sub = lemma_match_passes(*r, prog, k + 1, text, i, j);
            assert(prog[k + 0] == relocated(code[0], k + 0));
            let entered = lemma_pass_in(prog, text, Point { pc: k, sp: i }, sub, k, n);
            assert(prog[k + (n + 1)] == relocated(code[n + 1], k + (n + 1)));
            lemma_pass_then(prog, text, entered, k, n + 1, Point { pc: k + n + 2, sp: j })
        },
        Pattern::AnyChar => lemma_test_passes(CharTest::Any, prog, k, text, i, j),
        Pattern::CharClass(negated, members) => lemma_test_passes(
            CharTest::CharClass(negated, members),
            prog,
            k,
            text,
            i,
            j,
        ),
        Pattern::Literal(c) => lemma_test_passes(CharTest::Literal(c), prog, k, text, i, j),
    }
}

/// One character that passes a test is a passage through the test.
proof fn lemma_test_passes(test: CharTest, prog: Seq<Op>, k: int, text: Seq<char>, i: int, j: int) -> (t:
    Seq<Point>)
    requires
        holds_at(prog, seq![Op::MatchChar(test)], k),
        one_char(test, text, i, j),
    ensures
        passes(prog, text, t, k, 1),
        t[0] == (Point { pc: k, sp: i }),
        t.last().sp == j,
{
    let code = seq![Op::MatchChar(test)];
    assert(prog[k + 0] == relocated(code[0], k + 0));
    let head = seq![Point { pc: k, sp: i }];
    assert(is_way(prog, text, head));
    assert(stays(head, k, 1));
    lemma_pass_out(prog, text, head, k, 1, Point { pc: k + 1, sp: j });
    head.push(Point { pc: k + 1, sp: j })
}

/// A passage through an optional code, where nothing is taken or the body
/// matches.
proof fn lemma_skip_or_take(r: Pattern, prog: Seq<Op>, k: int, text: Seq<char>, i: int, j: int) -> (t:
    Seq<Point>)
    requires
        well_formed(r),
        holds_at(prog, maybe(fragment(r)), k),
        holds_at(prog, fragment(r), k + 1),
        i == j || is_match(r, text, i, j),
    ensures
        passes(prog, text, t, k, maybe(fragment(r)).len() as int),
        t[0] == (Point { pc: k, sp: i }),
        t.last().sp == j,
    decreases r, 1int,
{
    let inner = fragment(r);
    let n = inner.len() as int;
    let code = maybe(inner);
    assert(prog[k + 0] == relocated(code[0], k + 0));
    let here = Point { pc: k, sp: i };
    if i == j {
        let head = seq![here];
        assert(is_way(prog, text, head));
        assert(stays(head, k, n + 1));
        lemma_pass_out(prog, text, head, k, n + 1, Point { pc: k + n + 1, sp: j });
        head.push(Point { pc: k + n + 1, sp: j })
    } else {
        let sub = lemma_match_passes(r, prog, k + 1, text, i, j);
        lemma_pass_in(prog, text, here, sub, k, n)
    }
}

/// A passage through a starred code, where copies of its body match one
/// after another.
proof fn lemma_star_passes(r: Pattern, prog: Seq<Op>, k: int, text: Seq<char>, i: int, j: int) -> (t:
    Seq<Point>)
    requires
        well_formed(r),
        holds_at(prog, star(fragment(r)), k),
        star_match(r, text, i, j),
    ensures
        passes(prog, text, t, k, star(fragment(r)).len() as int),
        t[0] == (Point { pc: k, sp: i }),
        t.last().sp == j,
    decreases r, j - i + 1,
{
    let inner = fragment(r);
    let n = inner.len() as int;
    let code = star(inner);
    lemma_holds_part(prog, seq![Op::Branch(1, 2 + n)], inner, seq![Op::Jump(-(1 + n))], k);
    assert(prog[k + 0] == relocated(code[0], k + 0));
    let here = Point { pc: k, sp: i };
    let head = seq![here];
    assert(is_way(prog, text, head));
    assert(stays(head, k, n + 2));
    if i == j {
        lemma_pass_out(prog, text, head, k, n + 2, Point { pc: k + n + 2, sp: j });
        head.push(Point { pc: k + n + 2, sp: j })
    } else {
        let m = choose|m: int|
            #[trigger] between(i + 1, m, j) && is_match(r, text, i, m) && star_match(r, text, m, j);
        let sub = lemma_match_passes(r, prog, k + 1, text, i, m);
        let rest = lemma_star_passes(r, prog, k, text, m, j);
        assert(prog[k + (n + 1)] == relocated(code[n + 1], k + (n + 1)));
        let round = head + sub;
        lemma_way_then(prog, text, head, sub);
        lemma_pass_within(prog, text, sub, k + 1, n, k, n + 2);
        lemma_stays_then(head, sub, k, n + 2);
        lemma_pass_on(prog, text, round, rest, k, k, n + 2, n + 2);
        round + rest
    }
}

/// The way on from the `Branch` behind the body of a code with a plus,
/// where more copies of the body match one after another: out of the code
/// at once, or back through the body.
proof fn lemma_plus_goes_on(r: Pattern, prog: Seq<Op>, k: int, text: Seq<char>, i: int, j: int) -> (t:
    Seq<Point>)
    requires
        well_formed(r),
        holds_at(prog, plus(fragment(r)), k),
        holds_at(prog, fragment(r), k),
        star_match(r, text, i, j),
    ensures
        comes_out(prog, text, t, k, fragment(r).len() as int + 1),
        t[0] == (Point { pc: k + fragment(r).len(), sp: i }),
        t.last().sp == j,
    decreases r, j - i + 1,
{
    let inner = fragment(r);
    let n = inner.len() as int;
    let code = plus(inner);
    assert(prog[k + n] == relocated(code[n], k + n));
    let here = Point { pc: k + n, sp: i };
    let head = seq![here];
    assert(is_way(prog, text, head));
    if i == j {
        crate::trace::lemma_way_push(prog, text, head, Point { pc: k + n + 1, sp: j });
        head.push(Point { pc: k + n + 1, sp: j })
    } else {
        let m = choose|m: int|
            #[trigger] between(i + 1, m, j) && is_match(r, text, i, m) && star_match(r, text, m, j);
        let sub = lemma_match_passes(r, prog, k, text, i, m);
        let rest = lemma_plus_goes_on(r, prog, k, text, m, j);
        crate::soundness::lemma_fragment_not_empty(r);
        lemma_pass_stays(prog, text, sub, k, n);
        let most = sub.drop_last();
        lemma_way_then(prog, text, head, most);
        assert(stays(head, k, n + 1));
        assert(stays(most, k, n + 1)) by {
            assert forall|a: int| 0 <= a < most.len() implies k <= (#[trigger] most[a]).pc < k + (n
                + 1) by {}
        }
        lemma_stays_then(head, most, k, n + 1);
        let round = head + most;
        assert(sub.last() == rest[0]);
        lemma_go_on(prog, text, round, rest, k, n + 1);
        let whole = round + rest;
        assert(whole.last() == rest.last());
        assert(whole[0] == here);
        whole
    }
}

/// A passage through the code of the first `n` alternatives, where one of
/// them matches.
proof fn lemma_alternatives_pass(
    ps: Seq<Pattern>,
    n: nat,
    idx: int,
    prog: Seq<Op>,
    k: int,
    text: Seq<char>,
    i: int,
    j: int,
) -> (t: Seq<Point>)
    requires
        0 <= idx < n <= ps.len(),
        forall|a: int| 0 <= a < ps.len() ==> well_formed(#[trigger] ps[a]),
        holds_at(prog, alternation(fragments(ps).take(n as int)), k),
        is_match(ps[idx], text, i, j),
    ensures
        passes(prog, text, t, k, alternation(fragments(ps).take(n as int)).len() as int),
        t[0] == (Point { pc: k, sp: i }),
        t.last().sp == j,
    decreases ps, n,
{
    let parts = fragments(ps);
    lemma_alternation_first(parts.take(n as int));
    assert(parts.take(n as int).take(1) == parts.take(1));
    lemma_alternation_first(parts);
    if n == 1 {
        lemma_match_passes(ps[0], prog, k, text, i, j)
    } else {
        let last = (n - 1) as nat;
        lemma_alternation_take(parts, last as int);
        let x = alternation(parts.take(last as int));
        let y = parts[last as int];
        let nx = x.len() as int;
        let ny = y.len() as int;
        let code = either(x, y);
        let head = seq![Op::Branch(1, 2 + nx)];
        let mid = seq![Op::Jump(1 + ny)];
        assert(head + x + (mid + y) =~= code);
        assert(head + x + mid + y + Seq::<Op>::empty() =~= code);
        lemma_holds_part(prog, head, x, mid + y, k);
        lemma_holds_part(prog, head + x + mid, y, Seq::empty(), k);
        assert(prog[k + 0] == relocated(code[0], k + 0));
        let here = Point { pc: k, sp: i };
        if idx == last {
            let sub = lemma_match_passes(ps[idx], prog, k + 2 + nx, text, i, j);
            let start = seq![here];
            assert(is_way(prog, text, start));
            assert(stays(start, k, 2 + nx + ny));
            lemma_pass_on(prog, text, start, sub, k, k + 2 + nx, ny, 2 + nx + ny);
            start + sub
        } else {
            let sub = lemma_alternatives_pass(ps, last, idx, prog, k + 1, text, i, j);
            let entered = lemma_pass_in(prog, text, here, sub, k, nx);
            assert(prog[k + (nx + 1)] == relocated(code[nx + 1], k + (nx + 1)));
            lemma_pass_stays(prog, text, entered, k, nx + 1);
            let most = entered.drop_last();
            assert(stays(most.push(entered.last()), k, 2 + nx + ny)) by {
                assert forall|a: int| 0 <= a < most.push(entered.last()).len() implies k <= (
                #[trigger] most.push(entered.last())[a]).pc < k + (2 + nx + ny) by {
                    if a < most.len() {
                        assert(most.push(entered.last())[a] == most[a]);
                    }
                }
            }
            assert(most.push(entered.last()) =~= entered);
            lemma_pass_out(prog, text, entered, k, 2 + nx + ny, Point { pc: k + 2 + nx + ny, sp: j });
            entered.push(Point { pc: k + 2 + nx + ny, sp: j })
        }
    }
}

/// A passage through the code of the first `n` factors, where they match
/// one after another.
proof fn lemma_factors_pass(
    ps: Seq<Pattern>,
    n: nat,
    prog: Seq<Op>,
    k: int,
    text: Seq<char>,
    i: int,
    j: int,
) -> (t: Seq<Point>)
    requires
        n <= ps.len(),
        forall|a: int| 0 <= a < ps.len() ==> well_formed(#[trigger] ps[a]),
        holds_at(prog, join(fragments(ps).take(n as int)), k),
        all_match(ps, n, text, i, j),
    ensures
        passes(prog, text, t, k, join(fragments(ps).take(n as int)).len() as int),
        t[0] == (Point { pc: k, sp: i }),
        t.last().sp == j,
    decreases ps, n,
{
    let parts = fragments(ps);
    if n == 0 {
        assert(parts.take(0).len() == 0);
        let t = seq![Point { pc: k, sp: i }];
        assert(is_way(prog, text, t));
        t
    } else {
        let last = (n - 1) as nat;
        lemma_join_take(parts, last as int);
        let x = join(parts.take(last as int));
        let y = parts[last as int];
        assert(Seq::<Op>::empty() + x + y =~= x + y);
        assert(x + y + Seq::<Op>::empty() =~= x + y);
        lemma_holds_part(prog, Seq::empty(), x, y, k);
        lemma_holds_part(prog, x, y, Seq::empty(), k);
        let m = choose|m: int|
            #[trigger] between(i, m, j) && all_match(ps, last, text, i, m) && is_match(
                ps[last as int],
                text,
                m,
                j,
            );
        let first = lemma_factors_pass(ps, last, prog, k, text, i, m);
        let second = lemma_match_passes(ps[last as int], prog, k + x.len(), text, m, j);
        lemma_pass_both(prog, text, first, second, k, x.len() as int, y.len() as int)
    }
}

/// A passage through the first `n` parts of a counted repetition, where
/// `c` copies of the pattern match one after another: through the body in
/// the first `c` parts, and past the others, which are optional.
proof fn lemma_counted_passes(
    r: Pattern,
    min: nat,
    max: nat,
    n: nat,
    c: nat,
    prog: Seq<Op>,
    k: int,
    text: Seq<char>,
    i: int,
    j: int,
) -> (t: Seq<Point>)
    requires
        min <= max,
        n <= max,
        fewest(n, min) <= c <= n,
        well_formed(r),
        holds_at(prog, join(counted(fragment(r), min, max).take(n as int)), k),
        copies_match(r, c, text, i, j),
    ensures
        passes(prog, text, t, k, join(counted(fragment(r), min, max).take(n as int)).len() as int),
        t[0] == (Point { pc: k, sp: i }),
        t.last().sp == j,
    decreases r, n + 2,
{
    let body = fragment(r);
    let parts = counted(body, min, max);
    if n == 0 {
        assert(parts.take(0).len() == 0);
        let t = seq![Point { pc: k, sp: i }];
        assert(is_way(prog, text, t));
        t
    } else {
        let last = (n - 1) as nat;
        lemma_join_take(parts, last as int);
        let x = join(parts.take(last as int));
        let y = parts[last as int];
        assert(Seq::<Op>::empty() + x + y =~= x + y);
        assert(x + y + Seq::<Op>::empty() =~= x + y);
        lemma_holds_part(prog, Seq::empty(), x, y, k);
        lemma_holds_part(prog, x, y, Seq::empty(), k);
        if c == n {
            let m = choose|m: int|
                #[trigger] between(i, m, j) && copies_match(r, (c - 1) as nat, text, i, m)
                    && is_match(r, text, m, j);
            let first = lemma_counted_passes(r, min, max, last, (c - 1) as nat, prog, k, text, i, m);
            let second = if last < min {
                lemma_match_passes(r, prog, k + x.len(), text, m, j)
            } else {
                assert(seq![Op::Branch(1, 1 + body.len() as int)] + body + Seq::<Op>::empty()
                    =~= maybe(body));
                lemma_holds_part(
                    prog,
                    seq![Op::Branch(1, 1 + body.len() as int)],
                    body,
                    Seq::empty(),
                    k + x.len(),
                );
                lemma_skip_or_take(r, prog, k + x.len(), text, m, j)
            };
            lemma_pass_both(prog, text, first, second, k, x.len() as int, y.len() as int)
        } else {
            let first = lemma_counted_passes(r, min, max, last, c, prog, k, text, i, j);
            assert(seq![Op::Branch(1, 1 + body.len() as int)] + body + Seq::<Op>::empty() =~= maybe(
                body,
            ));
            lemma_holds_part(
                prog,
                seq![Op::Branch(1, 1 + body.len() as int)],
                body,
                Seq::empty(),
                k + x.len(),
            );
            let second = lemma_skip_or_take(r, prog, k + x.len(), text, j, j);
            lemma_pass_both(prog, text, first, second, k, x.len() as int, y.len() as int)
        }
    }
}

/// The pattern has no group in it.
pub open spec fn has_no_group(p: Pattern) -> bool
    decreases p,
{
    match p {
        Pattern::PrefixSuffix(_, body, _) => has_no_group(*body),
        Pattern::Branch(ps) => forall|i: int| 0 <= i < ps.len() ==> has_no_group(#[trigger] ps[i]),
        Pattern::Connect(ps) => forall|i: int| 0 <= i < ps.len() ==> has_no_group(#[trigger] ps[i]),
        Pattern::RepeatStar(r) => has_no_group(*r),
        Pattern::RepeatPlus(r) => has_no_group(*r),
        Pattern::RepeatRange(r, _, _) => has_no_group(*r),
        Pattern::Maybe(r) => has_no_group(*r),
        Pattern::Group(_) => false,
        Pattern::AnyChar => true,
        Pattern::CharClass(_, _) => true,
        Pattern::Literal(_) => true,
    }
}

/// Two codes that close no group, one behind the other, close no group.
proof fn lemma_no_group_add(a: Seq<Op>, b: Seq<Op>)
    requires
        closes_no_group(a),
        closes_no_group(b),
    ensures
        closes_no_group(a + b),
{
    assert forall|i: int| 0 <= i < (a + b).len() implies #[trigger] (a + b)[i] != Op::GroupParenR by {
        if i < a.len() {
            assert((a + b)[i] == a[i]);
        } else {
            assert((a + b)[i] == b[i - a.len()]);
        }
    }
}

/// Parts that close no group, joined, close no group.
proof fn lemma_no_group_join(parts: Seq<Seq<Op>>)
    requires
        forall|i: int| 0 <= i < parts.len() ==> closes_no_group(#[trigger] parts[i]),
    ensures
        closes_no_group(join(parts)),
    decreases parts.len(),
{
    if parts.len() > 0 {
        lemma_no_group_join(parts.drop_last());
        lemma_no_group_add(join(parts.drop_last()), parts.last());
    }
}

/// Two alternatives that close no group make a code that closes no group.
proof fn lemma_no_group_either(x: Seq<Op>, y: Seq<Op>)
    requires
        closes_no_group(x),
        closes_no_group(y),
    ensures
        closes_no_group(either(x, y)),
{
    let head = seq![Op::Branch(1, 2 + x.len() as int)];
    let mid = seq![Op::Jump(1 + y.len() as int)];
    lemma_no_group_add(head, x);
    lemma_no_group_add(head + x, mid);
    lemma_no_group_add(head + x + mid, y);
}

/// Alternatives that close no group make a code that closes no group.
proof fn lemma_no_group_alternation(parts: Seq<Seq<Op>>)
    requires
        forall|i: int| 0 <= i < parts.len() ==> closes_no_group(#[trigger] parts[i]),
    ensures
        closes_no_group(alternation(parts)),
    decreases parts.len(),
{
    if parts.len() > 1 {
        lemma_no_group_alternation(parts.drop_last());
        lemma_no_group_either(alternation(parts.drop_last()), parts.last());
    }
}

/// The code of a pattern without groups closes no group.
pub proof fn lemma_no_group_fragment(p: Pattern)
    requires
        has_no_group(p),
    ensures
        closes_no_group(fragment(p)),
    decreases p,
{
    match p {
        Pattern::PrefixSuffix(pre, body, suf) => {
            lemma_no_group_fragment(*body);
            let front: Seq<Op> = if pre {
                seq![Op::MatchPos(Position::Front)]
            } else {
                Seq::empty()
            };
            let back: Seq<Op> = if suf {
                seq![Op::MatchPos(Position::Back)]
            } else {
                Seq::empty()
            };
            lemma_no_group_add(front, fragment(*body));
            lemma_no_group_add(front + fragment(*body), back);
        },
        Pattern::Branch(ps) => {
            assert forall|i: int| 0 <= i < ps.len() implies closes_no_group(
                #[trigger] fragments(ps)[i],
            ) by {
                lemma_no_group_fragment(ps[i]);
            }
            lemma_no_group_alternation(fragments(ps));
        },
        Pattern::Connect(ps) => {
            assert forall|i: int| 0 <= i < ps.len() implies closes_no_group(
                #[trigger] fragments(ps)[i],
            ) by {
                lemma_no_group_fragment(ps[i]);
            }
            lemma_no_group_join(fragments(ps));
        },
        Pattern::RepeatStar(r) => {
            lemma_no_group_fragment(*r);
            let body = fragment(*r);
            lemma_no_group_add(seq![Op::Branch(1, 2 + body.len() as int)], body);
            lemma_no_group_add(
                seq![Op::Branch(1, 2 + body.len() as int)] + body,
                seq![Op::Jump(-(1 + body.len() as int))],
            );
        },
        Pattern::RepeatPlus(r) => {
            lemma_no_group_fragment(*r);
            let body = fragment(*r);
            lemma_no_group_add(body, seq![Op::Branch(-(body.len() as int), 1)]);
        },
        Pattern::RepeatRange(r, min, max) => {
            lemma_no_group_fragment(*r);
            let body = fragment(*r);
            lemma_no_group_add(seq![Op::Branch(1, 1 + body.len() as int)], body);
            lemma_no_group_join(counted(body, min, max));
        },
        Pattern::Maybe(r) => {
            lemma_no_group_fragment(*r);
            let body = fragment(*r);
            lemma_no_group_add(seq![Op::Branch(1, 1 + body.len() as int)], body);
        },
        Pattern::Group(_) => {},
        Pattern::AnyChar => {},
        Pattern::CharClass(_, _) => {},
        Pattern::Literal(_) => {},
    }
}

/// The program of a pattern without groups ends in `Finish`, has valid
/// targets, closes no group, and holds the code of the pattern at index 0.
pub proof fn lemma_program_without_groups(p: Pattern)
    requires
        has_no_group(p),
    ensures
        well_ended(program(p)),
        closes_no_group(program(p)),
        holds_at(program(p), fragment(p), 0),
        program(p).len() == fragment(p).len() + 1,
{
    lemma_program_targets(p);
    lemma_no_group_fragment(p);
    let code = fragment(p) + seq![Op::Finish];
    assert forall|i: int| 0 <= i < program(p).len() implies #[trigger] program(p)[i]
        != Op::GroupParenR by {
        if i < fragment(p).len() {
            assert(code[i] == fragment(p)[i]);
        }
    }
    assert forall|i: int| 0 <= i < fragment(p).len() implies #[trigger] program(p)[0 + i]
        == relocated(fragment(p)[i], 0 + i) by {
        assert(code[i] == fragment(p)[i]);
    }
}

} // verus!
