//! The ways through a program that the machine can take, without regard to
//! the order in which it tries them.

use crate::compiler::{Op, Position};
use crate::machine::{accepts, backtrack, report, run, step, Machine, Step};
use vstd::prelude::*;

verus! {

/// An instruction and an offset of the text.
pub struct Point {
    pub pc: int,
    pub sp: int,
}

/// The machine can go from `a` to `b` by the instruction at `a`.
pub open spec fn moves(prog: Seq<Op>, text: Seq<char>, a: Point, b: Point) -> bool {
    &&& 0 <= a.pc < prog.len()
    &&& match prog[a.pc] {
        Op::MatchChar(t) => 0 <= a.sp < text.len() && accepts(t, text[a.sp]) && b.pc == a.pc + 1
            && b.sp == a.sp + 1,
        Op::MatchPos(Position::Front) => a.sp == 0 && b.pc == a.pc + 1 && b.sp == a.sp,
        Op::MatchPos(Position::Back) => a.sp == text.len() && b.pc == a.pc + 1 && b.sp == a.sp,
        Op::Branch(x, y) => (b.pc == x || b.pc == y) && b.sp == a.sp,
        Op::Jump(x) => b.pc == x && b.sp == a.sp,
        Op::GroupParenL => b.pc == a.pc + 1 && b.sp == a.sp,
        Op::GroupParenR => b.pc == a.pc + 1 && b.sp == a.sp,
        Op::Finish => false,
    }
}

/// `t` is a way through `prog`: each of its points leads to the next.
pub open spec fn is_way(prog: Seq<Op>, text: Seq<char>, t: Seq<Point>) -> bool {
    &&& t.len() > 0
    &&& forall|i: int| 0 <= i < t.len() - 1 ==> moves(prog, text, #[trigger] t[i], t[i + 1])
}

/// A part of a way is a way.
pub proof fn lemma_way_part(prog: Seq<Op>, text: Seq<char>, t: Seq<Point>, a: int, b: int)
    requires
        is_way(prog, text, t),
        0 <= a < b <= t.len(),
    ensures
        is_way(prog, text, t.subrange(a, b)),
{
    let part = t.subrange(a, b);
    assert forall|i: int| 0 <= i < part.len() - 1 implies moves(
        prog,
        text,
        #[trigger] part[i],
        part[i + 1],
    ) by {
        assert(part[i] == t[a + i]);
        assert(part[i + 1] == t[a + i + 1]);
    }
}

/// A way goes on by one move from its end.
pub proof fn lemma_way_push(prog: Seq<Op>, text: Seq<char>, t: Seq<Point>, next: Point)
    requires
        is_way(prog, text, t),
        moves(prog, text, t.last(), next),
    ensures
        is_way(prog, text, t.push(next)),
{
    let longer = t.push(next);
    assert forall|i: int| 0 <= i < longer.len() - 1 implies moves(
        prog,
        text,
        #[trigger] longer[i],
        longer[i + 1],
    ) by {
        if i < t.len() - 1 {
            assert(longer[i] == t[i]);
            assert(longer[i + 1] == t[i + 1]);
        }
    }
}

/// Along a way the offset never goes back.
pub proof fn lemma_way_rises(prog: Seq<Op>, text: Seq<char>, t: Seq<Point>, a: int, b: int)
    requires
        is_way(prog, text, t),
        0 <= a <= b < t.len(),
    ensures
        t[a].sp <= t[b].sp,
    decreases b - a,
{
    if a < b {
        lemma_way_rises(prog, text, t, a, b - 1);
        assert(moves(prog, text, t[b - 1], t[b]));
    }
}

/// The point at which machine `m` stands.
pub open spec fn point_of(m: Machine) -> Point {
    Point { pc: m.pc, sp: m.sp }
}

/// `t` leads from the start of the attempt from `from` to the point `to`.
pub open spec fn leads(prog: Seq<Op>, text: Seq<char>, from: int, t: Seq<Point>, to: Point) -> bool {
    &&& is_way(prog, text, t)
    &&& t[0] == Point { pc: 0, sp: from }
    &&& t.last() == to
}

/// An attempt that matches has gone a way from its start to a `Finish`,
/// and the end of its first span is the offset at which it got there.
pub proof fn lemma_match_went_a_way(
    prog: Seq<Op>,
    text: Seq<char>,
    from: int,
    m: Machine,
    fuel: nat,
    here: Seq<Point>,
    saved: Seq<Seq<Point>>,
) -> (t: Seq<Point>)
    requires
        run(prog, text, from, m, fuel) matches Some(Some(_)),
        leads(prog, text, from, here, point_of(m)),
        saved.len() == m.threads.len(),
        forall|j: int|
            0 <= j < saved.len() ==> leads(
                prog,
                text,
                from,
                #[trigger] saved[j],
                Point { pc: m.threads[j].pc, sp: m.threads[j].sp },
            ),
    ensures
        is_way(prog, text, t),
        t[0] == (Point { pc: 0, sp: from }),
        0 <= t.last().pc < prog.len(),
        prog[t.last().pc] == Op::Finish,
        run(prog, text, from, m, fuel) matches Some(Some(spans)) && spans.len() > 0 && spans[0] == (
            from,
            t.last().sp,
        ),
    decreases fuel,
{
    match step(prog, text, m) {
        Step::Next(next) => {
            let op = prog[m.pc];
            if backtrack(m) == Step::Next(next) && !(op is Branch || op is Jump || op is GroupParenL
                || op is GroupParenR) {
                let rest = saved.drop_last();
                assert forall|j: int| 0 <= j < rest.len() implies leads(
                    prog,
                    text,
                    from,
                    #[trigger] rest[j],
                    Point { pc: next.threads[j].pc, sp: next.threads[j].sp },
                ) by {
                    assert(rest[j] == saved[j]);
                }
                lemma_match_went_a_way(prog, text, from, next, (fuel - 1) as nat, saved.last(), rest)
            } else {
                lemma_way_push(prog, text, here, point_of(next));
                let on = here.push(point_of(next));
                match op {
                    Op::Branch(x, y) => {
                        let other = Point { pc: y, sp: m.sp };
                        lemma_way_push(prog, text, here, other);
                        let more = saved.push(here.push(other));
                        assert forall|j: int| 0 <= j < more.len() implies leads(
                            prog,
                            text,
                            from,
                            #[trigger] more[j],
                            Point { pc: next.threads[j].pc, sp: next.threads[j].sp },
                        ) by {
                            if j < saved.len() {
                                assert(more[j] == saved[j]);
                                assert(next.threads[j] == m.threads[j]);
                            }
                        }
                        lemma_match_went_a_way(prog, text, from, next, (fuel - 1) as nat, on, more)
                    },
                    _ => {
                        lemma_match_went_a_way(prog, text, from, next, (fuel - 1) as nat, on, saved)
                    },
                }
            }
        },
        Step::Matched => {
            assert(report(from, m)[0] == (from, m.sp));
            here
        },
        Step::Failed => here,
    }
}

} // verus!
