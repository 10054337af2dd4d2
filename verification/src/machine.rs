//! The machine: its states, its steps, and what an attempt and a search give.

use crate::compiler::{CharTest, Op, Position};
use vstd::prelude::*;

verus! {

/// A continuation saved at a `Branch`: where to go on, from which offset of
/// the text, and how many groups were open.
pub struct Thread {
    pub pc: int,
    pub sp: int,
    pub depth: int,
}

/// The state of one attempt.
pub struct Machine {
    /// Index of the next instruction.
    pub pc: int,
    /// Offset of the next character of the text.
    pub sp: int,
    /// Saved continuations, the latest last.
    pub threads: Seq<Thread>,
    /// Where the groups that are open began, the innermost last.
    pub open: Seq<int>,
    /// The groups closed so far, in the order in which they closed.
    pub spans: Seq<(int, int)>,
}

/// What one instruction does to a machine.
pub enum Step {
    /// The attempt goes on in this state.
    Next(Machine),
    /// `Finish` was reached.
    Matched,
    /// The attempt is over without a match.
    Failed,
}

/// The machine that starts an attempt at offset `from`.
pub open spec fn start(from: int) -> Machine {
    Machine { pc: 0, sp: from, threads: Seq::empty(), open: Seq::empty(), spans: Seq::empty() }
}

/// Whether character `c` passes test `t`.
pub open spec fn accepts(t: CharTest, c: char) -> bool {
    match t {
        CharTest::Literal(l) => c == l,
        CharTest::Any => true,
        CharTest::CharClass(negated, members) => members.contains(c) != negated,
    }
}

/// The open groups cut back to `depth`; fewer than `depth` stay as they are.
pub open spec fn cut(open: Seq<int>, depth: int) -> Seq<int> {
    if 0 <= depth <= open.len() {
        open.take(depth)
    } else {
        open
    }
}

/// Goes on with the latest saved continuation, or fails when there is none.
/// The closed groups stay.
pub open spec fn backtrack(m: Machine) -> Step {
    if m.threads.len() == 0 {
        Step::Failed
    } else {
        let t = m.threads.last();
        Step::Next(
            Machine {
                pc: t.pc,
                sp: t.sp,
                threads: m.threads.drop_last(),
                open: cut(m.open, t.depth),
                spans: m.spans,
            },
        )
    }
}

/// One step of the machine on program `prog` and text `text`.
pub open spec fn step(prog: Seq<Op>, text: Seq<char>, m: Machine) -> Step {
    if !(0 <= m.pc < prog.len()) {
        Step::Failed
    } else {
        match prog[m.pc] {
            Op::MatchChar(t) => if 0 <= m.sp < text.len() && accepts(t, text[m.sp]) {
                Step::Next(Machine { pc: m.pc + 1, sp: m.sp + 1, ..m })
            } else {
                backtrack(m)
            },
            Op::MatchPos(Position::Front) => if m.sp == 0 {
                Step::Next(Machine { pc: m.pc + 1, ..m })
            } else {
                backtrack(m)
            },
            Op::MatchPos(Position::Back) => if m.sp == text.len() {
                Step::Next(Machine { pc: m.pc + 1, ..m })
            } else {
                backtrack(m)
            },
            Op::Branch(x, y) => Step::Next(
                Machine {
                    pc: x,
                    threads: m.threads.push(
                        Thread { pc: y, sp: m.sp, depth: m.open.len() as int },
                    ),
                    ..m
                },
            ),
            Op::Jump(x) => Step::Next(Machine { pc: x, ..m }),
            Op::GroupParenL => Step::Next(Machine { pc: m.pc + 1, open: m.open.push(m.sp), ..m }),
            Op::GroupParenR => if m.open.len() == 0 {
                Step::Failed
            } else {
                Step::Next(
                    Machine {
                        pc: m.pc + 1,
                        open: m.open.drop_last(),
                        spans: m.spans.push((m.open.last(), m.sp)),
                        ..m
                    },
                )
            },
            Op::Finish => Step::Matched,
        }
    }
}

/// What a machine that has reached `Finish` reports for an attempt from
/// `from`: the whole match, then the closed groups.
pub open spec fn report(from: int, m: Machine) -> Seq<(int, int)> {
    seq![(from, m.sp)] + m.spans
}

/// The result of at most `fuel` steps from `m`: `None` while the attempt is
/// not over, else whether it matched and with which spans.
pub open spec fn run(prog: Seq<Op>, text: Seq<char>, from: int, m: Machine, fuel: nat) -> Option<
    Option<Seq<(int, int)>>,
>
    decreases fuel,
{
    if fuel == 0 {
        None
    } else {
        match step(prog, text, m) {
            Step::Next(next) => run(prog, text, from, next, (fuel - 1) as nat),
            Step::Matched => Some(Some(report(from, m))),
            Step::Failed => Some(None),
        }
    }
}

/// The attempt from offset `from` comes to an end.
pub open spec fn halts(prog: Seq<Op>, text: Seq<char>, from: int) -> bool {
    exists|fuel: nat| (#[trigger] run(prog, text, from, start(from), fuel)) is Some
}

/// The result of the attempt from offset `from`, where it comes to an end.
pub open spec fn attempt(prog: Seq<Op>, text: Seq<char>, from: int) -> Option<Seq<(int, int)>>
    recommends
        halts(prog, text, from),
{
    let fuel = choose|fuel: nat| (#[trigger] run(prog, text, from, start(from), fuel)) is Some;
    run(prog, text, from, start(from), fuel)->0
}

/// `spans` is the result of the attempt from `from`, and every attempt from
/// an earlier offset ends without a match.
pub open spec fn first_match(prog: Seq<Op>, text: Seq<char>, from: int, spans: Seq<(int, int)>) -> bool {
    &&& 0 <= from < text.len()
    &&& attempt(prog, text, from) == Some(spans)
    &&& forall|p: int| 0 <= p < from ==> (#[trigger] attempt(prog, text, p)) is None
}

/// `found` is what a search of `text` gives: the result of the first attempt
/// that matches, taking the offsets `0, 1, ..` below the length of the text
/// in turn, or `None` when none of them matches.
pub open spec fn search_gives(prog: Seq<Op>, text: Seq<char>, found: Option<Seq<(int, int)>>) -> bool {
    match found {
        Some(spans) => exists|from: int| #[trigger] first_match(prog, text, from, spans),
        None => forall|p: int| 0 <= p < text.len() ==> (#[trigger] attempt(prog, text, p)) is None,
    }
}

/// A search of `text` makes the attempt from offset `p`: `p` is an offset of
/// the text, and every attempt from an earlier offset ends without a match.
pub open spec fn tries(prog: Seq<Op>, text: Seq<char>, p: int) -> bool {
    &&& 0 <= p < text.len()
    &&& forall|q: int| 0 <= q < p ==> (#[trigger] attempt(prog, text, q)) is None
}

/// Every attempt that a search of `text` makes comes to an end.
pub open spec fn search_halts(prog: Seq<Op>, text: Seq<char>) -> bool {
    forall|p: int| #[trigger] tries(prog, text, p) ==> halts(prog, text, p)
}

/// The attempt from offset `from` is over within `limit` steps.
pub open spec fn halts_within(prog: Seq<Op>, text: Seq<char>, from: int, limit: nat) -> bool {
    run(prog, text, from, start(from), limit) is Some
}

/// More fuel does not change the result of a run that is over.
pub proof fn lemma_run_more(prog: Seq<Op>, text: Seq<char>, from: int, m: Machine, fuel: nat, more: nat)
    requires
        run(prog, text, from, m, fuel) is Some,
        fuel <= more,
    ensures
        run(prog, text, from, m, more) == run(prog, text, from, m, fuel),
    decreases fuel,
{
    if let Step::Next(next) = step(prog, text, m) {
        lemma_run_more(prog, text, from, next, (fuel - 1) as nat, (more - 1) as nat);
    }
}

/// A run that is over within some fuel gives the result of the attempt.
pub proof fn lemma_attempt(prog: Seq<Op>, text: Seq<char>, from: int, fuel: nat)
    requires
        run(prog, text, from, start(from), fuel) is Some,
    ensures
        halts(prog, text, from),
        run(prog, text, from, start(from), fuel) == Some(attempt(prog, text, from)),
{
    let chosen = choose|f: nat| (#[trigger] run(prog, text, from, start(from), f)) is Some;
    if chosen <= fuel {
        lemma_run_more(prog, text, from, start(from), chosen, fuel);
    } else {
        lemma_run_more(prog, text, from, start(from), fuel, chosen);
    }
}

/// The machine after `n` steps from `m`, where the attempt goes on that long.
pub open spec fn after(prog: Seq<Op>, text: Seq<char>, m: Machine, n: nat) -> Option<Machine>
    decreases n,
{
    if n == 0 {
        Some(m)
    } else {
        match step(prog, text, m) {
            Step::Next(next) => after(prog, text, next, (n - 1) as nat),
            _ => None,
        }
    }
}

/// A run that passes through a machine goes on from there.
pub proof fn lemma_run_after(
    prog: Seq<Op>,
    text: Seq<char>,
    from: int,
    m: Machine,
    n: nat,
    fuel: nat,
)
    requires
        after(prog, text, m, n) is Some,
    ensures
        run(prog, text, from, m, n + fuel) == run(prog, text, from, after(prog, text, m, n)->0, fuel),
    decreases n,
{
    if n > 0 {
        let next = step(prog, text, m)->Next_0;
        lemma_run_after(prog, text, from, next, (n - 1) as nat, fuel);
    }
}

} // verus!
