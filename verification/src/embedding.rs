//! A code that stands in a program, and the machine in it.

use crate::compiler::Op;
use crate::fragment::{closed, lands_within, relocate, relocated};
use crate::machine::{after, backtrack, report, run, step, Machine, Step, Thread};
use vstd::prelude::*;

verus! {

/// The saved continuations `ts`, each moved `k` instructions on.
pub open spec fn moved(ts: Seq<Thread>, k: int) -> Seq<Thread> {
    Seq::new(ts.len(), |j: int| Thread { pc: ts[j].pc + k, sp: ts[j].sp, depth: ts[j].depth })
}

/// The machine `m` of a code that stands alone, as it is where the code
/// stands at index `k` of a program and the continuations `below` were saved
/// before the code was entered.
pub open spec fn lifted(m: Machine, k: int, below: Seq<Thread>) -> Machine {
    Machine {
        pc: m.pc + k,
        sp: m.sp,
        threads: below + moved(m.threads, k),
        open: m.open,
        spans: m.spans,
    }
}

/// `m` and its saved continuations stand in a code of `len` instructions or
/// just behind it.
pub open spec fn inside(m: Machine, len: int) -> bool {
    &&& 0 <= m.pc <= len
    &&& forall|j: int| 0 <= j < m.threads.len() ==> 0 <= (#[trigger] m.threads[j]).pc <= len
}

/// `prog` holds `code` at index `k`.
pub open spec fn holds_at(prog: Seq<Op>, code: Seq<Op>, k: int) -> bool {
    &&& 0 <= k
    &&& k + code.len() <= prog.len()
    &&& forall|i: int| 0 <= i < code.len() ==> #[trigger] prog[k + i] == relocated(code[i], k + i)
}

/// One step inside a code that stands alone is the same step where the code
/// stands in a program.
pub proof fn lemma_lifted_step(
    code: Seq<Op>,
    prog: Seq<Op>,
    k: int,
    below: Seq<Thread>,
    text: Seq<char>,
    m: Machine,
)
    requires
        closed(code),
        holds_at(prog, code, k),
        inside(m, code.len() as int),
        m.pc < code.len(),
        step(relocate(code + seq![Op::Finish]), text, m) is Next,
    ensures
        step(prog, text, lifted(m, k, below)) == Step::Next(
            lifted(step(relocate(code + seq![Op::Finish]), text, m)->Next_0, k, below),
        ),
        inside(step(relocate(code + seq![Op::Finish]), text, m)->Next_0, code.len() as int),
{
    let alone = relocate(code + seq![Op::Finish]);
    let next = step(alone, text, m)->Next_0;
    let op = code[m.pc];
    let up = lifted(m, k, below);
    assert(alone[m.pc] == relocated(op, m.pc));
    assert(prog[k + m.pc] == relocated(op, k + m.pc));
    assert(lands_within(op, m.pc, code.len() as int) && op != Op::Finish);
    if backtrack(m) is Next {
        let t = m.threads.last();
        assert(up.threads.last() == Thread { pc: t.pc + k, sp: t.sp, depth: t.depth });
        assert(up.threads.drop_last() =~= below + moved(m.threads.drop_last(), k));
        assert(backtrack(up) == Step::Next(lifted(backtrack(m)->Next_0, k, below)));
        assert(inside(backtrack(m)->Next_0, code.len() as int));
    }
    match op {
        Op::Branch(x, y) => {
            let saved = Thread { pc: y + m.pc, sp: m.sp, depth: m.open.len() as int };
            assert(up.threads.push(Thread { pc: y + m.pc + k, sp: m.sp, depth: m.open.len() as int })
                =~= below + moved(m.threads.push(saved), k));
            assert(next.threads == m.threads.push(saved));
            assert forall|j: int| 0 <= j < next.threads.len() implies 0 <= (
            #[trigger] next.threads[j]).pc <= code.len() by {
                if j < m.threads.len() {
                    assert(next.threads[j] == m.threads[j]);
                }
            }
        },
        _ => {},
    }
}

/// A match of a closed code that stands alone is a passage through the code
/// where it stands in a program: the machine comes out just behind the
/// code, with the offset and the groups of the match, and with what was
/// saved before the code was entered still saved.
pub proof fn lemma_lifted_run(
    code: Seq<Op>,
    prog: Seq<Op>,
    k: int,
    below: Seq<Thread>,
    text: Seq<char>,
    from: int,
    m: Machine,
    fuel: nat,
) -> (r: (Machine, nat))
    requires
        closed(code),
        holds_at(prog, code, k),
        inside(m, code.len() as int),
        run(relocate(code + seq![Op::Finish]), text, from, m, fuel) matches Some(Some(_)),
    ensures
        r.1 < fuel,
        after(prog, text, lifted(m, k, below), r.1) == Some(lifted(r.0, k, below)),
        r.0.pc == code.len(),
        run(relocate(code + seq![Op::Finish]), text, from, m, fuel) == Some(Some(report(from, r.0))),
    decreases fuel,
{
    let alone = relocate(code + seq![Op::Finish]);
    if m.pc == code.len() {
        assert(alone[m.pc] == Op::Finish);
        (m, 0)
    } else {
        assert(alone[m.pc] == relocated(code[m.pc], m.pc));
        assert(code[m.pc] != Op::Finish);
        lemma_lifted_step(code, prog, k, below, text, m);
        let next = step(alone, text, m)->Next_0;
        let (end, used) = lemma_lifted_run(code, prog, k, below, text, from, next, (fuel - 1) as nat);
        (end, used + 1)
    }
}

} // verus!
