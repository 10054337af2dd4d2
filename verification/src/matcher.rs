//! The machine as it runs, and the search that drives it.

use crate::compiler::{
    can_compile, compile, loops_advance, ops_of, Char, Ins, Instruction, Position,
};
use crate::fragment::{compilable, program};
use crate::halting;
use crate::laws::search_ends;
use crate::machine::{
    attempt, backtrack, cut, first_match, halts, halts_within, lemma_attempt, report, run,
    search_gives, search_halts, start, step, tries, Machine, Step, Thread,
};
use crate::parser::RegExp;
use crate::text::chars_of;
use vstd::prelude::*;

verus! {

/// The spans of a result as pairs of unbounded integers.
pub open spec fn spans_of(v: Seq<(usize, usize)>) -> Seq<(int, int)> {
    Seq::new(v.len(), |i: int| (v[i].0 as int, v[i].1 as int))
}

/// A result as the machine states it.
pub open spec fn found_of(r: Option<Vec<(usize, usize)>>) -> Option<Seq<(int, int)>> {
    match r {
        Some(v) => Some(spans_of(v@)),
        None => None,
    }
}

/// Saved continuations as the machine states them.
spec fn threads_of(v: Seq<(isize, usize, usize)>) -> Seq<Thread> {
    Seq::new(v.len(), |i: int| Thread { pc: v[i].0 as int, sp: v[i].1 as int, depth: v[i].2 as int })
}

/// Open groups as the machine states them.
spec fn open_of(v: Seq<usize>) -> Seq<int> {
    Seq::new(v.len(), |i: int| v[i] as int)
}

/// The machine as it runs. `pc` is wide enough for every target that an
/// instruction can hold and for the index behind the last instruction.
struct Vm {
    pc: i128,
    sp: usize,
    threads: Vec<(isize, usize, usize)>,
    open: Vec<usize>,
    spans: Vec<(usize, usize)>,
}

impl View for Vm {
    type V = Machine;

    closed spec fn view(&self) -> Machine {
        Machine {
            pc: self.pc as int,
            sp: self.sp as int,
            threads: threads_of(self.threads@),
            open: open_of(self.open@),
            spans: spans_of(self.spans@),
        }
    }
}

/// The machine at the start of the attempt from offset `from`.
fn fresh(from: usize) -> (vm: Vm)
    ensures
        vm@ == start(from as int),
{
    let vm = Vm { pc: 0, sp: from, threads: Vec::new(), open: Vec::new(), spans: Vec::new() };
    assert(vm@.threads =~= start(from as int).threads);
    assert(vm@.open =~= start(from as int).open);
    assert(vm@.spans =~= start(from as int).spans);
    vm
}

/// How an attempt stands after a step.
enum Status {
    Running,
    Matched,
    Failed,
}

/// Whether `c` passes a class with members `cs`, negated when `flip` holds.
fn check(flip: bool, cs: &Vec<char>, c: char) -> (r: bool)
    ensures
        r == (cs@.contains(c) != flip),
{
    let mut i: usize = 0;
    while i < cs.len()
        invariant
            i <= cs.len(),
            forall|k: int| 0 <= k < i ==> cs@[k] != c,
        decreases cs.len() - i,
    {
        if cs[i] == c {
            return !flip;
        }
        i += 1;
    }
    flip
}

/// Takes up the latest saved continuation, if there is one.
fn resume(vm: &mut Vm) -> (s: Status)
    ensures
        match s {
            Status::Running => backtrack(old(vm)@) == Step::Next(final(vm)@),
            Status::Failed => backtrack(old(vm)@) == Step::Failed,
            Status::Matched => false,
        },
{
    match vm.threads.pop() {
        None => Status::Failed,
        Some(context) => {
            vm.pc = context.0 as i128;
            vm.sp = context.1;
            vm.open.truncate(context.2);
            proof {
                assert(threads_of(vm.threads@) =~= threads_of(old(vm).threads@).drop_last());
                assert(open_of(vm.open@) =~= cut(open_of(old(vm).open@), context.2 as int));
            }
            Status::Running
        },
    }
}

/// Executes the instruction at `vm.pc`.
fn advance(ins: &Ins, text: &[char], vm: &mut Vm) -> (s: Status)
    ensures
        match s {
            Status::Running => step(ops_of(ins@), text@, old(vm)@) == Step::Next(final(vm)@),
            Status::Matched => step(ops_of(ins@), text@, old(vm)@) == Step::Matched && *final(vm)
                == *old(vm),
            Status::Failed => step(ops_of(ins@), text@, old(vm)@) == Step::Failed,
        },
{
    if vm.pc < 0 || vm.pc >= ins.len() as i128 {
        return Status::Failed;
    }
    let sp = vm.sp;
    match &ins[vm.pc as usize] {
        Instruction::MatchChar(c) => {
            let ok = match c {
                Char::Literal(l) => text.len() > sp && *l == text[sp],
                Char::CharClass(f, cs) => text.len() > sp && check(*f, cs, text[sp]),
                Char::Any => text.len() > sp,
            };
            if ok {
                vm.pc += 1;
                vm.sp += 1;
                Status::Running
            } else {
                resume(vm)
            }
        },
        Instruction::MatchPos(p) => match p {
            Position::Front => {
                if sp == 0 {
                    vm.pc += 1;
                    Status::Running
                } else {
                    resume(vm)
                }
            },
            Position::Back => {
                if sp == text.len() {
                    vm.pc += 1;
                    Status::Running
                } else {
                    resume(vm)
                }
            },
        },
        Instruction::Branch(x, y) => {
            vm.threads.push((*y, sp, vm.open.len()));
            vm.pc = *x as i128;
            proof {
                assert(threads_of(vm.threads@) =~= threads_of(old(vm).threads@).push(
                    Thread { pc: *y as int, sp: sp as int, depth: old(vm).open@.len() as int },
                ));
            }
            Status::Running
        },
        Instruction::Jump(x) => {
            vm.pc = *x as i128;
            Status::Running
        },
        Instruction::GroupParenL => {
            vm.open.push(sp);
            vm.pc += 1;
            proof {
                assert(open_of(vm.open@) =~= open_of(old(vm).open@).push(sp as int));
            }
            Status::Running
        },
        Instruction::GroupParenR => {
            match vm.open.pop() {
                None => Status::Failed,
                Some(left) => {
                    vm.spans.push((left, sp));
                    vm.pc += 1;
                    proof {
                        assert(open_of(vm.open@) =~= open_of(old(vm).open@).drop_last());
                        assert(spans_of(vm.spans@) =~= spans_of(old(vm).spans@).push(
                            (left as int, sp as int),
                        ));
                    }
                    Status::Running
                },
            }
        },
        Instruction::Finish => Status::Matched,
    }
}

/// One attempt: runs the machine from offset `from` until it matches or fails.
fn search_impl(ins: &Ins, from: usize, text: &[char]) -> (r: Option<Vec<(usize, usize)>>)
    requires
        halts(ops_of(ins@), text@, from as int),
    ensures
        found_of(r) == attempt(ops_of(ins@), text@, from as int),
{
    let ghost prog = ops_of(ins@);
    let ghost mut fuel: nat = choose|f: nat|
        (#[trigger] run(prog, text@, from as int, start(from as int), f)) is Some;
    proof {
        lemma_attempt(prog, text@, from as int, fuel);
    }
    let mut vm = fresh(from);
    loop
        invariant
            prog == ops_of(ins@),
            run(prog, text@, from as int, vm@, fuel) == Some(attempt(prog, text@, from as int)),
        decreases fuel,
    {
        match advance(ins, text, &mut vm) {
            Status::Running => {
                proof {
                    fuel = (fuel - 1) as nat;
                }
            },
            Status::Matched => {
                let mut ret = vm.spans;
                ret.insert(0, (from, vm.sp));
                proof {
                    assert(spans_of(ret@) =~= report(from as int, vm@));
                }
                return Some(ret);
            },
            Status::Failed => {
                return None;
            },
        }
    }
}

/// Searches `text` for the pattern that `ins` was compiled from: starts an
/// attempt at offset 0, then 1, and so on below the length of the text, and
/// returns the spans of the first attempt that matches, the whole match
/// first and then the groups in the order in which they closed.
///
/// The machine has no step budget. An attempt that never comes to an end
/// would keep this function from returning, so the caller shows that every
/// attempt it makes does end. That holds of the program of every pattern
/// whose loops advance, which [`find`] relies on; [`search_bounded`] asks
/// for no such thing.
pub fn search(ins: &Ins, text: String) -> (r: Option<Vec<(usize, usize)>>)
    requires
        search_halts(ops_of(ins@), text@),
    ensures
        search_gives(ops_of(ins@), text@, found_of(r)),
{
    let chars = chars_of(text.as_str());
    let ghost prog = ops_of(ins@);
    let mut p: usize = 0;
    while p < chars.len()
        invariant
            p <= chars.len(),
            chars@ == text@,
            prog == ops_of(ins@),
            search_halts(prog, text@),
            forall|q: int| 0 <= q < p ==> (#[trigger] attempt(prog, text@, q)) is None,
        decreases chars.len() - p,
    {
        assert(tries(prog, text@, p as int));
        let ret = search_impl(ins, p, chars.as_slice());
        if ret.is_some() {
            assert(first_match(prog, text@, p as int, found_of(ret)->0));
            return ret;
        }
        p += 1;
    }
    None
}

/// Compiles `ast` and searches `text` with its program, where `ast` can be
/// compiled and its loops advance, so that the search is sure to end;
/// `None` where it cannot or they do not.
pub fn find(ast: RegExp, text: String) -> (r: Option<Option<Vec<(usize, usize)>>>)
    ensures
        r is Some <==> compilable(ast@) && halting::loops_advance(ast@),
        r matches Some(found) ==> search_gives(program(ast@), text@, found_of(found)),
{
    if can_compile(&ast) && loops_advance(&ast) {
        proof {
            search_ends(ast@, text@);
        }
        match compile(ast) {
            Ok(ins) => Some(search(&ins, text)),
            Err(_) => None,
        }
    } else {
        None
    }
}

/// A search that gave up: the attempt from offset `from` was not over within
/// the step limit.
#[derive(Debug, PartialEq, Eq, Clone, Copy)]
pub struct OutOfSteps {
    pub from: usize,
}

/// One attempt of at most `limit` steps: `None` when it is not over by then.
fn attempt_within(ins: &Ins, from: usize, text: &[char], limit: usize) -> (r: Option<
    Option<Vec<(usize, usize)>>,
>)
    ensures
        match r {
            Some(found) => halts_within(ops_of(ins@), text@, from as int, limit as nat) && found_of(
                found,
            ) == attempt(ops_of(ins@), text@, from as int),
            None => !halts_within(ops_of(ins@), text@, from as int, limit as nat),
        },
{
    let ghost prog = ops_of(ins@);
    let mut vm = fresh(from);
    let mut steps: usize = 0;
    while steps < limit
        invariant
            steps <= limit,
            prog == ops_of(ins@),
            run(prog, text@, from as int, start(from as int), limit as nat) == run(
                prog,
                text@,
                from as int,
                vm@,
                (limit - steps) as nat,
            ),
        decreases limit - steps,
    {
        match advance(ins, text, &mut vm) {
            Status::Running => {
                steps += 1;
            },
            Status::Matched => {
                let mut ret = vm.spans;
                ret.insert(0, (from, vm.sp));
                proof {
                    assert(spans_of(ret@) =~= report(from as int, vm@));
                    lemma_attempt(prog, text@, from as int, limit as nat);
                }
                return Some(Some(ret));
            },
            Status::Failed => {
                proof {
                    lemma_attempt(prog, text@, from as int, limit as nat);
                }
                return Some(None);
            },
        }
    }
    None
}

/// Searches as [`search`] does, with at most `limit` steps of the machine
/// for each attempt, and gives up at the first attempt that is not over by
/// then.
pub fn search_bounded(ins: &Ins, text: String, limit: usize) -> (r: Result<
    Option<Vec<(usize, usize)>>,
    OutOfSteps,
>)
    ensures
        match r {
            Ok(found) => {
                &&& forall|p: int| #[trigger]
                    tries(ops_of(ins@), text@, p) ==> halts_within(
                        ops_of(ins@),
                        text@,
                        p,
                        limit as nat,
                    )
                &&& search_halts(ops_of(ins@), text@)
                &&& search_gives(ops_of(ins@), text@, found_of(found))
            },
            Err(stuck) => {
                &&& tries(ops_of(ins@), text@, stuck.from as int)
                &&& !halts_within(ops_of(ins@), text@, stuck.from as int, limit as nat)
            },
        },
{
    let chars = chars_of(text.as_str());
    let ghost prog = ops_of(ins@);
    let mut p: usize = 0;
    while p < chars.len()
        invariant
            p <= chars.len(),
            chars@ == text@,
            prog == ops_of(ins@),
            forall|q: int| 0 <= q < p ==> (#[trigger] attempt(prog, text@, q)) is None,
            forall|q: int| 0 <= q < p ==> #[trigger] halts_within(prog, text@, q, limit as nat),
        decreases chars.len() - p,
    {
        match attempt_within(ins, p, chars.as_slice(), limit) {
            None => {
                return Err(OutOfSteps { from: p });
            },
            Some(ret) => {
                if ret.is_some() {
                    proof {
                        assert(first_match(prog, text@, p as int, found_of(ret)->0));
                        assert forall|q: int| #[trigger] tries(prog, text@, q) implies halts_within(
                            prog,
                            text@,
                            q,
                            limit as nat,
                        ) by {
                            if q > p {
                                assert(attempt(prog, text@, p as int) is None);
                            }
                        }
                        assert forall|q: int| #[trigger] tries(prog, text@, q) implies halts(
                            prog,
                            text@,
                            q,
                        ) by {
                            lemma_attempt(prog, text@, q, limit as nat);
                        }
                    }
                    return Ok(ret);
                }
            },
        }
        p += 1;
    }
    proof {
        assert forall|q: int| #[trigger] tries(prog, text@, q) implies halts(prog, text@, q) by {
            assert(halts_within(prog, text@, q, limit as nat));
            lemma_attempt(prog, text@, q, limit as nat);
        }
    }
    Ok(None)
}

} // verus!
