//! The instruction set, and the compiler from patterns to programs.

use crate::fragment::{
    alternation, compilable, counted, either, fragment, fragments, group, join, lands_within,
    lemma_alternation_first, lemma_alternation_len, lemma_alternation_part, lemma_alternation_take,
    lemma_counted_len, lemma_fragment_closed, lemma_join_len, lemma_join_part, lemma_join_take,
    lemma_program_targets, maybe, plus, program, relocate, relocated, star, valid_targets,
    well_formed,
};
use crate::halting;
use crate::parser::{lemma_children, patterns_of, Pattern, RegExp};
use vstd::prelude::*;

verus! {

/// A program: instructions with absolute targets, the last one a `Finish`.
pub type Ins = Vec<Instruction>;

/// One instruction of the machine.
#[derive(Debug, PartialEq)]
pub enum Instruction {
    /// Takes one character of the text if it passes the test.
    MatchChar(Char),
    /// Goes on at the target.
    Jump(isize),
    /// Goes on at the first target and saves the second for later.
    Branch(isize, isize),
    /// Holds only at one end of the text; takes no character.
    MatchPos(Position),
    /// A group opens here.
    GroupParenL,
    /// The group that was opened last closes here.
    GroupParenR,
    /// The attempt has matched.
    Finish,
}

/// The test of a `MatchChar`.
#[derive(Debug, PartialEq)]
pub enum Char {
    /// This character and no other.
    Literal(char),
    /// Any character.
    Any,
    /// A member of the class, or, where the flag is set, any character that
    /// is no member.
    CharClass(bool, Vec<char>),
}

/// An end of the text.
#[derive(Debug, PartialEq, Clone, Copy)]
pub enum Position {
    Front,
    Back,
}

/// What a [`Char`] tests, with the members of a class as a sequence.
pub enum CharTest {
    Literal(char),
    Any,
    CharClass(bool, Seq<char>),
}

/// What an [`Instruction`] stands for, with unbounded targets.
pub enum Op {
    MatchChar(CharTest),
    Jump(int),
    Branch(int, int),
    MatchPos(Position),
    GroupParenL,
    GroupParenR,
    Finish,
}

impl View for Char {
    type V = CharTest;

    open spec fn view(&self) -> CharTest {
        match *self {
            Char::Literal(c) => CharTest::Literal(c),
            Char::Any => CharTest::Any,
            Char::CharClass(negated, members) => CharTest::CharClass(negated, members@),
        }
    }
}

impl View for Instruction {
    type V = Op;

    open spec fn view(&self) -> Op {
        match *self {
            Instruction::MatchChar(c) => Op::MatchChar(c@),
            Instruction::Jump(p) => Op::Jump(p as int),
            Instruction::Branch(x, y) => Op::Branch(x as int, y as int),
            Instruction::MatchPos(p) => Op::MatchPos(p),
            Instruction::GroupParenL => Op::GroupParenL,
            Instruction::GroupParenR => Op::GroupParenR,
            Instruction::Finish => Op::Finish,
        }
    }
}

/// What a sequence of instructions stands for, element by element.
pub open spec fn ops_of(v: Seq<Instruction>) -> Seq<Op> {
    Seq::new(v.len(), |i: int| v[i]@)
}

/// What a sequence with one more instruction stands for.
pub proof fn lemma_ops_of_push(v: Seq<Instruction>, x: Instruction)
    ensures
        ops_of(v.push(x)) == ops_of(v).push(x@),
{
    assert(ops_of(v.push(x)) =~= ops_of(v).push(x@));
}

/// What two sequences one behind the other stand for.
pub proof fn lemma_ops_of_add(a: Seq<Instruction>, b: Seq<Instruction>)
    ensures
        ops_of(a + b) == ops_of(a) + ops_of(b),
{
    assert(ops_of(a + b) =~= ops_of(a) + ops_of(b));
}

/// A copy of the members of a class.
fn copy_members(members: &Vec<char>) -> (r: Vec<char>)
    ensures
        r@ == members@,
{
    let mut copy: Vec<char> = Vec::new();
    let mut i: usize = 0;
    while i < members.len()
        invariant
            i <= members.len(),
            copy@ == members@.take(i as int),
        decreases members.len() - i,
    {
        copy.push(members[i]);
        assert(members@.take(i + 1) == members@.take(i as int).push(members@[i as int]));
        i += 1;
    }
    assert(members@.take(members.len() as int) == members@);
    copy
}

/// A copy of a test.
fn copy_char(c: &Char) -> (r: Char)
    ensures
        r@ == c@,
{
    match c {
        Char::Literal(l) => Char::Literal(*l),
        Char::Any => Char::Any,
        Char::CharClass(negated, members) => Char::CharClass(*negated, copy_members(members)),
    }
}

/// A copy of an instruction.
fn copy_instruction(ins: &Instruction) -> (r: Instruction)
    ensures
        r@ == ins@,
{
    match ins {
        Instruction::MatchChar(c) => Instruction::MatchChar(copy_char(c)),
        Instruction::Jump(p) => Instruction::Jump(*p),
        Instruction::Branch(x, y) => Instruction::Branch(*x, *y),
        Instruction::MatchPos(p) => Instruction::MatchPos(*p),
        Instruction::GroupParenL => Instruction::GroupParenL,
        Instruction::GroupParenR => Instruction::GroupParenR,
        Instruction::Finish => Instruction::Finish,
    }
}

/// Appends a copy of `other` to `ins`.
fn append_copy(ins: &mut Ins, other: &Ins)
    ensures
        ops_of(final(ins)@) == ops_of(old(ins)@) + ops_of(other@),
{
    let mut i: usize = 0;
    while i < other.len()
        invariant
            i <= other.len(),
            ops_of(ins@) == ops_of(old(ins)@) + ops_of(other@).take(i as int),
        decreases other.len() - i,
    {
        let copy = copy_instruction(&other[i]);
        proof {
            lemma_ops_of_push(ins@, copy);
            assert(ops_of(other@).take(i + 1) == ops_of(other@).take(i as int).push(other@[i as int]@));
        }
        ins.push(copy);
        i += 1;
    }
    assert(ops_of(other@).take(other.len() as int) == ops_of(other@));
}

/// Compiles a pattern to its program: the code of the pattern, a final
/// `Finish`, and every target counted from the start of the program.
///
/// The pattern is well-formed and its program has a length that an `isize`
/// holds; [`can_compile`] tells whether that is so. Then there is no error
/// to return.
pub fn compile(ast: RegExp) -> (r: Result<Ins, String>)
    requires
        compilable(ast@),
    ensures
        r matches Ok(ins) && ops_of(ins@) == program(ast@),
        valid_targets(program(ast@)),
{
    let mut ins = compile_impl(&ast)?;
    proof {
        lemma_ops_of_push(ins@, Instruction::Finish);
        lemma_fragment_closed(ast@);
        lemma_program_targets(ast@);
    }
    ins.push(Instruction::Finish);
    let ghost code = ops_of(ins@);
    assert forall|i: int| 0 <= i < code.len() implies lands_within(
        #[trigger] code[i],
        i,
        code.len() as int,
    ) by {
        if i < fragment(ast@).len() {
            assert(lands_within(fragment(ast@)[i], i, fragment(ast@).len() as int));
        }
    }
    let n = ins.len();
    let mut idx: usize = 0;
    while idx < n
        invariant
            idx <= n,
            n == ins.len(),
            n == code.len(),
            n <= isize::MAX,
            forall|i: int| 0 <= i < n ==> lands_within(#[trigger] code[i], i, n as int),
            forall|i: int| 0 <= i < idx ==> (#[trigger] ins@[i])@ == relocated(code[i], i),
            forall|i: int| idx <= i < n ==> (#[trigger] ins@[i])@ == code[i],
        decreases n - idx,
    {
        assert(lands_within(code[idx as int], idx as int, n as int));
        let at = idx as isize;
        let moved = match &ins[idx] {
            Instruction::Jump(p) => Some(Instruction::Jump(*p + at)),
            Instruction::Branch(x, y) => Some(Instruction::Branch(*x + at, *y + at)),
            _ => None,
        };
        if let Some(op) = moved {
            ins.set(idx, op);
        }
        idx += 1;
    }
    assert(ops_of(ins@) =~= relocate(code));
    Ok(ins)
}

/// The code of `exp`, every target counted from the instruction that holds it.
fn compile_impl(exp: &RegExp) -> (r: Result<Ins, String>)
    requires
        compilable(exp@),
    ensures
        r matches Ok(ins) && ops_of(ins@) == fragment(exp@),
    decreases exp, 0int,
{
    match exp {
        RegExp::PrefixSuffix(pre, body, suf) => {
            let mut ins: Ins = Vec::new();
            if *pre {
                ins.push(Instruction::MatchPos(Position::Front));
            }
            let mut body_ins = compile_impl(body)?;
            proof {
                lemma_ops_of_add(ins@, body_ins@);
            }
            ins.append(&mut body_ins);
            if *suf {
                proof {
                    lemma_ops_of_push(ins@, Instruction::MatchPos(Position::Back));
                }
                ins.push(Instruction::MatchPos(Position::Back));
            }
            assert(ops_of(ins@) =~= fragment(exp@));
            Ok(ins)
        },
        RegExp::Branch(v) => {
            let ghost parts = fragments(patterns_of(v@));
            proof {
                lemma_children(*v);
                lemma_alternation_first(parts);
            }
            let mut ins = compile_impl(&v[0])?;
            let mut i: usize = 1;
            while i < v.len()
                invariant
                    1 <= i <= v.len(),
                    exp == RegExp::Branch(*v),
                    compilable(exp@),
                    parts == fragments(patterns_of(v@)),
                    fragment(exp@) == alternation(parts),
                    ops_of(ins@) == alternation(parts.take(i as int)),
                decreases v.len() - i,
            {
                proof {
                    lemma_children(*v);
                    lemma_alternation_take(parts, i as int);
                    lemma_alternation_part(parts, i as int);
                }
                ins = compile_branch(ins, &v[i])?;
                i += 1;
            }
            proof {
                lemma_alternation_len(parts, i as int, i as int);
            }
            Ok(ins)
        },
        RegExp::Connect(v) => {
            let ghost parts = fragments(patterns_of(v@));
            proof {
                lemma_children(*v);
            }
            let mut ins: Ins = Vec::new();
            let mut i: usize = 0;
            while i < v.len()
                invariant
                    i <= v.len(),
                    exp == RegExp::Connect(*v),
                    compilable(exp@),
                    parts == fragments(patterns_of(v@)),
                    fragment(exp@) == join(parts),
                    ops_of(ins@) == join(parts.take(i as int)),
                decreases v.len() - i,
            {
                proof {
                    lemma_children(*v);
                    lemma_join_take(parts, i as int);
                    lemma_join_part(parts, i as int);
                }
                ins = compile_connection(ins, &v[i])?;
                i += 1;
            }
            proof {
                lemma_join_len(parts, i as int, i as int);
            }
            Ok(ins)
        },
        RegExp::RepeatStar(r) => compile_repeat_star(r),
        RegExp::RepeatPlus(r) => compile_repeat_plus(r),
        RegExp::RepeatRange(r, l, h) => {
            let ghost parts = counted(fragment(r@), *l as nat, *h as nat);
            proof {
                lemma_join_part(parts, 0);
                lemma_join_part(parts, *h - 1);
            }
            let body = compile_impl(r)?;
            let mut ins: Ins = Vec::new();
            let mut i: usize = 0;
            while i < *l
                invariant
                    i <= *l <= *h,
                    parts == counted(fragment(r@), *l as nat, *h as nat),
                    ops_of(body@) == fragment(r@),
                    ops_of(ins@) == join(parts.take(i as int)),
                decreases *l - i,
            {
                proof {
                    lemma_join_take(parts, i as int);
                }
                append_copy(&mut ins, &body);
                i += 1;
            }
            if i < *h {
                let mut option: Ins = Vec::new();
                option.push(Instruction::Branch(1, 1 + body.len() as isize));
                proof {
                    lemma_ops_of_add(option@, body@);
                }
                append_copy(&mut option, &body);
                assert(ops_of(option@) =~= maybe(fragment(r@)));
                while i < *h
                    invariant
                        *l <= i <= *h,
                        parts == counted(fragment(r@), *l as nat, *h as nat),
                        ops_of(option@) == maybe(fragment(r@)),
                        ops_of(ins@) == join(parts.take(i as int)),
                    decreases *h - i,
                {
                    proof {
                        lemma_join_take(parts, i as int);
                    }
                    append_copy(&mut ins, &option);
                    i += 1;
                }
            }
            proof {
                lemma_join_len(parts, i as int, i as int);
            }
            Ok(ins)
        },
        RegExp::Maybe(r) => compile_maybe(r),
        RegExp::Group(r) => compile_group(r),
        RegExp::AnyChar => compile_match_char(Char::Any),
        RegExp::CharClass(f, r) => compile_match_char(Char::CharClass(*f, copy_members(r))),
        RegExp::Literal(c) => compile_match_char(Char::Literal(*c)),
    }
}

/// One test.
fn compile_match_char(c: Char) -> (r: Result<Ins, String>)
    ensures
        r matches Ok(ins) && ops_of(ins@) == seq![Op::MatchChar(c@)],
{
    let mut ins: Ins = Vec::new();
    ins.push(Instruction::MatchChar(c));
    assert(ops_of(ins@) =~= seq![Op::MatchChar(c@)]);
    Ok(ins)
}

/// `x_ins` first, and the code of `y` only when that has failed.
fn compile_branch(x_ins: Ins, y: &RegExp) -> (r: Result<Ins, String>)
    requires
        compilable(y@),
        x_ins.len() + fragment(y@).len() + 2 < isize::MAX,
    ensures
        r matches Ok(ins) && ops_of(ins@) == either(ops_of(x_ins@), fragment(y@)),
    decreases y, 1int,
{
    let mut x_ins = x_ins;
    let ghost x = ops_of(x_ins@);
    let mut y_ins = compile_impl(y)?;
    let mut ins: Ins = Vec::new();
    ins.push(Instruction::Branch(1, 2 + x_ins.len() as isize));
    proof {
        lemma_ops_of_add(ins@, x_ins@);
    }
    ins.append(&mut x_ins);
    proof {
        lemma_ops_of_push(ins@, Instruction::Jump((1 + y_ins.len()) as isize));
    }
    ins.push(Instruction::Jump(1 + y_ins.len() as isize));
    proof {
        lemma_ops_of_add(ins@, y_ins@);
    }
    ins.append(&mut y_ins);
    assert(ops_of(ins@) =~= either(x, fragment(y@)));
    Ok(ins)
}

/// `x_ins`, then the code of `y`.
fn compile_connection(x_ins: Ins, y: &RegExp) -> (r: Result<Ins, String>)
    requires
        compilable(y@),
    ensures
        r matches Ok(ins) && ops_of(ins@) == ops_of(x_ins@) + fragment(y@),
    decreases y, 1int,
{
    let mut ins = x_ins;
    let mut y_ins = compile_impl(y)?;
    proof {
        lemma_ops_of_add(ins@, y_ins@);
    }
    ins.append(&mut y_ins);
    Ok(ins)
}

/// The code of `exp`, or nothing: the code first.
fn compile_maybe(exp: &RegExp) -> (r: Result<Ins, String>)
    requires
        compilable(exp@),
        fragment(exp@).len() + 1 < isize::MAX,
    ensures
        r matches Ok(ins) && ops_of(ins@) == maybe(fragment(exp@)),
    decreases exp, 1int,
{
    let mut exp_ins = compile_impl(exp)?;
    let mut ins: Ins = Vec::new();
    ins.push(Instruction::Branch(1, 1 + exp_ins.len() as isize));
    proof {
        lemma_ops_of_add(ins@, exp_ins@);
    }
    ins.append(&mut exp_ins);
    assert(ops_of(ins@) =~= maybe(fragment(exp@)));
    Ok(ins)
}

/// The code of `exp` any number of times: once more first, and on only
/// when that has failed.
fn compile_repeat_star(exp: &RegExp) -> (r: Result<Ins, String>)
    requires
        compilable(exp@),
        fragment(exp@).len() + 2 < isize::MAX,
    ensures
        r matches Ok(ins) && ops_of(ins@) == star(fragment(exp@)),
    decreases exp, 1int,
{
    let mut exp_ins = compile_impl(exp)?;
    let len = exp_ins.len() as isize;
    let mut ins: Ins = Vec::new();
    ins.push(Instruction::Branch(1, 2 + len));
    proof {
        lemma_ops_of_add(ins@, exp_ins@);
    }
    ins.append(&mut exp_ins);
    proof {
        lemma_ops_of_push(ins@, Instruction::Jump((-(1 + len)) as isize));
    }
    ins.push(Instruction::Jump(-(1 + len)));
    assert(ops_of(ins@) =~= star(fragment(exp@)));
    Ok(ins)
}

/// The code of `exp` once, and then any number of times.
fn compile_repeat_plus(exp: &RegExp) -> (r: Result<Ins, String>)
    requires
        compilable(exp@),
        fragment(exp@).len() + 1 < isize::MAX,
    ensures
        r matches Ok(ins) && ops_of(ins@) == plus(fragment(exp@)),
    decreases exp, 1int,
{
    let mut exp_ins = compile_impl(exp)?;
    let len = exp_ins.len() as isize;
    let mut ins: Ins = Vec::new();
    ins.append(&mut exp_ins);
    proof {
        lemma_ops_of_push(ins@, Instruction::Branch((-len) as isize, 1));
    }
    ins.push(Instruction::Branch(-len, 1));
    assert(ops_of(ins@) =~= plus(fragment(exp@)));
    Ok(ins)
}

/// The code of `exp` between the marks of a group.
fn compile_group(exp: &RegExp) -> (r: Result<Ins, String>)
    requires
        compilable(exp@),
    ensures
        r matches Ok(ins) && ops_of(ins@) == group(fragment(exp@)),
    decreases exp, 1int,
{
    let mut exp_ins = compile_impl(exp)?;
    let mut ins: Ins = Vec::new();
    ins.push(Instruction::GroupParenL);
    proof {
        lemma_ops_of_add(ins@, exp_ins@);
    }
    ins.append(&mut exp_ins);
    proof {
        lemma_ops_of_push(ins@, Instruction::GroupParenR);
    }
    ins.push(Instruction::GroupParenR);
    assert(ops_of(ins@) =~= group(fragment(exp@)));
    Ok(ins)
}

/// Whether `compile` takes `ast`.
pub fn can_compile(ast: &RegExp) -> (b: bool)
    ensures
        b == compilable(ast@),
{
    fragment_len(ast).is_some()
}

/// The length of the fragment of `exp`, where `exp` can be compiled.
fn fragment_len(exp: &RegExp) -> (r: Option<usize>)
    ensures
        match r {
            Some(n) => compilable(exp@) && n == fragment(exp@).len(),
            None => !compilable(exp@),
        },
    decreases exp,
{
    let limit: usize = isize::MAX as usize;
    match exp {
        RegExp::PrefixSuffix(pre, body, suf) => {
            let n = fragment_len(body)?;
            let total = n + (if *pre {
                1
            } else {
                0
            }) + (if *suf {
                1
            } else {
                0
            });
            if total < limit {
                Some(total)
            } else {
                None
            }
        },
        RegExp::Branch(v) => {
            let ghost parts = fragments(patterns_of(v@));
            proof {
                lemma_children(*v);
            }
            if v.len() == 0 {
                return None;
            }
            proof {
                lemma_alternation_first(parts);
            }
            let mut total = fragment_len(&v[0])?;
            let mut i: usize = 1;
            while i < v.len()
                invariant
                    1 <= i <= v.len(),
                    exp == RegExp::Branch(*v),
                    exp@ == Pattern::Branch(patterns_of(v@)),
                    parts == fragments(patterns_of(v@)),
                    limit == isize::MAX,
                    total == alternation(parts.take(i as int)).len(),
                    total < limit,
                    forall|k: int| 0 <= k < i ==> well_formed(#[trigger] patterns_of(v@)[k]),
                decreases v.len() - i,
            {
                proof {
                    lemma_alternation_take(parts, i as int);
                    lemma_alternation_part(parts, i as int);
                }
                let n = match fragment_len(&v[i]) {
                    Some(n) => n,
                    None => {
                        assert(!well_formed(patterns_of(v@)[i as int]) || parts[i as int].len()
                            >= limit);
                        return None;
                    },
                };
                if n >= limit - total || n + total >= limit - 2 {
                    return None;
                }
                total = total + n + 2;
                i += 1;
            }
            proof {
                lemma_alternation_len(parts, i as int, i as int);
            }
            Some(total)
        },
        RegExp::Connect(v) => {
            let ghost parts = fragments(patterns_of(v@));
            proof {
                lemma_children(*v);
            }
            if v.len() == 0 {
                return None;
            }
            let mut total: usize = 0;
            let mut i: usize = 0;
            assert(parts.take(0).len() == 0);
            while i < v.len()
                invariant
                    i <= v.len(),
                    exp == RegExp::Connect(*v),
                    exp@ == Pattern::Connect(patterns_of(v@)),
                    parts == fragments(patterns_of(v@)),
                    limit == isize::MAX,
                    total == join(parts.take(i as int)).len(),
                    total < limit,
                    forall|k: int| 0 <= k < i ==> well_formed(#[trigger] patterns_of(v@)[k]),
                decreases v.len() - i,
            {
                proof {
                    lemma_join_take(parts, i as int);
                    lemma_join_part(parts, i as int);
                }
                let n = match fragment_len(&v[i]) {
                    Some(n) => n,
                    None => {
                        assert(!well_formed(patterns_of(v@)[i as int]) || parts[i as int].len()
                            >= limit);
                        return None;
                    },
                };
                if n >= limit - total {
                    return None;
                }
                total = total + n;
                i += 1;
            }
            proof {
                lemma_join_len(parts, i as int, i as int);
            }
            Some(total)
        },
        RegExp::RepeatStar(r) => {
            let n = fragment_len(r)?;
            if n + 2 < limit {
                Some(n + 2)
            } else {
                None
            }
        },
        RegExp::RepeatPlus(r) => {
            let n = fragment_len(r)?;
            if n + 1 < limit {
                Some(n + 1)
            } else {
                None
            }
        },
        RegExp::RepeatRange(r, l, h) => {
            if *l > *h || *h < 1 {
                return None;
            }
            let ghost parts = counted(fragment(r@), *l as nat, *h as nat);
            proof {
                lemma_join_part(parts, *h - 1);
                lemma_counted_len(fragment(r@), *l as nat, *h as nat, *h as nat);
                lemma_join_len(parts, *h as int, *h as int);
            }
            let n = fragment_len(r)?;
            let optional = *h - *l;
            let each = n + 1;
            proof {
                let whole = fragment(exp@).len() as int;
                assert(whole == *l * n + optional * each && 0 <= *l * n && 0 <= optional * each)
                    by (nonlinear_arith)
                    requires
                        *l <= *h,
                        optional == *h - *l,
                        each == n + 1,
                        whole == if *h <= *l {
                            *h * n
                        } else {
                            *l * n + (*h - *l) * (n + 1)
                        },
                ;
            }
            let must = l.checked_mul(n)?;
            let may = optional.checked_mul(each)?;
            let total = must.checked_add(may)?;
            if total < limit {
                Some(total)
            } else {
                None
            }
        },
        RegExp::Maybe(r) => {
            let n = fragment_len(r)?;
            if n + 1 < limit {
                Some(n + 1)
            } else {
                None
            }
        },
        RegExp::Group(r) => {
            let n = fragment_len(r)?;
            if n + 2 < limit {
                Some(n + 2)
            } else {
                None
            }
        },
        RegExp::AnyChar => Some(1),
        RegExp::CharClass(_, _) => Some(1),
        RegExp::Literal(_) => Some(1),
    }
}

/// Whether whatever `ast` matches has a character in it.
pub fn takes_characters(ast: &RegExp) -> (b: bool)
    ensures
        b == halting::takes_characters(ast@),
    decreases ast,
{
    match ast {
        RegExp::PrefixSuffix(_, body, _) => takes_characters(body),
        RegExp::Branch(v) => {
            proof {
                lemma_children(*v);
            }
            let b = all_take(v);
            assert(ast@->Branch_0 == patterns_of(v@));
            b
        },
        RegExp::Connect(v) => {
            proof {
                lemma_children(*v);
            }
            let b = one_takes(v);
            assert(ast@->Connect_0 == patterns_of(v@));
            b
        },
        RegExp::RepeatStar(_) => false,
        RegExp::RepeatPlus(r) => takes_characters(r),
        RegExp::RepeatRange(r, l, _) => *l >= 1 && takes_characters(r),
        RegExp::Maybe(_) => false,
        RegExp::Group(r) => takes_characters(r),
        RegExp::AnyChar => true,
        RegExp::CharClass(_, _) => true,
        RegExp::Literal(_) => true,
    }
}

/// Whether every member of `v` takes characters.
fn all_take(v: &Vec<RegExp>) -> (b: bool)
    ensures
        b == (forall|k: int|
            0 <= k < v.len() ==> halting::takes_characters(#[trigger] patterns_of(v@)[k])),
    decreases v,
{
    let mut i: usize = 0;
    while i < v.len()
        invariant
            i <= v.len(),
            forall|k: int| 0 <= k < i ==> halting::takes_characters(#[trigger] patterns_of(v@)[k]),
        decreases v.len() - i,
    {
        if !takes_characters(&v[i]) {
            assert(!halting::takes_characters(patterns_of(v@)[i as int]));
            return false;
        }
        i += 1;
    }
    true
}

/// Whether a member of `v` takes characters.
fn one_takes(v: &Vec<RegExp>) -> (b: bool)
    ensures
        b == (exists|k: int|
            0 <= k < v.len() && halting::takes_characters(#[trigger] patterns_of(v@)[k])),
    decreases v,
{
    let mut i: usize = 0;
    while i < v.len()
        invariant
            i <= v.len(),
            forall|k: int| 0 <= k < i ==> !halting::takes_characters(#[trigger] patterns_of(v@)[k]),
        decreases v.len() - i,
    {
        if takes_characters(&v[i]) {
            assert(halting::takes_characters(patterns_of(v@)[i as int]));
            return true;
        }
        i += 1;
    }
    false
}

/// Whether every body under a `*` or a `+` of `ast` takes characters. Where
/// it does, no search with the program of `ast` goes on for ever.
pub fn loops_advance(ast: &RegExp) -> (b: bool)
    ensures
        b == halting::loops_advance(ast@),
    decreases ast,
{
    match ast {
        RegExp::PrefixSuffix(_, body, _) => loops_advance(body),
        RegExp::Branch(v) => {
            proof {
                lemma_children(*v);
            }
            let b = all_advance(v);
            assert(ast@->Branch_0 == patterns_of(v@));
            b
        },
        RegExp::Connect(v) => {
            proof {
                lemma_children(*v);
            }
            let b = all_advance(v);
            assert(ast@->Connect_0 == patterns_of(v@));
            b
        },
        RegExp::RepeatStar(r) => takes_characters(r) && loops_advance(r),
        RegExp::RepeatPlus(r) => takes_characters(r) && loops_advance(r),
        RegExp::RepeatRange(r, _, _) => loops_advance(r),
        RegExp::Maybe(r) => loops_advance(r),
        RegExp::Group(r) => loops_advance(r),
        RegExp::AnyChar => true,
        RegExp::CharClass(_, _) => true,
        RegExp::Literal(_) => true,
    }
}

/// Whether the loops of every member of `v` advance.
fn all_advance(v: &Vec<RegExp>) -> (b: bool)
    ensures
        b == (forall|k: int|
            0 <= k < v.len() ==> halting::loops_advance(#[trigger] patterns_of(v@)[k])),
    decreases v,
{
    let mut i: usize = 0;
    while i < v.len()
        invariant
            i <= v.len(),
            forall|k: int| 0 <= k < i ==> halting::loops_advance(#[trigger] patterns_of(v@)[k]),
        decreases v.len() - i,
    {
        if !loops_advance(&v[i]) {
            assert(!halting::loops_advance(patterns_of(v@)[i as int]));
            return false;
        }
        i += 1;
    }
    true
}

} // verus!
