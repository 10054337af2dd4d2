//! The code of a pattern, and how codes are put together into a program.

use crate::compiler::{CharTest, Op, Position};
use crate::parser::Pattern;
use vstd::prelude::*;

verus! {

/// The fragments of the members of `ps`, in order.
pub open spec fn fragments(ps: Seq<Pattern>) -> Seq<Seq<Op>>
    decreases ps, 1int,
{
    Seq::new(
        ps.len(),
        |i: int|
            if 0 <= i < ps.len() {
                fragment(ps[i])
            } else {
                arbitrary()
            },
    )
}

/// The code of a pattern, every target counted from the instruction that holds it.
pub open spec fn fragment(p: Pattern) -> Seq<Op>
    decreases p, 0int,
{
    match p {
        Pattern::PrefixSuffix(pre, body, suf) => anchored(pre, fragment(*body), suf),
        Pattern::Branch(ps) => alternation(fragments(ps)),
        Pattern::Connect(ps) => join(fragments(ps)),
        Pattern::RepeatStar(r) => star(fragment(*r)),
        Pattern::RepeatPlus(r) => plus(fragment(*r)),
        Pattern::RepeatRange(r, min, max) => join(counted(fragment(*r), min, max)),
        Pattern::Maybe(r) => maybe(fragment(*r)),
        Pattern::Group(r) => group(fragment(*r)),
        Pattern::AnyChar => seq![Op::MatchChar(CharTest::Any)],
        Pattern::CharClass(negated, members) => seq![
            Op::MatchChar(CharTest::CharClass(negated, members)),
        ],
        Pattern::Literal(c) => seq![Op::MatchChar(CharTest::Literal(c))],
    }
}

/// The body between the anchors that are asked for.
pub open spec fn anchored(pre: bool, body: Seq<Op>, suf: bool) -> Seq<Op> {
    (if pre {
        seq![Op::MatchPos(Position::Front)]
    } else {
        Seq::empty()
    }) + body + (if suf {
        seq![Op::MatchPos(Position::Back)]
    } else {
        Seq::empty()
    })
}

/// First `x`, and `y` only when `x` has failed.
pub open spec fn either(x: Seq<Op>, y: Seq<Op>) -> Seq<Op> {
    seq![Op::Branch(1, 2 + x.len() as int)] + x + seq![Op::Jump(1 + y.len() as int)] + y
}

/// The body or nothing: the body first.
pub open spec fn maybe(body: Seq<Op>) -> Seq<Op> {
    seq![Op::Branch(1, 1 + body.len() as int)] + body
}

/// The body any number of times: once more first, and on only when that
/// has failed.
pub open spec fn star(body: Seq<Op>) -> Seq<Op> {
    seq![Op::Branch(1, 2 + body.len() as int)] + body + seq![Op::Jump(-(1 + body.len() as int))]
}

/// The body once, and then any number of times.
pub open spec fn plus(body: Seq<Op>) -> Seq<Op> {
    body + seq![Op::Branch(-(body.len() as int), 1)]
}

/// The body between the marks of a group.
pub open spec fn group(body: Seq<Op>) -> Seq<Op> {
    seq![Op::GroupParenL] + body + seq![Op::GroupParenR]
}

/// The parts one after another.
pub open spec fn join(parts: Seq<Seq<Op>>) -> Seq<Op>
    decreases parts.len(),
{
    if parts.len() == 0 {
        Seq::empty()
    } else {
        join(parts.drop_last()) + parts.last()
    }
}

/// The parts as alternatives: all but the last against the last, and so on down.
pub open spec fn alternation(parts: Seq<Seq<Op>>) -> Seq<Op>
    decreases parts.len(),
{
    if parts.len() == 0 {
        Seq::empty()
    } else if parts.len() == 1 {
        parts[0]
    } else {
        either(alternation(parts.drop_last()), parts.last())
    }
}

/// `min` copies of `body`, then `max - min` copies of `maybe(body)`.
pub open spec fn counted(body: Seq<Op>, min: nat, max: nat) -> Seq<Seq<Op>> {
    Seq::new(
        max,
        |i: int|
            if i < min {
                body
            } else {
                maybe(body)
            },
    )
}

/// `op` as it stands at index `at` once its targets count from the start of the program.
pub open spec fn relocated(op: Op, at: int) -> Op {
    match op {
        Op::Jump(p) => Op::Jump(p + at),
        Op::Branch(x, y) => Op::Branch(x + at, y + at),
        other => other,
    }
}

/// `code` with every target counted from its start.
pub open spec fn relocate(code: Seq<Op>) -> Seq<Op> {
    Seq::new(code.len(), |i: int| relocated(code[i], i))
}

/// The program of a pattern: its fragment and a final `Finish`, with absolute targets.
pub open spec fn program(p: Pattern) -> Seq<Op> {
    relocate(fragment(p) + seq![Op::Finish])
}

/// Every `Branch` and `Connect` has a child, and every `RepeatRange` has
/// `min <= max` and `max >= 1`.
pub open spec fn well_formed(p: Pattern) -> bool
    decreases p,
{
    match p {
        Pattern::PrefixSuffix(_, body, _) => well_formed(*body),
        Pattern::Branch(ps) => ps.len() >= 1 && forall|i: int|
            0 <= i < ps.len() ==> well_formed(#[trigger] ps[i]),
        Pattern::Connect(ps) => ps.len() >= 1 && forall|i: int|
            0 <= i < ps.len() ==> well_formed(#[trigger] ps[i]),
        Pattern::RepeatStar(r) => well_formed(*r),
        Pattern::RepeatPlus(r) => well_formed(*r),
        Pattern::RepeatRange(r, min, max) => min <= max && 1 <= max && well_formed(*r),
        Pattern::Maybe(r) => well_formed(*r),
        Pattern::Group(r) => well_formed(*r),
        Pattern::AnyChar => true,
        Pattern::CharClass(_, _) => true,
        Pattern::Literal(_) => true,
    }
}

/// Every `Branch` and `Connect` has a child.
pub open spec fn has_children(p: Pattern) -> bool
    decreases p,
{
    match p {
        Pattern::PrefixSuffix(_, body, _) => has_children(*body),
        Pattern::Branch(ps) => ps.len() >= 1 && forall|i: int|
            0 <= i < ps.len() ==> has_children(#[trigger] ps[i]),
        Pattern::Connect(ps) => ps.len() >= 1 && forall|i: int|
            0 <= i < ps.len() ==> has_children(#[trigger] ps[i]),
        Pattern::RepeatStar(r) => has_children(*r),
        Pattern::RepeatPlus(r) => has_children(*r),
        Pattern::RepeatRange(r, _, _) => has_children(*r),
        Pattern::Maybe(r) => has_children(*r),
        Pattern::Group(r) => has_children(*r),
        Pattern::AnyChar => true,
        Pattern::CharClass(_, _) => true,
        Pattern::Literal(_) => true,
    }
}

/// Every `RepeatRange` has `min <= max` and `max >= 1`.
pub open spec fn bounds_in_order(p: Pattern) -> bool
    decreases p,
{
    match p {
        Pattern::PrefixSuffix(_, body, _) => bounds_in_order(*body),
        Pattern::Branch(ps) => forall|i: int|
            0 <= i < ps.len() ==> bounds_in_order(#[trigger] ps[i]),
        Pattern::Connect(ps) => forall|i: int|
            0 <= i < ps.len() ==> bounds_in_order(#[trigger] ps[i]),
        Pattern::RepeatStar(r) => bounds_in_order(*r),
        Pattern::RepeatPlus(r) => bounds_in_order(*r),
        Pattern::RepeatRange(r, min, max) => min <= max && 1 <= max && bounds_in_order(*r),
        Pattern::Maybe(r) => bounds_in_order(*r),
        Pattern::Group(r) => bounds_in_order(*r),
        Pattern::AnyChar => true,
        Pattern::CharClass(_, _) => true,
        Pattern::Literal(_) => true,
    }
}

/// A pattern is well-formed just when its nodes have children and its
/// bounds are in order.
pub proof fn lemma_well_formed(p: Pattern)
    ensures
        well_formed(p) <==> has_children(p) && bounds_in_order(p),
    decreases p,
{
    match p {
        Pattern::PrefixSuffix(_, body, _) => lemma_well_formed(*body),
        Pattern::Branch(ps) => {
            assert forall|i: int| 0 <= i < ps.len() implies (well_formed(#[trigger] ps[i])
                <==> has_children(ps[i]) && bounds_in_order(ps[i])) by {
                lemma_well_formed(ps[i]);
            }
        },
        Pattern::Connect(ps) => {
            assert forall|i: int| 0 <= i < ps.len() implies (well_formed(#[trigger] ps[i])
                <==> has_children(ps[i]) && bounds_in_order(ps[i])) by {
                lemma_well_formed(ps[i]);
            }
        },
        Pattern::RepeatStar(r) => lemma_well_formed(*r),
        Pattern::RepeatPlus(r) => lemma_well_formed(*r),
        Pattern::RepeatRange(r, _, _) => lemma_well_formed(*r),
        Pattern::Maybe(r) => lemma_well_formed(*r),
        Pattern::Group(r) => lemma_well_formed(*r),
        Pattern::AnyChar => {},
        Pattern::CharClass(_, _) => {},
        Pattern::Literal(_) => {},
    }
}

/// What `compile` takes: a well-formed pattern whose program has a length
/// that an `isize` holds.
pub open spec fn compilable(p: Pattern) -> bool {
    well_formed(p) && fragment(p).len() < isize::MAX
}

/// The targets of `op`, which stands at index `at`, lie in a code of `len`
/// instructions or just behind it.
pub open spec fn lands_within(op: Op, at: int, len: int) -> bool {
    match op {
        Op::Jump(p) => 0 <= at + p <= len,
        Op::Branch(x, y) => 0 <= at + x <= len && 0 <= at + y <= len,
        _ => true,
    }
}

/// No instruction of `code` is a `Finish`, and none leads before its start or
/// further than just behind its end.
pub open spec fn closed(code: Seq<Op>) -> bool {
    forall|i: int|
        0 <= i < code.len() ==> lands_within(#[trigger] code[i], i, code.len() as int) && code[i]
            != Op::Finish
}

/// Every target of `prog` is the index of one of its instructions.
pub open spec fn valid_targets(prog: Seq<Op>) -> bool {
    forall|i: int|
        0 <= i < prog.len() ==> match #[trigger] prog[i] {
            Op::Jump(t) => 0 <= t < prog.len(),
            Op::Branch(x, y) => 0 <= x < prog.len() && 0 <= y < prog.len(),
            _ => true,
        }
}

/// Joining one part more puts that part behind what was joined.
pub proof fn lemma_join_take(parts: Seq<Seq<Op>>, i: int)
    requires
        0 <= i < parts.len(),
    ensures
        join(parts.take(i + 1)) == join(parts.take(i)) + parts[i],
{
    assert(parts.take(i + 1).drop_last() == parts.take(i));
}

/// Joining more parts does not make the code shorter.
pub proof fn lemma_join_len(parts: Seq<Seq<Op>>, i: int, j: int)
    requires
        0 <= i <= j <= parts.len(),
    ensures
        join(parts.take(i)).len() <= join(parts.take(j)).len(),
        j == parts.len() ==> join(parts.take(j)) == join(parts),
    decreases j - i,
{
    assert(parts.take(parts.len() as int) == parts);
    if i < j {
        lemma_join_take(parts, i);
        lemma_join_len(parts, i + 1, j);
    }
}

/// What has been joined so far and the next part fit in the whole.
pub proof fn lemma_join_part(parts: Seq<Seq<Op>>, i: int)
    requires
        0 <= i < parts.len(),
    ensures
        join(parts.take(i)).len() + parts[i].len() <= join(parts).len(),
{
    lemma_join_take(parts, i);
    lemma_join_len(parts, i + 1, parts.len() as int);
}

/// One alternative more stands against the alternatives before it.
pub proof fn lemma_alternation_take(parts: Seq<Seq<Op>>, i: int)
    requires
        1 <= i < parts.len(),
    ensures
        alternation(parts.take(i + 1)) == either(alternation(parts.take(i)), parts[i]),
{
    assert(parts.take(i + 1).drop_last() == parts.take(i));
}

/// More alternatives do not make the code shorter.
pub proof fn lemma_alternation_len(parts: Seq<Seq<Op>>, i: int, j: int)
    requires
        1 <= i <= j <= parts.len(),
    ensures
        alternation(parts.take(i)).len() <= alternation(parts.take(j)).len(),
        j == parts.len() ==> alternation(parts.take(j)) == alternation(parts),
    decreases j - i,
{
    assert(parts.take(parts.len() as int) == parts);
    if i < j {
        lemma_alternation_take(parts, i);
        lemma_alternation_len(parts, i + 1, j);
    }
}

/// The alternatives so far, the next one and the two instructions between
/// them fit in the whole.
pub proof fn lemma_alternation_part(parts: Seq<Seq<Op>>, i: int)
    requires
        1 <= i < parts.len(),
    ensures
        alternation(parts.take(i)).len() + parts[i].len() + 2 <= alternation(parts).len(),
{
    lemma_alternation_take(parts, i);
    lemma_alternation_len(parts, i + 1, parts.len() as int);
}

/// One alternative alone is its own code, and fits in the whole.
pub proof fn lemma_alternation_first(parts: Seq<Seq<Op>>)
    requires
        1 <= parts.len(),
    ensures
        alternation(parts.take(1)) == parts[0],
        parts[0].len() <= alternation(parts).len(),
{
    lemma_alternation_len(parts, 1, parts.len() as int);
}

/// A closed code stays closed between any two codes.
pub proof fn lemma_closed_inside(before: Seq<Op>, code: Seq<Op>, after: Seq<Op>)
    requires
        closed(code),
    ensures
        forall|i: int|
            before.len() <= i < before.len() + code.len() ==> lands_within(
                #[trigger] (before + code + after)[i],
                i,
                (before + code + after).len() as int,
            ) && (before + code + after)[i] != Op::Finish,
{
    let whole = before + code + after;
    assert forall|i: int| before.len() <= i < before.len() + code.len() implies lands_within(
        #[trigger] whole[i],
        i,
        whole.len() as int,
    ) && whole[i] != Op::Finish by {
        assert(whole[i] == code[i - before.len()]);
    }
}

/// Two closed codes, one behind the other, are closed.
pub proof fn lemma_closed_add(a: Seq<Op>, b: Seq<Op>)
    requires
        closed(a),
        closed(b),
    ensures
        closed(a + b),
{
    lemma_closed_inside(Seq::empty(), a, b);
    lemma_closed_inside(a, b, Seq::empty());
    assert(Seq::<Op>::empty() + a + b == a + b);
    assert(a + b + Seq::<Op>::empty() == a + b);
}

/// A closed body between anchors is closed.
pub proof fn lemma_closed_anchored(pre: bool, body: Seq<Op>, suf: bool)
    requires
        closed(body),
    ensures
        closed(anchored(pre, body, suf)),
{
    let a = if pre {
        seq![Op::MatchPos(Position::Front)]
    } else {
        Seq::empty()
    };
    let b = if suf {
        seq![Op::MatchPos(Position::Back)]
    } else {
        Seq::empty()
    };
    lemma_closed_inside(a, body, b);
}

/// Two closed alternatives make a closed code.
pub proof fn lemma_closed_either(x: Seq<Op>, y: Seq<Op>)
    requires
        closed(x),
        closed(y),
    ensures
        closed(either(x, y)),
{
    let head = seq![Op::Branch(1, 2 + x.len() as int)];
    let mid = seq![Op::Jump(1 + y.len() as int)];
    lemma_closed_inside(head, x, mid + y);
    lemma_closed_inside(head + x + mid, y, Seq::empty());
    assert(head + x + (mid + y) == either(x, y));
    assert(head + x + mid + y + Seq::<Op>::empty() == either(x, y));
}

/// An optional closed body is closed.
pub proof fn lemma_closed_maybe(body: Seq<Op>)
    requires
        closed(body),
    ensures
        closed(maybe(body)),
{
    lemma_closed_inside(seq![Op::Branch(1, 1 + body.len() as int)], body, Seq::empty());
    assert(seq![Op::Branch(1, 1 + body.len() as int)] + body + Seq::<Op>::empty() == maybe(body));
}

/// A starred closed body is closed.
pub proof fn lemma_closed_star(body: Seq<Op>)
    requires
        closed(body),
    ensures
        closed(star(body)),
{
    lemma_closed_inside(
        seq![Op::Branch(1, 2 + body.len() as int)],
        body,
        seq![Op::Jump(-(1 + body.len() as int))],
    );
}

/// A closed body with a plus is closed.
pub proof fn lemma_closed_plus(body: Seq<Op>)
    requires
        closed(body),
    ensures
        closed(plus(body)),
{
    lemma_closed_inside(Seq::empty(), body, seq![Op::Branch(-(body.len() as int), 1)]);
    assert(Seq::<Op>::empty() + body + seq![Op::Branch(-(body.len() as int), 1)] == plus(body));
}

/// A closed body in a group is closed.
pub proof fn lemma_closed_group(body: Seq<Op>)
    requires
        closed(body),
    ensures
        closed(group(body)),
{
    lemma_closed_inside(seq![Op::GroupParenL], body, seq![Op::GroupParenR]);
}

/// Closed parts, joined, are closed.
pub proof fn lemma_closed_join(parts: Seq<Seq<Op>>)
    requires
        forall|i: int| 0 <= i < parts.len() ==> closed(#[trigger] parts[i]),
    ensures
        closed(join(parts)),
    decreases parts.len(),
{
    if parts.len() > 0 {
        lemma_closed_join(parts.drop_last());
        lemma_closed_add(join(parts.drop_last()), parts.last());
    }
}

/// Closed alternatives make a closed code.
pub proof fn lemma_closed_alternation(parts: Seq<Seq<Op>>)
    requires
        forall|i: int| 0 <= i < parts.len() ==> closed(#[trigger] parts[i]),
    ensures
        closed(alternation(parts)),
    decreases parts.len(),
{
    if parts.len() > 1 {
        lemma_closed_alternation(parts.drop_last());
        lemma_closed_either(alternation(parts.drop_last()), parts.last());
    }
}

/// The fragment of any pattern is closed.
pub proof fn lemma_fragment_closed(p: Pattern)
    ensures
        closed(fragment(p)),
    decreases p,
{
    match p {
        Pattern::PrefixSuffix(pre, body, suf) => {
            lemma_fragment_closed(*body);
            lemma_closed_anchored(pre, fragment(*body), suf);
        },
        Pattern::Branch(ps) => {
            assert forall|i: int| 0 <= i < ps.len() implies closed(#[trigger] fragments(ps)[i]) by {
                lemma_fragment_closed(ps[i]);
            }
            lemma_closed_alternation(fragments(ps));
        },
        Pattern::Connect(ps) => {
            assert forall|i: int| 0 <= i < ps.len() implies closed(#[trigger] fragments(ps)[i]) by {
                lemma_fragment_closed(ps[i]);
            }
            lemma_closed_join(fragments(ps));
        },
        Pattern::RepeatStar(r) => {
            lemma_fragment_closed(*r);
            lemma_closed_star(fragment(*r));
        },
        Pattern::RepeatPlus(r) => {
            lemma_fragment_closed(*r);
            lemma_closed_plus(fragment(*r));
        },
        Pattern::RepeatRange(r, min, max) => {
            lemma_fragment_closed(*r);
            lemma_closed_maybe(fragment(*r));
            lemma_closed_join(counted(fragment(*r), min, max));
        },
        Pattern::Maybe(r) => {
            lemma_fragment_closed(*r);
            lemma_closed_maybe(fragment(*r));
        },
        Pattern::Group(r) => {
            lemma_fragment_closed(*r);
            lemma_closed_group(fragment(*r));
        },
        Pattern::AnyChar => {},
        Pattern::CharClass(_, _) => {},
        Pattern::Literal(_) => {},
    }
}

/// Relocation turns a closed code that ends in `Finish` into a program
/// whose targets are all valid.
pub proof fn lemma_program_targets(p: Pattern)
    ensures
        valid_targets(program(p)),
        program(p).len() == fragment(p).len() + 1,
        program(p).last() == Op::Finish,
{
    lemma_fragment_closed(p);
    let code = fragment(p) + seq![Op::Finish];
    assert forall|i: int| 0 <= i < program(p).len() implies match #[trigger] program(p)[i] {
        Op::Jump(t) => 0 <= t < program(p).len(),
        Op::Branch(x, y) => 0 <= x < program(p).len() && 0 <= y < program(p).len(),
        _ => true,
    } by {
        if i < fragment(p).len() {
            assert(code[i] == fragment(p)[i]);
            assert(lands_within(fragment(p)[i], i, fragment(p).len() as int));
        }
    }
}

/// The length of a counted repetition: `min` bodies and `max - min` optional ones.
pub proof fn lemma_counted_len(body: Seq<Op>, min: nat, max: nat, i: nat)
    requires
        min <= max,
        i <= max,
    ensures
        join(counted(body, min, max).take(i as int)).len() == if i <= min {
            (i * body.len()) as int
        } else {
            min * body.len() + (i - min) * (body.len() + 1)
        },
    decreases i,
{
    let parts = counted(body, min, max);
    let n = body.len();
    if i > 0 {
        let k = (i - 1) as nat;
        lemma_counted_len(body, min, max, k);
        lemma_join_take(parts, k as int);
        if i <= min {
            assert(i * n == k * n + n) by (nonlinear_arith)
                requires
                    i == k + 1,
            ;
        } else {
            assert((i - min) * (n + 1) == (k - min) * (n + 1) + (n + 1)) by (nonlinear_arith)
                requires
                    i == k + 1,
            ;
            if k == min {
                assert((k - min) * (n + 1) == 0) by (nonlinear_arith)
                    requires
                        k == min,
                ;
            }
        }
    } else {
        assert(parts.take(0).len() == 0);
        assert(i * n == 0) by (nonlinear_arith)
            requires
                i == 0,
        ;
    }
}

} // verus!
