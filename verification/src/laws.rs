//! What holds of the parser, the compiler and the machine together.

use crate::compiler::{CharTest, Op, Position};
use crate::completeness::{
    has_no_group, lemma_match_passes, lemma_no_way_left, lemma_program_without_groups,
};
use crate::embedding::{holds_at, lemma_lifted_run, lifted};
use crate::extent::{explores, lemma_explore_bound, moves_bound};
use crate::fragment::{
    alternation, anchored, either, fragment, fragments, join, lands_within,
    lemma_fragment_closed, lemma_join_len, lemma_join_take, program, relocated, well_formed,
};
use crate::halting::{lemma_bounded_halts, loops_advance, pow3, ways_end, weight};
use crate::machine::{
    attempt, backtrack, first_match, halts, lemma_attempt, lemma_run_after, report, run,
    search_gives, search_halts, start, step, tries, Machine, Step, Thread,
};
use crate::parser::Pattern;
use crate::semantics::is_match;
use crate::soundness::{lemma_passage_matches, passes};
use crate::syntax;
use crate::trace::{is_way, lemma_match_went_a_way, moves, Point};
use vstd::prelude::*;

verus! {

/// The characters that the grammar gives a meaning of their own.
pub open spec fn is_meta(c: char) -> bool {
    c == '^' || c == '$' || c == '|' || c == '(' || c == ')' || c == '*' || c == '+' || c == '?'
        || c == '{' || c == '[' || c == '.' || c == '\\'
}

/// No character of `s` is a metacharacter.
pub open spec fn plain(s: Seq<char>) -> bool {
    forall|i: int| 0 <= i < s.len() ==> !is_meta(#[trigger] s[i])
}

/// The node of a character that stands for itself.
pub open spec fn literal(c: char) -> Pattern {
    Pattern::Literal(c)
}

/// One `Literal` for each character of `s`.
pub open spec fn literals(s: Seq<char>) -> Seq<Pattern> {
    Seq::new(s.len(), |i: int| literal(s[i]))
}

/// The tree of a pattern that is nothing but the characters of `s`.
pub open spec fn literal_tree(s: Seq<char>) -> Pattern {
    Pattern::PrefixSuffix(
        false,
        Box::new(Pattern::Branch(seq![Pattern::Connect(literals(s))])),
        false,
    )
}

/// The instruction that tests for the character `c`.
pub open spec fn literal_test(c: char) -> Op {
    Op::MatchChar(CharTest::Literal(c))
}

/// One test for each character of `s`.
pub open spec fn literal_code(s: Seq<char>) -> Seq<Op> {
    Seq::new(s.len(), |i: int| literal_test(s[i]))
}

/// A text without metacharacters reads as one literal for each character.
proof fn lemma_literal_factors(s: Seq<char>, at: int, acc: Seq<Pattern>)
    requires
        plain(s),
        0 <= at < s.len(),
    ensures
        syntax::parse_factors(s, at, acc) == Ok::<(Seq<Pattern>, int), Seq<char>>(
            (acc + literals(s).subrange(at, s.len() as int), s.len() as int),
        ),
    decreases s.len() - at,
{
    let c = s[at];
    assert(!is_meta(c));
    assert(syntax::get_char(s, at) == Ok::<(char, int), Seq<char>>((c, at + 1)));
    assert(syntax::parse_char(s, at) == Ok::<(Pattern, int), Seq<char>>(
        (Pattern::Literal(c), at + 1),
    ));
    assert(syntax::parse_group(s, at) == syntax::parse_char(s, at));
    if at + 1 < s.len() {
        assert(!is_meta(s[at + 1]));
    }
    assert(syntax::parse_repeat(s, at) == Ok::<(Pattern, int), Seq<char>>(
        (Pattern::Literal(c), at + 1),
    ));
    let rest = literals(s).subrange(at, s.len() as int);
    if at + 1 < s.len() {
        lemma_literal_factors(s, at + 1, acc.push(Pattern::Literal(c)));
        assert(acc.push(Pattern::Literal(c)) + literals(s).subrange(at + 1, s.len() as int) =~= acc
            + rest);
    } else {
        assert(acc.push(Pattern::Literal(c)) =~= acc + rest);
    }
}

/// A text without metacharacters parses to its literal tree.
proof fn lemma_literal_parse(s: Seq<char>)
    requires
        plain(s),
        s.len() > 0,
    ensures
        syntax::parse(s) == Ok::<Pattern, Seq<char>>(literal_tree(s)),
{
    lemma_literal_factors(s, 0, Seq::empty());
    assert(Seq::<Pattern>::empty() + literals(s).subrange(0, s.len() as int) =~= literals(s));
    assert(syntax::parse_connect(s, 0) == Ok::<(Pattern, int), Seq<char>>(
        (Pattern::Connect(literals(s)), s.len() as int),
    ));
    assert(Seq::<Pattern>::empty().push(Pattern::Connect(literals(s)))
        =~= seq![Pattern::Connect(literals(s))]);
    assert(syntax::parse_alternatives(s, 0, Seq::empty()) == Ok::<(Seq<Pattern>, int), Seq<char>>(
        (seq![Pattern::Connect(literals(s))], s.len() as int),
    ));
    assert(!is_meta(s[0]));
}

/// The code of the first `k` literals is the first `k` tests.
proof fn lemma_literal_join(s: Seq<char>, k: int)
    requires
        0 <= k <= s.len(),
    ensures
        join(fragments(literals(s)).take(k)) == literal_code(s).take(k),
    decreases k,
{
    let parts = fragments(literals(s));
    if k > 0 {
        lemma_literal_join(s, k - 1);
        lemma_join_take(parts, k - 1);
        assert(parts[k - 1] == fragment(literals(s)[k - 1]));
        assert(literal_code(s).take(k - 1) + parts[k - 1] =~= literal_code(s).take(k));
    } else {
        assert(join(parts.take(0)) =~= literal_code(s).take(0));
    }
}

/// The program of a literal tree is its tests and a `Finish`.
proof fn lemma_literal_program(s: Seq<char>)
    ensures
        fragment(literal_tree(s)) == literal_code(s),
        program(literal_tree(s)) == literal_code(s).push(Op::Finish),
        well_formed(literal_tree(s)) <==> s.len() > 0,
{
    let connect = Pattern::Connect(literals(s));
    let branch = Pattern::Branch(seq![connect]);
    lemma_literal_join(s, s.len() as int);
    lemma_join_len(fragments(literals(s)), s.len() as int, s.len() as int);
    assert(literal_code(s).take(s.len() as int) == literal_code(s));
    assert(fragment(connect) == literal_code(s));
    assert(fragments(seq![connect])[0] == fragment(connect));
    assert(alternation(fragments(seq![connect])) == fragment(connect));
    assert(fragment(branch) == literal_code(s));
    assert(fragment(literal_tree(s)) =~= literal_code(s));
    assert(program(literal_tree(s)) =~= literal_code(s).push(Op::Finish));
    assert(well_formed(branch) <==> well_formed(connect)) by {
        assert(seq![connect][0] == connect);
    }
    assert(well_formed(connect) <==> s.len() > 0) by {
        assert forall|i: int| 0 <= i < literals(s).len() implies well_formed(
            #[trigger] literals(s)[i],
        ) by {}
    }
}

/// The machine in the middle of a text that it has matched character by character.
spec fn along(k: int) -> Machine {
    Machine { pc: k, sp: k, threads: Seq::empty(), open: Seq::empty(), spans: Seq::empty() }
}

/// From the middle of its own text, the machine matches the rest
/// character by character.
proof fn lemma_literal_run(s: Seq<char>, k: int)
    requires
        0 <= k <= s.len(),
    ensures
        run(literal_code(s).push(Op::Finish), s, 0, along(k), (s.len() - k + 1) as nat) == Some(
            Some(seq![(0int, s.len() as int)]),
        ),
    decreases s.len() - k,
{
    let prog = literal_code(s).push(Op::Finish);
    if k < s.len() {
        assert(prog[k] == Op::MatchChar(CharTest::Literal(s[k])));
        assert(step(prog, s, along(k)) == Step::Next(along(k + 1)));
        lemma_literal_run(s, k + 1);
    } else {
        assert(prog[k] == Op::Finish);
        assert(report(0, along(k)) =~= seq![(0int, s.len() as int)]);
    }
}

/// A pattern without metacharacters finds itself: the pattern `s` parses,
/// its tree is well-formed and compiles to as many instructions as `s` has
/// characters and a `Finish`, and a search of the text `s` with that program
/// ends and gives the one span `(0, len(s))`.
///
/// The empty pattern is left out: it does not parse, and a search of the
/// empty text makes no attempt.
pub proof fn literal_pattern_finds_itself(s: Seq<char>)
    requires
        s.len() > 0,
        plain(s),
    ensures
        syntax::parse(s) matches Ok(tree) && {
            &&& well_formed(tree)
            &&& fragment(tree).len() == s.len()
            &&& search_halts(program(tree), s)
            &&& search_gives(program(tree), s, Some(seq![(0int, s.len() as int)]))
        },
{
    lemma_literal_parse(s);
    lemma_literal_program(s);
    let tree = literal_tree(s);
    let prog = program(tree);
    lemma_literal_run(s, 0);
    assert(along(0) == start(0));
    lemma_attempt(prog, s, 0, (s.len() + 1) as nat);
    let whole = seq![(0int, s.len() as int)];
    assert(first_match(prog, s, 0, whole));
    assert forall|p: int| #[trigger] tries(prog, s, p) implies halts(prog, s, p) by {
        if p > 0 {
            assert(attempt(prog, s, 0) is None);
        }
    }
    assert(Some(whole) matches Some(spans) && first_match(prog, s, 0, spans));
}

/// The first alternative has priority: where the pattern `a` alone matches
/// from an offset, the pattern `a|b` matches from that offset too, whatever
/// `b` is, and with the same spans.
pub proof fn first_alternative_wins(a: Pattern, b: Pattern, text: Seq<char>, from: int)
    requires
        halts(program(a), text, from),
        attempt(program(a), text, from) is Some,
    ensures
        halts(program(Pattern::Branch(seq![a, b])), text, from),
        attempt(program(Pattern::Branch(seq![a, b])), text, from) == attempt(
            program(a),
            text,
            from,
        ),
{
    let fa = fragment(a);
    let fb = fragment(b);
    let la = fa.len() as int;
    let lb = fb.len() as int;
    let alone = program(a);
    let both = program(Pattern::Branch(seq![a, b]));
    let fuel = choose|f: nat| (#[trigger] run(alone, text, from, start(from), f)) is Some;
    lemma_attempt(alone, text, from, fuel);
    lemma_fragment_closed(a);
    let parts = fragments(seq![a, b]);
    assert(parts.drop_last() =~= seq![fa]);
    assert(alternation(parts.drop_last()) == fa);
    assert(fragment(Pattern::Branch(seq![a, b])) == either(fa, fb));
    let code = either(fa, fb) + seq![Op::Finish];
    assert(holds_at(both, fa, 1)) by {
        assert forall|i: int| 0 <= i < fa.len() implies #[trigger] both[1 + i] == relocated(
            fa[i],
            1 + i,
        ) by {
            assert(code[1 + i] == fa[i]);
        }
    }
    let saved = Thread { pc: 2 + la, sp: from, depth: 0 };
    let below = seq![saved];
    let (end, used) = lemma_lifted_run(fa, both, 1, below, text, from, start(from), fuel);
    let entered = lifted(start(from), 1, below);
    assert(code[0] == Op::Branch(1, 2 + la));
    assert(step(both, text, start(from)) == Step::Next(entered)) by {
        assert(entered.threads =~= start(from).threads.push(saved));
    }
    let out = lifted(end, 1, below);
    assert(code[1 + la] == Op::Jump(1 + lb));
    let last = Machine { pc: 2 + la + lb, ..out };
    assert(step(both, text, out) == Step::Next(last));
    assert(code[2 + la + lb] == Op::Finish);
    assert(step(both, text, last) == Step::Matched);
    assert(report(from, last) == report(from, end));
    assert(run(both, text, from, out, 2) == Some(Some(report(from, end)))) by {
        reveal_with_fuel(run, 3);
    }
    lemma_run_after(both, text, from, entered, used, 2);
    assert(run(both, text, from, start(from), used + 3) == Some(Some(report(from, end))));
    lemma_attempt(both, text, from, used + 3);
}

/// The machine and its saved continuations stand in the body of a program
/// that is anchored at both ends, or at its closing anchor; or the machine
/// has passed that anchor, at the end of the text.
spec fn between_anchors(m: Machine, body_len: int, text_len: int) -> bool {
    &&& forall|j: int| 0 <= j < m.threads.len() ==> 1 <= (#[trigger] m.threads[j]).pc <= body_len + 1
    &&& 1 <= m.pc <= body_len + 1 || (m.pc == body_len + 2 && m.sp == text_len)
}

/// Between the anchors, the machine can match only at the end of the text.
proof fn lemma_between_anchors(body: Pattern, text: Seq<char>, from: int, m: Machine, fuel: nat)
    requires
        between_anchors(m, fragment(body).len() as int, text.len() as int),
        run(
            program(Pattern::PrefixSuffix(true, Box::new(body), true)),
            text,
            from,
            m,
            fuel,
        ) matches Some(Some(_)),
    ensures
        run(
            program(Pattern::PrefixSuffix(true, Box::new(body), true)),
            text,
            from,
            m,
            fuel,
        ) matches Some(Some(spans)) && spans.len() > 0 && spans[0] == (from, text.len() as int),
    decreases fuel,
{
    let prog = program(Pattern::PrefixSuffix(true, Box::new(body), true));
    let inner = fragment(body);
    let n = inner.len() as int;
    let code = anchored(true, inner, true) + seq![Op::Finish];
    lemma_fragment_closed(body);
    assert(code[n + 1] == Op::MatchPos(Position::Back));
    assert(code[n + 2] == Op::Finish);
    if m.pc <= n {
        assert(code[m.pc] == inner[m.pc - 1]);
        assert(lands_within(inner[m.pc - 1], m.pc - 1, n) && inner[m.pc - 1] != Op::Finish);
    }
    match step(prog, text, m) {
        Step::Next(next) => {
            assert(between_anchors(next, n, text.len() as int)) by {
                if backtrack(m) == Step::Next(next) {
                    assert(m.threads.last().pc == next.pc);
                }
                assert forall|j: int| 0 <= j < next.threads.len() implies 1 <= (
                #[trigger] next.threads[j]).pc <= n + 1 by {
                    if j < m.threads.len() {
                        assert(next.threads[j] == m.threads[j]);
                    }
                }
            }
            lemma_between_anchors(body, text, from, next, (fuel - 1) as nat);
        },
        Step::Matched => {},
        Step::Failed => {},
    }
}

/// A pattern that is anchored at both ends matches the whole text or
/// nothing: an attempt that matches started at offset 0, and its first span
/// is `(0, len(text))`.
pub proof fn anchored_attempt_spans_text(body: Pattern, text: Seq<char>, from: int)
    requires
        halts(program(Pattern::PrefixSuffix(true, Box::new(body), true)), text, from),
        attempt(program(Pattern::PrefixSuffix(true, Box::new(body), true)), text, from) is Some,
    ensures
        from == 0,
        attempt(
            program(Pattern::PrefixSuffix(true, Box::new(body), true)),
            text,
            from,
        ) matches Some(spans) && spans.len() > 0 && spans[0] == (0int, text.len() as int),
{
    let prog = program(Pattern::PrefixSuffix(true, Box::new(body), true));
    let fuel = choose|f: nat| (#[trigger] run(prog, text, from, start(from), f)) is Some;
    lemma_attempt(prog, text, from, fuel);
    let code = anchored(true, fragment(body), true) + seq![Op::Finish];
    assert(code[0] == Op::MatchPos(Position::Front));
    let entered = Machine { pc: 1, ..start(from) };
    assert(step(prog, text, start(from)) == Step::Next(entered));
    lemma_between_anchors(body, text, from, entered, (fuel - 1) as nat);
}

/// No partial match is ever returned for a pattern that is anchored at both
/// ends: what a search finds spans the whole text, it finds something just
/// when the attempt from offset 0 matches, and only where the body of the
/// pattern, if it is well-formed, matches the whole text.
pub proof fn anchored_search_spans_text(body: Pattern, text: Seq<char>, found: Option<Seq<(int, int)>>)
    requires
        search_halts(program(Pattern::PrefixSuffix(true, Box::new(body), true)), text),
        search_gives(program(Pattern::PrefixSuffix(true, Box::new(body), true)), text, found),
    ensures
        found matches Some(spans) ==> spans.len() > 0 && spans[0] == (0int, text.len() as int),
        found is Some <==> text.len() > 0 && attempt(
            program(Pattern::PrefixSuffix(true, Box::new(body), true)),
            text,
            0,
        ) is Some,
        found is Some && well_formed(body) ==> is_match(body, text, 0, text.len() as int),
{
    let whole = Pattern::PrefixSuffix(true, Box::new(body), true);
    let prog = program(whole);
    match found {
        Some(spans) => {
            let from = choose|from: int| #[trigger] first_match(prog, text, from, spans);
            assert(tries(prog, text, from));
            anchored_attempt_spans_text(body, text, from);
            if well_formed(body) {
                attempt_finds_a_match(whole, text, from);
            }
        },
        None => {},
    }
}

/// What the machine finds, the pattern matches: where an attempt on the
/// program of a well-formed pattern matches, its first span begins at the
/// offset of the attempt, and the pattern matches the text from there to
/// the end of that span.
pub proof fn attempt_finds_a_match(p: Pattern, text: Seq<char>, from: int)
    requires
        well_formed(p),
        halts(program(p), text, from),
        attempt(program(p), text, from) is Some,
    ensures
        attempt(program(p), text, from) matches Some(spans) && spans.len() > 0 && spans[0].0 == from
            && is_match(p, text, from, spans[0].1),
{
    let prog = program(p);
    let code = fragment(p) + seq![Op::Finish];
    let fuel = choose|f: nat| (#[trigger] run(prog, text, from, start(from), f)) is Some;
    lemma_attempt(prog, text, from, fuel);
    let first = seq![Point { pc: 0, sp: from }];
    let t = lemma_match_went_a_way(prog, text, from, start(from), fuel, first, Seq::empty());
    lemma_fragment_closed(p);
    let n = fragment(p).len() as int;
    assert forall|i: int| 0 <= i < n implies #[trigger] prog[0 + i] == relocated(fragment(p)[i], 0 + i)
        && prog[i] != Op::Finish by {
        assert(code[i] == fragment(p)[i]);
        assert(lands_within(fragment(p)[i], i, n) && fragment(p)[i] != Op::Finish);
    }
    assert(t.last().pc == n) by {
        if t.last().pc < n {
            assert(prog[0 + t.last().pc] != Op::Finish);
        }
    }
    assert forall|i: int| 0 <= i < t.len() - 1 implies 0 <= (#[trigger] t[i]).pc < 0 + n by {
        assert(moves(prog, text, t[i], t[i + 1]));
        assert(code[n] == Op::Finish);
    }
    assert(passes(prog, text, t, 0, n));
    lemma_passage_matches(p, prog, 0, text, t);
}

/// What a search finds, the pattern matches: the first span of the result
/// begins at an offset of the text, and the pattern matches the text from
/// there to the end of that span.
pub proof fn search_finds_a_match(p: Pattern, text: Seq<char>, found: Option<Seq<(int, int)>>)
    requires
        well_formed(p),
        search_halts(program(p), text),
        search_gives(program(p), text, found),
    ensures
        found matches Some(spans) ==> spans.len() > 0 && 0 <= spans[0].0 < text.len() && is_match(
            p,
            text,
            spans[0].0,
            spans[0].1,
        ),
{
    let prog = program(p);
    match found {
        Some(spans) => {
            let from = choose|from: int| #[trigger] first_match(prog, text, from, spans);
            assert(tries(prog, text, from));
            attempt_finds_a_match(p, text, from);
        },
        None => {},
    }
}

/// What a pattern without groups matches, the machine finds: where the
/// pattern matches the text from an offset, and the attempt from that
/// offset comes to an end, the attempt matches.
///
/// Groups are left out: when the machine goes back to a continuation that
/// it saved inside a group which has closed since, it finds no group to
/// close and gives the attempt up.
pub proof fn match_is_found(p: Pattern, text: Seq<char>, from: int, to: int)
    requires
        well_formed(p),
        has_no_group(p),
        halts(program(p), text, from),
        is_match(p, text, from, to),
    ensures
        attempt(program(p), text, from) is Some,
{
    let prog = program(p);
    lemma_program_without_groups(p);
    let t = lemma_match_passes(p, prog, 0, text, from, to);
    let fuel = choose|f: nat| (#[trigger] run(prog, text, from, start(from), f)) is Some;
    lemma_attempt(prog, text, from, fuel);
    if attempt(prog, text, from) is None {
        lemma_no_way_left(prog, text, from, start(from), fuel, -1, t);
    }
}

/// A search with a pattern without groups finds the leftmost match: it
/// finds nothing only where the pattern matches from no offset of the
/// text, and what it finds begins at the first offset from which the
/// pattern matches.
pub proof fn search_finds_the_leftmost(
    p: Pattern,
    text: Seq<char>,
    found: Option<Seq<(int, int)>>,
    from: int,
    to: int,
)
    requires
        well_formed(p),
        has_no_group(p),
        search_halts(program(p), text),
        search_gives(program(p), text, found),
        0 <= from < text.len(),
        is_match(p, text, from, to),
    ensures
        found matches Some(spans) && spans.len() > 0 && spans[0].0 <= from,
{
    let prog = program(p);
    match found {
        Some(spans) => {
            let first = choose|first: int| #[trigger] first_match(prog, text, first, spans);
            assert(tries(prog, text, first));
            attempt_finds_a_match(p, text, first);
            if first > from {
                assert(attempt(prog, text, from) is None);
                assert(tries(prog, text, from));
                match_is_found(p, text, from, to);
            }
        },
        None => {
            assert(attempt(prog, text, from) is None);
            assert(tries(prog, text, from));
            match_is_found(p, text, from, to);
        },
    }
}

/// With a pattern without groups that is anchored at both ends, a search of
/// a text that is not empty finds something just when the body of the
/// pattern matches the whole text.
pub proof fn anchored_search_finds_whole_text(
    body: Pattern,
    text: Seq<char>,
    found: Option<Seq<(int, int)>>,
)
    requires
        well_formed(body),
        has_no_group(body),
        text.len() > 0,
        search_halts(program(Pattern::PrefixSuffix(true, Box::new(body), true)), text),
        search_gives(program(Pattern::PrefixSuffix(true, Box::new(body), true)), text, found),
    ensures
        found is Some <==> is_match(body, text, 0, text.len() as int),
{
    let whole = Pattern::PrefixSuffix(true, Box::new(body), true);
    anchored_search_spans_text(body, text, found);
    if is_match(body, text, 0, text.len() as int) {
        assert(is_match(whole, text, 0, text.len() as int));
        search_finds_the_leftmost(whole, text, found, 0, text.len() as int);
    }
}

/// Where every body under a `*` or a `+` takes characters, every attempt
/// comes to an end, for the machine cannot go round a loop without moving
/// on in the text: on the program of such a pattern, if it is well-formed,
/// the attempt from any offset is over within three to the power of
/// `moves_bound` steps.
pub proof fn attempt_ends(p: Pattern, text: Seq<char>, from: int)
    requires
        well_formed(p),
        loops_advance(p),
    ensures
        halts(program(p), text, from),
        run(program(p), text, from, start(from), pow3(moves_bound(p, text.len()))) is Some,
{
    let prog = program(p);
    let code = fragment(p) + seq![Op::Finish];
    let n = fragment(p).len() as int;
    let bound = moves_bound(p, text.len());
    let first = Point { pc: 0, sp: from };
    lemma_fragment_closed(p);
    assert forall|i: int| 0 <= i < n implies #[trigger] prog[0 + i] == relocated(fragment(p)[i], 0 + i) by {
        assert(code[i] == fragment(p)[i]);
    }
    assert(ways_end(prog, text, first, bound)) by {
        assert forall|t: Seq<Point>| #[trigger] is_way(prog, text, t) && t[0] == first implies t.len()
            <= bound + 1 by {
            assert forall|i: int| 0 <= i < t.len() - 1 implies 0 <= (#[trigger] t[i]).pc < 0 + n by {
                assert(moves(prog, text, t[i], t[i + 1]));
                assert(code[n] == Op::Finish);
            }
            assert(explores(prog, text, t, 0, n));
            lemma_explore_bound(p, prog, 0, text, t);
        }
    }
    lemma_bounded_halts(prog, text, from, start(from), bound, Seq::empty());
    assert(weight(Seq::<nat>::empty()) == 0);
}

/// A search with the program of a well-formed pattern whose loops advance
/// always ends.
pub proof fn search_ends(p: Pattern, text: Seq<char>)
    requires
        well_formed(p),
        loops_advance(p),
    ensures
        search_halts(program(p), text),
{
    assert forall|from: int| #[trigger] tries(program(p), text, from) implies halts(
        program(p),
        text,
        from,
    ) by {
        attempt_ends(p, text, from);
    }
}

} // verus!
