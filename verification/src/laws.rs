//! Properties of patterns and of matching that hold for all inputs.
use vstd::prelude::*;
use vstd::utf8::is_ascii_chars;

use crate::evaluated_step::EvalView;
use crate::machine::{
    exact_scan, initial_state, Turn, iterate, last_backtrackeable, lemma_last_backtrackeable, machine_wf,
    pattern_accepts, run, scan_from, sizes_sum, steps_accept, MachineState, StartOutcome,
};
use crate::pattern::{
    bracket_read, bracket_scan, bracket_start, low_byte, BracketState,
    brace_bounds, brace_close, bracket_steps, lemma_brace_close, lemma_bracket_scan_advances,
    parse_part, set_last_rep, parse_parts, parse_pattern, plain_char, single, ParseFault,
};
use crate::regex_step::StepView;
use crate::regex_rep::RegexRep;
use crate::regex_val::{accepts_char, match_len, ValView};
use crate::text::{all_digits, decimal_value, split_on, usize_text};

verus! {

/// An empty line is accepted by no pattern: every run starts at a position
/// inside the line, and an empty line has none.
pub proof fn law_empty_line_never_matches(alternatives: Seq<Seq<StepView>>)
    ensures
        !pattern_accepts(alternatives, Seq::empty()),
{
    assert forall|k: int| 0 <= k < alternatives.len() implies !steps_accept(
        #[trigger] alternatives[k],
        Seq::empty(),
    ) by {
        assert(scan_from(alternatives[k], Seq::<char>::empty(), 0, false) == false);
    }
}

/// A line is accepted by the alternatives of two patterns together exactly
/// when it is accepted by those of one of them.
pub proof fn law_alternatives_accept(
    left: Seq<Seq<StepView>>,
    right: Seq<Seq<StepView>>,
    value: Seq<char>,
)
    ensures
        pattern_accepts(left + right, value) == (pattern_accepts(left, value) || pattern_accepts(
            right,
            value,
        )),
{
    let both = left + right;
    if pattern_accepts(left, value) {
        let k = choose|k: int| 0 <= k < left.len() && steps_accept(#[trigger] left[k], value);
        assert(both[k] == left[k]);
    }
    if pattern_accepts(right, value) {
        let k = choose|k: int| 0 <= k < right.len() && steps_accept(#[trigger] right[k], value);
        assert(both[left.len() + k] == right[k]);
    }
    if pattern_accepts(both, value) {
        let k = choose|k: int| 0 <= k < both.len() && steps_accept(#[trigger] both[k], value);
        if k < left.len() {
            assert(both[k] == left[k]);
        } else {
            assert(both[k] == right[k - left.len()]);
        }
    }
}

/// Splitting `p`, `sep`, `q` at `sep` gives the pieces of `p`, then the pieces of `q`.
pub proof fn lemma_split_concat(p: Seq<char>, q: Seq<char>, sep: char)
    ensures
        split_on(p + seq![sep] + q, sep) == split_on(p, sep) + split_on(q, sep),
    decreases q.len(),
{
    let pq = p + seq![sep] + q;
    if q.len() == 0 {
        assert(pq.drop_last() =~= p);
        assert(pq =~= p + seq![sep]);
        assert(split_on(q, sep) =~= seq![Seq::<char>::empty()]);
        assert(split_on(pq, sep) =~= split_on(p, sep) + split_on(q, sep));
    } else {
        let q0 = q.drop_last();
        lemma_split_concat(p, q0, sep);
        crate::text::lemma_split_on_len(q0, sep);
        assert(pq.drop_last() =~= p + seq![sep] + q0);
        assert(pq.last() == q.last());
        let a = split_on(p, sep);
        let b = split_on(q0, sep);
        if q.last() == sep {
            assert(split_on(pq, sep) =~= (a + b).push(Seq::<char>::empty()));
            assert(split_on(q, sep) =~= b.push(Seq::<char>::empty()));
            assert((a + b).push(Seq::<char>::empty()) =~= a + b.push(Seq::<char>::empty()));
        } else {
            let ab = a + b;
            assert(ab.last() == b.last());
            assert(ab.update(ab.len() - 1, ab.last().push(q.last())) =~= a + b.update(
                b.len() - 1,
                b.last().push(q.last()),
            ));
        }
    }
}

/// Reading two lists of alternatives one after the other: the first fault
/// met, or all the alternatives in order.
pub proof fn lemma_parse_parts_concat(a: Seq<Seq<char>>, b: Seq<Seq<char>>)
    ensures
        parse_parts(a + b) == match parse_parts(a) {
            Err(f) => Err(f),
            Ok(x) => match parse_parts(b) {
                Err(f) => Err(f),
                Ok(y) => Ok::<Seq<Seq<StepView>>, ParseFault>(x + y),
            },
        },
    decreases b.len(),
{
    if b.len() == 0 {
        assert(a + b =~= a);
        if let Ok(x) = parse_parts(a) {
            assert(x + Seq::<Seq<StepView>>::empty() =~= x);
        }
    } else {
        lemma_parse_parts_concat(a, b.drop_last());
        assert((a + b).drop_last() =~= a + b.drop_last());
        assert((a + b).last() == b.last());
        if let Ok(x) = parse_parts(a) {
            if let Ok(y) = parse_parts(b.drop_last()) {
                if let Ok(s) = parse_part(b.last(), 0, Seq::empty()) {
                    assert((x + y).push(s) =~= x + y.push(s));
                }
            }
        }
    }
}

/// `p|q` means the alternatives of `p` followed by those of `q`: it is
/// refused for the first fault of `p`, else the first of `q`, and otherwise
/// accepts exactly the lines that `p` or `q` accepts.
pub proof fn law_alternation(p: Seq<char>, q: Seq<char>, value: Seq<char>)
    ensures
        parse_pattern(p + seq!['|'] + q) == match parse_pattern(p) {
            Err(f) => Err(f),
            Ok(x) => match parse_pattern(q) {
                Err(f) => Err(f),
                Ok(y) => Ok::<Seq<Seq<StepView>>, ParseFault>(x + y),
            },
        },
        parse_pattern(p) matches Ok(x) ==> (parse_pattern(q) matches Ok(y) ==> (pattern_accepts(
            x + y,
            value,
        ) == (pattern_accepts(x, value) || pattern_accepts(y, value)))),
{
    lemma_split_concat(p, q, '|');
    lemma_parse_parts_concat(split_on(p, '|'), split_on(q, '|'));
    if let Ok(x) = parse_pattern(p) {
        if let Ok(y) = parse_pattern(q) {
            law_alternatives_accept(x, y, value);
        }
    }
}

/// The steps of a pattern made of plain characters: one literal each.
pub open spec fn literal_steps(w: Seq<char>) -> Seq<StepView>
    decreases w.len(),
{
    if w.len() == 0 {
        Seq::empty()
    } else {
        literal_steps(w.drop_last()).push(single(ValView::Literal(w.last())))
    }
}

/// The literal steps, one by one.
pub proof fn lemma_literal_steps(w: Seq<char>)
    requires
        forall|k: int| 0 <= k < w.len() ==> plain_char(#[trigger] w[k]),
    ensures
        literal_steps(w).len() == w.len(),
        forall|k: int|
            0 <= k < w.len() ==> #[trigger] literal_steps(w)[k] == single(ValView::Literal(w[k])),
    decreases w.len(),
{
    if w.len() > 0 {
        assert(plain_char(w[w.len() - 1]));
        lemma_literal_steps(w.drop_last());
    }
}

/// `w` occurs in `v` at position `i`.
pub open spec fn occurs_at(w: Seq<char>, v: Seq<char>, i: int) -> bool {
    0 <= i && i + w.len() <= v.len() && v.subrange(i, i + w.len()) == w
}

/// A text without `sep` is a single piece.
pub proof fn lemma_split_without_separator(w: Seq<char>, sep: char)
    requires
        forall|k: int| 0 <= k < w.len() ==> w[k] != sep,
    ensures
        split_on(w, sep) == seq![w],
    decreases w.len(),
{
    if w.len() > 0 {
        assert(w[w.len() - 1] != sep);
        lemma_split_without_separator(w.drop_last(), sep);
        assert(w.drop_last().push(w.last()) =~= w);
        assert(seq![w.drop_last()].update(0, w.drop_last().push(w.last())) =~= seq![w]);
    } else {
        assert(w =~= Seq::<char>::empty());
    }
}

/// Reading plain characters one after the other gives one literal each.
proof fn lemma_parse_plain(
    p: Seq<char>,
    start: int,
    j: int,
    end: int,
    base: Seq<StepView>,
)
    requires
        0 <= start <= j <= end <= p.len(),
        forall|k: int| start <= k < end ==> plain_char(#[trigger] p[k]),
    ensures
        parse_part(p, j, base + literal_steps(p.subrange(start, j))) == parse_part(
            p,
            end,
            base + literal_steps(p.subrange(start, end)),
        ),
    decreases end - j,
{
    if j < end {
        let c = p[j];
        assert(plain_char(p[j]));
        let x = literal_steps(p.subrange(start, j));
        assert(p.subrange(start, j + 1).drop_last() =~= p.subrange(start, j));
        assert(p.subrange(start, j + 1).last() == c);
        assert((base + x).push(single(ValView::Literal(c))) =~= base + x.push(
            single(ValView::Literal(c)),
        ));
        lemma_parse_plain(p, start, j + 1, end, base);
    }
}

/// A step that reads exactly one character, once: a literal, `.`, a
/// bracket list or a class.
pub open spec fn one_char_step(s: StepView) -> bool {
    &&& s.rep == RegexRep::Exact(1)
    &&& !(s.val is Inicio)
    &&& !(s.val is Fin)
}

/// From position `i` on, each of `steps` accepts the character at its place.
pub open spec fn fits_at(steps: Seq<StepView>, v: Seq<char>, i: int) -> bool {
    &&& 0 <= i
    &&& i + steps.len() <= v.len()
    &&& forall|k: int| 0 <= k < steps.len() ==> accepts_char(#[trigger] steps[k].val, v[i + k])
}

/// A run of single-character steps from position `i`, with the first `j`
/// already matched and `tail` pending after them: when all of them fit at
/// `i` the run goes on with `tail` right after them (over some stack of
/// fixed entries), and otherwise it gives up on this start position.
proof fn lemma_one_char_run(
    w: Seq<StepView>,
    v: Seq<char>,
    i: int,
    j: int,
    stack: Seq<EvalView>,
    tail: Seq<StepView>,
) -> (done: Seq<EvalView>)
    requires
        forall|k: int| 0 <= k < w.len() ==> one_char_step(#[trigger] w[k]),
        forall|k: int| 0 <= k < tail.len() ==> !(#[trigger] tail[k].rep is Any),
        is_ascii_chars(v),
        0 <= j <= w.len(),
        0 <= i,
        i + j <= v.len(),
        forall|k: int| 0 <= k < j ==> accepts_char(#[trigger] w[k].val, v[i + k]),
        forall|k: int|
            0 <= k < stack.len() ==> !(#[trigger] stack[k]).backtrackeable
                && stack[k].step.rep is Exact,
        sizes_sum(stack) <= i + j,
    ensures
        forall|k: int|
            0 <= k < done.len() ==> !(#[trigger] done[k]).backtrackeable
                && done[k].step.rep is Exact,
        sizes_sum(done) <= i + w.len(),
        run(v, MachineState { queue: w.skip(j) + tail, stack, index: i + j, retries: 0 })
            == if fits_at(w, v, i) {
            run(v, MachineState { queue: tail, stack: done, index: i + w.len(), retries: 0 })
        } else {
            StartOutcome::Next(false)
        },
    decreases w.len() - j,
{
    let st = MachineState { queue: w.skip(j) + tail, stack, index: i + j, retries: 0 };
    assert forall|k: int| 0 <= k < st.queue.len() implies !(#[trigger] st.queue[k].rep is Any) by {
        if k >= w.len() - j {
            assert(st.queue[k] == tail[k - (w.len() - j)]);
        } else {
            assert(st.queue[k] == w[j + k]);
            assert(one_char_step(w[j + k]));
        }
    }
    assert(machine_wf(v, st));
    if j == w.len() {
        assert(w.skip(j) + tail =~= tail);
        stack
    } else {
        let s = w[j];
        assert(one_char_step(w[j]));
        assert(st.queue[0] == s);
        assert(st.queue.drop_first() =~= w.skip(j + 1) + tail);
        if i + j < v.len() && accepts_char(s.val, v[i + j]) {
            assert(v.skip(i + j)[0] == v[i + j]);
            assert('\0' <= v[i + j] <= '\u{7f}');
            assert(match_len(s.val, v.skip(i + j)) == 1);
            assert(exact_scan(s.val, v, i + j, 1) == (true, i + j + 1)) by {
                reveal_with_fuel(exact_scan, 2);
            }
            let e = EvalView { step: s, match_size: 1, backtrackeable: false };
            let s2 = stack.push(e);
            assert(s2.drop_last() =~= stack);
            let done = lemma_one_char_run(w, v, i, j + 1, s2, tail);
            assert(iterate(v, st) == Turn::Continue(
                MachineState { queue: w.skip(j + 1) + tail, stack: s2, index: i + j + 1, retries: 0 },
            ));
            done
        } else {
            lemma_last_backtrackeable(stack);
            assert(last_backtrackeable(stack) is None);
            if i + j < v.len() {
                assert(v.skip(i + j)[0] == v[i + j]);
            }
            assert(match_len(s.val, v.skip(i + j)) == 0);
            assert(exact_scan(s.val, v, i + j, 1) == (false, i + j));
            if fits_at(w, v, i) {
                assert(accepts_char(w[j].val, v[i + j]));
            }
            stack
        }
    }
}

/// Literal steps fit exactly where their word occurs.
proof fn lemma_literal_fits(w: Seq<char>, v: Seq<char>, i: int)
    requires
        forall|k: int| 0 <= k < w.len() ==> plain_char(#[trigger] w[k]),
    ensures
        literal_steps(w).len() == w.len(),
        forall|k: int| 0 <= k < w.len() ==> one_char_step(#[trigger] literal_steps(w)[k]),
        fits_at(literal_steps(w), v, i) == occurs_at(w, v, i),
{
    lemma_literal_steps(w);
    if fits_at(literal_steps(w), v, i) {
        assert forall|k: int| 0 <= k < w.len() implies v.subrange(i, i + w.len())[k] == w[k] by {
            assert(accepts_char(literal_steps(w)[k].val, v[i + k]));
        }
        assert(v.subrange(i, i + w.len()) =~= w);
    }
    if occurs_at(w, v, i) {
        assert forall|k: int| 0 <= k < literal_steps(w).len() implies accepts_char(
            #[trigger] literal_steps(w)[k].val,
            v[i + k],
        ) by {
            assert(v.subrange(i, i + w.len())[k] == w[k]);
        }
    }
}

/// The end of a run: with nothing pending it matches, and with only the end
/// of line pending it reports whether the end of the line was reached.
proof fn lemma_run_finish(v: Seq<char>, stack: Seq<EvalView>, index: int)
    requires
        is_ascii_chars(v),
        sizes_sum(stack) <= index <= v.len(),
        forall|k: int|
            0 <= k < stack.len() ==> !(#[trigger] stack[k]).backtrackeable
                && stack[k].step.rep is Exact,
    ensures
        run(v, MachineState { queue: Seq::empty(), stack, index, retries: 0 })
            == StartOutcome::Matched,
        run(v, MachineState { queue: seq![single(ValView::Fin)], stack, index, retries: 0 })
            == StartOutcome::Next(index == v.len()),
{
    let st1 = MachineState { queue: Seq::empty(), stack, index, retries: 0 };
    let st2 = MachineState { queue: seq![single(ValView::Fin)], stack, index, retries: 0 };
    assert(machine_wf(v, st1));
    assert(machine_wf(v, st2));
    assert(st2.queue.drop_first() =~= Seq::<StepView>::empty());
}

/// Running single-character steps from every start position finds whether
/// they fit somewhere.
proof fn lemma_one_char_scan(w: Seq<StepView>, v: Seq<char>, start: int)
    requires
        forall|k: int| 0 <= k < w.len() ==> one_char_step(#[trigger] w[k]),
        is_ascii_chars(v),
        w.len() > 0,
        0 <= start <= v.len(),
    ensures
        scan_from(w, v, start, false) == exists|i: int| start <= i && #[trigger] fits_at(w, v, i),
    decreases v.len() - start,
{
    if start < v.len() {
        assert(w.skip(0) + Seq::<StepView>::empty() =~= w);
        let done = lemma_one_char_run(w, v, start, 0, Seq::empty(), Seq::empty());
        if fits_at(w, v, start) {
            lemma_run_finish(v, done, start + w.len());
        }
        assert(initial_state(w, start) == MachineState {
            queue: w.skip(0) + Seq::<StepView>::empty(),
            stack: Seq::<EvalView>::empty(),
            index: start + 0,
            retries: 0,
        });
        lemma_one_char_scan(w, v, start + 1);
        if !fits_at(w, v, start) {
            if exists|i: int| start <= i && #[trigger] fits_at(w, v, i) {
                let i = choose|i: int| start <= i && #[trigger] fits_at(w, v, i);
                assert(start + 1 <= i);
            }
        }
    } else {
        if exists|i: int| start <= i && #[trigger] fits_at(w, v, i) {
            let i = choose|i: int| start <= i && #[trigger] fits_at(w, v, i);
            assert(false);
        }
    }
}

/// An alternative of single-character steps (literals, `.`, bracket lists
/// and classes, each taken once) accepts exactly the lines in which, at some
/// position, every step accepts the character at its place.
pub proof fn law_single_character_steps_match_in_place(steps: Seq<StepView>, v: Seq<char>)
    requires
        steps.len() > 0,
        forall|k: int| 0 <= k < steps.len() ==> one_char_step(#[trigger] steps[k]),
        is_ascii_chars(v),
    ensures
        steps_accept(steps, v) == exists|i: int| #[trigger] fits_at(steps, v, i),
{
    lemma_one_char_scan(steps, v, 0);
    if exists|i: int| #[trigger] fits_at(steps, v, i) {
        let i = choose|i: int| #[trigger] fits_at(steps, v, i);
        assert(0 <= i);
    }
}

/// A pattern of plain characters (letters, digits, spaces) is one
/// alternative of literals, and it accepts exactly the lines that contain
/// it: searching with it is substring search.
pub proof fn law_literal_pattern_is_substring_search(w: Seq<char>, v: Seq<char>)
    requires
        w.len() > 0,
        forall|k: int| 0 <= k < w.len() ==> plain_char(#[trigger] w[k]),
        is_ascii_chars(v),
    ensures
        parse_pattern(w) == Ok::<Seq<Seq<StepView>>, ParseFault>(seq![literal_steps(w)]),
        pattern_accepts(seq![literal_steps(w)], v) == exists|i: int| #[trigger] occurs_at(w, v, i),
{
    assert forall|k: int| 0 <= k < w.len() implies w[k] != '|' by {
        assert(plain_char(w[k]));
    }
    lemma_split_without_separator(w, '|');
    assert(w.subrange(0, 0) =~= Seq::<char>::empty());
    assert(literal_steps(w.subrange(0, 0)) == Seq::<StepView>::empty());
    lemma_parse_plain(w, 0, 0, w.len() as int, Seq::empty());
    assert(Seq::<StepView>::empty() + Seq::<StepView>::empty() =~= Seq::<StepView>::empty());
    assert(w.subrange(0, w.len() as int) =~= w);
    assert(Seq::<StepView>::empty() + literal_steps(w) =~= literal_steps(w));
    assert(seq![w].drop_last() =~= Seq::<Seq<char>>::empty());
    assert(seq![w].last() == w);
    assert(parse_parts(seq![w]) == Ok::<Seq<Seq<StepView>>, ParseFault>(
        Seq::<Seq<StepView>>::empty().push(literal_steps(w)),
    )) by {
        reveal_with_fuel(parse_parts, 2);
    }
    assert(Seq::<Seq<StepView>>::empty().push(literal_steps(w)) =~= seq![literal_steps(w)]);
    lemma_literal_fits(w, v, 0);
    lemma_literal_steps(w);
    law_single_character_steps_match_in_place(literal_steps(w), v);
    let alts = seq![literal_steps(w)];
    if exists|i: int| #[trigger] occurs_at(w, v, i) {
        let i = choose|i: int| #[trigger] occurs_at(w, v, i);
        lemma_literal_fits(w, v, i);
        assert(fits_at(literal_steps(w), v, i));
        assert(steps_accept(alts[0], v));
    }
    if steps_accept(alts[0], v) {
        let i = choose|i: int| #[trigger] fits_at(literal_steps(w), v, i);
        lemma_literal_fits(w, v, i);
        assert(occurs_at(w, v, i));
    }
    if pattern_accepts(alts, v) {
        let k = choose|k: int| 0 <= k < alts.len() && steps_accept(#[trigger] alts[k], v);
        assert(k == 0);
    }
}

/// The empty pattern is one alternative with no steps, and it accepts
/// exactly the non-empty lines.
pub proof fn law_empty_pattern_accepts_nonempty_lines(v: Seq<char>)
    requires
        is_ascii_chars(v),
    ensures
        parse_pattern(Seq::empty()) == Ok::<Seq<Seq<StepView>>, ParseFault>(
            seq![Seq::<StepView>::empty()],
        ),
        pattern_accepts(seq![Seq::<StepView>::empty()], v) == (v.len() > 0),
{
    lemma_split_without_separator(Seq::empty(), '|');
    assert(seq![Seq::<char>::empty()].drop_last() =~= Seq::<Seq<char>>::empty());
    assert(seq![Seq::<char>::empty()].last() == Seq::<char>::empty());
    assert(parse_part(Seq::<char>::empty(), 0, Seq::empty()) == Ok::<Seq<StepView>, ParseFault>(
        Seq::empty(),
    ));
    assert(parse_parts(seq![Seq::<char>::empty()]) == Ok::<Seq<Seq<StepView>>, ParseFault>(
        Seq::<Seq<StepView>>::empty().push(Seq::<StepView>::empty()),
    )) by {
        reveal_with_fuel(parse_parts, 2);
    }
    assert(Seq::<Seq<StepView>>::empty().push(Seq::<StepView>::empty()) =~= seq![
        Seq::<StepView>::empty(),
    ]);
    let alts = seq![Seq::<StepView>::empty()];
    if v.len() > 0 {
        let st = initial_state(Seq::empty(), 0);
        assert(machine_wf(v, st));
        assert(run(v, st) == StartOutcome::Matched);
        assert(steps_accept(alts[0], v));
    } else {
        assert(!steps_accept(alts[0], v));
    }
}

/// After the first start position, a pattern beginning with `^` and with
/// more steps after it gives up at once on every start position.
proof fn lemma_caret_later_starts(rest: Seq<StepView>, v: Seq<char>, start: int, found: bool)
    requires
        rest.len() > 0,
        forall|k: int| 0 <= k < rest.len() ==> !(#[trigger] rest[k].rep is Any),
        is_ascii_chars(v),
        1 <= start <= v.len(),
    ensures
        scan_from(seq![single(ValView::Inicio)] + rest, v, start, found) == found,
    decreases v.len() - start,
{
    let steps = seq![single(ValView::Inicio)] + rest;
    if start < v.len() {
        let st = initial_state(steps, start);
        assert forall|k: int| 0 <= k < steps.len() implies !(#[trigger] steps[k].rep is Any) by {
            if k > 0 {
                assert(steps[k] == rest[k - 1]);
            }
        }
        assert(machine_wf(v, st));
        assert(steps[0] == single(ValView::Inicio));
        assert(steps.drop_first() =~= rest);
        assert(run(v, st) == StartOutcome::Next(false));
        lemma_caret_later_starts(rest, v, start + 1, found);
    }
}

/// `^w`, for a word `w` of plain characters, is one alternative: the start
/// of line, then the literals of `w`; it accepts exactly the lines that
/// begin with `w`.
pub proof fn law_caret_anchors_at_line_start(w: Seq<char>, v: Seq<char>)
    requires
        w.len() > 0,
        forall|k: int| 0 <= k < w.len() ==> plain_char(#[trigger] w[k]),
        is_ascii_chars(v),
    ensures
        parse_pattern(seq!['^'] + w) == Ok::<Seq<Seq<StepView>>, ParseFault>(
            seq![seq![single(ValView::Inicio)] + literal_steps(w)],
        ),
        pattern_accepts(seq![seq![single(ValView::Inicio)] + literal_steps(w)], v) == occurs_at(
            w,
            v,
            0,
        ),
{
    let p = seq!['^'] + w;
    let steps = seq![single(ValView::Inicio)] + literal_steps(w);
    assert forall|k: int| 0 <= k < p.len() implies p[k] != '|' by {
        if k > 0 {
            assert(p[k] == w[k - 1]);
            assert(plain_char(w[k - 1]));
        }
    }
    lemma_split_without_separator(p, '|');
    assert forall|k: int| 1 <= k < p.len() implies plain_char(#[trigger] p[k]) by {
        assert(p[k] == w[k - 1]);
    }
    assert(p[0] == '^');
    let base = seq![single(ValView::Inicio)];
    assert(Seq::<StepView>::empty().push(single(ValView::Inicio)) =~= base);
    assert(p.subrange(1, 1) =~= Seq::<char>::empty());
    assert(literal_steps(p.subrange(1, 1)) == Seq::<StepView>::empty());
    assert(base + Seq::<StepView>::empty() =~= base);
    lemma_parse_plain(p, 1, 1, p.len() as int, base);
    assert(p.subrange(1, p.len() as int) =~= w);
    assert(parse_part(p, 0, Seq::empty()) == Ok::<Seq<StepView>, ParseFault>(steps));
    assert(seq![p].drop_last() =~= Seq::<Seq<char>>::empty());
    assert(seq![p].last() == p);
    assert(parse_parts(seq![p]) == Ok::<Seq<Seq<StepView>>, ParseFault>(
        Seq::<Seq<StepView>>::empty().push(steps),
    )) by {
        reveal_with_fuel(parse_parts, 2);
    }
    assert(Seq::<Seq<StepView>>::empty().push(steps) =~= seq![steps]);
    let alts = seq![steps];
    if v.len() > 0 {
        lemma_literal_steps(w);
        let st = initial_state(steps, 0);
        assert(machine_wf(v, st));
        assert(steps[0] == single(ValView::Inicio));
        assert(steps.drop_first() =~= literal_steps(w).skip(0) + Seq::<StepView>::empty());
        lemma_literal_fits(w, v, 0);
        let done = lemma_one_char_run(literal_steps(w), v, 0, 0, Seq::empty(), Seq::empty());
        if occurs_at(w, v, 0) {
            lemma_run_finish(v, done, w.len() as int);
        }
        assert(iterate(v, st) == Turn::Continue(
            MachineState {
                queue: literal_steps(w).skip(0) + Seq::<StepView>::empty(),
                stack: Seq::empty(),
                index: 0int,
                retries: 0,
            },
        ));
        lemma_literal_steps(w);
        assert forall|k: int| 0 <= k < literal_steps(w).len() implies !(#[trigger] literal_steps(
            w,
        )[k].rep is Any) by {
            assert(literal_steps(w)[k] == single(ValView::Literal(w[k])));
        }
        lemma_caret_later_starts(literal_steps(w), v, 1, false);
        assert(steps_accept(alts[0], v) == occurs_at(w, v, 0));
    } else {
        assert(!steps_accept(alts[0], v));
    }
    if pattern_accepts(alts, v) {
        let k = choose|k: int| 0 <= k < alts.len() && steps_accept(#[trigger] alts[k], v);
        assert(k == 0);
    }
}

/// Running `w$` from every start position: it reports the end of line
/// exactly where `w` occurs as the last characters of the line.
proof fn lemma_dollar_scan(w: Seq<char>, v: Seq<char>, start: int, found: bool)
    requires
        w.len() > 0,
        forall|k: int| 0 <= k < w.len() ==> plain_char(#[trigger] w[k]),
        is_ascii_chars(v),
        0 <= start <= v.len(),
    ensures
        scan_from(literal_steps(w) + seq![single(ValView::Fin)], v, start, found) == (found
            || exists|i: int| start <= i && #[trigger] occurs_at(w, v, i) && i + w.len() == v.len()),
    decreases v.len() - start,
{
    let steps = literal_steps(w) + seq![single(ValView::Fin)];
    if start < v.len() {
        assert(steps =~= literal_steps(w).skip(0) + seq![single(ValView::Fin)]);
        lemma_literal_steps(w);
        lemma_literal_fits(w, v, start);
        let done = lemma_one_char_run(
            literal_steps(w),
            v,
            start,
            0,
            Seq::empty(),
            seq![single(ValView::Fin)],
        );
        let ends = occurs_at(w, v, start) && start + w.len() == v.len();
        if occurs_at(w, v, start) {
            lemma_run_finish(v, done, start + w.len());
        }
        assert(run(v, initial_state(steps, start)) == StartOutcome::Next(ends));
        lemma_dollar_scan(w, v, start + 1, found || ends);
        if exists|i: int| start <= i && #[trigger] occurs_at(w, v, i) && i + w.len() == v.len() {
            let i = choose|i: int| start <= i && #[trigger] occurs_at(w, v, i) && i + w.len() == v.len();
            if i != start {
                assert(start + 1 <= i);
            }
        }
    } else {
        if exists|i: int| start <= i && #[trigger] occurs_at(w, v, i) && i + w.len() == v.len() {
            let i = choose|i: int| start <= i && #[trigger] occurs_at(w, v, i) && i + w.len() == v.len();
            assert(false);
        }
    }
}

/// `w$`, for a word `w` of plain characters, is one alternative: the
/// literals of `w`, then the end of line; it accepts exactly the lines that
/// end with `w`.
pub proof fn law_dollar_anchors_at_line_end(w: Seq<char>, v: Seq<char>)
    requires
        w.len() > 0,
        forall|k: int| 0 <= k < w.len() ==> plain_char(#[trigger] w[k]),
        is_ascii_chars(v),
    ensures
        parse_pattern(w + seq!['$']) == Ok::<Seq<Seq<StepView>>, ParseFault>(
            seq![literal_steps(w) + seq![single(ValView::Fin)]],
        ),
        pattern_accepts(seq![literal_steps(w) + seq![single(ValView::Fin)]], v) == (w.len()
            <= v.len() && v.skip(v.len() - w.len()) == w),
{
    let p = w + seq!['$'];
    let steps = literal_steps(w) + seq![single(ValView::Fin)];
    assert forall|k: int| 0 <= k < p.len() implies p[k] != '|' by {
        if k < w.len() {
            assert(p[k] == w[k]);
            assert(plain_char(w[k]));
        }
    }
    lemma_split_without_separator(p, '|');
    assert forall|k: int| 0 <= k < w.len() implies plain_char(#[trigger] p[k]) by {
        assert(p[k] == w[k]);
    }
    assert(p.subrange(0, 0) =~= Seq::<char>::empty());
    assert(literal_steps(p.subrange(0, 0)) == Seq::<StepView>::empty());
    assert(Seq::<StepView>::empty() + Seq::<StepView>::empty() =~= Seq::<StepView>::empty());
    lemma_parse_plain(p, 0, 0, w.len() as int, Seq::empty());
    assert(p.subrange(0, w.len() as int) =~= w);
    assert(Seq::<StepView>::empty() + literal_steps(w) =~= literal_steps(w));
    assert(p[w.len() as int] == '$');
    assert(literal_steps(w).push(single(ValView::Fin)) =~= steps);
    assert(parse_part(p, w.len() as int, literal_steps(w)) == Ok::<Seq<StepView>, ParseFault>(
        steps,
    )) by {
        reveal_with_fuel(parse_part, 2);
    }
    assert(seq![p].drop_last() =~= Seq::<Seq<char>>::empty());
    assert(seq![p].last() == p);
    assert(parse_parts(seq![p]) == Ok::<Seq<Seq<StepView>>, ParseFault>(
        Seq::<Seq<StepView>>::empty().push(steps),
    )) by {
        reveal_with_fuel(parse_parts, 2);
    }
    assert(Seq::<Seq<StepView>>::empty().push(steps) =~= seq![steps]);
    let alts = seq![steps];
    lemma_dollar_scan(w, v, 0, false);
    let ends = w.len() <= v.len() && v.skip(v.len() - w.len()) == w;
    if ends {
        let i = v.len() - w.len();
        assert(v.subrange(i, i + w.len()) =~= v.skip(i));
        assert(occurs_at(w, v, i));
    }
    if exists|i: int| 0 <= i && #[trigger] occurs_at(w, v, i) && i + w.len() == v.len() {
        let i = choose|i: int| 0 <= i && #[trigger] occurs_at(w, v, i) && i + w.len() == v.len();
        assert(v.subrange(i, i + w.len()) =~= v.skip(v.len() - w.len()));
    }
    assert(steps_accept(alts[0], v) == ends);
    if pattern_accepts(alts, v) {
        let k = choose|k: int| 0 <= k < alts.len() && steps_accept(#[trigger] alts[k], v);
        assert(k == 0);
    }
}

/// The decimal digits of `n`, as `n.to_string()` writes them.
pub open spec fn decimal_text(n: nat) -> Seq<char>
    decreases n,
{
    if n < 10 {
        seq![(n + 48) as char]
    } else {
        decimal_text(n / 10).push((n % 10 + 48) as char)
    }
}

/// The decimal digits of `n` are digits, at least one, no comma among them,
/// and they read back as `n`.
pub proof fn lemma_decimal_text(n: nat)
    ensures
        decimal_text(n).len() > 0,
        all_digits(decimal_text(n)),
        decimal_value(decimal_text(n)) == n,
        forall|k: int| 0 <= k < decimal_text(n).len() ==> #[trigger] decimal_text(n)[k] != ',',
        decimal_text(n)[0] != '+',
    decreases n,
{
    if n >= 10 {
        lemma_decimal_text(n / 10);
        let t = decimal_text(n);
        let c = (n % 10 + 48) as char;
        assert(t.drop_last() =~= decimal_text(n / 10));
        assert(t.last() == c);
        assert(c as u32 == n % 10 + 48);
        assert(n == (n / 10) * 10 + n % 10) by (nonlinear_arith);
        assert(decimal_value(t) == decimal_value(decimal_text(n / 10)) * 10 + (c as u32 - 48));
        assert(forall|k: int| 0 <= k < t.len() - 1 ==> t[k] == decimal_text(n / 10)[k]);
    } else {
        let c = (n + 48) as char;
        assert(c as u32 == n + 48);
        let t = decimal_text(n);
        assert(t.drop_last() =~= Seq::<char>::empty());
        assert(t.last() == c);
        assert(decimal_value(t.drop_last()) == 0);
        assert(decimal_value(t) == decimal_value(t.drop_last()) * 10 + (c as u32 - 48));
    }
}

/// The decimal text of a `usize` reads back as that number.
proof fn lemma_usize_text(n: usize)
    ensures
        usize_text(decimal_text(n as nat)) == Some(n),
        forall|k: int|
            0 <= k < decimal_text(n as nat).len() ==> #[trigger] decimal_text(n as nat)[k] != ',',
        split_on(decimal_text(n as nat), ',') == seq![decimal_text(n as nat)],
{
    lemma_decimal_text(n as nat);
    lemma_split_without_separator(decimal_text(n as nat), ',');
}

/// Braces around decimal numbers read as those numbers: `{n}` and `{n,}`
/// give a lower bound `n`, `{,m}` an upper bound `m`, and `{n,m}` both,
/// refused when `n > m`.
pub proof fn law_brace_bounds_of_numbers(n: usize, m: usize)
    ensures
        brace_bounds(decimal_text(n as nat)) == Ok::<(Option<usize>, Option<usize>), ParseFault>(
            (Some(n), None),
        ),
        brace_bounds(decimal_text(n as nat) + seq![',']) == Ok::<
            (Option<usize>, Option<usize>),
            ParseFault,
        >((Some(n), None)),
        brace_bounds(seq![','] + decimal_text(m as nat)) == Ok::<
            (Option<usize>, Option<usize>),
            ParseFault,
        >((None, Some(m))),
        brace_bounds(decimal_text(n as nat) + seq![','] + decimal_text(m as nat)) == if n <= m {
            Ok::<(Option<usize>, Option<usize>), ParseFault>((Some(n), Some(m)))
        } else {
            Err::<(Option<usize>, Option<usize>), ParseFault>(ParseFault::BraceOrder)
        },
{
    let tn = decimal_text(n as nat);
    let tm = decimal_text(m as nat);
    let e = Seq::<char>::empty();
    lemma_usize_text(n);
    lemma_usize_text(m);
    assert(split_on(e, ',') =~= seq![e]);
    lemma_split_concat(tn, e, ',');
    assert(tn + seq![','] + e =~= tn + seq![',']);
    assert(seq![tn] + seq![e] =~= seq![tn, e]);
    lemma_split_concat(e, tm, ',');
    assert(e + seq![','] + tm =~= seq![','] + tm);
    assert(seq![e] + seq![tm] =~= seq![e, tm]);
    lemma_split_concat(tn, tm, ',');
    assert(seq![tn] + seq![tm] =~= seq![tn, tm]);
}

/// A word of plain characters, possibly empty, is one alternative of
/// literals.
proof fn lemma_parse_word(w: Seq<char>)
    requires
        forall|k: int| 0 <= k < w.len() ==> plain_char(#[trigger] w[k]),
    ensures
        parse_pattern(w) == Ok::<Seq<Seq<StepView>>, ParseFault>(seq![literal_steps(w)]),
{
    assert forall|k: int| 0 <= k < w.len() implies w[k] != '|' by {
        assert(plain_char(w[k]));
    }
    lemma_split_without_separator(w, '|');
    assert(w.subrange(0, 0) =~= Seq::<char>::empty());
    assert(literal_steps(w.subrange(0, 0)) == Seq::<StepView>::empty());
    lemma_parse_plain(w, 0, 0, w.len() as int, Seq::empty());
    assert(Seq::<StepView>::empty() + Seq::<StepView>::empty() =~= Seq::<StepView>::empty());
    assert(w.subrange(0, w.len() as int) =~= w);
    assert(Seq::<StepView>::empty() + literal_steps(w) =~= literal_steps(w));
    assert(seq![w].drop_last() =~= Seq::<Seq<char>>::empty());
    assert(seq![w].last() == w);
    assert(parse_parts(seq![w]) == Ok::<Seq<Seq<StepView>>, ParseFault>(
        Seq::<Seq<StepView>>::empty().push(literal_steps(w)),
    )) by {
        reveal_with_fuel(parse_parts, 2);
    }
    assert(Seq::<Seq<StepView>>::empty().push(literal_steps(w)) =~= seq![literal_steps(w)]);
}

/// On a non-empty line, the literals of a word, possibly empty, accept
/// exactly when the word occurs in the line.
proof fn lemma_word_accepts(w: Seq<char>, v: Seq<char>)
    requires
        forall|k: int| 0 <= k < w.len() ==> plain_char(#[trigger] w[k]),
        is_ascii_chars(v),
        v.len() > 0,
    ensures
        steps_accept(literal_steps(w), v) == exists|i: int| #[trigger] occurs_at(w, v, i),
{
    if w.len() > 0 {
        law_literal_pattern_is_substring_search(w, v);
        let alts = seq![literal_steps(w)];
        if steps_accept(literal_steps(w), v) {
            assert(steps_accept(alts[0], v));
        }
    } else {
        law_empty_pattern_accepts_nonempty_lines(v);
        assert(literal_steps(w) == Seq::<StepView>::empty());
        let alts = seq![Seq::<StepView>::empty()];
        if pattern_accepts(alts, v) {
            let k = choose|k: int| 0 <= k < alts.len() && steps_accept(#[trigger] alts[k], v);
            assert(k == 0);
        }
        assert(v.subrange(0, 0) =~= w);
        assert(occurs_at(w, v, 0));
    }
}

/// The words `ws` written one after the other, separated by `|`.
pub open spec fn join_bars(ws: Seq<Seq<char>>) -> Seq<char>
    decreases ws.len(),
{
    if ws.len() == 0 {
        Seq::empty()
    } else if ws.len() == 1 {
        ws[0]
    } else {
        join_bars(ws.drop_last()) + seq!['|'] + ws.last()
    }
}

/// The alternatives built from words of plain characters.
pub open spec fn word_steps(ws: Seq<Seq<char>>) -> Seq<Seq<StepView>> {
    ws.map_values(|w: Seq<char>| literal_steps(w))
}

/// Joining words with `|` builds one alternative of literals per word.
proof fn lemma_parse_words(ws: Seq<Seq<char>>)
    requires
        ws.len() > 0,
        forall|k: int, i: int| 0 <= k < ws.len() && 0 <= i < ws[k].len() ==> plain_char(
            #[trigger] ws[k][i],
        ),
    ensures
        parse_pattern(join_bars(ws)) == Ok::<Seq<Seq<StepView>>, ParseFault>(word_steps(ws)),
    decreases ws.len(),
{
    let last = ws.last();
    assert forall|i: int| 0 <= i < last.len() implies plain_char(#[trigger] last[i]) by {
        assert(plain_char(ws[ws.len() - 1][i]));
    }
    lemma_parse_word(last);
    if ws.len() == 1 {
        assert(word_steps(ws) =~= seq![literal_steps(ws[0])]);
    } else {
        let init = ws.drop_last();
        assert forall|k: int, i: int| 0 <= k < init.len() && 0 <= i < init[k].len() implies plain_char(
            #[trigger] init[k][i],
        ) by {
            assert(init[k] == ws[k]);
        }
        lemma_parse_words(init);
        law_alternation(join_bars(init), last, Seq::empty());
        assert(word_steps(init) + seq![literal_steps(last)] =~= word_steps(ws));
    }
}

/// Words of plain characters joined with `|` accept exactly the non-empty
/// lines that contain one of the words.
pub proof fn law_word_list_alternation(ws: Seq<Seq<char>>, v: Seq<char>)
    requires
        ws.len() > 0,
        forall|k: int, i: int| 0 <= k < ws.len() && 0 <= i < ws[k].len() ==> plain_char(
            #[trigger] ws[k][i],
        ),
        is_ascii_chars(v),
        v.len() > 0,
    ensures
        parse_pattern(join_bars(ws)) == Ok::<Seq<Seq<StepView>>, ParseFault>(word_steps(ws)),
        pattern_accepts(word_steps(ws), v) == exists|k: int, i: int|
            0 <= k < ws.len() && #[trigger] occurs_at(ws[k], v, i),
{
    lemma_parse_words(ws);
    let alts = word_steps(ws);
    assert forall|k: int| 0 <= k < ws.len() implies #[trigger] steps_accept(alts[k], v) == exists|
        i: int,
    | #[trigger] occurs_at(ws[k], v, i) by {
        let w = ws[k];
        assert forall|i: int| 0 <= i < w.len() implies plain_char(#[trigger] w[i]) by {
            assert(plain_char(ws[k][i]));
        }
        lemma_word_accepts(w, v);
    }
    if pattern_accepts(alts, v) {
        let k = choose|k: int| 0 <= k < alts.len() && steps_accept(#[trigger] alts[k], v);
        assert(steps_accept(alts[k], v));
        let i = choose|i: int| #[trigger] occurs_at(ws[k], v, i);
        assert(occurs_at(ws[k], v, i));
    }
    if exists|k: int, i: int| 0 <= k < ws.len() && #[trigger] occurs_at(ws[k], v, i) {
        let (k, i) = choose|k: int, i: int| 0 <= k < ws.len() && #[trigger] occurs_at(ws[k], v, i);
        assert(steps_accept(alts[k], v));
    }
}

/// `^w$`, for a word `w` of plain characters, possibly empty, is one
/// alternative: the start of line, the literals of `w`, the end of line; it
/// accepts exactly the non-empty line equal to `w`.
pub proof fn law_caret_dollar_whole_line(w: Seq<char>, v: Seq<char>)
    requires
        forall|k: int| 0 <= k < w.len() ==> plain_char(#[trigger] w[k]),
        is_ascii_chars(v),
        v.len() > 0,
    ensures
        parse_pattern(seq!['^'] + w + seq!['$']) == Ok::<Seq<Seq<StepView>>, ParseFault>(
            seq![seq![single(ValView::Inicio)] + literal_steps(w) + seq![single(ValView::Fin)]],
        ),
        pattern_accepts(
            seq![seq![single(ValView::Inicio)] + literal_steps(w) + seq![single(ValView::Fin)]],
            v,
        ) == (v == w),
{
    let p = seq!['^'] + w + seq!['$'];
    let e: int = (w.len() + 1) as int;
    let fin = seq![single(ValView::Fin)];
    let rest = literal_steps(w) + fin;
    let steps = seq![single(ValView::Inicio)] + rest;
    assert(seq![single(ValView::Inicio)] + literal_steps(w) + fin =~= steps);
    lemma_literal_steps(w);
    assert forall|k: int| 0 <= k < p.len() implies p[k] != '|' by {
        if 0 < k <= w.len() {
            assert(p[k] == w[k - 1]);
            assert(plain_char(w[k - 1]));
        }
    }
    lemma_split_without_separator(p, '|');
    assert forall|k: int| 1 <= k < e implies plain_char(#[trigger] p[k]) by {
        assert(p[k] == w[k - 1]);
    }
    assert(p[0] == '^');
    assert(p[e] == '$');
    let base = seq![single(ValView::Inicio)];
    assert(Seq::<StepView>::empty().push(single(ValView::Inicio)) =~= base);
    assert(p.subrange(1, 1) =~= Seq::<char>::empty());
    assert(literal_steps(p.subrange(1, 1)) == Seq::<StepView>::empty());
    assert(base + Seq::<StepView>::empty() =~= base);
    lemma_parse_plain(p, 1, 1, e, base);
    assert(p.subrange(1, e) =~= w);
    assert((base + literal_steps(w)).push(single(ValView::Fin)) =~= steps);
    assert(parse_part(p, e, base + literal_steps(w)) == Ok::<Seq<StepView>, ParseFault>(
        steps,
    )) by {
        reveal_with_fuel(parse_part, 2);
    }
    assert(parse_part(p, 0, Seq::empty()) == Ok::<Seq<StepView>, ParseFault>(steps));
    assert(seq![p].drop_last() =~= Seq::<Seq<char>>::empty());
    assert(seq![p].last() == p);
    assert(parse_parts(seq![p]) == Ok::<Seq<Seq<StepView>>, ParseFault>(
        Seq::<Seq<StepView>>::empty().push(steps),
    )) by {
        reveal_with_fuel(parse_parts, 2);
    }
    assert(Seq::<Seq<StepView>>::empty().push(steps) =~= seq![steps]);
    // Matching: only the first start position can succeed.
    assert forall|k: int| 0 <= k < rest.len() implies !(#[trigger] rest[k].rep is Any) by {
        if k < w.len() {
            assert(rest[k] == single(ValView::Literal(w[k])));
        } else {
            assert(rest[k] == single(ValView::Fin));
        }
    }
    let st = initial_state(steps, 0);
    assert forall|k: int| 0 <= k < steps.len() implies !(#[trigger] steps[k].rep is Any) by {
        if k > 0 {
            assert(steps[k] == rest[k - 1]);
        }
    }
    assert(machine_wf(v, st));
    assert(steps[0] == single(ValView::Inicio));
    assert(steps.drop_first() =~= literal_steps(w).skip(0) + fin);
    lemma_literal_fits(w, v, 0);
    let done = lemma_one_char_run(literal_steps(w), v, 0, 0, Seq::empty(), fin);
    let ends = occurs_at(w, v, 0) && w.len() == v.len();
    if occurs_at(w, v, 0) {
        lemma_run_finish(v, done, w.len() as int);
    }
    assert(iterate(v, st) == Turn::Continue(
        MachineState {
            queue: literal_steps(w).skip(0) + fin,
            stack: Seq::empty(),
            index: 0int,
            retries: 0,
        },
    ));
    assert(run(v, st) == StartOutcome::Next(ends));
    lemma_caret_later_starts(rest, v, 1, ends);
    assert(steps_accept(steps, v) == ends);
    if ends {
        assert(v =~= v.subrange(0, w.len() as int));
    }
    if v == w {
        assert(v.subrange(0, w.len() as int) =~= w);
    }
    let alts = seq![steps];
    if pattern_accepts(alts, v) {
        let k = choose|k: int| 0 <= k < alts.len() && steps_accept(#[trigger] alts[k], v);
        assert(k == 0);
    }
    if v == w {
        assert(steps_accept(alts[0], v));
    }
}

/// No character of `p` has the low byte 0xFF.
pub open spec fn no_ff_byte(p: Seq<char>) -> bool {
    forall|k: int| 0 <= k < p.len() ==> low_byte(#[trigger] p[k]) != 255
}

/// Splitting keeps only characters of the text.
proof fn lemma_split_ascii(s: Seq<char>, sep: char)
    requires
        is_ascii_chars(s),
    ensures
        forall|k: int| 0 <= k < split_on(s, sep).len() ==> is_ascii_chars(#[trigger] split_on(s, sep)[k]),
    decreases s.len(),
{
    if s.len() > 0 {
        let init = s.drop_last();
        assert forall|k: int| 0 <= k < init.len() implies '\0' <= #[trigger] init[k] <= '\u{7f}' by {
            assert(init[k] == s[k]);
        }
        lemma_split_ascii(init, sep);
        crate::text::lemma_split_on_len(init, sep);
        let parts = split_on(init, sep);
        assert('\0' <= s[s.len() - 1] <= '\u{7f}');
        if s.last() != sep {
            let grown = parts.last().push(s.last());
            assert(is_ascii_chars(parts[parts.len() - 1]));
            assert forall|i: int| 0 <= i < grown.len() implies '\0' <= #[trigger] grown[i] <= '\u{7f}' by {
                if i < parts.last().len() {
                    assert(grown[i] == parts[parts.len() - 1][i]);
                }
            }
            assert forall|k: int| 0 <= k < split_on(s, sep).len() implies is_ascii_chars(
                #[trigger] split_on(s, sep)[k],
            ) by {
                if k < parts.len() - 1 {
                    assert(split_on(s, sep)[k] == parts[k]);
                }
            }
        } else {
            assert forall|k: int| 0 <= k < split_on(s, sep).len() implies is_ascii_chars(
                #[trigger] split_on(s, sep)[k],
            ) by {
                if k < parts.len() {
                    assert(split_on(s, sep)[k] == parts[k]);
                } else {
                    assert(split_on(s, sep)[k] == Seq::<char>::empty());
                }
            }
        }
    }
}

/// A bracket read over characters without the byte 0xFF never overflows.
proof fn lemma_bracket_scan_no_overflow(p: Seq<char>, pos: int, st: BracketState)
    requires
        no_ff_byte(p),
        st.last matches Some(l) ==> low_byte(l) != 255,
    ensures
        bracket_scan(p, pos, st) != Err::<(int, BracketState), ParseFault>(ParseFault::RangeOverflow),
    decreases p.len() - pos,
{
    if 0 <= pos < p.len() && !(p[pos] == ']' && !st.doble) {
        let c = p[pos];
        assert(low_byte(p[pos]) != 255);
        if let Ok(st2) = bracket_read(st, c) {
            assert(st2.last matches Some(l) ==> low_byte(l) != 255);
            lemma_bracket_scan_no_overflow(p, pos + 1, st2);
        }
    }
}

/// A backslash takes the next character as a literal.
proof fn lemma_parse_escape(p: Seq<char>, pos: int, steps: Seq<StepView>)
    requires
        0 <= pos,
        pos + 1 < p.len(),
        p[pos] == '\\',
        is_ascii_chars(p),
    ensures
        parse_part(p, pos, steps) == parse_part(
            p,
            pos + 2,
            steps.push(single(ValView::Literal(p[pos + 1]))),
        ),
{
    assert('\0' <= p[pos + 1] <= '\u{7f}');
}

/// An ASCII alternative never overflows.
proof fn lemma_parse_part_no_overflow(p: Seq<char>, pos: int, steps: Seq<StepView>)
    requires
        is_ascii_chars(p),
    ensures
        parse_part(p, pos, steps) != Err::<Seq<StepView>, ParseFault>(ParseFault::RangeOverflow),
    decreases p.len() - pos,
{
    assert forall|k: int| 0 <= k < p.len() implies low_byte(#[trigger] p[k]) != 255 by {
        assert('\0' <= p[k] <= '\u{7f}');
        assert((p[k] as u32) < 128);
    }
    if 0 <= pos < p.len() {
        let c = p[pos];
        if c == '^' {
            lemma_parse_part_no_overflow(p, pos + 1, steps.push(single(ValView::Inicio)));
        } else if c == '$' {
            lemma_parse_part_no_overflow(p, pos + 1, steps.push(single(ValView::Fin)));
        } else if c == '.' {
            lemma_parse_part_no_overflow(p, pos + 1, steps.push(single(ValView::Wildcard)));
        } else if plain_char(c) {
            lemma_parse_part_no_overflow(p, pos + 1, steps.push(single(ValView::Literal(c))));
        } else if c == '+' || c == '*' || c == '?' {
            if steps.len() > 0 {
                let rep = if c == '+' {
                    RegexRep::Range { min: Some(1), max: None }
                } else if c == '*' {
                    RegexRep::Range { min: Some(0), max: None }
                } else {
                    RegexRep::Range { min: Some(0), max: Some(1) }
                };
                lemma_parse_part_no_overflow(p, pos + 1, set_last_rep(steps, rep));
            }
        } else if c == '\\' {
            if pos + 1 < p.len() {
                lemma_parse_escape(p, pos, steps);
                lemma_parse_part_no_overflow(
                    p,
                    pos + 2,
                    steps.push(single(ValView::Literal(p[pos + 1]))),
                );
            }
        } else if c == '{' {
            let close = brace_close(p, pos + 1);
            let next = if close < p.len() {
                close + 1
            } else {
                close
            };
            lemma_brace_close(p, pos + 1);
            if let Ok((min, max)) = brace_bounds(p.subrange(pos + 1, close)) {
                if steps.len() > 0 {
                    lemma_parse_part_no_overflow(
                        p,
                        next,
                        set_last_rep(steps, RegexRep::Range { min, max }),
                    );
                }
            }
        } else if c == '[' {
            lemma_bracket_scan_advances(p, pos + 1, bracket_start());
            lemma_bracket_scan_no_overflow(p, pos + 1, bracket_start());
            if let Ok((next, st)) = bracket_scan(p, pos + 1, bracket_start()) {
                lemma_parse_part_no_overflow(p, next, steps + bracket_steps(st));
            }
        }
    }
}

/// ASCII alternatives never overflow.
proof fn lemma_parse_parts_no_overflow(parts: Seq<Seq<char>>)
    requires
        forall|k: int| 0 <= k < parts.len() ==> is_ascii_chars(#[trigger] parts[k]),
    ensures
        parse_parts(parts) != Err::<Seq<Seq<StepView>>, ParseFault>(ParseFault::RangeOverflow),
    decreases parts.len(),
{
    if parts.len() > 0 {
        let init = parts.drop_last();
        assert forall|k: int| 0 <= k < init.len() implies is_ascii_chars(#[trigger] init[k]) by {
            assert(init[k] == parts[k]);
        }
        lemma_parse_parts_no_overflow(init);
        assert(is_ascii_chars(parts[parts.len() - 1]));
        lemma_parse_part_no_overflow(parts.last(), 0, Seq::empty());
    }
}

/// An ASCII pattern is never refused for a range overflow, so
/// `Regex::new` accepts it as an argument.
pub proof fn law_ascii_patterns_never_overflow(pattern: Seq<char>)
    requires
        is_ascii_chars(pattern),
    ensures
        parse_pattern(pattern) != Err::<Seq<Seq<StepView>>, ParseFault>(ParseFault::RangeOverflow),
{
    lemma_split_ascii(pattern, '|');
    lemma_parse_parts_no_overflow(split_on(pattern, '|'));
}

} // verus!
