use std::collections::VecDeque;

use vstd::prelude::*;
use vstd::string::StrSliceExecFns;
use vstd::utf8::is_ascii_chars;

use crate::evaluated_step::{evals_view, EvalView, EvaluatedStep};
use crate::machine::{
    any_scan, back_entries, range_turn, exact_scan, initial_state, iterate, last_backtrackeable,
    lemma_exact_scan, lemma_iterate_progress, lemma_last_backtrackeable, lemma_match_len_ascii,
    lemma_range_scan, lemma_sizes_sum_concat, lemma_undo_sizes, loops_left, machine_wf, no_any,
    pattern_accepts, range_scan, requeued, run, scan_from, sizes_sum, steps_accept, undo_cut,
    undo_queue, undo_size, undo_stack, MachineState, StartOutcome, Turn,
};
use crate::regex_rep::RegexRep;
use crate::regex_step::{steps_view, RegexStep, StepView};
use crate::pattern::{
    brace_bounds, brace_close, bracket_scan, bracket_start, byte_span, fault_message,
    lemma_brace_close, low_byte, parse_part, parse_parts, parse_pattern, plain_char,
    set_last_rep, single, BracketState, ParseFault,
};
use crate::regex_val::{RegexVal, ValView};
use crate::text::{chars_of, parse_usize, push_char, split_chars, split_on};

verus! {

broadcast use vstd::string::is_ascii_spec_bytes;

/// A regular expression: a list of alternatives, each a sequence of steps.
#[derive(Debug)]
pub struct Regex {
    steps: Vec<RegexStep>,
    sub_regex: Vec<Regex>,
}

impl View for Regex {
    type V = Seq<Seq<StepView>>;

    /// The alternatives: the steps of each sub-expression, or the own steps
    /// of an expression without sub-expressions.
    closed spec fn view(&self) -> Seq<Seq<StepView>> {
        if self.sub_regex@.len() == 0 {
            seq![steps_view(self.steps@)]
        } else {
            Seq::new(self.sub_regex@.len(), |k: int| steps_view(self.sub_regex@[k].steps@))
        }
    }
}

/// The machine state held by the variables of a run.
spec fn state_of(
    queue: Seq<RegexStep>,
    stack: Seq<EvaluatedStep>,
    index: usize,
    retries: usize,
) -> MachineState {
    MachineState {
        queue: steps_view(queue),
        stack: evals_view(stack),
        index: index as int,
        retries: retries as int,
    }
}

impl Regex {
    /// Number of sub-expressions.
    pub closed spec fn branches(&self) -> nat {
        self.sub_regex@.len()
    }

    /// Expressions nest one level at most, and no step repeats with `RegexRep::Any`.
    #[verifier::type_invariant]
    spec fn well_formed(self) -> bool {
        &&& no_any(steps_view(self.steps@))
        &&& forall|k: int|
            0 <= k < self.sub_regex@.len() ==> (#[trigger] self.sub_regex@[k]).sub_regex@.len()
                == 0 && no_any(steps_view(self.sub_regex@[k].steps@))
    }

    /// Between `min` and `max` repetitions of `step` from `*index`, greedy:
    /// every repetition pushes its own backtrackeable entry. Too few
    /// repetitions undo evaluated steps and count a retry. Returns how the
    /// run stops, or `None` when it goes on.
    fn manejar_range(
        &self,
        step: RegexStep,
        min: Option<usize>,
        max: Option<usize>,
        value: &str,
        index: &mut usize,
        stack: &mut Vec<EvaluatedStep>,
        queue: &mut VecDeque<RegexStep>,
        backtrack_count: &mut usize,
    ) -> (r: Option<StartOutcome>)
        requires
            value.is_ascii(),
            *old(index) <= value@.len(),
            *old(backtrack_count) <= value@.len(),
            sizes_sum(evals_view(old(stack)@)) <= *old(index),
        ensures
            range_turn(
                value@,
                state_of(old(queue)@, old(stack)@, *old(index), *old(backtrack_count)),
                step@,
                steps_view(old(queue)@),
                min,
                max,
            ) == match r {
                None => Turn::Continue(
                    state_of(final(queue)@, final(stack)@, *final(index), *final(backtrack_count)),
                ),
                Some(o) => Turn::Stop(o),
            },
    {
        let len = value.as_bytes().len();
        proof {
            vstd::string::is_ascii_spec_bytes(value);
        }
        let ghost val = step.val@;
        let ghost i0 = *index as int;
        let ghost s0 = evals_view(stack@);
        let ghost target = range_scan(val, value@, i0, 0, max, s0, step@);
        proof {
            lemma_range_scan(val, value@, i0, 0, max, s0, step@);
        }
        let mut match_size: usize = 0;
        let mut keep_matching = true;
        while keep_matching
            invariant_except_break
                keep_matching ==> range_scan(
                    val,
                    value@,
                    *index as int,
                    match_size as nat,
                    max,
                    evals_view(stack@),
                    step@,
                ) == target,
                !keep_matching ==> target == (*index as int, match_size as nat, evals_view(stack@)),
            invariant
                len == value@.len(),
                value.is_ascii(),
                val == step.val@,
                i0 == *old(index),
                0 <= i0 <= *index <= len,
                *index == i0 + match_size,
                queue@ == old(queue)@,
                *backtrack_count == *old(backtrack_count),
            ensures
                target == (*index as int, match_size as nat, evals_view(stack@)),
            decreases len - *index + if keep_matching {
                1int
            } else {
                0int
            },
        {
            let rest = value.substring_ascii(*index, len);
            assert(rest@ =~= value@.skip(*index as int));
            let size = step.val.matches(rest);
            proof {
                lemma_match_len_ascii(val, value@, *index as int);
            }
            let ghost before = evals_view(stack@);
            if size != 0 {
                match_size += size;
                *index += size;
                stack.push(EvaluatedStep { step: step.clone(), match_size: size, backtrackeable: true });
                assert(evals_view(stack@) =~= before.push(
                    EvalView { step: step@, match_size: size as nat, backtrackeable: true },
                ));
            } else {
                keep_matching = false;
            }
            if let Some(max) = max {
                if match_size >= max {
                    break;
                }
            }
        }
        if let Some(min) = min {
            if match_size < min {
                proof {
                    lemma_undo_sizes(evals_view(stack@));
                }
                match backtrack(step, stack, queue) {
                    Some(back_size) => {
                        *index -= back_size;
                        if *backtrack_count >= len {
                            return Some(StartOutcome::Abort);
                        }
                        *backtrack_count += 1;
                    },
                    None => {
                        return Some(StartOutcome::Next(false));
                    },
                }
            }
        }
        None
    }

    /// `n` repetitions of `step` from `*index`. On success the step is pushed
    /// as a fixed (not backtrackeable) entry; on failure evaluated steps are undone.
    fn manejar_exact(
        &self,
        step: &RegexStep,
        n: usize,
        value: &str,
        index: &mut usize,
        stack: &mut Vec<EvaluatedStep>,
        queue: &mut VecDeque<RegexStep>,
    ) -> (r: Option<usize>)
        requires
            value.is_ascii(),
            *old(index) <= value@.len(),
            sizes_sum(evals_view(old(stack)@)) <= *old(index),
        ensures
            ({
                let (ok, j) = exact_scan(step.val@, value@, *old(index) as int, n as nat);
                let s0 = evals_view(old(stack)@);
                let q0 = steps_view(old(queue)@);
                if ok {
                    &&& r == Some(*final(index))
                    &&& *final(index) == j
                    &&& evals_view(final(stack)@) == s0.push(
                        EvalView {
                            step: step@,
                            match_size: (j - *old(index)) as nat,
                            backtrackeable: false,
                        },
                    )
                    &&& steps_view(final(queue)@) == q0
                } else {
                    &&& evals_view(final(stack)@) == undo_stack(s0)
                    &&& steps_view(final(queue)@) == undo_queue(s0, step@, q0)
                    &&& match last_backtrackeable(s0) {
                        Some(_) => r == Some(*final(index)) && *final(index) == j - undo_size(s0),
                        None => r is None && *final(index) == j,
                    }
                }
            }),
            r is Some ==> sizes_sum(evals_view(final(stack)@)) <= *final(index) <= value@.len(),
            n == 1 && r is Some ==> *final(index) - sizes_sum(evals_view(final(stack)@)) == *old(
                index,
            ) - sizes_sum(evals_view(old(stack)@)),
    {
        let ghost i0 = *index as int;
        let ghost val = step.val@;
        let len = value.as_bytes().len();
        proof {
            vstd::string::is_ascii_spec_bytes(value);
        }
        let mut match_size: usize = 0;
        let mut k: usize = 0;
        proof {
            lemma_exact_scan(val, value@, i0, n as nat);
        }
        while k < n
            invariant
                len == value@.len(),
                value.is_ascii(),
                val == step.val@,
                i0 == *old(index),
                k <= n,
                i0 <= *index <= len,
                *index == i0 + match_size,
                k == 0 ==> *index == i0,
                exact_scan(val, value@, i0, n as nat) == exact_scan(
                    val,
                    value@,
                    *index as int,
                    (n - k) as nat,
                ),
                stack@ == old(stack)@,
                queue@ == old(queue)@,
                sizes_sum(evals_view(stack@)) <= i0,
            decreases n - k,
        {
            let rest = value.substring_ascii(*index, len);
            assert(rest@ =~= value@.skip(*index as int));
            let size = step.val.matches(rest);
            proof {
                lemma_match_len_ascii(val, value@, *index as int);
            }
            if size == 0 {
                proof {
                    lemma_undo_sizes(evals_view(stack@));
                    assert(exact_scan(val, value@, *index as int, (n - k) as nat) == (
                        false,
                        *index as int,
                    ));
                }
                let ghost s0 = evals_view(stack@);
                match backtrack(step.clone(), stack, queue) {
                    Some(back_size) => {
                        *index -= back_size;
                        assert(sizes_sum(evals_view(stack@)) + back_size == sizes_sum(s0));
                        assert(n == 1 ==> k == 0);
                        return Some(*index);
                    },
                    None => return None,
                }
            } else {
                match_size += size;
                *index += size;
            }
            k += 1;
        }
        stack.push(EvaluatedStep { step: step.clone(), match_size, backtrackeable: false });
        proof {
            assert(evals_view(stack@) =~= evals_view(old(stack)@).push(
                EvalView { step: step@, match_size: match_size as nat, backtrackeable: false },
            ));
            assert(evals_view(stack@).drop_last() =~= evals_view(old(stack)@));
            assert(sizes_sum(evals_view(stack@)) == sizes_sum(evals_view(old(stack)@))
                + match_size);
        }
        Some(*index)
    }

    /// As many repetitions of `step` as possible; every one pushes a
    /// backtrackeable entry holding the total consumed so far.
    fn manejar_any(
        &self,
        step: &RegexStep,
        value: &str,
        index: &mut usize,
        stack: &mut Vec<EvaluatedStep>,
    ) -> (r: Option<usize>)
        requires
            value.is_ascii(),
            *old(index) <= value@.len(),
        ensures
            ({
                let (j, s) = any_scan(
                    step.val@,
                    value@,
                    *old(index) as int,
                    0,
                    evals_view(old(stack)@),
                    step@,
                );
                &&& r == Some(*final(index))
                &&& *final(index) == j
                &&& evals_view(final(stack)@) == s
            }),
    {
        let ghost i0 = *index as int;
        let ghost val = step.val@;
        let ghost target = any_scan(val, value@, i0, 0, evals_view(stack@), step@);
        let len = value.as_bytes().len();
        proof {
            vstd::string::is_ascii_spec_bytes(value);
        }
        let mut match_size: usize = 0;
        let mut keep_matching = true;
        while keep_matching
            invariant
                len == value@.len(),
                value.is_ascii(),
                val == step.val@,
                i0 == *old(index),
                i0 <= *index <= len,
                *index == i0 + match_size,
                keep_matching ==> any_scan(
                    val,
                    value@,
                    *index as int,
                    match_size as nat,
                    evals_view(stack@),
                    step@,
                ) == target,
                !keep_matching ==> target == (*index as int, evals_view(stack@)),
            decreases len - *index + if keep_matching {
                1int
            } else {
                0int
            },
        {
            let rest = value.substring_ascii(*index, len);
            assert(rest@ =~= value@.skip(*index as int));
            let size = step.val.matches(rest);
            proof {
                lemma_match_len_ascii(val, value@, *index as int);
            }
            if size != 0 {
                let ghost before = evals_view(stack@);
                match_size += size;
                *index += size;
                stack.push(EvaluatedStep { step: step.clone(), match_size, backtrackeable: true });
                assert(evals_view(stack@) =~= before.push(
                    EvalView { step: step@, match_size: match_size as nat, backtrackeable: true },
                ));
            } else {
                keep_matching = false;
            }
        }
        Some(*index)
    }
}

impl Regex {
    /// Whether some part of the line `value` matches the expression. A line
    /// that is not ASCII is refused with an error.
    pub fn test(&self, value: &str) -> (res: Result<bool, &str>)
        ensures
            value.is_ascii() ==> res == Ok::<bool, &str>(pattern_accepts(self@, value@)),
            !value.is_ascii() ==> (res matches Err(m) && m@ == "El valor no es ASCII"@),
        decreases self.branches(),
    {
        proof {
            use_type_invariant(self);
        }
        if !value.is_ascii() {
            return Err("El valor no es ASCII");
        }
        let mut found_match = false;

        if self.sub_regex.len() == 0 {
            let ghost steps = steps_view(self.steps@);
            let len = value.as_bytes().len();
            proof {
                vstd::string::is_ascii_spec_bytes(value);
            }
            let mut start: usize = 0;
            while start < len
                invariant
                    len == value@.len(),
                    value.is_ascii(),
                    start <= len,
                    steps == steps_view(self.steps@),
                    no_any(steps),
                    self.sub_regex@.len() == 0,
                    scan_from(steps, value@, start as int, found_match) == steps_accept(
                        steps,
                        value@,
                    ),
                decreases len - start,
            {
                let mut queue: VecDeque<RegexStep> = VecDeque::new();
                let mut k: usize = 0;
                while k < self.steps.len()
                    invariant
                        k <= self.steps@.len(),
                        steps == steps_view(self.steps@),
                        steps_view(queue@) == steps.take(k as int),
                    decreases self.steps@.len() - k,
                {
                    let ghost before = queue@;
                    let item = self.steps[k].clone();
                    assert(item@ == steps[k as int]);
                    queue.push_back(item);
                    assert(queue@ == before.push(item));
                    assert(steps_view(queue@) =~= steps_view(before).push(item@));
                    assert(steps.take(k + 1) =~= steps.take(k as int).push(steps[k as int]));
                    k += 1;
                }
                assert(steps.take(k as int) =~= steps);
                let mut stack: Vec<EvaluatedStep> = Vec::new();
                let mut index = start;
                let mut backtrack_count: usize = 0;
                let ghost init = initial_state(steps, start as int);
                assert(state_of(queue@, stack@, index, backtrack_count) == init) by {
                    assert(evals_view(stack@) =~= Seq::<EvalView>::empty());
                }
                let mut outcome = StartOutcome::Matched;

                loop
                    invariant_except_break
                        machine_wf(value@, state_of(queue@, stack@, index, backtrack_count)),
                        run(value@, state_of(queue@, stack@, index, backtrack_count)) == run(
                            value@,
                            init,
                        ),
                    invariant
                        len == value@.len(),
                        value.is_ascii(),
                    ensures
                        outcome == run(value@, init),
                    decreases
                            loops_left(value@, state_of(queue@, stack@, index, backtrack_count)),
                            back_entries(evals_view(stack@)),
                            queue@.len(),
                {
                    let ghost st = state_of(queue@, stack@, index, backtrack_count);
                    proof {
                        lemma_iterate_progress(value@, st);
                    }
                    let step = match queue.pop_front() {
                        Some(step) => step,
                        None => {
                            outcome = StartOutcome::Matched;
                            break;
                        },
                    };
                    let ghost rest = steps_view(queue@);
                    assert(rest =~= st.queue.drop_first());
                    match &step.val {
                        RegexVal::Inicio => {
                            if index != 0 {
                                outcome = if queue.len() == 0 {
                                    StartOutcome::Matched
                                } else {
                                    StartOutcome::Next(false)
                                };
                                break;
                            }
                        },
                        RegexVal::Fin => {
                            if index == len {
                                outcome = StartOutcome::Next(true);
                                break;
                            } else if queue.len() == 0 {
                                outcome = StartOutcome::Next(false);
                                break;
                            }
                        },
                        _ => {
                            match step.rep {
                                RegexRep::Exact(n) => {
                                    if self.manejar_exact(
                                        &step,
                                        n,
                                        value,
                                        &mut index,
                                        &mut stack,
                                        &mut queue,
                                    ).is_none() {
                                        outcome = if queue.len() == 0 {
                                            StartOutcome::Matched
                                        } else {
                                            StartOutcome::Next(false)
                                        };
                                        break;
                                    }
                                },
                                RegexRep::Any => {
                                    if self.manejar_any(&step, value, &mut index, &mut stack).is_none() {
                                        outcome = if queue.len() == 0 {
                                            StartOutcome::Matched
                                        } else {
                                            StartOutcome::Next(false)
                                        };
                                        break;
                                    }
                                },
                                RegexRep::Range { min, max } => {
                                    if let Some(o) = self.manejar_range(
                                        step,
                                        min,
                                        max,
                                        value,
                                        &mut index,
                                        &mut stack,
                                        &mut queue,
                                        &mut backtrack_count,
                                    ) {
                                        outcome = o;
                                        break;
                                    }
                                },
                            }
                        },
                    }
                    proof {
                        assert(iterate(value@, st) == Turn::Continue(
                            state_of(queue@, stack@, index, backtrack_count),
                        ));
                    }
                }
                proof {
                    assert(self@ =~= seq![steps]);
                }
                match outcome {
                    StartOutcome::Matched => {
                        assert(steps_accept(self@[0], value@));
                        return Ok(true);
                    },
                    StartOutcome::Abort => {
                        return Ok(false);
                    },
                    StartOutcome::Next(found) => {
                        if found {
                            found_match = true;
                        }
                    },
                }
                start += 1;
            }
            proof {
                assert(scan_from(steps, value@, start as int, found_match) == found_match);
                assert(self@ =~= seq![steps]);
                if found_match {
                    assert(steps_accept(self@[0], value@));
                } else {
                    assert(!steps_accept(self@[0], value@));
                }
            }
        } else {
            let mut k: usize = 0;
            while k < self.sub_regex.len()
                invariant
                    value.is_ascii(),
                    k <= self.sub_regex@.len(),
                    self.sub_regex@.len() > 0,
                    forall|j: int| 0 <= j < k ==> !steps_accept(#[trigger] self@[j], value@),
                    !found_match,
                decreases self.sub_regex@.len() - k,
            {
                proof {
                    use_type_invariant(self);
                    assert(self.sub_regex@[k as int].branches() == 0);
                }
                if self.sub_regex[k].test(value)? {
                    proof {
                        let sub = self.sub_regex@[k as int];
                        assert(sub@ =~= seq![steps_view(sub.steps@)]);
                        let w = choose|j: int| 0 <= j < sub@.len() && steps_accept(sub@[j], value@);
                        assert(w == 0);
                        assert(steps_accept(self@[k as int], value@));
                    }
                    return Ok(true);
                }
                proof {
                    let sub = self.sub_regex@[k as int];
                    assert(sub@ =~= seq![steps_view(sub.steps@)]);
                    assert(!steps_accept(sub@[0], value@));
                }
                k += 1;
            }
        }
        proof {
            if self.sub_regex@.len() == 0 {
                assert(self@ =~= seq![steps_view(self.steps@)]);
            } else {
                assert(self@.len() == self.sub_regex@.len());
            }
        }
        if found_match {
            Ok(true)
        } else {
            Ok(false)
        }
    }
}


impl Regex {
    /// Decides one line of a search: keeps `line` at the end of `kept` when
    /// the expression matches it. A line that is not ASCII is left out and
    /// its error is returned, for the caller to report.
    pub fn keep_if_matches(&self, line: String, kept: &mut Vec<String>) -> (r: Result<(), &str>)
        ensures
            is_ascii_chars(line@) ==> r is Ok && final(kept)@ == if pattern_accepts(
                self@,
                line@,
            ) {
                old(kept)@.push(line)
            } else {
                old(kept)@
            },
            !is_ascii_chars(line@) ==> (r matches Err(m) && m@ == "El valor no es ASCII"@)
                && final(kept)@ == old(kept)@,
    {
        match self.test(line.as_str()) {
            Ok(result) => {
                if result {
                    kept.push(line);
                }
                Ok(())
            },
            Err(err) => Err(err),
        }
    }
}

impl Regex {
    /// Reads the bounds written inside braces: `n` (at least `n`), `n,`,
    /// `,m` or `n,m`.
    pub fn contenido_llaves(content: &str) -> (r: Result<(Option<usize>, Option<usize>), &'static str>)
        ensures
            match brace_bounds(content@) {
                Ok(b) => r == Ok::<(Option<usize>, Option<usize>), &'static str>(b),
                Err(f) => r matches Err(m) && m@ == fault_message(f),
            },
    {
        match bounds_of(&chars_of(content)) {
            Ok(bounds) => Ok(bounds),
            Err(f) => Err(fault_text(f)),
        }
    }

    /// Builds the expression written by `expression`: alternatives separated
    /// by `|`, each a sequence of literals (letters, digits, space, `\x`),
    /// `.`, `^`, `$`, bracket lists with ranges and `[:class:]` names, each
    /// optionally followed by `+`, `*`, `?` or `{..}`.
    pub fn new(expression: &str) -> (res: Result<Self, &str>)
        requires
            parse_pattern(expression@) != Err::<Seq<Seq<StepView>>, ParseFault>(
                ParseFault::RangeOverflow,
            ),
        ensures
            match parse_pattern(expression@) {
                Ok(alts) => res matches Ok(r) && r@ == alts,
                Err(f) => res matches Err(m) && m@ == fault_message(f),
            },
    {
        match parse_alternatives(expression) {
            Ok(all_parts) => {
                let r = Regex { steps: Vec::new(), sub_regex: all_parts };
                assert(r@ =~= Seq::new(
                    r.sub_regex@.len(),
                    |j: int| steps_view(r.sub_regex@[j].steps@),
                ));
                Ok(r)
            },
            Err(f) => Err(fault_text(f)),
        }
    }

    /// Whether building the expression written by `expression` would
    /// overflow: a bracket range starting at a character whose low byte is
    /// 0xFF, reached before any fault.
    pub fn range_overflows(expression: &str) -> (b: bool)
        ensures
            b == (parse_pattern(expression@) == Err::<Seq<Seq<StepView>>, ParseFault>(
                ParseFault::RangeOverflow,
            )),
    {
        match parse_alternatives(expression) {
            Ok(_) => false,
            Err(f) => match f {
                ParseFault::RangeOverflow => true,
                _ => false,
            },
        }
    }
}

/// The alternatives of `expression`, each built as an expression without
/// sub-expressions, or the first fault met.
fn parse_alternatives(expression: &str) -> (r: Result<Vec<Regex>, ParseFault>)
    ensures
        match parse_pattern(expression@) {
            Ok(alts) => r matches Ok(v) && v@.len() == alts.len() && alts.len() >= 1 && (forall|j: int|
                0 <= j < alts.len() ==> steps_view((#[trigger] v@[j]).steps@) == alts[j]
                    && v@[j].sub_regex@.len() == 0 && no_any(alts[j])),
            Err(f) => r == Err::<Vec<Regex>, ParseFault>(f),
        },
{
    let expr_chars = chars_of(expression);
    let parts = split_chars(&expr_chars, '|');
    let ghost pv = parts@.map_values(|v: Vec<char>| v@);
    proof {
        crate::text::lemma_split_on_len(expression@, '|');
    }
    let mut all_parts: Vec<Regex> = Vec::new();
    let mut k: usize = 0;
    assert(pv.take(0) =~= Seq::<Seq<char>>::empty());
    assert(Seq::new(0, |j: int| steps_view(all_parts@[j].steps@)) =~= Seq::<Seq<StepView>>::empty());
    while k < parts.len()
        invariant
            pv == parts@.map_values(|v: Vec<char>| v@),
            pv == split_on(expression@, '|'),
            k <= parts@.len(),
            all_parts@.len() == k,
            parse_parts(pv.take(k as int)) == Ok::<Seq<Seq<StepView>>, ParseFault>(
                Seq::new(k as nat, |j: int| steps_view(all_parts@[j].steps@)),
            ),
            forall|j: int|
                0 <= j < k ==> (#[trigger] all_parts@[j]).sub_regex@.len() == 0 && no_any(
                    steps_view(all_parts@[j].steps@),
                ),
        decreases parts@.len() - k,
    {
        let part = &parts[k];
        let ghost pk = part@;
        assert(pk == pv[k as int]);
        assert(pv.take(k + 1).drop_last() =~= pv.take(k as int));
        let steps = match parse_alternative(part) {
            Ok(steps) => steps,
            Err(f) => {
                proof {
                    lemma_parse_parts_keeps_fault(pv, k + 1);
                }
                return Err(f);
            },
        };
        let ghost done = Seq::new(k as nat, |j: int| steps_view(all_parts@[j].steps@));
        all_parts.push(Regex { steps, sub_regex: Vec::new() });
        k += 1;
        assert(Seq::new(k as nat, |j: int| steps_view(all_parts@[j].steps@)) =~= done.push(
            steps_view(all_parts@[k - 1].steps@),
        ));
    }
    assert(pv.take(k as int) =~= pv);
    Ok(all_parts)
}

/// The bounds written inside braces, or why they are refused.
fn bounds_of(content: &Vec<char>) -> (r: Result<(Option<usize>, Option<usize>), ParseFault>)
    ensures
        r == brace_bounds(content@),
{
    let parts = split_chars(content, ',');
    let ghost pv = parts@.map_values(|v: Vec<char>| v@);
    assert(pv.len() == parts@.len());
    if parts.len() == 1 {
        assert(pv[0] == parts@[0]@);
        match parse_usize(&parts[0]) {
            Some(n) => Ok((Some(n), None)),
            None => Err(ParseFault::BraceNumber),
        }
    } else if parts.len() == 2 {
        assert(pv[0] == parts@[0]@);
        assert(pv[1] == parts@[1]@);
        let min = if parts[0].len() == 0 {
            None
        } else {
            match parse_usize(&parts[0]) {
                Some(n) => Some(n),
                None => {
                    return Err(ParseFault::BraceMin);
                },
            }
        };
        let max = if parts[1].len() == 0 {
            None
        } else {
            match parse_usize(&parts[1]) {
                Some(n) => Some(n),
                None => {
                    return Err(ParseFault::BraceMax);
                },
            }
        };
        if let (Some(min_val), Some(max_val)) = (min, max) {
            if min_val > max_val {
                return Err(ParseFault::BraceOrder);
            }
        }
        Ok((min, max))
    } else {
        Err(ParseFault::BraceFormat)
    }
}

/// The message given for a fault.
fn fault_text(f: ParseFault) -> (m: &'static str)
    ensures
        m@ == fault_message(f),
{
    match f {
        ParseFault::CaretNotAtStart => "El caracter '^' no está al inicio de la regex",
        ParseFault::DollarNotAtEnd => "El caracter '$' no está al final de la regex",
        ParseFault::UnexpectedChar => "Se encontró un caracter insesperado",
        ParseFault::PlusWithoutTarget => "Se encontró un caracter '+' insesperado",
        ParseFault::StarWithoutTarget => "Se encontró un caracter '*' insesperado",
        ParseFault::QuestionWithoutTarget => "Se encontró un caracter '?' insesperado",
        ParseFault::TrailingBackslash => "Se encontró un caracter '\\' insesperado",
        ParseFault::BraceNumber => "No se pudo parsear el número",
        ParseFault::BraceMin => "No se pudo parsear el número mínimo",
        ParseFault::BraceMax => "No se pudo parsear el número máximo",
        ParseFault::BraceOrder => "El rango mínimo no puede ser mayor al rango máximo",
        ParseFault::BraceFormat => "Formato de llaves inválido",
        ParseFault::BraceWithoutTarget => "Se encontró un caracter '{' insesperado",
        ParseFault::RangeOverflow => "",
    }
}

/// Reads one alternative of a pattern into its steps.
fn parse_alternative(part: &Vec<char>) -> (r: Result<Vec<RegexStep>, ParseFault>)
    ensures
        match parse_part(part@, 0, Seq::empty()) {
            Ok(steps) => r matches Ok(v) && steps_view(v@) == steps && no_any(steps),
            Err(f) => r == Err::<Vec<RegexStep>, ParseFault>(f),
        },
{
    let ghost pk = part@;
    let mut steps: Vec<RegexStep> = Vec::new();
    let mut pos: usize = 0;
    assert(steps_view(steps@) =~= Seq::<StepView>::empty());
    while pos < part.len()
        invariant
            pk == part@,
            pos <= part@.len(),
            parse_part(pk, pos as int, steps_view(steps@)) == parse_part(
                pk,
                0,
                Seq::empty(),
            ),
            no_any(steps_view(steps@)),
        decreases part@.len() - pos,
    {
        let c = part[pos];
        let ghost at = pos as int;
        let ghost before = steps_view(steps@);
        pos += 1;
        let step = match c {
            '^' => {
                if steps.len() == 0 {
                    evaluar_inicio_linea()
                } else {
                    return Err(ParseFault::CaretNotAtStart);
                }
            },
            '$' => {
                if pos >= part.len() {
                    evaluar_fin_linea()
                } else {
                    return Err(ParseFault::DollarNotAtEnd);
                }
            },
            '.' => evaluar_period(),
            '+' => evaluar_mas(&mut steps)?,
            '*' => evaluar_asterisco(&mut steps)?,
            '?' => evaluar_interrogacion(&mut steps)?,
            '\\' => evaluar_backslash(part, &mut pos)?,
            '{' => {
                proof {
                    lemma_brace_close(pk, at + 1);
                }
                evaluar_llaves(part, &mut pos, &mut steps)?
            },
            '[' => {
                proof {
                    crate::pattern::lemma_bracket_scan_advances(pk, at + 1, bracket_start());
                }
                evaluar_corchete(part, &mut pos, &mut steps)?
            },
            _ => {
                if is_plain_char(c) {
                    evaluar_literal(c)
                } else {
                    return Err(ParseFault::UnexpectedChar);
                }
            },
        };
        if let Some(p) = step {
            let ghost mid = steps_view(steps@);
            let ghost added = p@;
            steps.push(p);
            assert(steps_view(steps@) =~= mid.push(added));
        }
        proof {
            assert(parse_part(pk, at, before) == parse_part(
                pk,
                pos as int,
                steps_view(steps@),
            ));
        }
    }
    proof {
        assert(parse_part(pk, pos as int, steps_view(steps@)) == Ok::<
            Seq<StepView>,
            ParseFault,
        >(steps_view(steps@)));
    }
    Ok(steps)
}

/// Once an alternative is refused, the whole pattern is refused for the same reason.
proof fn lemma_parse_parts_keeps_fault(parts: Seq<Seq<char>>, k: int)
    requires
        0 <= k <= parts.len(),
        parse_parts(parts.take(k)) is Err,
    ensures
        parse_parts(parts) == parse_parts(parts.take(k)),
    decreases parts.len() - k,
{
    if k < parts.len() {
        assert(parts.take(k + 1).drop_last() =~= parts.take(k));
        lemma_parse_parts_keeps_fault(parts, k + 1);
    } else {
        assert(parts.take(k) =~= parts);
    }
}

/// Letters, digits and the space stand for themselves.
fn is_plain_char(c: char) -> (b: bool)
    ensures
        b == plain_char(c),
{
    ('a' <= c && c <= 'z') || ('A' <= c && c <= 'Z') || ('0' <= c && c <= '9') || c == ' '
}

/// The step for the start of line `^`.
fn evaluar_inicio_linea() -> (r: Option<RegexStep>)
    ensures
        r matches Some(s) && s@ == single(ValView::Inicio),
{
    Some(RegexStep { rep: RegexRep::Exact(1), val: RegexVal::Inicio })
}

/// The step for the end of line `$`.
fn evaluar_fin_linea() -> (r: Option<RegexStep>)
    ensures
        r matches Some(s) && s@ == single(ValView::Fin),
{
    Some(RegexStep { rep: RegexRep::Exact(1), val: RegexVal::Fin })
}

/// The step for the wildcard `.`.
fn evaluar_period() -> (r: Option<RegexStep>)
    ensures
        r matches Some(s) && s@ == single(ValView::Wildcard),
{
    Some(RegexStep { rep: RegexRep::Exact(1), val: RegexVal::Wildcard })
}

/// The step for a literal character.
fn evaluar_literal(c: char) -> (r: Option<RegexStep>)
    ensures
        r matches Some(s) && s@ == single(ValView::Literal(c)),
{
    Some(RegexStep { rep: RegexRep::Exact(1), val: RegexVal::Literal(c) })
}

/// Gives the last step the repetition `rep`; `Err(message)` when there is no step.
fn repeat_last(steps: &mut Vec<RegexStep>, rep: RegexRep, fault: ParseFault) -> (r: Result<
    Option<RegexStep>,
    ParseFault,
>)
    ensures
        old(steps)@.len() > 0 ==> r == Ok::<Option<RegexStep>, ParseFault>(None) && steps_view(
            final(steps)@,
        ) == set_last_rep(steps_view(old(steps)@), rep),
        old(steps)@.len() == 0 ==> r == Err::<Option<RegexStep>, ParseFault>(fault)
            && final(steps)@ == old(steps)@,
{
    let n = steps.len();
    if n > 0 {
        steps[n - 1].rep = rep;
        assert(steps_view(steps@) =~= set_last_rep(steps_view(old(steps)@), rep));
        Ok(None)
    } else {
        Err(fault)
    }
}

/// `+`: the last step repeats one or more times.
fn evaluar_mas(steps: &mut Vec<RegexStep>) -> (r: Result<Option<RegexStep>, ParseFault>)
    ensures
        old(steps)@.len() > 0 ==> r == Ok::<Option<RegexStep>, ParseFault>(None) && steps_view(
            final(steps)@,
        ) == set_last_rep(steps_view(old(steps)@), RegexRep::Range { min: Some(1), max: None }),
        old(steps)@.len() == 0 ==> r == Err::<Option<RegexStep>, ParseFault>(
            ParseFault::PlusWithoutTarget,
        ) && final(steps)@ == old(steps)@,
{
    repeat_last(
        steps,
        RegexRep::Range { min: Some(1), max: None },
        ParseFault::PlusWithoutTarget,
    )
}

/// `*`: the last step repeats zero or more times.
fn evaluar_asterisco(steps: &mut Vec<RegexStep>) -> (r: Result<Option<RegexStep>, ParseFault>)
    ensures
        old(steps)@.len() > 0 ==> r == Ok::<Option<RegexStep>, ParseFault>(None) && steps_view(
            final(steps)@,
        ) == set_last_rep(steps_view(old(steps)@), RegexRep::Range { min: Some(0), max: None }),
        old(steps)@.len() == 0 ==> r == Err::<Option<RegexStep>, ParseFault>(
            ParseFault::StarWithoutTarget,
        ) && final(steps)@ == old(steps)@,
{
    repeat_last(
        steps,
        RegexRep::Range { min: Some(0), max: None },
        ParseFault::StarWithoutTarget,
    )
}

/// `?`: the last step is optional.
fn evaluar_interrogacion(steps: &mut Vec<RegexStep>) -> (r: Result<Option<RegexStep>, ParseFault>)
    ensures
        old(steps)@.len() > 0 ==> r == Ok::<Option<RegexStep>, ParseFault>(None) && steps_view(
            final(steps)@,
        ) == set_last_rep(steps_view(old(steps)@), RegexRep::Range { min: Some(0), max: Some(1) }),
        old(steps)@.len() == 0 ==> r == Err::<Option<RegexStep>, ParseFault>(
            ParseFault::QuestionWithoutTarget,
        ) && final(steps)@ == old(steps)@,
{
    repeat_last(
        steps,
        RegexRep::Range { min: Some(0), max: Some(1) },
        ParseFault::QuestionWithoutTarget,
    )
}

/// `\x`: the next character taken literally.
fn evaluar_backslash(chars_iter: &Vec<char>, pos: &mut usize) -> (r: Result<
    Option<RegexStep>,
    ParseFault,
>)
    requires
        *old(pos) <= chars_iter@.len(),
    ensures
        *old(pos) < chars_iter@.len() ==> *final(pos) == *old(pos) + 1 && (r matches Ok(Some(s))
            && s@ == single(ValView::Literal(chars_iter@[*old(pos) as int]))),
        *old(pos) == chars_iter@.len() ==> r == Err::<Option<RegexStep>, ParseFault>(
            ParseFault::TrailingBackslash,
        ),
{
    if *pos < chars_iter.len() {
        let literal = chars_iter[*pos];
        *pos += 1;
        Ok(Some(RegexStep { rep: RegexRep::Exact(1), val: RegexVal::Literal(literal) }))
    } else {
        Err(ParseFault::TrailingBackslash)
    }
}


/// `{..}`: reads up to the closing `}` and gives the last step the bounds written there.
fn evaluar_llaves(chars_iter: &Vec<char>, pos: &mut usize, steps: &mut Vec<RegexStep>) -> (r:
    Result<Option<RegexStep>, ParseFault>)
    requires
        *old(pos) <= chars_iter@.len(),
    ensures
        ({
            let p = chars_iter@;
            let close = brace_close(p, *old(pos) as int);
            let next = if close < p.len() {
                close + 1
            } else {
                close
            };
            &&& *final(pos) == next
            &&& match brace_bounds(p.subrange(*old(pos) as int, close)) {
                Err(f) => r == Err::<Option<RegexStep>, ParseFault>(f) && final(steps)@ == old(
                    steps,
                )@,
                Ok((min, max)) => if old(steps)@.len() == 0 {
                    &&& r == Err::<Option<RegexStep>, ParseFault>(ParseFault::BraceWithoutTarget)
                    &&& final(steps)@ == old(steps)@
                } else {
                    &&& r == Ok::<Option<RegexStep>, ParseFault>(None)
                    &&& steps_view(final(steps)@) == set_last_rep(
                        steps_view(old(steps)@),
                        RegexRep::Range { min, max },
                    )
                },
            }
        }),
{
    let ghost p = chars_iter@;
    let ghost from = *pos as int;
    proof {
        lemma_brace_close(p, from);
    }
    let mut content: Vec<char> = Vec::new();
    assert(content@ =~= p.subrange(from, from));
    while *pos < chars_iter.len()
        invariant_except_break
            from <= *pos <= p.len(),
            content@ == p.subrange(from, *pos as int),
            brace_close(p, from) == brace_close(p, *pos as int),
        invariant
            p == chars_iter@,
            from == *old(pos),
        ensures
            *pos == if brace_close(p, from) < p.len() {
                brace_close(p, from) + 1
            } else {
                brace_close(p, from)
            },
            content@ == p.subrange(from, brace_close(p, from)),
        decreases p.len() - *pos,
    {
        let c = chars_iter[*pos];
        *pos += 1;
        if c == '}' {
            break;
        } else {
            content.push(c);
            assert(content@ =~= p.subrange(from, *pos as int));
        }
    }
    let (min, max) = bounds_of(&content)?;
    if let (Some(min_val), Some(max_val)) = (min, max) {
        if min_val > max_val {
            return Err(ParseFault::BraceOrder);
        }
    }
    repeat_last(steps, RegexRep::Range { min, max }, ParseFault::BraceWithoutTarget)
}

/// The state of a bracket expression held by the variables of `evaluar_corchete`.
spec fn bracket_state_of(
    chars: Seq<char>,
    last: Option<char>,
    range: bool,
    clase: Seq<char>,
    es_clase: bool,
    doble: bool,
    negado: bool,
    classes: Seq<StepView>,
) -> BracketState {
    BracketState { chars, last, range, clase, es_clase, doble, negado, classes }
}

/// `[..]`: reads a bracket expression up to its closing `]`. Each
/// `[:name:]` class is pushed onto `steps` as it is read; the characters
/// listed (ranges `a-z` expanded byte by byte) make the step returned, if any.
fn evaluar_corchete(chars_iter: &Vec<char>, pos: &mut usize, steps: &mut Vec<RegexStep>) -> (r:
    Result<Option<RegexStep>, ParseFault>)
    requires
        *old(pos) <= chars_iter@.len(),
    ensures
        match bracket_scan(chars_iter@, *old(pos) as int, bracket_start()) {
            Ok((next, st)) => {
                &&& *final(pos) == next
                &&& steps_view(final(steps)@) == steps_view(old(steps)@) + st.classes
                &&& r matches Ok(o)
                &&& st.chars.len() > 0 ==> (o matches Some(s) && s@ == single(
                    ValView::Bracket(st.chars, st.negado),
                ))
                &&& st.chars.len() == 0 ==> o is None
                &&& no_any(st.classes)
            },
            Err(f) => r == Err::<Option<RegexStep>, ParseFault>(f),
        },
{
    let ghost p = chars_iter@;
    let ghost target = bracket_scan(p, *pos as int, bracket_start());
    let ghost base = steps_view(steps@);
    let mut chars: Vec<char> = Vec::new();
    let mut last_char: Option<char> = None;
    let mut range = false;
    let mut clase = String::new();
    let mut es_clase = false;
    let mut es_corchete_doble = false;
    let mut es_negado = false;
    assert(steps_view(steps@) =~= base + Seq::<StepView>::empty());
    assert(bracket_state_of(chars@, last_char, range, clase@, es_clase, es_corchete_doble, es_negado, Seq::empty()) =~= bracket_start());
    let ghost mut classes: Seq<StepView> = Seq::empty();
    while *pos < chars_iter.len()
        invariant_except_break
            bracket_scan(
                p,
                *pos as int,
                bracket_state_of(
                    chars@,
                    last_char,
                    range,
                    clase@,
                    es_clase,
                    es_corchete_doble,
                    es_negado,
                    classes,
                ),
            ) == target,
        invariant
            p == chars_iter@,
            target == bracket_scan(p, *old(pos) as int, bracket_start()),
            *pos <= p.len(),
            steps_view(steps@) == base + classes,
            no_any(classes),
        ensures
            target == Ok::<(int, BracketState), ParseFault>(
                (
                    *pos as int,
                    bracket_state_of(
                        chars@,
                        last_char,
                        range,
                        clase@,
                        es_clase,
                        es_corchete_doble,
                        es_negado,
                        classes,
                    ),
                ),
            ),
        decreases p.len() - *pos,
    {
        let c = chars_iter[*pos];
        *pos += 1;
        let ghost st = bracket_state_of(chars@, last_char, range, clase@, es_clase, es_corchete_doble, es_negado, classes);
        if c == ']' {
            if es_corchete_doble {
                es_corchete_doble = false;
            } else {
                break;
            }
        } else if c == '^' && chars.len() == 0 && !es_clase {
            es_negado = true;
        } else if c == '[' {
            es_corchete_doble = true;
        } else if c == '-' {
            range = true;
        } else if c == ':' {
            es_clase = !es_clase;
            if es_clase {
                clase = String::new();
            } else {
                let ghost name = clase@;
                let ghost before = steps_view(steps@);
                let class_step = RegexStep {
                    rep: RegexRep::Exact(1),
                    val: RegexVal::Clase(clase, es_negado),
                };
                let ghost added = class_step@;
                assert(added == single(ValView::Clase(name, es_negado)));
                steps.push(class_step);
                clase = String::new();
                proof {
                    assert(steps_view(steps@) =~= before.push(added));
                    classes = classes.push(added);
                    assert(steps_view(steps@) =~= base + classes);
                }
            }
        } else if es_clase {
            push_char(&mut clase, c);
        } else {
            if range {
                if let Some(last) = last_char {
                    let lo = ((last as u32) % 256) as u8;
                    if lo == 255 {
                        proof {
                            assert(p[*pos - 1] == c);
                            assert(bracket_scan(p, *pos - 1, st) == Err::<(int, BracketState), ParseFault>(ParseFault::RangeOverflow));
                            assert(crate::pattern::bracket_read(st, c) == Err::<BracketState, ParseFault>(ParseFault::RangeOverflow));
                        }
                        return Err(ParseFault::RangeOverflow);
                    }
                    let hi = ((c as u32) % 256) as u16;
                    let mut b: u16 = (lo + 1) as u16;
                    let ghost start_chars = chars@;
                    assert(start_chars + byte_span(lo + 1, b - 1) =~= chars@);
                    while b <= hi
                        invariant
                            lo + 1 <= b <= 256,
                            hi < 256,
                            b <= hi + 1 || b == lo + 1,
                            chars@ == start_chars + byte_span(lo + 1, b - 1),
                        decreases hi + 1 - b,
                    {
                        chars.push((b as u8) as char);
                        b += 1;
                        assert(chars@ =~= start_chars + byte_span(lo + 1, b - 1));
                    }
                    proof {
                        if (lo + 1) as int <= hi as int {
                            assert(b == hi + 1);
                        } else {
                            assert(byte_span(lo + 1, b - 1) =~= Seq::<char>::empty());
                            assert(byte_span(low_byte(last) + 1, low_byte(c)) =~= Seq::<char>::empty());
                        }
                        assert(chars@ =~= start_chars + byte_span(low_byte(last) + 1, low_byte(c)));
                    }
                }
                range = false;
            } else {
                chars.push(c);
            }
            last_char = Some(c);
        }
        proof {
            let st2 = bracket_state_of(chars@, last_char, range, clase@, es_clase, es_corchete_doble, es_negado, classes);
            if !(c == ']' && !st.doble) {
                assert(crate::pattern::bracket_read(st, c) == Ok::<BracketState, ParseFault>(st2));
            }
        }
    }
    if chars.len() > 0 {
        Ok(Some(RegexStep { rep: RegexRep::Exact(1), val: RegexVal::Bracket(chars, es_negado) }))
    } else {
        Ok(None)
    }
}

/// Undoes evaluated steps after `current` failed: pops entries from the top
/// of `evaluated`, adding up what they consumed, until one that may give
/// input back. That one is dropped; every fixed step popped before it goes
/// back to the front of `next`, ahead of `current`. Returns the input given
/// back, or `None` when no entry may give input back (the stack is emptied).
pub fn backtrack(
    current: RegexStep,
    evaluated: &mut Vec<EvaluatedStep>,
    next: &mut VecDeque<RegexStep>,
) -> (r: Option<usize>)
    requires
        undo_size(evals_view(old(evaluated)@)) <= usize::MAX,
    ensures
        evals_view(final(evaluated)@) == undo_stack(evals_view(old(evaluated)@)),
        steps_view(final(next)@) == undo_queue(
            evals_view(old(evaluated)@),
            current@,
            steps_view(old(next)@),
        ),
        r == match last_backtrackeable(evals_view(old(evaluated)@)) {
            Some(_) => Some(undo_size(evals_view(old(evaluated)@)) as usize),
            None => None::<usize>,
        },
        r matches Some(n) ==> sizes_sum(evals_view(final(evaluated)@)) + n == sizes_sum(
            evals_view(old(evaluated)@),
        ),
{
    let ghost s0 = evals_view(evaluated@);
    let ghost q0 = steps_view(next@);
    let ghost cur = current@;
    let ghost len0 = s0.len();
    proof {
        lemma_last_backtrackeable(s0);
        lemma_undo_sizes(s0);
    }
    let mut back_size: usize = 0;
    next.push_front(current);
    assert(steps_view(next@) =~= s0.subrange(len0 as int, len0 as int).map_values(
        |e: EvalView| e.step,
    ) + seq![cur] + q0);
    loop
        invariant
            s0 == evals_view(old(evaluated)@),
            q0 == steps_view(old(next)@),
            cur == current@,
            len0 == s0.len(),
            evaluated@.len() <= len0,
            evals_view(evaluated@) == s0.take(evaluated@.len() as int),
            forall|k: int| evaluated@.len() <= k < len0 ==> !(#[trigger] s0[k]).backtrackeable,
            back_size == sizes_sum(s0.subrange(evaluated@.len() as int, len0 as int)),
            steps_view(next@) == s0.subrange(evaluated@.len() as int, len0 as int).map_values(
                |e: EvalView| e.step,
            ) + seq![cur] + q0,
            undo_cut(s0) <= evaluated@.len(),
            undo_size(s0) <= usize::MAX,
            sizes_sum(undo_stack(s0)) + undo_size(s0) == sizes_sum(s0),
            0 <= undo_cut(s0) <= len0,
            match last_backtrackeable(s0) {
                Some(j) => {
                    &&& 0 <= j < len0
                    &&& s0[j].backtrackeable
                    &&& forall|k: int| j < k < len0 ==> !(#[trigger] s0[k]).backtrackeable
                },
                None => forall|k: int| 0 <= k < len0 ==> !(#[trigger] s0[k]).backtrackeable,
            },
        decreases evaluated@.len(),
    {
        let ghost n = evaluated@.len() as int;
        match evaluated.pop() {
            None => {
                proof {
                    assert(last_backtrackeable(s0) is None) by {
                        if let Some(j) = last_backtrackeable(s0) {
                            assert(s0[j].backtrackeable);
                        }
                    }
                    assert(s0.take(0) =~= Seq::<EvalView>::empty());
                    assert(s0.subrange(0, len0 as int) =~= s0.skip(0));
                    assert(requeued(s0) =~= s0.subrange(0, len0 as int).map_values(
                        |x: EvalView| x.step,
                    ));
                }
                return None;
            },
            Some(e) => {
                proof {
                    assert(s0[n - 1] == e@) by {
                        assert(evals_view(old(evaluated)@).take(n)[n - 1] == s0[n - 1]);
                    }
                    let popped = s0.subrange(n, len0 as int);
                    let popped2 = s0.subrange(n - 1, len0 as int);
                    assert(popped2 =~= seq![s0[n - 1]] + popped);
                    lemma_sizes_sum_concat(seq![s0[n - 1]], popped);
                    assert(seq![s0[n - 1]].drop_last() =~= Seq::<EvalView>::empty());
                    assert(seq![s0[n - 1]].last() == s0[n - 1]);
                    assert(sizes_sum(seq![s0[n - 1]].drop_last()) == 0);
                    assert(sizes_sum(seq![s0[n - 1]]) == e.match_size);
                    let below = s0.subrange(undo_cut(s0), n - 1);
                    assert(s0.skip(undo_cut(s0)) =~= below + popped2);
                    lemma_sizes_sum_concat(below, popped2);
                }
                back_size += e.match_size;
                if e.backtrackeable {
                    proof {
                        assert(last_backtrackeable(s0) == Some(n - 1)) by {
                            if let Some(j) = last_backtrackeable(s0) {
                                if j < n - 1 {
                                    assert(s0[n - 1].backtrackeable);
                                }
                            } else {
                                assert(s0[n - 1].backtrackeable);
                            }
                        }
                        assert(s0.skip(n - 1) =~= s0.subrange(n - 1, len0 as int));
                        assert(evals_view(evaluated@) =~= s0.take(n - 1));
                        assert(s0.skip(n) =~= s0.subrange(n, len0 as int));
                    }
                    return Some(back_size);
                } else {
                    let ghost before = steps_view(next@);
                    next.push_front(e.step);
                    proof {
                        assert(evals_view(evaluated@) =~= s0.take(n - 1));
                        assert(s0.subrange(n - 1, len0 as int).map_values(|x: EvalView| x.step)
                            =~= seq![s0[n - 1].step] + s0.subrange(n, len0 as int).map_values(
                            |x: EvalView| x.step,
                        ));
                        assert(steps_view(next@) =~= seq![s0[n - 1].step] + before);
                    }
                }
            },
        }
    }
}

} // verus!
