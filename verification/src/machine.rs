//! The matching machine: how one run of `Regex::test`, started at one position
//! of the input, walks its queue of pending steps and its stack of evaluated
//! steps, and what it reports.
use vstd::prelude::*;
use vstd::utf8::is_ascii_chars;

use crate::evaluated_step::EvalView;
use crate::regex_rep::RegexRep;
use crate::regex_step::StepView;
use crate::regex_val::{match_len, utf8_width, ValView};

verus! {

// ---------------------------------------------------------------------------
// Undoing evaluated steps (what `backtrack` does)
// ---------------------------------------------------------------------------

/// Position of the last evaluated step that may give its input back.
pub open spec fn last_backtrackeable(stack: Seq<EvalView>) -> Option<int>
    decreases stack.len(),
{
    if stack.len() == 0 {
        None
    } else if stack.last().backtrackeable {
        Some(stack.len() - 1)
    } else {
        last_backtrackeable(stack.drop_last())
    }
}

/// Where undoing cuts the stack: at the last backtrackeable entry, or at the bottom.
pub open spec fn undo_cut(stack: Seq<EvalView>) -> int {
    match last_backtrackeable(stack) {
        Some(j) => j,
        None => 0,
    }
}

/// Total input consumed by a sequence of evaluated steps.
pub open spec fn sizes_sum(entries: Seq<EvalView>) -> nat
    decreases entries.len(),
{
    if entries.len() == 0 {
        0
    } else {
        sizes_sum(entries.drop_last()) + entries.last().match_size
    }
}

/// Input given back by undoing: everything from the cut to the top of the stack.
pub open spec fn undo_size(stack: Seq<EvalView>) -> nat {
    sizes_sum(stack.skip(undo_cut(stack)))
}

/// The stack left after undoing.
pub open spec fn undo_stack(stack: Seq<EvalView>) -> Seq<EvalView> {
    stack.take(undo_cut(stack))
}

/// The steps taken off the stack that have to be tried again: those above
/// the last backtrackeable entry, in the order they were evaluated.
pub open spec fn requeued(stack: Seq<EvalView>) -> Seq<StepView> {
    let from = match last_backtrackeable(stack) {
        Some(j) => j + 1,
        None => 0,
    };
    stack.skip(from).map_values(|e: EvalView| e.step)
}

/// The queue after undoing while `current` was being tried and `rest` was still pending.
pub open spec fn undo_queue(stack: Seq<EvalView>, current: StepView, rest: Seq<StepView>) -> Seq<
    StepView,
> {
    requeued(stack) + seq![current] + rest
}

// ---------------------------------------------------------------------------
// States and single turns
// ---------------------------------------------------------------------------

/// What one run started at one position reports.
#[derive(Debug, Clone, Copy)]
pub enum StartOutcome {
    /// Every step was satisfied: the whole test succeeds.
    Matched,
    /// Too many retries: the whole test fails at once.
    Abort,
    /// Go on with the next start position; the flag records an end-of-line match.
    Next(bool),
}

/// The state of a run: pending steps, evaluated steps, position and retry count.
pub struct MachineState {
    pub queue: Seq<StepView>,
    pub stack: Seq<EvalView>,
    pub index: int,
    pub retries: int,
}

/// The result of one turn of a run.
pub enum Turn {
    Continue(MachineState),
    Stop(StartOutcome),
}

/// The outcome when a run stops early with `queue` still pending.
pub open spec fn after_break(queue: Seq<StepView>) -> StartOutcome {
    if queue.len() == 0 {
        StartOutcome::Matched
    } else {
        StartOutcome::Next(false)
    }
}

/// `n` repetitions of `val` from `i`: whether all matched, and where they stopped.
pub open spec fn exact_scan(val: ValView, value: Seq<char>, i: int, n: nat) -> (bool, int)
    decreases n,
{
    if n == 0 {
        (true, i)
    } else {
        let sz = match_len(val, value.skip(i));
        if sz == 0 {
            (false, i)
        } else {
            exact_scan(val, value, i + sz, (n - 1) as nat)
        }
    }
}

/// Greedy repetition without bound: each match pushes an entry holding the
/// total consumed so far. Returns the final position and stack.
pub open spec fn any_scan(
    val: ValView,
    value: Seq<char>,
    i: int,
    total: nat,
    stack: Seq<EvalView>,
    step: StepView,
) -> (int, Seq<EvalView>)
    decreases value.len() - i,
    when is_ascii_chars(value) && 0 <= i <= value.len()
{
    let sz = match_len(val, value.skip(i));
    if sz == 0 {
        (i, stack)
    } else {
        proof {
            lemma_match_len_ascii(val, value, i);
        }
        any_scan(
            val,
            value,
            i + sz,
            total + sz,
            stack.push(EvalView { step, match_size: total + sz, backtrackeable: true }),
            step,
        )
    }
}

/// Greedy repetition up to `max` (when given): each match pushes its own
/// backtrackeable entry. Returns the final position, the total consumed and the stack.
pub open spec fn range_scan(
    val: ValView,
    value: Seq<char>,
    i: int,
    total: nat,
    max: Option<usize>,
    stack: Seq<EvalView>,
    step: StepView,
) -> (int, nat, Seq<EvalView>)
    decreases value.len() - i,
    when is_ascii_chars(value) && 0 <= i <= value.len()
{
    let sz = match_len(val, value.skip(i));
    if sz == 0 {
        (i, total, stack)
    } else {
        let stack2 = stack.push(EvalView { step, match_size: sz, backtrackeable: true });
        if max matches Some(m) && total + sz >= m {
            (i + sz, total + sz, stack2)
        } else {
            proof {
                lemma_match_len_ascii(val, value, i);
            }
            range_scan(val, value, i + sz, total + sz, max, stack2, step)
        }
    }
}

/// The turn after `current` failed at position `at`, with `rest` pending:
/// undo evaluated steps and retry, or stop when nothing can give input back.
pub open spec fn undo_turn(
    stack: Seq<EvalView>,
    current: StepView,
    rest: Seq<StepView>,
    at: int,
    retries: int,
) -> Turn {
    match last_backtrackeable(stack) {
        Some(_) => Turn::Continue(
            MachineState {
                queue: undo_queue(stack, current, rest),
                stack: undo_stack(stack),
                index: at - undo_size(stack),
                retries,
            },
        ),
        None => Turn::Stop(after_break(undo_queue(stack, current, rest))),
    }
}

/// One turn for a step repeated exactly `n` times.
pub open spec fn exact_turn(
    value: Seq<char>,
    st: MachineState,
    step: StepView,
    rest: Seq<StepView>,
    n: nat,
) -> Turn {
    let (ok, j) = exact_scan(step.val, value, st.index, n);
    if ok {
        Turn::Continue(
            MachineState {
                queue: rest,
                stack: st.stack.push(
                    EvalView { step, match_size: (j - st.index) as nat, backtrackeable: false },
                ),
                index: j,
                retries: st.retries,
            },
        )
    } else {
        undo_turn(st.stack, step, rest, j, st.retries)
    }
}

/// One turn for a step repeated as often as possible.
pub open spec fn any_turn(value: Seq<char>, st: MachineState, step: StepView, rest: Seq<StepView>) -> Turn {
    let (j, stack) = any_scan(step.val, value, st.index, 0, st.stack, step);
    Turn::Continue(MachineState { queue: rest, stack, index: j, retries: st.retries })
}

/// One turn for a step repeated between `min` and `max` times.
pub open spec fn range_turn(
    value: Seq<char>,
    st: MachineState,
    step: StepView,
    rest: Seq<StepView>,
    min: Option<usize>,
    max: Option<usize>,
) -> Turn {
    let (j, total, stack) = range_scan(step.val, value, st.index, 0, max, st.stack, step);
    if min matches Some(m) && total < m {
        match last_backtrackeable(stack) {
            Some(_) => if st.retries + 1 > value.len() {
                Turn::Stop(StartOutcome::Abort)
            } else {
                Turn::Continue(
                    MachineState {
                        queue: undo_queue(stack, step, rest),
                        stack: undo_stack(stack),
                        index: j - undo_size(stack),
                        retries: st.retries + 1,
                    },
                )
            },
            None => Turn::Stop(after_break(undo_queue(stack, step, rest))),
        }
    } else {
        Turn::Continue(MachineState { queue: rest, stack, index: j, retries: st.retries })
    }
}

/// One turn of a run: take the first pending step and act on it.
pub open spec fn iterate(value: Seq<char>, st: MachineState) -> Turn {
    if st.queue.len() == 0 {
        Turn::Stop(StartOutcome::Matched)
    } else {
        let step = st.queue[0];
        let rest = st.queue.drop_first();
        match step.val {
            ValView::Inicio => if st.index == 0 {
                Turn::Continue(MachineState { queue: rest, ..st })
            } else {
                Turn::Stop(after_break(rest))
            },
            ValView::Fin => if st.index == value.len() {
                Turn::Stop(StartOutcome::Next(true))
            } else if rest.len() == 0 {
                Turn::Stop(StartOutcome::Next(false))
            } else {
                Turn::Continue(MachineState { queue: rest, ..st })
            },
            _ => match step.rep {
                RegexRep::Exact(n) => exact_turn(value, st, step, rest, n as nat),
                RegexRep::Any => any_turn(value, st, step, rest),
                RegexRep::Range { min, max } => range_turn(value, st, step, rest, min, max),
            },
        }
    }
}

// ---------------------------------------------------------------------------
// Well-formed states, the termination measure, and whole runs
// ---------------------------------------------------------------------------

/// Number of pending steps that are not repeated a fixed number of times.
pub open spec fn count_loops(queue: Seq<StepView>) -> nat
    decreases queue.len(),
{
    if queue.len() == 0 {
        0
    } else {
        count_loops(queue.drop_last()) + if queue.last().rep is Exact {
            0nat
        } else {
            1nat
        }
    }
}

/// Number of evaluated steps that may give input back.
pub open spec fn back_entries(stack: Seq<EvalView>) -> nat
    decreases stack.len(),
{
    if stack.len() == 0 {
        0
    } else {
        back_entries(stack.drop_last()) + if stack.last().backtrackeable {
            1nat
        } else {
            0nat
        }
    }
}

/// First component of the termination measure of a run.
pub open spec fn loops_left(value: Seq<char>, st: MachineState) -> int {
    count_loops(st.queue) + value.len() + 1 - st.retries
}

/// The states a run passes through on an ASCII input.
pub open spec fn machine_wf(value: Seq<char>, st: MachineState) -> bool {
    &&& is_ascii_chars(value)
    &&& 0 <= st.retries <= value.len()
    &&& sizes_sum(st.stack) <= st.index <= value.len()
    &&& forall|k: int| 0 <= k < st.queue.len() ==> !(#[trigger] st.queue[k].rep is Any)
    &&& forall|k: int|
        0 <= k < st.stack.len() && !(#[trigger] st.stack[k]).backtrackeable
            ==> st.stack[k].step.rep is Exact
}

/// A turn makes progress: the measure decreases lexicographically.
pub open spec fn progress(value: Seq<char>, st: MachineState, nx: MachineState) -> bool {
    ||| loops_left(value, nx) < loops_left(value, st)
    ||| (loops_left(value, nx) == loops_left(value, st) && back_entries(nx.stack) < back_entries(
        st.stack,
    ))
    ||| (loops_left(value, nx) == loops_left(value, st) && back_entries(nx.stack) == back_entries(
        st.stack,
    ) && nx.queue.len() < st.queue.len())
}

/// What a run started in state `st` reports.
pub open spec fn run(value: Seq<char>, st: MachineState) -> StartOutcome
    decreases loops_left(value, st), back_entries(st.stack), st.queue.len(),
    when machine_wf(value, st)
    via run_decreases
{
    match iterate(value, st) {
        Turn::Continue(nx) => run(value, nx),
        Turn::Stop(o) => o,
    }
}

#[via_fn]
proof fn run_decreases(value: Seq<char>, st: MachineState) {
    lemma_iterate_progress(value, st);
}

/// The state a run starts in at position `start`.
pub open spec fn initial_state(steps: Seq<StepView>, start: int) -> MachineState {
    MachineState { queue: steps, stack: seq![], index: start, retries: 0 }
}

/// Runs from every start position from `start` on, as `Regex::test` does for
/// one alternative: stop at the first `Matched` or `Abort`, and otherwise
/// report whether some run matched the end of line.
pub open spec fn scan_from(steps: Seq<StepView>, value: Seq<char>, start: int, found: bool) -> bool
    decreases value.len() - start,
{
    if start >= value.len() {
        found
    } else {
        match run(value, initial_state(steps, start)) {
            StartOutcome::Matched => true,
            StartOutcome::Abort => false,
            StartOutcome::Next(f) => scan_from(steps, value, start + 1, found || f),
        }
    }
}

/// Whether one alternative (a sequence of steps) accepts the line `value`.
pub open spec fn steps_accept(steps: Seq<StepView>, value: Seq<char>) -> bool {
    scan_from(steps, value, 0, false)
}

/// Whether some alternative of a pattern accepts the line `value`.
pub open spec fn pattern_accepts(alternatives: Seq<Seq<StepView>>, value: Seq<char>) -> bool {
    exists|k: int| 0 <= k < alternatives.len() && steps_accept(#[trigger] alternatives[k], value)
}

/// No step is repeated with `RegexRep::Any`.
pub open spec fn no_any(steps: Seq<StepView>) -> bool {
    forall|k: int| 0 <= k < steps.len() ==> !(#[trigger] steps[k].rep is Any)
}

// ---------------------------------------------------------------------------
// Lemmas
// ---------------------------------------------------------------------------

/// On an ASCII input every match consumes at most what is left.
pub proof fn lemma_match_len_ascii(val: ValView, value: Seq<char>, i: int)
    requires
        is_ascii_chars(value),
        0 <= i <= value.len(),
    ensures
        match_len(val, value.skip(i)) <= 1,
        i == value.len() ==> match_len(val, value.skip(i)) == 0,
{
    if i < value.len() {
        assert(value.skip(i)[0] == value[i]);
        assert('\0' <= value[i] <= '\u{7f}');
        assert(utf8_width(value[i]) == 1);
    }
}

pub proof fn lemma_sizes_sum_concat(a: Seq<EvalView>, b: Seq<EvalView>)
    ensures
        sizes_sum(a + b) == sizes_sum(a) + sizes_sum(b),
    decreases b.len(),
{
    if b.len() == 0 {
        assert(a + b =~= a);
    } else {
        assert((a + b).drop_last() =~= a + b.drop_last());
        lemma_sizes_sum_concat(a, b.drop_last());
    }
}

pub proof fn lemma_back_entries_concat(a: Seq<EvalView>, b: Seq<EvalView>)
    ensures
        back_entries(a + b) == back_entries(a) + back_entries(b),
    decreases b.len(),
{
    if b.len() == 0 {
        assert(a + b =~= a);
    } else {
        assert((a + b).drop_last() =~= a + b.drop_last());
        lemma_back_entries_concat(a, b.drop_last());
    }
}

pub proof fn lemma_count_loops_concat(a: Seq<StepView>, b: Seq<StepView>)
    ensures
        count_loops(a + b) == count_loops(a) + count_loops(b),
    decreases b.len(),
{
    if b.len() == 0 {
        assert(a + b =~= a);
    } else {
        assert((a + b).drop_last() =~= a + b.drop_last());
        lemma_count_loops_concat(a, b.drop_last());
    }
}

/// Counting the first pending step apart from the others.
pub proof fn lemma_count_loops_first(q: Seq<StepView>)
    requires
        q.len() > 0,
    ensures
        count_loops(q) == count_loops(q.drop_first()) + if q[0].rep is Exact {
            0nat
        } else {
            1nat
        },
{
    let head = seq![q[0]];
    assert(head.drop_last() =~= Seq::<StepView>::empty());
    assert(count_loops(head) == count_loops(head.drop_last()) + if q[0].rep is Exact {
        0nat
    } else {
        1nat
    });
    assert(q =~= head + q.drop_first());
    lemma_count_loops_concat(head, q.drop_first());
}

/// Steps that are all repeated a fixed number of times add nothing to the count.
pub proof fn lemma_count_loops_exact(q: Seq<StepView>)
    requires
        forall|k: int| 0 <= k < q.len() ==> (#[trigger] q[k]).rep is Exact,
    ensures
        count_loops(q) == 0,
    decreases q.len(),
{
    if q.len() > 0 {
        lemma_count_loops_exact(q.drop_last());
    }
}

/// What `last_backtrackeable` finds.
pub proof fn lemma_last_backtrackeable(stack: Seq<EvalView>)
    ensures
        match last_backtrackeable(stack) {
            Some(j) => {
                &&& 0 <= j < stack.len()
                &&& stack[j].backtrackeable
                &&& forall|k: int| j < k < stack.len() ==> !(#[trigger] stack[k]).backtrackeable
            },
            None => forall|k: int| 0 <= k < stack.len() ==> !(#[trigger] stack[k]).backtrackeable,
        },
    decreases stack.len(),
{
    if stack.len() > 0 {
        lemma_last_backtrackeable(stack.drop_last());
        if !stack.last().backtrackeable {
            assert forall|k: int| 0 <= k < stack.len() - 1 implies stack[k]
                == stack.drop_last()[k] by {}
        }
    }
}

/// Entries without a backtrackeable one add no backtrackeable entries.
pub proof fn lemma_back_entries_none(s: Seq<EvalView>)
    requires
        forall|k: int| 0 <= k < s.len() ==> !(#[trigger] s[k]).backtrackeable,
    ensures
        back_entries(s) == 0,
    decreases s.len(),
{
    if s.len() > 0 {
        lemma_back_entries_none(s.drop_last());
    }
}

/// Undoing splits the stack in two: what stays and what is given back.
pub proof fn lemma_undo_sizes(s: Seq<EvalView>)
    ensures
        0 <= undo_cut(s) <= s.len(),
        undo_stack(s).len() == undo_cut(s),
        sizes_sum(undo_stack(s)) + undo_size(s) == sizes_sum(s),
{
    let cut = undo_cut(s);
    lemma_last_backtrackeable(s);
    assert(s =~= s.take(cut) + s.skip(cut));
    lemma_sizes_sum_concat(s.take(cut), s.skip(cut));
}

/// Undoing removes exactly one backtrackeable entry, gives back what the
/// removed entries had consumed, and requeues only fixed repetitions.
pub proof fn lemma_undo(value: Seq<char>, st: MachineState)
    requires
        machine_wf(value, st),
    ensures
        0 <= undo_cut(st.stack) <= st.stack.len(),
        undo_stack(st.stack).len() == undo_cut(st.stack),
        sizes_sum(undo_stack(st.stack)) + undo_size(st.stack) == sizes_sum(st.stack),
        undo_size(st.stack) <= st.index,
        last_backtrackeable(st.stack) is Some ==> back_entries(undo_stack(st.stack)) + 1
            == back_entries(st.stack),
        count_loops(requeued(st.stack)) == 0,
        forall|k: int|
            0 <= k < requeued(st.stack).len() ==> (#[trigger] requeued(st.stack)[k]).rep is Exact,
        forall|k: int|
            0 <= k < undo_stack(st.stack).len() ==> #[trigger] undo_stack(st.stack)[k]
                == st.stack[k],
{
    let s = st.stack;
    let cut = undo_cut(s);
    lemma_last_backtrackeable(s);
    assert(s =~= s.take(cut) + s.skip(cut));
    lemma_sizes_sum_concat(s.take(cut), s.skip(cut));
    let from = match last_backtrackeable(s) {
        Some(j) => j + 1,
        None => 0,
    };
    let rq = requeued(s);
    assert forall|k: int| 0 <= k < rq.len() implies (#[trigger] rq[k]).rep is Exact by {
        assert(rq[k] == s[from + k].step);
        assert(!s[from + k].backtrackeable);
    }
    lemma_count_loops_exact(rq);
    if let Some(j) = last_backtrackeable(s) {
        let top = s.skip(j + 1);
        let head = seq![s[j]];
        assert(head.drop_last() =~= Seq::<EvalView>::empty());
        assert(head.last() == s[j]);
        assert(back_entries(head.drop_last()) == 0);
        assert(back_entries(head) == 1);
        assert(s.skip(j) =~= head + top);
        assert(forall|k: int| 0 <= k < top.len() ==> #[trigger] top[k] == s[j + 1 + k]);
        lemma_back_entries_none(top);
        lemma_back_entries_concat(head, top);
        lemma_back_entries_concat(s.take(j), s.skip(j));
    }
}

/// Where a fixed repetition stops.
pub proof fn lemma_exact_scan(val: ValView, value: Seq<char>, i: int, n: nat)
    requires
        is_ascii_chars(value),
        0 <= i <= value.len(),
    ensures
        i <= exact_scan(val, value, i, n).1 <= value.len(),
    decreases n,
{
    if n > 0 {
        lemma_match_len_ascii(val, value, i);
        let sz = match_len(val, value.skip(i));
        if sz != 0 {
            lemma_exact_scan(val, value, i + sz, (n - 1) as nat);
        }
    }
}

/// What a bounded greedy repetition leaves: the old stack below, then one
/// backtrackeable entry per character consumed.
pub proof fn lemma_range_scan(
    val: ValView,
    value: Seq<char>,
    i: int,
    total: nat,
    max: Option<usize>,
    stack: Seq<EvalView>,
    step: StepView,
)
    requires
        is_ascii_chars(value),
        0 <= i <= value.len(),
    ensures
        ({
            let (j, t, s) = range_scan(val, value, i, total, max, stack, step);
            &&& i <= j <= value.len()
            &&& t == total + (j - i)
            &&& s.len() >= stack.len()
            &&& s.take(stack.len() as int) == stack
            &&& forall|k: int|
                stack.len() <= k < s.len() ==> (#[trigger] s[k]).backtrackeable && s[k].step == step
            &&& sizes_sum(s) == sizes_sum(stack) + (j - i)
            &&& back_entries(s) == back_entries(stack) + (s.len() - stack.len())
            &&& (s.len() > stack.len() ==> last_backtrackeable(s) == Some(s.len() - 1))
            &&& (s.len() == stack.len() ==> s == stack)
        }),
    decreases value.len() - i,
{
    lemma_match_len_ascii(val, value, i);
    let sz = match_len(val, value.skip(i));
    if sz == 0 {
        assert(stack.take(stack.len() as int) =~= stack);
    } else {
        let stack2 = stack.push(EvalView { step, match_size: sz, backtrackeable: true });
        assert(stack2.drop_last() =~= stack);
        if max matches Some(m) && total + sz >= m {
            assert(stack2.take(stack.len() as int) =~= stack);
        } else {
            lemma_range_scan(val, value, i + sz, total + sz, max, stack2, step);
            let s = range_scan(val, value, i + sz, total + sz, max, stack2, step).2;
            assert(s.take(stack.len() as int) =~= s.take(stack2.len() as int).take(
                stack.len() as int,
            ));
            assert(stack2.take(stack.len() as int) =~= stack);
        }
    }
}

/// Every turn of a run from a well-formed state leads to a well-formed state
/// and decreases the measure.
pub proof fn lemma_iterate_progress(value: Seq<char>, st: MachineState)
    ensures
        machine_wf(value, st) ==> (iterate(value, st) matches Turn::Continue(nx) ==> machine_wf(
            value,
            nx,
        ) && progress(value, st, nx) && 0 <= loops_left(value, nx) && 0 <= back_entries(
            nx.stack,
        )),
{
    if machine_wf(value, st) && st.queue.len() > 0 {
        let step = st.queue[0];
        let rest = st.queue.drop_first();
        lemma_count_loops_first(st.queue);
        assert(!(st.queue[0].rep is Any));
        assert forall|k: int| 0 <= k < rest.len() implies !(#[trigger] rest[k].rep is Any) by {
            assert(rest[k] == st.queue[k + 1]);
        }
        match step.val {
            ValView::Inicio => {
                if st.index == 0 {
                    let nx = MachineState { queue: rest, ..st };
                    assert(machine_wf(value, nx));
                    assert(progress(value, st, nx));
                }
            },
            ValView::Fin => {
                if st.index != value.len() && rest.len() != 0 {
                    let nx = MachineState { queue: rest, ..st };
                    assert(machine_wf(value, nx));
                    assert(progress(value, st, nx));
                }
            },
            _ => match step.rep {
                RegexRep::Exact(n) => {
                    lemma_exact_scan(step.val, value, st.index, n as nat);
                    let (ok, j) = exact_scan(step.val, value, st.index, n as nat);
                    if ok {
                        let e = EvalView {
                            step,
                            match_size: (j - st.index) as nat,
                            backtrackeable: false,
                        };
                        let s2 = st.stack.push(e);
                        assert(s2.drop_last() =~= st.stack);
                        assert(back_entries(s2) == back_entries(st.stack));
                        assert forall|k: int|
                            0 <= k < s2.len() && !(#[trigger] s2[k]).backtrackeable implies s2[k].step.rep is Exact by {
                            if k < st.stack.len() {
                                assert(s2[k] == st.stack[k]);
                            }
                        }
                    } else {
                        lemma_undo(value, st);
                        if let Some(_) = last_backtrackeable(st.stack) {
                            let q2 = undo_queue(st.stack, step, rest);
                            let rq = requeued(st.stack);
                            lemma_count_loops_concat(rq + seq![step], rest);
                            lemma_count_loops_concat(rq, seq![step]);
                            assert(seq![step].drop_last() =~= Seq::<StepView>::empty());
                            assert(seq![step].last() == step);
                            assert(count_loops(seq![step].drop_last()) == 0);
                            assert forall|k: int| 0 <= k < q2.len() implies !(
                            #[trigger] q2[k].rep is Any) by {
                                if k < rq.len() {
                                    assert(q2[k] == rq[k]);
                                } else if k == rq.len() {
                                    assert(q2[k] == step);
                                } else {
                                    assert(q2[k] == rest[k - rq.len() - 1]);
                                }
                            }
                            let s2 = undo_stack(st.stack);
                            assert forall|k: int|
                                0 <= k < s2.len() && !(#[trigger] s2[k]).backtrackeable implies s2[k].step.rep is Exact by {
                                assert(s2[k] == st.stack[k]);
                            }
                        }
                    }
                },
                RegexRep::Any => {},
                RegexRep::Range { min, max } => {
                    lemma_range_scan(step.val, value, st.index, 0, max, st.stack, step);
                    let (j, total, s) = range_scan(step.val, value, st.index, 0, max, st.stack, step);
                    let st2 = MachineState { queue: rest, stack: s, index: j, retries: st.retries };
                    assert forall|k: int|
                        0 <= k < s.len() && !(#[trigger] s[k]).backtrackeable implies s[k].step.rep is Exact by {
                        if k < st.stack.len() {
                            assert(s[k] == s.take(st.stack.len() as int)[k]);
                        }
                    }
                    assert(machine_wf(value, st2));
                    if min matches Some(m) && total < m {
                        lemma_undo(value, st2);
                        if let Some(_) = last_backtrackeable(s) {
                            let q2 = undo_queue(s, step, rest);
                            let rq = requeued(s);
                            lemma_count_loops_concat(rq + seq![step], rest);
                            lemma_count_loops_concat(rq, seq![step]);
                            assert(seq![step].drop_last() =~= Seq::<StepView>::empty());
                            assert(seq![step].last() == step);
                            assert(count_loops(seq![step].drop_last()) == 0);
                            assert forall|k: int| 0 <= k < q2.len() implies !(
                            #[trigger] q2[k].rep is Any) by {
                                if k < rq.len() {
                                    assert(q2[k] == rq[k]);
                                } else if k == rq.len() {
                                    assert(q2[k] == step);
                                } else {
                                    assert(q2[k] == rest[k - rq.len() - 1]);
                                }
                            }
                            let s2 = undo_stack(s);
                            assert forall|k: int|
                                0 <= k < s2.len() && !(#[trigger] s2[k]).backtrackeable implies s2[k].step.rep is Exact by {
                                assert(s2[k] == s[k]);
                            }
                        }
                    }
                },
            },
        }
    }
}

} // verus!
