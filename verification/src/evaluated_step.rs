use vstd::prelude::*;

use crate::regex_step::{RegexStep, StepView};

verus! {

/// A step that has already consumed input, kept so that it can be undone.
#[derive(Debug)]
pub struct EvaluatedStep {
    pub step: RegexStep,
    pub match_size: usize,
    pub backtrackeable: bool,
}

/// The mathematical value of an [`EvaluatedStep`].
pub struct EvalView {
    pub step: StepView,
    pub match_size: nat,
    pub backtrackeable: bool,
}

impl View for EvaluatedStep {
    type V = EvalView;

    open spec fn view(&self) -> EvalView {
        EvalView {
            step: self.step@,
            match_size: self.match_size as nat,
            backtrackeable: self.backtrackeable,
        }
    }
}

/// The views of a sequence of evaluated steps.
pub open spec fn evals_view(entries: Seq<EvaluatedStep>) -> Seq<EvalView> {
    entries.map_values(|e: EvaluatedStep| e@)
}

} // verus!
