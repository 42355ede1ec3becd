use vstd::prelude::*;

use crate::regex_rep::RegexRep;
use crate::regex_val::{RegexVal, ValView};

verus! {

/// One step of a regular expression: what it matches and how often.
#[derive(Debug)]
pub struct RegexStep {
    pub val: RegexVal,
    pub rep: RegexRep,
}

/// The mathematical value of a [`RegexStep`].
pub struct StepView {
    pub val: ValView,
    pub rep: RegexRep,
}

impl View for RegexStep {
    type V = StepView;

    open spec fn view(&self) -> StepView {
        StepView { val: self.val@, rep: self.rep }
    }
}

/// The views of a sequence of steps.
pub open spec fn steps_view(steps: Seq<RegexStep>) -> Seq<StepView> {
    steps.map_values(|s: RegexStep| s@)
}

impl Clone for RegexVal {
    fn clone(&self) -> (res: Self)
        ensures
            res@ == self@,
    {
        match self {
            RegexVal::Literal(c) => RegexVal::Literal(*c),
            RegexVal::Wildcard => RegexVal::Wildcard,
            RegexVal::Bracket(cs, n) => {
                let copy = cs.clone();
                assert(copy@ =~= cs@);
                RegexVal::Bracket(copy, *n)
            },
            RegexVal::Clase(s, n) => RegexVal::Clase(s.clone(), *n),
            RegexVal::Inicio => RegexVal::Inicio,
            RegexVal::Fin => RegexVal::Fin,
        }
    }
}

impl Clone for RegexStep {
    fn clone(&self) -> (res: Self)
        ensures
            res@ == self@,
    {
        RegexStep { val: self.val.clone(), rep: self.rep }
    }
}

} // verus!
