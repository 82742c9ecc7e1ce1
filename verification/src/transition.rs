//! A guarded transition between two states of a function block.

use vstd::prelude::*;

verus! {

/// Mathematical form of a transition.
pub ghost struct TransView {
    pub id: Seq<char>,
    pub from_state: Seq<char>,
    pub to_state: Seq<char>,
    pub condition: Seq<char>,
    pub raw_expression: Seq<char>,
}

/// One transition of a function block: source and target state ids,
/// the guard text, and a stable id derived from the endpoints.
pub struct Transition {
    pub id: String,
    pub from_state: String,
    pub to_state: String,
    pub condition: String,
    pub raw_expression: String,
}

impl View for Transition {
    type V = TransView;

    open spec fn view(&self) -> TransView {
        TransView {
            id: self.id@,
            from_state: self.from_state@,
            to_state: self.to_state@,
            condition: self.condition@,
            raw_expression: self.raw_expression@,
        }
    }
}

impl DeepView for Transition {
    type V = TransView;

    open spec fn deep_view(&self) -> TransView {
        self.view()
    }
}

impl Clone for Transition {
    fn clone(&self) -> (r: Self)
        ensures
            r@ == self@,
    {
        Transition {
            id: self.id.clone(),
            from_state: self.from_state.clone(),
            to_state: self.to_state.clone(),
            condition: self.condition.clone(),
            raw_expression: self.raw_expression.clone(),
        }
    }
}

/// The view of the transition `Transition::new` builds.
pub open spec fn mk_trans(from: Seq<char>, to: Seq<char>, condition: Seq<char>) -> TransView {
    TransView {
        id: from + "_to_"@ + to,
        from_state: from,
        to_state: to,
        condition: condition,
        raw_expression: condition,
    }
}

impl Transition {
    pub fn new(from: String, to: String, condition: String) -> (r: Self)
        ensures
            r@ == mk_trans(from@, to@, condition@),
    {
        let mut id = from.clone();
        id.append("_to_");
        id.append(to.as_str());
        proof {
            assert(id@ =~= from@ + "_to_"@ + to@);
        }
        let raw_expression = condition.clone();
        Transition { id, from_state: from, to_state: to, condition, raw_expression }
    }
}

} // verus!
