//! The function block: its ordered state map and transition list, and
//! the builder that turns extracted case-statement data into one.

use vstd::prelude::*;

use crate::imap::{
    find_entry, map_update, state_entries, states_contains_key, states_get, states_insert,
    states_keys, states_len, states_new,
};
use crate::state::{State, StateView};
use crate::strutil::{push_dv, str_eq};
use crate::transition::{mk_trans, TransView, Transition};

verus! {

/// Mathematical form of a function block: its name, the case variable,
/// the ordered state map, and the ordered transition list.
pub ghost struct BlockView {
    pub name: Seq<char>,
    pub case_variable: Seq<char>,
    pub states: Seq<(Seq<char>, StateView)>,
    pub transitions: Seq<TransView>,
}

/// A function block: the states keyed by id in insertion order, and
/// the ordered transitions between them.
pub struct FunctionBlock {
    pub name: String,
    pub case_variable: String,
    pub states: indexmap::IndexMap<String, State>,
    pub transitions: Vec<Transition>,
}

impl View for FunctionBlock {
    type V = BlockView;

    open spec fn view(&self) -> BlockView {
        BlockView {
            name: self.name@,
            case_variable: self.case_variable@,
            states: state_entries(self.states),
            transitions: self.transitions.deep_view(),
        }
    }
}

/// Adding a state: an existing id keeps its place and has its value
/// replaced, a new id is appended.
pub open spec fn add_state_spec(b: BlockView, st: StateView) -> BlockView {
    BlockView {
        states: match find_entry(b.states, st.id) {
            Some(_) => map_update(b.states, st.id, st),
            None => b.states.push((st.id, st)),
        },
        ..b
    }
}

pub open spec fn push_out_id(sv: StateView, id: Seq<char>) -> StateView {
    StateView { transitions_out: sv.transitions_out.push(id), ..sv }
}

pub open spec fn push_in_id(sv: StateView, id: Seq<char>) -> StateView {
    StateView { transitions_in: sv.transitions_in.push(id), ..sv }
}

/// Adding a transition: record the transition id on the source and
/// target states where they exist, and append the transition.
pub open spec fn add_transition_spec(b: BlockView, t: TransView) -> BlockView {
    let e1 = match find_entry(b.states, t.from_state) {
        Some(v) => map_update(b.states, t.from_state, push_out_id(v, t.id)),
        None => b.states,
    };
    let e2 = match find_entry(e1, t.to_state) {
        Some(v) => map_update(e1, t.to_state, push_in_id(v, t.id)),
        None => e1,
    };
    BlockView { states: e2, transitions: b.transitions.push(t), ..b }
}

impl FunctionBlock {
    pub fn new(name: String, case_variable: String) -> (r: Self)
        ensures
            r@ == (BlockView {
                name: name@,
                case_variable: case_variable@,
                states: Seq::empty(),
                transitions: Seq::empty(),
            }),
    {
        let r = FunctionBlock {
            name,
            case_variable,
            states: states_new(),
            transitions: Vec::new(),
        };
        proof {
            assert(r.transitions.deep_view() =~= Seq::<TransView>::empty());
        }
        r
    }

    pub fn add_state(&mut self, state: State)
        ensures
            final(self)@ == add_state_spec(old(self)@, state@),
    {
        let key = state.id.clone();
        states_insert(&mut self.states, key, state);
    }

    pub fn add_transition(&mut self, transition: Transition)
        ensures
            final(self)@ == add_transition_spec(old(self)@, transition@),
    {
        let from_cur: Option<State> = match states_get(&self.states, transition.from_state.as_str())
        {
            Some(s) => Some(s.clone()),
            None => None,
        };
        match from_cur {
            Some(st) => {
                let mut c = st;
                push_dv(&mut c.transitions_out, transition.id.clone());
                states_insert(&mut self.states, transition.from_state.clone(), c);
            },
            None => {},
        }
        let to_cur: Option<State> = match states_get(&self.states, transition.to_state.as_str()) {
            Some(s) => Some(s.clone()),
            None => None,
        };
        match to_cur {
            Some(st) => {
                let mut c = st;
                push_dv(&mut c.transitions_in, transition.id.clone());
                states_insert(&mut self.states, transition.to_state.clone(), c);
            },
            None => {},
        }
        let ghost tv = transition@;
        let ghost before = old(self).transitions.deep_view();
        push_dv(&mut self.transitions, transition);
        proof {
            assert(self.transitions.deep_view() == before.push(tv));
        }
    }

    /// The state with the given id, if present.
    pub fn get_state<'a>(&'a self, id: &str) -> (r: Option<&'a State>)
        ensures
            match r {
                Some(v) => find_entry(self@.states, id@) == Some(v@),
                None => find_entry(self@.states, id@).is_none(),
            },
    {
        states_get(&self.states, id)
    }

    pub fn state_count(&self) -> (r: usize)
        ensures
            r == self@.states.len(),
    {
        states_len(&self.states)
    }

    pub fn transition_count(&self) -> (r: usize)
        ensures
            r == self@.transitions.len(),
    {
        proof {
            assert(self.transitions.deep_view().len() == self.transitions@.len());
        }
        self.transitions.len()
    }

    /// The state ids in insertion order.
    pub fn state_ids(&self) -> (r: Vec<String>)
        ensures
            r@.len() == self@.states.len(),
            forall|i: int| 0 <= i < r@.len() ==> r@[i]@ == (#[trigger] self@.states[i]).0,
    {
        states_keys(&self.states)
    }
}

/// One assignment inside an `IF` body: a variable and the value
/// assigned to it.
pub struct Assignment {
    pub variable: String,
    pub value: String,
}

/// Mathematical form of an assignment.
pub ghost struct AssignView {
    pub variable: Seq<char>,
    pub value: Seq<char>,
}

impl View for Assignment {
    type V = AssignView;

    open spec fn view(&self) -> AssignView {
        AssignView { variable: self.variable@, value: self.value@ }
    }
}

impl DeepView for Assignment {
    type V = AssignView;

    open spec fn deep_view(&self) -> AssignView {
        self.view()
    }
}

/// One `IF` statement of a case arm: its guard text and the
/// assignments in its body.
pub struct IfStatement {
    pub condition: String,
    pub assignments: Vec<Assignment>,
}

pub ghost struct IfStmtView {
    pub condition: Seq<char>,
    pub assignments: Seq<AssignView>,
}

impl View for IfStatement {
    type V = IfStmtView;

    open spec fn view(&self) -> IfStmtView {
        IfStmtView { condition: self.condition@, assignments: self.assignments.deep_view() }
    }
}

impl DeepView for IfStatement {
    type V = IfStmtView;

    open spec fn deep_view(&self) -> IfStmtView {
        self.view()
    }
}

/// One arm of the case statement: the state id it dispatches on and
/// the `IF` statements in its body.
pub struct CaseElement {
    pub state_id: String,
    pub if_statements: Vec<IfStatement>,
}

pub ghost struct CaseElemView {
    pub state_id: Seq<char>,
    pub if_statements: Seq<IfStmtView>,
}

impl View for CaseElement {
    type V = CaseElemView;

    open spec fn view(&self) -> CaseElemView {
        CaseElemView { state_id: self.state_id@, if_statements: self.if_statements.deep_view() }
    }
}

impl DeepView for CaseElement {
    type V = CaseElemView;

    open spec fn deep_view(&self) -> CaseElemView {
        self.view()
    }
}

/// What the extractor hands over for one function block: its name, the
/// case variable, and the case arms.
pub struct FunctionBlockData {
    pub name: String,
    pub case_variable: String,
    pub case_elements: Vec<CaseElement>,
}

pub ghost struct BlockDataView {
    pub name: Seq<char>,
    pub case_variable: Seq<char>,
    pub case_elements: Seq<CaseElemView>,
}

impl View for FunctionBlockData {
    type V = BlockDataView;

    open spec fn view(&self) -> BlockDataView {
        BlockDataView {
            name: self.name@,
            case_variable: self.case_variable@,
            case_elements: self.case_elements.deep_view(),
        }
    }
}

/// The fresh state a case arm introduces.
pub open spec fn new_state_view(id: Seq<char>) -> StateView {
    StateView { id: id, name: None, transitions_out: Seq::empty(), transitions_in: Seq::empty() }
}

/// First pass of the builder: one state per case arm, in order.
pub open spec fn apply_arm_states(b: BlockView, elems: Seq<CaseElemView>) -> BlockView
    decreases elems.len(),
{
    if elems.len() == 0 {
        b
    } else {
        apply_arm_states(add_state_spec(b, new_state_view(elems[0].state_id)), elems.skip(1))
    }
}

/// One assignment of an `IF` body: an assignment to the case variable
/// yields a transition to the assigned state, whose target state is
/// created if missing. The empty guard becomes the sentinel
/// `"No Check"`.
pub open spec fn apply_assign(
    b: BlockView,
    from: Seq<char>,
    condition: Seq<char>,
    a: AssignView,
    case_var: Seq<char>,
) -> BlockView {
    if a.variable == case_var {
        let guard = if condition.len() == 0 {
            "No Check"@
        } else {
            condition
        };
        let t = mk_trans(from, a.value, guard);
        let b1 = if find_entry(b.states, a.value).is_none() {
            add_state_spec(b, new_state_view(a.value))
        } else {
            b
        };
        add_transition_spec(b1, t)
    } else {
        b
    }
}

pub open spec fn apply_assigns(
    b: BlockView,
    from: Seq<char>,
    condition: Seq<char>,
    assigns: Seq<AssignView>,
    case_var: Seq<char>,
) -> BlockView
    decreases assigns.len(),
{
    if assigns.len() == 0 {
        b
    } else {
        apply_assigns(
            apply_assign(b, from, condition, assigns[0], case_var),
            from,
            condition,
            assigns.skip(1),
            case_var,
        )
    }
}

pub open spec fn apply_stmts(
    b: BlockView,
    from: Seq<char>,
    stmts: Seq<IfStmtView>,
    case_var: Seq<char>,
) -> BlockView
    decreases stmts.len(),
{
    if stmts.len() == 0 {
        b
    } else {
        apply_stmts(
            apply_assigns(b, from, stmts[0].condition, stmts[0].assignments, case_var),
            from,
            stmts.skip(1),
            case_var,
        )
    }
}

/// Second pass of the builder: the transitions of every case arm, in
/// order.
pub open spec fn apply_arm_transitions(
    b: BlockView,
    elems: Seq<CaseElemView>,
    case_var: Seq<char>,
) -> BlockView
    decreases elems.len(),
{
    if elems.len() == 0 {
        b
    } else {
        apply_arm_transitions(
            apply_stmts(b, elems[0].state_id, elems[0].if_statements, case_var),
            elems.skip(1),
            case_var,
        )
    }
}

/// The function block built from extracted case data.
pub open spec fn build_block_spec(d: BlockDataView) -> BlockView {
    let b0 = BlockView {
        name: d.name,
        case_variable: d.case_variable,
        states: Seq::empty(),
        transitions: Seq::empty(),
    };
    apply_arm_transitions(apply_arm_states(b0, d.case_elements), d.case_elements, d.case_variable)
}

/// Build a function block from the extractor's case data: one state
/// per case arm, then one transition for every assignment to the case
/// variable inside an `IF` statement, creating missing target states.
pub fn build_function_block(data: &FunctionBlockData) -> (r: FunctionBlock)
    ensures
        r@ == build_block_spec(data@),
{
    let ghost dv = data@;
    let mut fb = FunctionBlock::new(data.name.clone(), data.case_variable.clone());
    let n = data.case_elements.len();
    proof {
        assert(dv.case_elements.len() == data.case_elements@.len());
        assert(fb@ == build_start(dv));
        assert(dv.case_elements.skip(0) =~= dv.case_elements);
    }
    // first pass: one state per case arm
    let mut i: usize = 0;
    while i < n
        invariant
            i <= n,
            n == data.case_elements@.len(),
            dv == data@,
            dv.case_elements.len() == n,
            apply_arm_states(fb@, dv.case_elements.skip(i as int)) == apply_arm_states(
                build_start(dv),
                dv.case_elements,
            ),
        decreases n - i,
    {
        proof {
            assert(dv.case_elements.skip(i as int)[0] == dv.case_elements[i as int]);
            assert(dv.case_elements.skip(i as int).skip(1) =~= dv.case_elements.skip(i + 1));
            assert(data.case_elements[i as int]@ == dv.case_elements[i as int]);
        }
        let st = State::new(data.case_elements[i].state_id.clone());
        fb.add_state(st);
        i = i + 1;
    }
    proof {
        assert(dv.case_elements.skip(n as int).len() == 0);
        assert(apply_arm_states(fb@, dv.case_elements.skip(n as int)) == fb@);
        assert(dv.case_elements.skip(0) =~= dv.case_elements);
    }
    // second pass: the transitions
    let mut i: usize = 0;
    while i < n
        invariant
            i <= n,
            n == data.case_elements@.len(),
            dv == data@,
            dv.case_elements.len() == n,
            apply_arm_transitions(fb@, dv.case_elements.skip(i as int), dv.case_variable)
                == build_block_spec(dv),
        decreases n - i,
    {
        proof {
            assert(dv.case_elements.skip(i as int)[0] == dv.case_elements[i as int]);
            assert(dv.case_elements.skip(i as int).skip(1) =~= dv.case_elements.skip(i + 1));
            assert(data.case_elements[i as int]@ == dv.case_elements[i as int]);
        }
        let elem = &data.case_elements[i];
        let ghost ev = dv.case_elements[i as int];
        let ghost arm_start = fb@;
        let m = elem.if_statements.len();
        proof {
            assert(ev.if_statements.len() == elem.if_statements@.len());
            assert(ev.if_statements.skip(0) =~= ev.if_statements);
        }
        let mut j: usize = 0;
        while j < m
            invariant
                j <= m,
                m == elem.if_statements@.len(),
                ev == elem@,
                ev.if_statements.len() == m,
                dv == data@,
                apply_stmts(fb@, ev.state_id, ev.if_statements.skip(j as int), dv.case_variable)
                    == apply_stmts(arm_start, ev.state_id, ev.if_statements, dv.case_variable),
            decreases m - j,
        {
            proof {
                assert(ev.if_statements.skip(j as int)[0] == ev.if_statements[j as int]);
                assert(ev.if_statements.skip(j as int).skip(1) =~= ev.if_statements.skip(j + 1));
                assert(elem.if_statements[j as int]@ == ev.if_statements[j as int]);
            }
            let stmt = &elem.if_statements[j];
            let ghost sv = ev.if_statements[j as int];
            let ghost stmt_start = fb@;
            let k_count = stmt.assignments.len();
            proof {
                assert(sv.assignments.len() == stmt.assignments@.len());
                assert(sv.assignments.skip(0) =~= sv.assignments);
            }
            let mut k: usize = 0;
            while k < k_count
                invariant
                    k <= k_count,
                    k_count == stmt.assignments@.len(),
                    sv == stmt@,
                    sv.assignments.len() == k_count,
                    ev == elem@,
                    dv == data@,
                    apply_assigns(
                        fb@,
                        ev.state_id,
                        sv.condition,
                        sv.assignments.skip(k as int),
                        dv.case_variable,
                    ) == apply_assigns(
                        stmt_start,
                        ev.state_id,
                        sv.condition,
                        sv.assignments,
                        dv.case_variable,
                    ),
                decreases k_count - k,
            {
                proof {
                    assert(sv.assignments.skip(k as int)[0] == sv.assignments[k as int]);
                    assert(sv.assignments.skip(k as int).skip(1) =~= sv.assignments.skip(k + 1));
                    assert(stmt.assignments[k as int]@ == sv.assignments[k as int]);
                }
                let assignment = &stmt.assignments[k];
                let ghost before_assign = fb@;
                let ghost av = sv.assignments[k as int];
                if str_eq(assignment.variable.as_str(), data.case_variable.as_str()) {
                    let next_state = assignment.value.clone();
                    let condition = if stmt.condition.as_str().unicode_len() == 0 {
                        String::from_str("No Check")
                    } else {
                        stmt.condition.clone()
                    };
                    proof {
                        assert(condition@ == if sv.condition.len() == 0 {
                            "No Check"@
                        } else {
                            sv.condition
                        });
                    }
                    let t = Transition::new(elem.state_id.clone(), next_state.clone(), condition);
                    if !states_contains_key(&fb.states, next_state.as_str()) {
                        fb.add_state(State::new(next_state));
                    }
                    fb.add_transition(t);
                    proof {
                        assert(av.variable == dv.case_variable);
                        assert(fb@ == apply_assign(
                            before_assign,
                            ev.state_id,
                            sv.condition,
                            av,
                            dv.case_variable,
                        ));
                    }
                } else {
                    proof {
                        assert(av.variable != dv.case_variable);
                        assert(fb@ == apply_assign(
                            before_assign,
                            ev.state_id,
                            sv.condition,
                            av,
                            dv.case_variable,
                        ));
                    }
                }
                k = k + 1;
            }
            proof {
                assert(sv.assignments.skip(k_count as int).len() == 0);
                assert(apply_assigns(
                    fb@,
                    ev.state_id,
                    sv.condition,
                    sv.assignments.skip(k_count as int),
                    dv.case_variable,
                ) == fb@);
            }
            j = j + 1;
        }
        proof {
            assert(ev.if_statements.skip(m as int).len() == 0);
            assert(apply_stmts(
                fb@,
                ev.state_id,
                ev.if_statements.skip(m as int),
                dv.case_variable,
            ) == fb@);
        }
        i = i + 1;
    }
    proof {
        assert(dv.case_elements.skip(n as int).len() == 0);
        assert(apply_arm_transitions(
            fb@,
            dv.case_elements.skip(n as int),
            dv.case_variable,
        ) == fb@);
    }
    fb
}

/// The block view at the start of the builder.
pub open spec fn build_start(d: BlockDataView) -> BlockView {
    BlockView {
        name: d.name,
        case_variable: d.case_variable,
        states: Seq::empty(),
        transitions: Seq::empty(),
    }
}

} // verus!