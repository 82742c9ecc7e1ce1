//! Structural checks over the state graph: dead-end states, dangling
//! transition references, and the states no walk can reach.

use vstd::prelude::*;

use crate::block::{BlockView, FunctionBlock};
use crate::imap::{find_entry, lemma_find_entry_some, states_contains_key, states_keys, states_values};
use crate::paths::{contains_str, initial_ids, lemma_universe_finite, lemma_universe_has_state, lemma_universe_has_target, universe, PathFinder};
use crate::state::StateView;
use crate::strutil::{push_dv, str_eq};

verus! {

/// The ids of the states with no outgoing transitions, in insertion
/// order.
pub open spec fn dead_ids(entries: Seq<(Seq<char>, StateView)>) -> Seq<Seq<char>>
    decreases entries.len(),
{
    if entries.len() == 0 {
        Seq::empty()
    } else {
        (if entries[0].1.transitions_out.len() == 0 {
            seq![entries[0].0]
        } else {
            Seq::empty()
        }) + dead_ids(entries.skip(1))
    }
}

/// The first dangling state reference among the transitions, scanning
/// them in order and each transition's source before its target.
pub open spec fn first_bad_ref(b: BlockView) -> Option<Seq<char>>
    decreases b.transitions.len(),
{
    if b.transitions.len() == 0 {
        None
    } else if find_entry(b.states, b.transitions[0].from_state).is_none() {
        Some(b.transitions[0].from_state)
    } else if find_entry(b.states, b.transitions[0].to_state).is_none() {
        Some(b.transitions[0].to_state)
    } else {
        first_bad_ref(BlockView { transitions: b.transitions.skip(1), ..b })
    }
}

/// Where the reachability walk starts: the states with no incoming
/// transitions; failing that, state `"100"` if present, else the first
/// state in insertion order.
pub open spec fn walk_starts(b: BlockView) -> Seq<Seq<char>> {
    if initial_ids(b.states).len() > 0 {
        initial_ids(b.states)
    } else if find_entry(b.states, "100"@).is_some() {
        seq!["100"@]
    } else if b.states.len() > 0 {
        seq![b.states[0].0]
    } else {
        Seq::empty()
    }
}

/// The id can be reached from the start set in at most `n` transition
/// steps.
pub open spec fn reach_n(b: BlockView, id: Seq<char>, n: nat) -> bool
    decreases n,
{
    if walk_starts(b).contains(id) {
        true
    } else if n == 0 {
        false
    } else {
        exists|t: int|
            0 <= t < b.transitions.len() && (#[trigger] b.transitions[t]).to_state == id
                && reach_n(b, b.transitions[t].from_state, (n - 1) as nat)
    }
}

/// The id can be reached from the start set.
pub open spec fn reachable(b: BlockView, id: Seq<char>) -> bool {
    exists|n: nat| reach_n(b, id, n)
}

/// The ids of the states the walk never reaches, in insertion order.
pub open spec fn unreachable_from(b: BlockView, entries: Seq<(Seq<char>, StateView)>) -> Seq<
    Seq<char>,
>
    decreases entries.len(),
{
    if entries.len() == 0 {
        Seq::empty()
    } else {
        (if !reachable(b, entries[0].0) {
            seq![entries[0].0]
        } else {
            Seq::empty()
        }) + unreachable_from(b, entries.skip(1))
    }
}

pub open spec fn unreachable_ids(b: BlockView) -> Seq<Seq<char>> {
    unreachable_from(b, b.states)
}

/// One transition step preserves reachability.
proof fn lemma_reach_step(b: BlockView, t: int)
    requires
        0 <= t < b.transitions.len(),
        reachable(b, b.transitions[t].from_state),
    ensures
        reachable(b, b.transitions[t].to_state),
{
    let n = choose|n: nat| reach_n(b, b.transitions[t].from_state, n);
    assert(reach_n(b, b.transitions[t].to_state, n + 1));
}

/// A set that holds the start ids and is closed under the transitions
/// holds every reachable id.
proof fn lemma_closed_covers(b: BlockView, s: Set<Seq<char>>, id: Seq<char>, n: nat)
    requires
        forall|j: int| 0 <= j < walk_starts(b).len() ==> s.contains(#[trigger] walk_starts(b)[j]),
        forall|t: int|
            0 <= t < b.transitions.len() && s.contains(
                (#[trigger] b.transitions[t]).from_state,
            ) ==> s.contains(b.transitions[t].to_state),
        reach_n(b, id, n),
    ensures
        s.contains(id),
    decreases n,
{
    if walk_starts(b).contains(id) {
        let j = choose|j: int| 0 <= j < walk_starts(b).len() && walk_starts(b)[j] == id;
    } else {
        let t = choose|t: int|
            0 <= t < b.transitions.len() && (#[trigger] b.transitions[t]).to_state == id
                && reach_n(b, b.transitions[t].from_state, (n - 1) as nat);
        lemma_closed_covers(b, s, b.transitions[t].from_state, (n - 1) as nat);
    }
}

/// Every start id lies in the walk's universe.
proof fn lemma_starts_in_universe(b: BlockView)
    ensures
        forall|j: int|
            0 <= j < walk_starts(b).len() ==> universe(b).contains(#[trigger] walk_starts(b)[j]),
{
    assert forall|j: int| 0 <= j < walk_starts(b).len() implies universe(b).contains(
        #[trigger] walk_starts(b)[j],
    ) by {
        if initial_ids(b.states).len() > 0 {
            let ids = initial_ids(b.states);
            assert(ids.contains(ids[j]));
            crate::paths::lemma_initial_ids_are_states(b.states, ids[j]);
            let i = choose|i: int|
                0 <= i < b.states.len() && (#[trigger] b.states[i]).0 == ids[j];
            lemma_universe_has_state(b, i);
        } else if find_entry(b.states, "100"@).is_some() {
            lemma_find_entry_some(b.states, "100"@);
            let i = choose|i: int|
                0 <= i < b.states.len() && (#[trigger] b.states[i]).0 == "100"@;
            lemma_universe_has_state(b, i);
        } else {
            lemma_universe_has_state(b, 0);
        }
    }
}

/// Structural checks over a function block's state graph.
pub struct FsmValidator;

impl FsmValidator {
    /// The states no transition leaves: dead ends of the machine.
    pub fn find_dead_states(fb: &FunctionBlock) -> (r: Vec<String>)
        ensures
            r.deep_view() == dead_ids(fb@.states),
    {
        let values = states_values(&fb.states);
        let keys = states_keys(&fb.states);
        let ghost entries = fb@.states;
        let n = keys.len();
        let mut r: Vec<String> = Vec::new();
        proof {
            assert(r.deep_view() =~= Seq::<Seq<char>>::empty());
            assert(entries.skip(0) =~= entries);
        }
        let mut i: usize = 0;
        while i < n
            invariant
                i <= n,
                n == keys@.len(),
                n == values@.len(),
                entries == fb@.states,
                entries.len() == n,
                forall|j: int| 0 <= j < n ==> keys@[j]@ == (#[trigger] entries[j]).0,
                forall|j: int| 0 <= j < n ==> values@[j]@ == (#[trigger] entries[j]).1,
                r.deep_view() + dead_ids(entries.skip(i as int)) == dead_ids(entries),
            decreases n - i,
        {
            proof {
                assert(entries.skip(i as int)[0] == entries[i as int]);
                assert(entries.skip(i as int).skip(1) =~= entries.skip(i + 1));
            }
            if values[i].transitions_out.len() == 0 {
                proof {
                    assert(values@[i as int]@.transitions_out.len() == 0) by {
                        assert(values@[i as int]@.transitions_out == values[
                            i as int
                        ].transitions_out.deep_view());
                        assert(values[i as int].transitions_out.deep_view().len() == values[
                            i as int
                        ].transitions_out@.len());
                    }
                    assert(dead_ids(entries.skip(i as int)) == seq![entries[i as int].0]
                        + dead_ids(entries.skip(i + 1)));
                }
                let ghost rb = r.deep_view();
                push_dv(&mut r, keys[i].clone());
                proof {
                    assert(r.deep_view() == rb.push(entries[i as int].0));
                    assert(rb.push(entries[i as int].0) + dead_ids(entries.skip(i + 1)) =~= rb
                        + (seq![entries[i as int].0] + dead_ids(entries.skip(i + 1))));
                }
            } else {
                proof {
                    assert(values@[i as int]@.transitions_out.len() != 0) by {
                        assert(values@[i as int]@.transitions_out == values[
                            i as int
                        ].transitions_out.deep_view());
                        assert(values[i as int].transitions_out.deep_view().len() == values[
                            i as int
                        ].transitions_out@.len());
                    }
                    assert(dead_ids(entries.skip(i as int)) == dead_ids(entries.skip(i + 1)));
                }
            }
            i = i + 1;
        }
        proof {
            assert(entries.skip(n as int).len() == 0);
            assert(dead_ids(entries.skip(n as int)) =~= Seq::<Seq<char>>::empty());
            assert(r.deep_view() + Seq::<Seq<char>>::empty() =~= r.deep_view());
        }
        r
    }

    /// The states no walk from the inferred start set can reach.
    pub fn find_unreachable_states(fb: &FunctionBlock) -> (r: Vec<String>)
        ensures
            r.deep_view() == unreachable_ids(fb@),
    {
        let ghost b = fb@;
        proof {
            lemma_universe_finite(b);
            lemma_starts_in_universe(b);
        }
        let keys = states_keys(&fb.states);
        let n_states = keys.len();
        if n_states == 0 {
            let r: Vec<String> = Vec::new();
            proof {
                assert(b.states.len() == 0);
                assert(unreachable_ids(b) =~= Seq::<Seq<char>>::empty());
                assert(r.deep_view() =~= Seq::<Seq<char>>::empty());
            }
            return r;
        }
        // seed the worklist with the start states
        let initial_states = PathFinder::find_initial_states(fb);
        let mut queue: Vec<String>;
        proof {
            assert(initial_states.deep_view().len() == initial_states@.len());
            reveal_strlit("100");
        }
        if initial_states.len() == 0 {
            queue = Vec::new();
            proof {
                assert(initial_ids(b.states).len() == 0);
            }
            if states_contains_key(&fb.states, "100") {
                push_dv(&mut queue, String::from_str("100"));
                proof {
                    assert(queue.deep_view() =~= seq!["100"@]);
                }
            } else {
                push_dv(&mut queue, keys[0].clone());
                proof {
                    assert(queue.deep_view() =~= seq![b.states[0].0]);
                }
            }
        } else {
            queue = initial_states;
        }
        proof {
            assert(queue.deep_view() == walk_starts(b));
            assert forall|j: int| 0 <= j < queue.deep_view().len() implies reachable(
                b,
                #[trigger] queue.deep_view()[j],
            ) && universe(b).contains(queue.deep_view()[j]) by {
                assert(walk_starts(b).contains(walk_starts(b)[j]));
                assert(reach_n(b, walk_starts(b)[j], 0));
            }
        }
        let mut reached: Vec<String> = Vec::new();
        let mut qi: usize = 0;
        proof {
            assert(reached.deep_view() =~= Seq::<Seq<char>>::empty());
        }
        loop
            invariant
                b == fb@,
                universe(b).finite(),
                qi <= queue@.len(),
                queue.deep_view().len() == queue@.len(),
                reached.deep_view().len() == reached@.len(),
                forall|j: int|
                    0 <= j < queue.deep_view().len() ==> reachable(
                        b,
                        #[trigger] queue.deep_view()[j],
                    ) && universe(b).contains(queue.deep_view()[j]),
                forall|j: int|
                    0 <= j < reached.deep_view().len() ==> reachable(
                        b,
                        #[trigger] reached.deep_view()[j],
                    ),
                forall|j: int|
                    0 <= j < walk_starts(b).len() ==> reached.deep_view().contains(
                        #[trigger] walk_starts(b)[j],
                    ) || (exists|k: int|
                        qi <= k < queue.deep_view().len() && queue.deep_view()[k] == walk_starts(
                            b,
                        )[j]),
                forall|t: int|
                    0 <= t < b.transitions.len() && reached.deep_view().contains(
                        (#[trigger] b.transitions[t]).from_state,
                    ) ==> reached.deep_view().contains(b.transitions[t].to_state) || (exists|
                        k: int,
                    |
                        qi <= k < queue.deep_view().len() && queue.deep_view()[k]
                            == b.transitions[t].to_state),
            ensures
                b == fb@,
                forall|j: int|
                    0 <= j < reached.deep_view().len() ==> reachable(
                        b,
                        #[trigger] reached.deep_view()[j],
                    ),
                forall|j: int|
                    0 <= j < walk_starts(b).len() ==> reached.deep_view().contains(
                        #[trigger] walk_starts(b)[j],
                    ),
                forall|t: int|
                    0 <= t < b.transitions.len() && reached.deep_view().contains(
                        (#[trigger] b.transitions[t]).from_state,
                    ) ==> reached.deep_view().contains(b.transitions[t].to_state),
            decreases universe(b).difference(reached.deep_view().to_set()).len(),
                queue@.len() - qi,
        {
            if qi >= queue.len() {
                break;
            }
            let ghost queue_before = queue.deep_view();
            let ghost reached_before = reached.deep_view();
            let ghost qi_before = qi as int;
            let current = queue[qi].clone();
            proof {
                assert(current@ == queue_before[qi_before]);
                assert(reachable(b, current@));
                assert(universe(b).contains(current@));
            }
            qi = qi + 1;
            if !contains_str(&reached, current.as_str()) {
                proof {
                    assert(!reached_before.contains(current@));
                    assert(!reached_before.to_set().contains(current@));
                    universe(b).lemma_set_insert_diff_decreases(
                        reached_before.to_set(),
                        current@,
                    );
                }
                push_dv(&mut reached, current.clone());
                proof {
                    assert(reached.deep_view() == reached_before.push(current@));
                    assert(reached.deep_view().to_set() =~= reached_before.to_set().insert(
                        current@,
                    )) by {
                        reached_before.lemma_push_to_set_commute(current@);
                    }
                }
                let ghost reached_now = reached.deep_view();
                let ntrans = fb.transitions.len();
                proof {
                    assert(b.transitions.len() == ntrans);
                }
                let mut t: usize = 0;
                while t < ntrans
                    invariant
                        b == fb@,
                        universe(b).finite(),
                        ntrans == b.transitions.len(),
                        ntrans == fb.transitions@.len(),
                        qi <= queue@.len(),
                        queue.deep_view().len() == queue@.len(),
                        reached.deep_view() == reached_now,
                        reached.deep_view().len() == reached@.len(),
                        reachable(b, current@),
                        universe(b).contains(current@),
                        forall|j: int|
                            0 <= j < queue_before.len() ==> queue.deep_view()[j]
                                == #[trigger] queue_before[j],
                        queue_before.len() <= queue.deep_view().len(),
                        forall|j: int|
                            0 <= j < queue.deep_view().len() ==> reachable(
                                b,
                                #[trigger] queue.deep_view()[j],
                            ) && universe(b).contains(queue.deep_view()[j]),
                        forall|tp: int|
                            0 <= tp < t && (#[trigger] b.transitions[tp]).from_state == current@
                                ==> exists|k: int|
                                qi <= k < queue.deep_view().len() && queue.deep_view()[k]
                                    == b.transitions[tp].to_state,
                    decreases ntrans - t,
                {
                    proof {
                        assert(fb.transitions[t as int]@ == b.transitions[t as int]);
                    }
                    let from_matches = str_eq(
                        fb.transitions[t].from_state.as_str(),
                        current.as_str(),
                    );
                    if from_matches {
                        let to = fb.transitions[t].to_state.clone();
                        proof {
                            assert(to@ == b.transitions[t as int].to_state);
                            lemma_reach_step(b, t as int);
                            lemma_universe_has_target(b, t as int);
                        }
                        let ghost qprev = queue.deep_view();
                        push_dv(&mut queue, to);
                        proof {
                            let tov = b.transitions[t as int].to_state;
                            assert(queue.deep_view() == qprev.push(tov));
                            assert(queue.deep_view()[qprev.len() as int] == tov);
                            assert(qi <= qprev.len());
                            assert(b.transitions[t as int].from_state == current@);
                            assert(reachable(b, tov));
                            assert forall|j: int| 0 <= j < queue.deep_view().len() implies
                                reachable(b, #[trigger] queue.deep_view()[j]) && universe(
                                b,
                            ).contains(queue.deep_view()[j]) by {
                                if j < qprev.len() {
                                    assert(queue.deep_view()[j] == qprev[j]);
                                } else {
                                    assert(queue.deep_view()[j] == tov);
                                }
                            }
                            assert forall|tp: int|
                                0 <= tp <= t && (#[trigger] b.transitions[tp]).from_state
                                    == current@ implies exists|k: int|
                                qi <= k < queue.deep_view().len() && queue.deep_view()[k]
                                    == b.transitions[tp].to_state by {
                                if tp < t {
                                    let k = choose|k: int|
                                        qi <= k < qprev.len() && qprev[k] == b.transitions[
                                            tp
                                        ].to_state;
                                    assert(queue.deep_view()[k] == b.transitions[tp].to_state);
                                } else {
                                    assert(queue.deep_view()[qprev.len() as int]
                                        == b.transitions[tp].to_state);
                                }
                            }
                        }
                    } else {
                        proof {
                            assert(b.transitions[t as int].from_state != current@);
                        }
                    }
                    t = t + 1;
                }
                proof {
                    // the two worklist facts survive the pop and pushes
                    assert forall|j: int| 0 <= j < walk_starts(b).len() implies reached_now
                        .contains(#[trigger] walk_starts(b)[j]) || (exists|k: int|
                        qi <= k < queue.deep_view().len() && queue.deep_view()[k] == walk_starts(
                            b,
                        )[j]) by {
                        if reached_before.contains(walk_starts(b)[j]) {
                            let m = choose|m: int|
                                0 <= m < reached_before.len() && reached_before[m]
                                    == walk_starts(b)[j];
                            assert(reached_now[m] == walk_starts(b)[j]);
                        } else {
                            let k = choose|k: int|
                                qi_before <= k < queue_before.len() && queue_before[k]
                                    == walk_starts(b)[j];
                            if k == qi_before {
                                assert(reached_now[reached_now.len() - 1] == current@);
                            } else {
                                assert(queue.deep_view()[k] == walk_starts(b)[j]);
                            }
                        }
                    }
                    assert forall|tr: int|
                        0 <= tr < b.transitions.len() && reached_now.contains(
                            (#[trigger] b.transitions[tr]).from_state,
                        ) implies reached_now.contains(b.transitions[tr].to_state) || (exists|
                        k: int,
                    |
                        qi <= k < queue.deep_view().len() && queue.deep_view()[k]
                            == b.transitions[tr].to_state) by {
                        let from = b.transitions[tr].from_state;
                        if from == current@ {
                        } else {
                            let m = choose|m: int|
                                0 <= m < reached_now.len() && reached_now[m] == from;
                            assert(m < reached_before.len());
                            assert(reached_before[m] == from);
                            assert(reached_before.contains(from));
                            if reached_before.contains(b.transitions[tr].to_state) {
                                let w = choose|w: int|
                                    0 <= w < reached_before.len() && reached_before[w]
                                        == b.transitions[tr].to_state;
                                assert(reached_now[w] == b.transitions[tr].to_state);
                            } else {
                                let k = choose|k: int|
                                    qi_before <= k < queue_before.len() && queue_before[k]
                                        == b.transitions[tr].to_state;
                                if k == qi_before {
                                    assert(reached_now[reached_now.len() - 1] == current@);
                                } else {
                                    assert(queue.deep_view()[k] == b.transitions[
                                        tr
                                    ].to_state);
                                }
                            }
                        }
                    }
                }
            } else {
                proof {
                    assert(reached_before.contains(current@));
                    assert forall|j: int| 0 <= j < walk_starts(b).len() implies reached
                        .deep_view()
                        .contains(#[trigger] walk_starts(b)[j]) || (exists|k: int|
                        qi <= k < queue.deep_view().len() && queue.deep_view()[k] == walk_starts(
                            b,
                        )[j]) by {
                        if !reached_before.contains(walk_starts(b)[j]) {
                            let k = choose|k: int|
                                qi_before <= k < queue_before.len() && queue_before[k]
                                    == walk_starts(b)[j];
                            if k == qi_before {
                                assert(walk_starts(b)[j] == current@);
                            } else {
                                assert(queue.deep_view()[k] == walk_starts(b)[j]);
                            }
                        }
                    }
                    assert forall|tr: int|
                        0 <= tr < b.transitions.len() && reached.deep_view().contains(
                            (#[trigger] b.transitions[tr]).from_state,
                        ) implies reached.deep_view().contains(b.transitions[tr].to_state) || (
                    exists|k: int|
                        qi <= k < queue.deep_view().len() && queue.deep_view()[k]
                            == b.transitions[tr].to_state) by {
                        if !reached_before.contains(b.transitions[tr].to_state) {
                            if reached_before.contains(b.transitions[tr].from_state) {
                                let k = choose|k: int|
                                    qi_before <= k < queue_before.len() && queue_before[k]
                                        == b.transitions[tr].to_state;
                                if k == qi_before {
                                    assert(b.transitions[tr].to_state == current@);
                                } else {
                                    assert(queue.deep_view()[k] == b.transitions[
                                        tr
                                    ].to_state);
                                }
                            }
                        }
                    }
                }
            }
        }
        // the worklist is drained: the reached list holds exactly the
        // reachable ids
        proof {
            let rset = reached.deep_view().to_set();
            assert(forall|j: int|
                0 <= j < walk_starts(b).len() ==> rset.contains(#[trigger] walk_starts(b)[j]));
            assert(forall|t: int|
                0 <= t < b.transitions.len() && rset.contains(
                    (#[trigger] b.transitions[t]).from_state,
                ) ==> rset.contains(b.transitions[t].to_state));
            assert forall|id: Seq<char>| reachable(b, id) implies reached.deep_view().contains(
                id,
            ) by {
                let n = choose|n: nat| reach_n(b, id, n);
                lemma_closed_covers(b, rset, id, n);
            }
        }
        // keep the states the walk never reached, in insertion order
        let ghost entries = b.states;
        let mut result: Vec<String> = Vec::new();
        proof {
            assert(result.deep_view() =~= Seq::<Seq<char>>::empty());
            assert(entries.skip(0) =~= entries);
        }
        let mut i: usize = 0;
        while i < n_states
            invariant
                i <= n_states,
                n_states == keys@.len(),
                b == fb@,
                entries == b.states,
                entries.len() == n_states,
                forall|j: int| 0 <= j < n_states ==> keys@[j]@ == (#[trigger] entries[j]).0,
                forall|j: int|
                    0 <= j < reached.deep_view().len() ==> reachable(
                        b,
                        #[trigger] reached.deep_view()[j],
                    ),
                forall|id: Seq<char>| reachable(b, id) ==> reached.deep_view().contains(id),
                result.deep_view() + unreachable_from(b, entries.skip(i as int))
                    == unreachable_from(b, entries),
            decreases n_states - i,
        {
            proof {
                assert(entries.skip(i as int)[0] == entries[i as int]);
                assert(entries.skip(i as int).skip(1) =~= entries.skip(i + 1));
            }
            if !contains_str(&reached, keys[i].as_str()) {
                proof {
                    assert(!reached.deep_view().contains(entries[i as int].0));
                    assert(!reachable(b, entries[i as int].0));
                    assert(unreachable_from(b, entries.skip(i as int)) == seq![
                        entries[i as int].0,
                    ] + unreachable_from(b, entries.skip(i + 1)));
                }
                let ghost rb = result.deep_view();
                push_dv(&mut result, keys[i].clone());
                proof {
                    assert(result.deep_view() == rb.push(entries[i as int].0));
                    assert(rb.push(entries[i as int].0) + unreachable_from(
                        b,
                        entries.skip(i + 1),
                    ) =~= rb + (seq![entries[i as int].0] + unreachable_from(
                        b,
                        entries.skip(i + 1),
                    )));
                }
            } else {
                proof {
                    assert(reached.deep_view().contains(entries[i as int].0));
                    let m = choose|m: int|
                        0 <= m < reached.deep_view().len() && reached.deep_view()[m] == entries[
                            i as int
                        ].0;
                    assert(reachable(b, entries[i as int].0));
                    assert(unreachable_from(b, entries.skip(i as int)) == unreachable_from(
                        b,
                        entries.skip(i + 1),
                    ));
                }
            }
            i = i + 1;
        }
        proof {
            assert(entries.skip(n_states as int).len() == 0);
            assert(unreachable_from(b, entries.skip(n_states as int)) =~= Seq::<
                Seq<char>,
            >::empty());
            assert(result.deep_view() + Seq::<Seq<char>>::empty() =~= result.deep_view());
        }
        result
    }

    /// Check that every transition's source and target name existing
    /// states; on failure return the first dangling id.
    pub fn validate_references(fb: &FunctionBlock) -> (r: Result<(), String>)
        ensures
            match r {
                Ok(_) => first_bad_ref(fb@).is_none(),
                Err(m) => first_bad_ref(fb@) == Some(m@),
            },
    {
        let ghost b = fb@;
        let n = fb.transitions.len();
        proof {
            assert(b.transitions.len() == fb.transitions@.len());
            assert(b.transitions.skip(0) =~= b.transitions);
        }
        let mut i: usize = 0;
        while i < n
            invariant
                i <= n,
                n == fb.transitions@.len(),
                b == fb@,
                b.transitions.len() == n,
                first_bad_ref(b) == first_bad_ref(
                    BlockView { transitions: b.transitions.skip(i as int), ..b },
                ),
            decreases n - i,
        {
            proof {
                assert(b.transitions.skip(i as int)[0] == b.transitions[i as int]);
                assert(b.transitions.skip(i as int).skip(1) =~= b.transitions.skip(i + 1));
                assert(fb.transitions[i as int]@ == b.transitions[i as int]);
            }
            if !states_contains_key(&fb.states, fb.transitions[i].from_state.as_str()) {
                return Err(fb.transitions[i].from_state.clone());
            }
            if !states_contains_key(&fb.states, fb.transitions[i].to_state.as_str()) {
                return Err(fb.transitions[i].to_state.clone());
            }
            i = i + 1;
        }
        proof {
            assert(b.transitions.skip(n as int).len() == 0);
            assert(first_bad_ref(BlockView { transitions: b.transitions.skip(n as int), ..b })
                is None);
        }
        Ok(())
    }
}

} // verus!
