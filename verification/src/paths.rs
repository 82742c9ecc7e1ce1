//! The path enumerator: a depth-first traversal from the inferred
//! initial states that records, for every state it touches, the
//! acyclic walks leading there.

use vstd::prelude::*;

use crate::block::{BlockView, FunctionBlock};
use crate::imap::{find_entry, lemma_find_entry_some};
use crate::state::StateView;
use crate::strutil::{push_dv, str_eq};
use crate::transition::TransView;

verus! {

/// Mathematical form of one step of a path.
pub ghost struct StepView {
    pub state_id: Seq<char>,
    pub transition_index: Option<int>,
}

/// One step of a path: the state reached and the index of the
/// transition taken to reach it; the first step of a walk carries no
/// index.
pub struct PathStep {
    pub state_id: String,
    pub transition_index: Option<usize>,
}

impl View for PathStep {
    type V = StepView;

    open spec fn view(&self) -> StepView {
        StepView {
            state_id: self.state_id@,
            transition_index: match self.transition_index {
                Some(i) => Some(i as int),
                None => None,
            },
        }
    }
}

impl DeepView for PathStep {
    type V = StepView;

    open spec fn deep_view(&self) -> StepView {
        self.view()
    }
}

impl Clone for PathStep {
    fn clone(&self) -> (r: Self)
        ensures
            r@ == self@,
    {
        PathStep { state_id: self.state_id.clone(), transition_index: self.transition_index }
    }
}

/// Mathematical form of one recorded walk: the state it ends at and
/// the whole path from an initial state.
pub ghost struct PathRecView {
    pub state_id: Seq<char>,
    pub path: Seq<StepView>,
}

/// One recorded walk of the traversal.
pub struct PathRecord {
    pub state_id: String,
    pub path: Vec<PathStep>,
}

impl View for PathRecord {
    type V = PathRecView;

    open spec fn view(&self) -> PathRecView {
        PathRecView { state_id: self.state_id@, path: self.path.deep_view() }
    }
}

impl DeepView for PathRecord {
    type V = PathRecView;

    open spec fn deep_view(&self) -> PathRecView {
        self.view()
    }
}

/// The ids a walk could ever reach: every state id and every
/// transition target.
pub open spec fn universe(b: BlockView) -> Set<Seq<char>> {
    b.states.map_values(|p: (Seq<char>, StateView)| p.0).to_set().union(
        b.transitions.map_values(|t: TransView| t.to_state).to_set(),
    )
}

pub proof fn lemma_universe_finite(b: BlockView)
    ensures
        universe(b).finite(),
{
    broadcast use vstd::seq_lib::seq_to_set_is_finite;
    broadcast use vstd::set::group_set_axioms;

}

pub proof fn lemma_universe_has_state(b: BlockView, i: int)
    requires
        0 <= i < b.states.len(),
    ensures
        universe(b).contains(b.states[i].0),
{
    let keys = b.states.map_values(|p: (Seq<char>, StateView)| p.0);
    assert(keys[i] == b.states[i].0);
    assert(keys.contains(b.states[i].0));
}

pub proof fn lemma_universe_has_target(b: BlockView, i: int)
    requires
        0 <= i < b.transitions.len(),
    ensures
        universe(b).contains(b.transitions[i].to_state),
{
    let tos = b.transitions.map_values(|t: TransView| t.to_state);
    assert(tos[i] == b.transitions[i].to_state);
    assert(tos.contains(b.transitions[i].to_state));
}

/// The walks recorded by a depth-first visit that stands at `cur`,
/// having taken `path` to get there and marked `visited`: the current
/// path itself, then everything reached through transitions out of
/// `cur` whose targets are unvisited.
pub open spec fn sp_dfs(
    b: BlockView,
    cur: Seq<char>,
    visited: Set<Seq<char>>,
    path: Seq<StepView>,
) -> Seq<PathRecView>
    decreases universe(b).difference(visited.insert(cur)).len(), b.transitions.len() + 1
        when visited.finite() && universe(b).contains(cur) && !visited.contains(cur)
{
    seq![PathRecView { state_id: cur, path }] + sp_dfs_trans(b, cur, visited.insert(cur), path, 0)
}

pub open spec fn sp_dfs_trans(
    b: BlockView,
    cur: Seq<char>,
    visited: Set<Seq<char>>,
    path: Seq<StepView>,
    i: nat,
) -> Seq<PathRecView>
    decreases universe(b).difference(visited).len(), b.transitions.len() - i
        when i <= b.transitions.len() && visited.finite()
    via sp_dfs_trans_decreases
{
    if i >= b.transitions.len() {
        Seq::empty()
    } else {
        let t = b.transitions[i as int];
        let rest = sp_dfs_trans(b, cur, visited, path, i + 1);
        if t.from_state == cur && !visited.contains(t.to_state) {
            sp_dfs(
                b,
                t.to_state,
                visited,
                path.push(StepView { state_id: t.to_state, transition_index: Some(i as int) }),
            ) + rest
        } else {
            rest
        }
    }
}

#[via_fn]
proof fn sp_dfs_trans_decreases(
    b: BlockView,
    cur: Seq<char>,
    visited: Set<Seq<char>>,
    path: Seq<StepView>,
    i: nat,
) {
    if i < b.transitions.len() {
        let t = b.transitions[i as int];
        if t.from_state == cur && !visited.contains(t.to_state) {
            lemma_universe_finite(b);
            lemma_universe_has_target(b, i as int);
            universe(b).lemma_set_insert_diff_decreases(visited, t.to_state);
        }
    }
}

/// The ids of the states with no incoming transitions, in insertion
/// order.
pub open spec fn initial_ids(entries: Seq<(Seq<char>, StateView)>) -> Seq<Seq<char>>
    decreases entries.len(),
{
    if entries.len() == 0 {
        Seq::empty()
    } else {
        (if entries[0].1.transitions_in.len() == 0 {
            seq![entries[0].0]
        } else {
            Seq::empty()
        }) + initial_ids(entries.skip(1))
    }
}

/// Where a walk starts when no state is initial: state `"100"` if
/// present, else `"10"`, else the first state in insertion order.
pub open spec fn fallback_initials(b: BlockView) -> Seq<Seq<char>> {
    if find_entry(b.states, "100"@).is_some() {
        seq!["100"@]
    } else if find_entry(b.states, "10"@).is_some() {
        seq!["10"@]
    } else if b.states.len() > 0 {
        seq![b.states[0].0]
    } else {
        Seq::empty()
    }
}

/// One fresh depth-first walk from each starting state, in order.
pub open spec fn sp_from_inits(b: BlockView, inits: Seq<Seq<char>>) -> Seq<PathRecView>
    decreases inits.len(),
{
    if inits.len() == 0 {
        Seq::empty()
    } else {
        sp_dfs(
            b,
            inits[0],
            Set::empty(),
            seq![StepView { state_id: inits[0], transition_index: None }],
        ) + sp_from_inits(b, inits.skip(1))
    }
}

/// All recorded walks of a function block: from the initial states, or
/// from the fallback start when none exist.
pub open spec fn sp_find_all(b: BlockView) -> Seq<PathRecView> {
    let primary = initial_ids(b.states);
    let inits = if primary.len() == 0 {
        fallback_initials(b)
    } else {
        primary
    };
    sp_from_inits(b, inits)
}

/// The state ids a path visits.
pub open spec fn step_ids(p: Seq<StepView>) -> Seq<Seq<char>> {
    p.map_values(|s: StepView| s.state_id)
}

/// No state id occurs twice on the path.
pub open spec fn path_acyclic(p: Seq<StepView>) -> bool {
    forall|i: int, j: int| 0 <= i < j < p.len() ==> p[i].state_id != p[j].state_id
}

/// Every walk a depth-first visit emits extends the current path only
/// with ids that were never seen on it, so no walk revisits a state.
proof fn lemma_dfs_acyclic(
    b: BlockView,
    cur: Seq<char>,
    visited: Set<Seq<char>>,
    path: Seq<StepView>,
)
    requires
        visited.finite(),
        universe(b).contains(cur),
        !visited.contains(cur),
        path.len() > 0,
        path[path.len() - 1].state_id == cur,
        forall|k: int| 0 <= k < path.len() - 1 ==> visited.contains(#[trigger] path[k].state_id),
        path_acyclic(path),
    ensures
        forall|r: int|
            0 <= r < sp_dfs(b, cur, visited, path).len() ==> path_acyclic(
                #[trigger] sp_dfs(b, cur, visited, path)[r].path,
            ),
    decreases universe(b).difference(visited.insert(cur)).len(), b.transitions.len() + 1,
{
    let v1 = visited.insert(cur);
    assert(forall|k: int| 0 <= k < path.len() ==> v1.contains(#[trigger] path[k].state_id));
    lemma_dfs_trans_acyclic(b, cur, v1, path, 0);
    let whole = sp_dfs(b, cur, visited, path);
    let rest = sp_dfs_trans(b, cur, v1, path, 0);
    assert forall|r: int| 0 <= r < whole.len() implies path_acyclic(#[trigger] whole[r].path) by {
        if r == 0 {
            assert(whole[0].path == path);
        } else {
            assert(whole[r] == rest[r - 1]);
        }
    }
}

proof fn lemma_dfs_trans_acyclic(
    b: BlockView,
    cur: Seq<char>,
    visited: Set<Seq<char>>,
    path: Seq<StepView>,
    i: nat,
)
    requires
        visited.finite(),
        i <= b.transitions.len(),
        path.len() > 0,
        path[path.len() - 1].state_id == cur,
        forall|k: int| 0 <= k < path.len() ==> visited.contains(#[trigger] path[k].state_id),
        path_acyclic(path),
    ensures
        forall|r: int|
            0 <= r < sp_dfs_trans(b, cur, visited, path, i).len() ==> path_acyclic(
                #[trigger] sp_dfs_trans(b, cur, visited, path, i)[r].path,
            ),
    decreases universe(b).difference(visited).len(), b.transitions.len() - i,
{
    if i < b.transitions.len() {
        let t = b.transitions[i as int];
        lemma_dfs_trans_acyclic(b, cur, visited, path, i + 1);
        let rest = sp_dfs_trans(b, cur, visited, path, i + 1);
        if t.from_state == cur && !visited.contains(t.to_state) {
            let stepv = StepView { state_id: t.to_state, transition_index: Some(i as int) };
            let path2 = path.push(stepv);
            assert(path2[path2.len() - 1].state_id == t.to_state);
            assert(forall|k: int|
                0 <= k < path2.len() - 1 ==> visited.contains(#[trigger] path2[k].state_id));
            assert(path_acyclic(path2)) by {
                assert(forall|k: int| 0 <= k < path.len() ==> path2[k] == #[trigger] path[k]);
                assert forall|x: int, y: int| 0 <= x < y < path2.len() implies path2[x].state_id
                    != path2[y].state_id by {
                    if y == path2.len() - 1 {
                        assert(visited.contains(path[x].state_id));
                        assert(!visited.contains(t.to_state));
                    }
                }
            }
            lemma_universe_finite(b);
            lemma_universe_has_target(b, i as int);
            universe(b).lemma_set_insert_diff_decreases(visited, t.to_state);
            lemma_dfs_acyclic(b, t.to_state, visited, path2);
            let sub = sp_dfs(b, t.to_state, visited, path2);
            let whole = sp_dfs_trans(b, cur, visited, path, i);
            assert(whole == sub + rest);
            assert forall|r: int| 0 <= r < whole.len() implies path_acyclic(
                #[trigger] whole[r].path,
            ) by {
                if r < sub.len() {
                    assert(whole[r] == sub[r]);
                } else {
                    assert(whole[r] == rest[r - sub.len()]);
                }
            }
        }
    }
}

/// An id listed as initial is the id of some state.
pub proof fn lemma_initial_ids_are_states(entries: Seq<(Seq<char>, StateView)>, x: Seq<char>)
    requires
        initial_ids(entries).contains(x),
    ensures
        exists|i: int| 0 <= i < entries.len() && (#[trigger] entries[i]).0 == x,
    decreases entries.len(),
{
    if entries.len() > 0 {
        let head: Seq<Seq<char>> = if entries[0].1.transitions_in.len() == 0 {
            seq![entries[0].0]
        } else {
            Seq::empty()
        };
        let tail = initial_ids(entries.skip(1));
        let k = choose|k: int| 0 <= k < initial_ids(entries).len() && initial_ids(entries)[k] == x;
        if k < head.len() {
            assert(entries[0].0 == x);
        } else {
            assert(tail[k - head.len()] == x);
            assert(tail.contains(x));
            lemma_initial_ids_are_states(entries.skip(1), x);
            let i = choose|i: int|
                0 <= i < entries.skip(1).len() && (#[trigger] entries.skip(1)[i]).0 == x;
            assert(entries[i + 1].0 == x);
        }
    }
}

/// Path acyclicity: every walk the traversal emits visits each state
/// id at most once.
pub proof fn lemma_paths_acyclic(b: BlockView)
    ensures
        forall|r: int|
            0 <= r < sp_find_all(b).len() ==> path_acyclic(#[trigger] sp_find_all(b)[r].path),
{
    let primary = initial_ids(b.states);
    let inits = if primary.len() == 0 {
        fallback_initials(b)
    } else {
        primary
    };
    assert forall|j: int| 0 <= j < inits.len() implies universe(b).contains(
        #[trigger] inits[j],
    ) by {
        if primary.len() == 0 {
            lemma_find_entry_some(b.states, "100"@);
            lemma_find_entry_some(b.states, "10"@);
            if find_entry(b.states, "100"@).is_some() {
                let i = choose|i: int|
                    0 <= i < b.states.len() && (#[trigger] b.states[i]).0 == "100"@;
                lemma_universe_has_state(b, i);
            } else if find_entry(b.states, "10"@).is_some() {
                let i = choose|i: int|
                    0 <= i < b.states.len() && (#[trigger] b.states[i]).0 == "10"@;
                lemma_universe_has_state(b, i);
            } else {
                lemma_universe_has_state(b, 0);
            }
        } else {
            assert(primary.contains(primary[j]));
            lemma_initial_ids_are_states(b.states, primary[j]);
            let i = choose|i: int|
                0 <= i < b.states.len() && (#[trigger] b.states[i]).0 == primary[j];
            lemma_universe_has_state(b, i);
        }
    }
    lemma_from_inits_acyclic(b, inits);
}

proof fn lemma_from_inits_acyclic(b: BlockView, inits: Seq<Seq<char>>)
    requires
        forall|j: int| 0 <= j < inits.len() ==> universe(b).contains(#[trigger] inits[j]),
    ensures
        forall|r: int|
            0 <= r < sp_from_inits(b, inits).len() ==> path_acyclic(
                #[trigger] sp_from_inits(b, inits)[r].path,
            ),
    decreases inits.len(),
{
    if inits.len() > 0 {
        let start = seq![StepView { state_id: inits[0], transition_index: None }];
        assert(start[0].state_id == inits[0]);
        lemma_universe_finite(b);
        lemma_dfs_acyclic(b, inits[0], Set::empty(), start);
        assert(forall|j: int|
            0 <= j < inits.skip(1).len() ==> universe(b).contains(#[trigger] inits.skip(1)[j]));
        lemma_from_inits_acyclic(b, inits.skip(1));
        let sub = sp_dfs(b, inits[0], Set::empty(), start);
        let rest = sp_from_inits(b, inits.skip(1));
        let whole = sp_from_inits(b, inits);
        assert(whole == sub + rest);
        assert forall|r: int| 0 <= r < whole.len() implies path_acyclic(
            #[trigger] whole[r].path,
        ) by {
            if r < sub.len() {
                assert(whole[r] == sub[r]);
            } else {
                assert(whole[r] == rest[r - sub.len()]);
            }
        }
    }
}

pub fn clone_path(v: &Vec<PathStep>) -> (r: Vec<PathStep>)
    ensures
        r.deep_view() == v.deep_view(),
{
    let mut r: Vec<PathStep> = Vec::new();
    let n = v.len();
    let mut i: usize = 0;
    proof {
        assert(v.deep_view().take(0) =~= Seq::<StepView>::empty());
        assert(r.deep_view() =~= Seq::<StepView>::empty());
    }
    while i < n
        invariant
            i <= n,
            n == v.len(),
            r.deep_view() == v.deep_view().take(i as int),
        decreases n - i,
    {
        proof {
            assert(v.deep_view().take(i as int).len() == i);
            assert(r.deep_view().len() == r@.len());
            assert(v.deep_view().len() == v@.len());
        }
        let c = v[i].clone();
        proof {
            assert(c.deep_view() == v.deep_view()[i as int]);
        }
        push_dv(&mut r, c);
        proof {
            assert(r.deep_view() =~= v.deep_view().take(i + 1));
        }
        i = i + 1;
    }
    proof {
        assert(v.deep_view().take(n as int) =~= v.deep_view());
    }
    r
}

pub(crate) fn contains_str(v: &Vec<String>, s: &str) -> (r: bool)
    ensures
        r == v.deep_view().contains(s@),
{
    let n = v.len();
    let mut i: usize = 0;
    proof {
        assert(v.deep_view().len() == v@.len());
    }
    while i < n
        invariant
            i <= n,
            n == v.len(),
            v.deep_view().len() == n,
            forall|j: int| 0 <= j < i ==> v.deep_view()[j] != s@,
        decreases n - i,
    {
        if str_eq(v[i].as_str(), s) {
            proof {
                assert(v.deep_view()[i as int] == s@);
            }
            return true;
        }
        i = i + 1;
    }
    proof {
        if v.deep_view().contains(s@) {
            let j = choose|j: int| 0 <= j < v.deep_view().len() && v.deep_view()[j] == s@;
        }
    }
    false
}

/// Enumerates the acyclic walks of a function block's state graph.
pub struct PathFinder;

impl PathFinder {
    /// Depth-first traversal from `current`: record the current path,
    /// then explore each transition out of `current` whose target was
    /// not yet visited on this walk, and release the mark on return.
    fn dfs(
        fb: &FunctionBlock,
        current: &String,
        visited: &mut Vec<String>,
        current_path: &mut Vec<PathStep>,
        out: &mut Vec<PathRecord>,
    )
        requires
            !old(visited).deep_view().to_set().contains(current@),
            universe(fb@).contains(current@),
        ensures
            final(visited)@ == old(visited)@,
            final(current_path)@ == old(current_path)@,
            final(out).deep_view() == old(out).deep_view() + sp_dfs(
                fb@,
                current@,
                old(visited).deep_view().to_set(),
                old(current_path).deep_view(),
            ),
        decreases universe(fb@).difference(
            visited.deep_view().to_set().insert(current@),
        ).len(),
    {
        let ghost b = fb@;
        let ghost vset0 = visited.deep_view().to_set();
        let ghost path0 = current_path.deep_view();
        let ghost out0 = out.deep_view();
        proof {
            lemma_universe_finite(b);
        }
        let rec = PathRecord { state_id: current.clone(), path: clone_path(current_path) };
        push_dv(out, rec);
        visited.push(current.clone());
        proof {
            assert(visited@ == old(visited)@.push(*current));
            assert(visited.deep_view() =~= old(visited).deep_view().push(current@)) by {
                assert(visited.deep_view().len() == visited@.len());
                assert(forall|j: int|
                    0 <= j < visited@.len() ==> visited.deep_view()[j] == (
                    #[trigger] visited@[j])@);
                assert(forall|j: int|
                    0 <= j < old(visited)@.len() ==> old(visited).deep_view()[j] == (
                    #[trigger] old(visited)@[j])@);
                assert(visited@[visited@.len() - 1] == *current);
            }
            assert(visited.deep_view().to_set() =~= vset0.insert(current@)) by {
                old(visited).deep_view().lemma_push_to_set_commute(current@);
            }
        }
        let ghost vset1 = vset0.insert(current@);
        let n = fb.transitions.len();
        proof {
            assert(b.transitions.len() == fb.transitions@.len());
            assert(out.deep_view() =~= out0 + seq![
                PathRecView { state_id: current@, path: path0 },
            ]);
            assert(sp_dfs(b, current@, vset0, path0) == seq![
                PathRecView { state_id: current@, path: path0 },
            ] + sp_dfs_trans(b, current@, vset1, path0, 0));
        }
        let mut i: usize = 0;
        while i < n
            invariant
                i <= n,
                n == fb.transitions@.len(),
                b == fb@,
                b.transitions.len() == n,
                universe(b).finite(),
                universe(b).contains(current@),
                vset0 == old(visited).deep_view().to_set(),
                path0 == old(current_path).deep_view(),
                out0 == old(out).deep_view(),
                visited@ == old(visited)@.push(*current),
                visited.deep_view().to_set() == vset1,
                vset1 == vset0.insert(current@),
                current_path@ == old(current_path)@,
                out.deep_view() + sp_dfs_trans(b, current@, vset1, path0, i as nat) == out0
                    + sp_dfs(b, current@, vset0, path0),
            decreases n - i,
        {
            let ghost tv = b.transitions[i as int];
            proof {
                assert(fb.transitions[i as int]@ == b.transitions[i as int]);
            }
            let from_matches = str_eq(fb.transitions[i].from_state.as_str(), current.as_str());
            if from_matches {
                let next_state = fb.transitions[i].to_state.clone();
                proof {
                    assert(next_state@ == tv.to_state);
                }
                if !contains_str(visited, next_state.as_str()) {
                    proof {
                        assert(!visited.deep_view().contains(tv.to_state));
                        assert(!vset1.contains(tv.to_state));
                        lemma_universe_has_target(b, i as int);
                    }
                    let step = PathStep {
                        state_id: next_state.clone(),
                        transition_index: Some(i),
                    };
                    let ghost stepv = StepView {
                        state_id: tv.to_state,
                        transition_index: Some(i as int),
                    };
                    current_path.push(step);
                    proof {
                        assert(current_path@ == old(current_path)@.push(
                            PathStep { state_id: next_state, transition_index: Some(i) },
                        ));
                        assert(current_path.deep_view() =~= path0.push(stepv)) by {
                            assert(current_path.deep_view().len() == current_path@.len());
                            assert(forall|j: int|
                                0 <= j < current_path@.len() ==> current_path.deep_view()[j] == (
                                #[trigger] current_path@[j])@);
                            assert(forall|j: int|
                                0 <= j < old(current_path)@.len() ==> old(
                                    current_path,
                                ).deep_view()[j] == (#[trigger] old(current_path)@[j])@);
                        }
                        universe(b).lemma_set_insert_diff_decreases(vset1, tv.to_state);
                    }
                    let ghost out_before = out.deep_view();
                    let ghost path_pushed = current_path@;
                    Self::dfs(fb, &next_state, visited, current_path, out);
                    proof {
                        let sub = sp_dfs(b, tv.to_state, vset1, path0.push(stepv));
                        assert(current_path@ == path_pushed);
                        assert(out.deep_view() == out_before + sub);
                        assert(sp_dfs_trans(b, current@, vset1, path0, i as nat) == sub
                            + sp_dfs_trans(b, current@, vset1, path0, i as nat + 1));
                        assert(out_before + (sub + sp_dfs_trans(
                            b,
                            current@,
                            vset1,
                            path0,
                            i as nat + 1,
                        )) =~= (out_before + sub) + sp_dfs_trans(
                            b,
                            current@,
                            vset1,
                            path0,
                            i as nat + 1,
                        ));
                    }
                    current_path.pop();
                    proof {
                        assert(current_path@ =~= old(current_path)@);
                    }
                } else {
                    proof {
                        assert(visited.deep_view().contains(tv.to_state));
                        assert(vset1.contains(tv.to_state));
                        assert(sp_dfs_trans(b, current@, vset1, path0, i as nat) == sp_dfs_trans(
                            b,
                            current@,
                            vset1,
                            path0,
                            i as nat + 1,
                        ));
                    }
                }
            } else {
                proof {
                    assert(tv.from_state != current@);
                    assert(sp_dfs_trans(b, current@, vset1, path0, i as nat) == sp_dfs_trans(
                        b,
                        current@,
                        vset1,
                        path0,
                        i as nat + 1,
                    ));
                }
            }
            i = i + 1;
        }
        proof {
            assert(sp_dfs_trans(b, current@, vset1, path0, n as nat) == Seq::<
                PathRecView,
            >::empty());
            assert(out.deep_view() + Seq::<PathRecView>::empty() =~= out.deep_view());
        }
        visited.pop();
        proof {
            assert(visited@ =~= old(visited)@);
        }
    }

    /// The ids of the states with no incoming transitions.
    pub(crate) fn find_initial_states(fb: &FunctionBlock) -> (r: Vec<String>)
        ensures
            r.deep_view() == initial_ids(fb@.states),
            forall|j: int|
                0 <= j < r.deep_view().len() ==> universe(fb@).contains(
                    #[trigger] r.deep_view()[j],
                ),
    {
        let keys = crate::imap::states_keys(&fb.states);
        let values = crate::imap::states_values(&fb.states);
        let ghost entries = fb@.states;
        let n = keys.len();
        let mut r: Vec<String> = Vec::new();
        proof {
            assert(r.deep_view() =~= Seq::<Seq<char>>::empty());
            assert(entries.skip(0) =~= entries);
        }
        let mut i: usize = 0;
        while i < n
            invariant
                i <= n,
                n == keys@.len(),
                n == values@.len(),
                entries == fb@.states,
                entries.len() == n,
                forall|j: int| 0 <= j < n ==> keys@[j]@ == (#[trigger] entries[j]).0,
                forall|j: int| 0 <= j < n ==> values@[j]@ == (#[trigger] entries[j]).1,
                r.deep_view() + initial_ids(entries.skip(i as int)) == initial_ids(entries),
                forall|j: int|
                    0 <= j < r.deep_view().len() ==> universe(fb@).contains(
                        #[trigger] r.deep_view()[j],
                    ),
            decreases n - i,
        {
            proof {
                assert(entries.skip(i as int)[0] == entries[i as int]);
                assert(entries.skip(i as int).skip(1) =~= entries.skip(i + 1));
            }
            if values[i].transitions_in.len() == 0 {
                proof {
                    assert(values@[i as int]@.transitions_in.len() == 0) by {
                        assert(values@[i as int]@.transitions_in == values[
                            i as int
                        ].transitions_in.deep_view());
                        assert(values[i as int].transitions_in.deep_view().len() == values[
                            i as int
                        ].transitions_in@.len());
                    }
                    lemma_universe_has_state(fb@, i as int);
                    assert(initial_ids(entries.skip(i as int)) == seq![entries[i as int].0]
                        + initial_ids(entries.skip(i + 1)));
                }
                let ghost rb = r.deep_view();
                push_dv(&mut r, keys[i].clone());
                proof {
                    assert(r.deep_view() == rb.push(entries[i as int].0));
                    assert(rb.push(entries[i as int].0) + initial_ids(entries.skip(i + 1)) =~= rb
                        + (seq![entries[i as int].0] + initial_ids(entries.skip(i + 1))));
                }
            } else {
                proof {
                    assert(values@[i as int]@.transitions_in.len() != 0) by {
                        assert(values@[i as int]@.transitions_in == values[
                            i as int
                        ].transitions_in.deep_view());
                        assert(values[i as int].transitions_in.deep_view().len() == values[
                            i as int
                        ].transitions_in@.len());
                    }
                    assert(initial_ids(entries.skip(i as int)) == initial_ids(
                        entries.skip(i + 1),
                    ));
                }
            }
            i = i + 1;
        }
        proof {
            assert(entries.skip(n as int).len() == 0);
            assert(initial_ids(entries.skip(n as int)) =~= Seq::<Seq<char>>::empty());
            assert(r.deep_view() + Seq::<Seq<char>>::empty() =~= r.deep_view());
        }
        r
    }

    /// The fallback starting state when no state is initial.
    fn find_fallback_initial_state(fb: &FunctionBlock) -> (r: Vec<String>)
        ensures
            r.deep_view() == fallback_initials(fb@),
            forall|j: int|
                0 <= j < r.deep_view().len() ==> universe(fb@).contains(
                    #[trigger] r.deep_view()[j],
                ),
    {
        proof {
            reveal_strlit("100");
            reveal_strlit("10");
            lemma_find_entry_some(fb@.states, "100"@);
            lemma_find_entry_some(fb@.states, "10"@);
        }
        let mut r: Vec<String> = Vec::new();
        proof {
            assert(r.deep_view() =~= Seq::<Seq<char>>::empty());
        }
        if crate::imap::states_contains_key(&fb.states, "100") {
            proof {
                let i = choose|i: int|
                    0 <= i < fb@.states.len() && (#[trigger] fb@.states[i]).0 == "100"@;
                lemma_universe_has_state(fb@, i);
            }
            push_dv(&mut r, String::from_str("100"));
            proof {
                assert(r.deep_view() =~= seq!["100"@]);
            }
            return r;
        }
        if crate::imap::states_contains_key(&fb.states, "10") {
            proof {
                let i = choose|i: int|
                    0 <= i < fb@.states.len() && (#[trigger] fb@.states[i]).0 == "10"@;
                lemma_universe_has_state(fb@, i);
            }
            push_dv(&mut r, String::from_str("10"));
            proof {
                assert(r.deep_view() =~= seq!["10"@]);
            }
            return r;
        }
        let keys = crate::imap::states_keys(&fb.states);
        if keys.len() > 0 {
            proof {
                lemma_universe_has_state(fb@, 0);
            }
            push_dv(&mut r, keys[0].clone());
            proof {
                assert(r.deep_view() =~= seq![fb@.states[0].0]);
            }
            return r;
        }
        r
    }

    /// All acyclic walks from the inferred starting states, each state
    /// of each walk annotated with the transition that led to it.
    pub fn find_all_paths(fb: &FunctionBlock) -> (r: Vec<PathRecord>)
        ensures
            r.deep_view() == sp_find_all(fb@),
            forall|j: int|
                0 <= j < r.deep_view().len() ==> path_acyclic(
                    (#[trigger] r.deep_view()[j]).path,
                ),
    {
        proof {
            lemma_paths_acyclic(fb@);
        }
        let initial_states = Self::find_initial_states(fb);
        let starting_states = if initial_states.len() == 0 {
            proof {
                assert(initial_states.deep_view().len() == initial_states@.len());
            }
            Self::find_fallback_initial_state(fb)
        } else {
            proof {
                assert(initial_states.deep_view().len() == initial_states@.len());
            }
            initial_states
        };
        let ghost inits = starting_states.deep_view();
        let mut out: Vec<PathRecord> = Vec::new();
        let n = starting_states.len();
        proof {
            assert(inits.len() == starting_states@.len());
            assert(out.deep_view() =~= Seq::<PathRecView>::empty());
            assert(inits.skip(0) =~= inits);
        }
        let mut i: usize = 0;
        while i < n
            invariant
                i <= n,
                n == starting_states@.len(),
                inits == starting_states.deep_view(),
                inits.len() == n,
                forall|j: int|
                    0 <= j < inits.len() ==> universe(fb@).contains(#[trigger] inits[j]),
                out.deep_view() + sp_from_inits(fb@, inits.skip(i as int)) == sp_from_inits(
                    fb@,
                    inits,
                ),
            decreases n - i,
        {
            proof {
                assert(inits.skip(i as int)[0] == inits[i as int]);
                assert(inits.skip(i as int).skip(1) =~= inits.skip(i + 1));
                assert(starting_states[i as int]@ == inits[i as int]);
            }
            let initial = &starting_states[i];
            let mut visited: Vec<String> = Vec::new();
            let mut current_path: Vec<PathStep> = Vec::new();
            current_path.push(
                PathStep { state_id: initial.clone(), transition_index: None },
            );
            proof {
                assert(visited.deep_view() =~= Seq::<Seq<char>>::empty());
                assert(visited.deep_view().to_set() =~= Set::<Seq<char>>::empty());
                assert(current_path.deep_view() =~= seq![
                    StepView { state_id: inits[i as int], transition_index: None },
                ]) by {
                    assert(current_path.deep_view().len() == current_path@.len());
                    assert(current_path.deep_view()[0] == current_path@[0].deep_view());
                }
            }
            let ghost out_before = out.deep_view();
            Self::dfs(fb, initial, &mut visited, &mut current_path, &mut out);
            proof {
                let sub = sp_dfs(
                    fb@,
                    inits[i as int],
                    Set::empty(),
                    seq![StepView { state_id: inits[i as int], transition_index: None }],
                );
                assert(out.deep_view() == out_before + sub);
                assert(sp_from_inits(fb@, inits.skip(i as int)) == sub + sp_from_inits(
                    fb@,
                    inits.skip(i + 1),
                ));
                assert(out_before + (sub + sp_from_inits(fb@, inits.skip(i + 1))) =~= (
                out_before + sub) + sp_from_inits(fb@, inits.skip(i + 1)));
            }
            i = i + 1;
        }
        proof {
            assert(inits.skip(n as int).len() == 0);
            assert(sp_from_inits(fb@, inits.skip(n as int)) =~= Seq::<PathRecView>::empty());
            assert(out.deep_view() + Seq::<PathRecView>::empty() =~= out.deep_view());
            assert(out.deep_view() == sp_find_all(fb@));
            assert forall|j: int| 0 <= j < out.deep_view().len() implies path_acyclic(
                (#[trigger] out.deep_view()[j]).path,
            ) by {
                assert(out.deep_view()[j] == sp_find_all(fb@)[j]);
            }
        }
        out
    }
}

} // verus!
