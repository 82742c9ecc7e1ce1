//! The signature composer: guard texts are normalised to disjunctive
//! normal form, combined along each path by cross product,
//! canonicalised, and merged across paths into one signature per
//! reached state.

use vstd::prelude::*;

use crate::cond::{
    canon_conditions, canon_conj, clone_cond_vec, cond_str, distinct_conds,
    lemma_canon_conj_props, sorted_conds, CondView, Condition,
};
use crate::expr::{cross2, dnf_of};
use crate::expr::{expr_view, lemma_dnf_nonempty};
use crate::parse::{
    lemma_atomic_round_trip, lemma_cond_str_plain, parse_atomic_condition_str, round_trip_cond,
    sp_atomic, sp_or, ExpressionParser,
};
use crate::block::{BlockView, FunctionBlock};
use crate::imap::{find_entry, map_update, sig_entries, sigs_get, sigs_insert, sigs_keys, sigs_len, sigs_new};
use crate::paths::{sp_find_all, PathFinder, PathRecView, PathRecord, PathStep, StepView};
use crate::runtime::{conj_matches, eval_cond, eval_op, RuntimeVars};
use crate::strutil::{
    is_ws, lemma_find_sub_first, lemma_find_sub_none, push_dv, split_on, split_str, str_eq,
    trim_back, trim_front, trim_spec, trim_str,
};
use crate::token::{tokens_of, Tokenizer};

verus! {

/// Mathematical form of a path signature.
pub ghost struct SigView {
    pub conditions: Seq<CondView>,
    pub path_id: int,
}

/// One way to reach a state: the conjunction of atomic conditions
/// collected along one acyclic path, plus a stable numeric id.
pub struct PathSignature {
    pub conditions: Vec<Condition>,
    pub path_id: usize,
}

impl View for PathSignature {
    type V = SigView;

    open spec fn view(&self) -> SigView {
        SigView { conditions: self.conditions.deep_view(), path_id: self.path_id as int }
    }
}

impl DeepView for PathSignature {
    type V = SigView;

    open spec fn deep_view(&self) -> SigView {
        self.view()
    }
}

impl Clone for PathSignature {
    fn clone(&self) -> (r: Self)
        ensures
            r@ == self@,
    {
        let conds = crate::cond::clone_cond_vec(&self.conditions);
        PathSignature { conditions: conds, path_id: self.path_id }
    }
}

/// The conjunction joined with `" AND "` in canonical order; an empty
/// conjunction reads `"[initial]"`.
pub open spec fn join_conds(conds: Seq<CondView>) -> Seq<char>
    decreases conds.len(),
{
    if conds.len() == 0 {
        Seq::empty()
    } else if conds.len() == 1 {
        cond_str(conds[0])
    } else {
        cond_str(conds[0]) + " AND "@ + join_conds(conds.skip(1))
    }
}

pub open spec fn fmt_conj(conds: Seq<CondView>) -> Seq<char> {
    if conds.len() == 0 {
        "[initial]"@
    } else {
        join_conds(conds)
    }
}

/// Appending one condition extends the joined text by `" AND "` and
/// the condition's text.
pub proof fn lemma_join_conds_snoc(s: Seq<CondView>, x: CondView)
    ensures
        join_conds(s.push(x)) == if s.len() == 0 {
            cond_str(x)
        } else {
            join_conds(s) + " AND "@ + cond_str(x)
        },
    decreases s.len(),
{
    if s.len() == 0 {
        assert(s.push(x)[0] == x);
        assert(join_conds(s.push(x)) == cond_str(x));
    } else {
        assert(s.push(x).len() >= 2);
        assert(s.push(x)[0] == s[0]);
        assert(s.push(x).skip(1) =~= s.skip(1).push(x));
        lemma_join_conds_snoc(s.skip(1), x);
        if s.len() == 1 {
            assert(s.skip(1).len() == 0);
            assert(join_conds(s.push(x)) == cond_str(s[0]) + " AND "@ + cond_str(x));
            assert(join_conds(s) == cond_str(s[0]));
        } else {
            assert(join_conds(s.push(x)) == cond_str(s[0]) + " AND "@ + (join_conds(s.skip(1))
                + " AND "@ + cond_str(x)));
            assert(join_conds(s) == cond_str(s[0]) + " AND "@ + join_conds(s.skip(1)));
            assert(cond_str(s[0]) + " AND "@ + (join_conds(s.skip(1)) + " AND "@ + cond_str(x))
                =~= (cond_str(s[0]) + " AND "@ + join_conds(s.skip(1))) + " AND "@ + cond_str(
                x,
            ));
        }
    }
}

/// Join a conjunction's conditions into the canonical text.
pub fn format_conjunction(conds: &Vec<Condition>) -> (r: String)
    ensures
        r@ == fmt_conj(conds.deep_view()),
{
    let n = conds.len();
    proof {
        assert(conds.deep_view().len() == conds@.len());
    }
    if n == 0 {
        let r = String::from_str("[initial]");
        return r;
    }
    let mut r = conds[0].to_string();
    proof {
        assert(conds.deep_view().take(1) =~= seq![conds.deep_view()[0]]);
        assert(join_conds(conds.deep_view().take(1)) == cond_str(conds.deep_view()[0]));
    }
    let mut i: usize = 1;
    while i < n
        invariant
            1 <= i <= n,
            n == conds@.len(),
            conds.deep_view().len() == n,
            r@ == join_conds(conds.deep_view().take(i as int)),
        decreases n - i,
    {
        r.append(" AND ");
        let cs = conds[i].to_string();
        r.append(cs.as_str());
        proof {
            let prefix = conds.deep_view().take(i as int);
            lemma_join_conds_snoc(prefix, conds.deep_view()[i as int]);
            assert(prefix.push(conds.deep_view()[i as int]) =~= conds.deep_view().take(i + 1));
            assert(r@ =~= join_conds(prefix) + " AND "@ + cond_str(conds.deep_view()[i as int]));
        }
        i = i + 1;
    }
    proof {
        assert(conds.deep_view().take(n as int) =~= conds.deep_view());
    }
    r
}

impl PathSignature {
    pub fn new(conditions: Vec<Condition>, path_id: usize) -> (r: Self)
        ensures
            r@ == (SigView { conditions: conditions.deep_view(), path_id: path_id as int }),
    {
        PathSignature { conditions, path_id }
    }

    /// Format the conjunction as a readable string.
    pub fn format_conditions(&self) -> (r: String)
        ensures
            r@ == fmt_conj(self@.conditions),
    {
        format_conjunction(&self.conditions)
    }

    /// Whether every atomic condition of this signature holds of the
    /// runtime assignment.
    pub fn matches(&self, runtime_vars: &RuntimeVars) -> (r: bool)
        ensures
            r == conj_matches(self@.conditions, runtime_vars@),
    {
        let n = self.conditions.len();
        proof {
            assert(self.conditions.deep_view().len() == self.conditions@.len());
        }
        let mut i: usize = 0;
        while i < n
            invariant
                i <= n,
                n == self.conditions@.len(),
                self.conditions.deep_view().len() == n,
                forall|j: int|
                    0 <= j < i ==> eval_cond(
                        #[trigger] self.conditions.deep_view()[j],
                        runtime_vars@,
                    ),
            decreases n - i,
        {
            let cond = &self.conditions[i];
            proof {
                assert(cond@ == self.conditions.deep_view()[i as int]);
            }
            let ok = match runtime_vars.get(cond.variable.as_str()) {
                Some(v) => Self::evaluate_condition(cond, v.as_str()),
                None => false,
            };
            if !ok {
                proof {
                    assert(!eval_cond(self.conditions.deep_view()[i as int], runtime_vars@));
                }
                return false;
            }
            i = i + 1;
        }
        true
    }

    /// Evaluate one atomic condition against the value bound to its
    /// variable.
    pub fn evaluate_condition(cond: &Condition, runtime_value: &str) -> (r: bool)
        ensures
            r == eval_op(cond@.operator, runtime_value@, cond@.value),
    {
        crate::runtime::evaluate_condition(cond, runtime_value)
    }
}

/// Mathematical form of a state's signature.
pub ghost struct StateSigView {
    pub state_id: Seq<char>,
    pub path_signatures: Seq<SigView>,
    pub paths_count: int,
}

/// The disjunction of the path signatures of one state, with the
/// number of source paths before merging.
pub struct StateSignature {
    pub state_id: String,
    pub path_signatures: Vec<PathSignature>,
    pub paths_count: usize,
}

impl View for StateSignature {
    type V = StateSigView;

    open spec fn view(&self) -> StateSigView {
        StateSigView {
            state_id: self.state_id@,
            path_signatures: self.path_signatures.deep_view(),
            paths_count: self.paths_count as int,
        }
    }
}

impl DeepView for StateSignature {
    type V = StateSigView;

    open spec fn deep_view(&self) -> StateSigView {
        self.view()
    }
}

impl Clone for StateSignature {
    fn clone(&self) -> (r: Self)
        ensures
            r@ == self@,
    {
        let mut sigs: Vec<PathSignature> = Vec::new();
        let n = self.path_signatures.len();
        let mut i: usize = 0;
        proof {
            assert(self.path_signatures.deep_view().take(0) =~= Seq::<SigView>::empty());
            assert(sigs.deep_view() =~= Seq::<SigView>::empty());
        }
        while i < n
            invariant
                i <= n,
                n == self.path_signatures@.len(),
                sigs.deep_view() == self.path_signatures.deep_view().take(i as int),
            decreases n - i,
        {
            proof {
                assert(self.path_signatures.deep_view().take(i as int).len() == i);
                assert(self.path_signatures.deep_view().len() == self.path_signatures@.len());
            }
            let c = self.path_signatures[i].clone();
            push_dv(&mut sigs, c);
            proof {
                assert(sigs.deep_view() =~= self.path_signatures.deep_view().take(i + 1));
            }
            i = i + 1;
        }
        proof {
            assert(self.path_signatures.deep_view().take(n as int) =~= self
                .path_signatures
                .deep_view());
        }
        StateSignature {
            state_id: self.state_id.clone(),
            path_signatures: sigs,
            paths_count: self.paths_count,
        }
    }
}

/// A state's signature holds of an assignment when it has no path
/// signatures (an initial state) or when any one of them holds.
pub open spec fn sig_matches(s: StateSigView, vars: Map<Seq<char>, Seq<char>>) -> bool {
    ||| s.path_signatures.len() == 0
    ||| exists|i: int|
        0 <= i < s.path_signatures.len() && conj_matches(
            #[trigger] s.path_signatures[i].conditions,
            vars,
        )
}

/// A state signature with no path signatures matches every assignment;
/// one with a single path signature matches exactly when that
/// conjunction does.
pub proof fn lemma_matcher_soundness(s: StateSigView, vars: Map<Seq<char>, Seq<char>>)
    ensures
        s.path_signatures.len() == 0 ==> sig_matches(s, vars),
        s.path_signatures.len() == 1 ==> (sig_matches(s, vars) <==> conj_matches(
            s.path_signatures[0].conditions,
            vars,
        )),
{
    if s.path_signatures.len() == 1 && conj_matches(s.path_signatures[0].conditions, vars) {
        assert(exists|i: int|
            0 <= i < s.path_signatures.len() && conj_matches(
                #[trigger] s.path_signatures[i].conditions,
                vars,
            )) by {
            assert(conj_matches(s.path_signatures[0].conditions, vars));
        }
    }
}

/// Wrap each conjunction in parentheses and join with `" OR "`.
pub open spec fn join_or(sigs: Seq<SigView>) -> Seq<char>
    decreases sigs.len(),
{
    if sigs.len() == 0 {
        Seq::empty()
    } else if sigs.len() == 1 {
        "("@ + fmt_conj(sigs[0].conditions) + ")"@
    } else {
        "("@ + fmt_conj(sigs[0].conditions) + ")"@ + " OR "@ + join_or(sigs.skip(1))
    }
}

/// The text of a state's signature: `"[initial]"` with no path
/// signatures, the single conjunction if there is exactly one, and the
/// parenthesised disjunction otherwise.
pub open spec fn fmt_state_sig(s: StateSigView) -> Seq<char> {
    if s.path_signatures.len() == 0 {
        "[initial]"@
    } else if s.path_signatures.len() == 1 {
        fmt_conj(s.path_signatures[0].conditions)
    } else {
        join_or(s.path_signatures)
    }
}

proof fn lemma_join_or_snoc(s: Seq<SigView>, x: SigView)
    ensures
        join_or(s.push(x)) == if s.len() == 0 {
            "("@ + fmt_conj(x.conditions) + ")"@
        } else {
            join_or(s) + " OR "@ + ("("@ + fmt_conj(x.conditions) + ")"@)
        },
    decreases s.len(),
{
    if s.len() == 0 {
        assert(s.push(x)[0] == x);
        assert(join_or(s.push(x)) == "("@ + fmt_conj(x.conditions) + ")"@);
    } else {
        assert(s.push(x)[0] == s[0]);
        assert(s.push(x).skip(1) =~= s.skip(1).push(x));
        lemma_join_or_snoc(s.skip(1), x);
        let piece0 = "("@ + fmt_conj(s[0].conditions) + ")"@;
        let px = "("@ + fmt_conj(x.conditions) + ")"@;
        if s.len() == 1 {
            assert(join_or(s.push(x)) == piece0 + " OR "@ + px);
            assert(join_or(s) == piece0);
        } else {
            assert(join_or(s.push(x)) == piece0 + " OR "@ + (join_or(s.skip(1)) + " OR "@
                + px));
            assert(join_or(s) == piece0 + " OR "@ + join_or(s.skip(1)));
            assert(piece0 + " OR "@ + (join_or(s.skip(1)) + " OR "@ + px) =~= (piece0 + " OR "@
                + join_or(s.skip(1))) + " OR "@ + px);
        }
    }
}

impl StateSignature {
    pub fn new(state_id: String) -> (r: Self)
        ensures
            r@ == (StateSigView {
                state_id: state_id@,
                path_signatures: Seq::empty(),
                paths_count: 0,
            }),
    {
        let r = StateSignature { state_id, path_signatures: Vec::new(), paths_count: 0 };
        proof {
            assert(r.path_signatures.deep_view() =~= Seq::<SigView>::empty());
        }
        r
    }

    /// Format all path signatures, showing the disjunction.
    pub fn format_conditions(&self) -> (r: String)
        ensures
            r@ == fmt_state_sig(self@),
    {
        let n = self.path_signatures.len();
        proof {
            assert(self.path_signatures.deep_view().len() == self.path_signatures@.len());
        }
        if n == 0 {
            return String::from_str("[initial]");
        }
        if n == 1 {
            proof {
                assert(self.path_signatures[0int]@ == self.path_signatures.deep_view()[0]);
            }
            return self.path_signatures[0].format_conditions();
        }
        let ghost sigs = self.path_signatures.deep_view();
        let mut r = String::from_str("(");
        let first = self.path_signatures[0].format_conditions();
        r.append(first.as_str());
        r.append(")");
        proof {
            assert(self.path_signatures[0int]@ == sigs[0]);
            assert(sigs.take(1) =~= seq![sigs[0]]);
            assert(join_or(sigs.take(1)) == "("@ + fmt_conj(sigs[0].conditions) + ")"@);
            assert(r@ =~= "("@ + fmt_conj(sigs[0].conditions) + ")"@);
        }
        let mut i: usize = 1;
        while i < n
            invariant
                1 <= i <= n,
                n == self.path_signatures@.len(),
                n >= 2,
                sigs == self.path_signatures.deep_view(),
                sigs.len() == n,
                r@ == join_or(sigs.take(i as int)),
            decreases n - i,
        {
            r.append(" OR ");
            r.append("(");
            let fs = self.path_signatures[i].format_conditions();
            r.append(fs.as_str());
            r.append(")");
            proof {
                assert(self.path_signatures[i as int]@ == sigs[i as int]);
                let prefix = sigs.take(i as int);
                lemma_join_or_snoc(prefix, sigs[i as int]);
                assert(prefix.push(sigs[i as int]) =~= sigs.take(i + 1));
                assert(r@ =~= join_or(prefix) + " OR "@ + ("("@ + fmt_conj(
                    sigs[i as int].conditions,
                ) + ")"@));
            }
            i = i + 1;
        }
        proof {
            assert(sigs.take(n as int) =~= sigs);
        }
        r
    }

    /// Whether any path signature matches; a state with none matches
    /// every assignment.
    pub fn matches_any(&self, runtime_vars: &RuntimeVars) -> (r: bool)
        ensures
            r == sig_matches(self@, runtime_vars@),
    {
        let n = self.path_signatures.len();
        proof {
            assert(self.path_signatures.deep_view().len() == self.path_signatures@.len());
        }
        if n == 0 {
            return true;
        }
        let mut i: usize = 0;
        while i < n
            invariant
                i <= n,
                n == self.path_signatures@.len(),
                self.path_signatures.deep_view().len() == n,
                forall|j: int|
                    0 <= j < i ==> !conj_matches(
                        (#[trigger] self.path_signatures.deep_view()[j]).conditions,
                        runtime_vars@,
                    ),
            decreases n - i,
        {
            proof {
                assert(self.path_signatures[i as int]@ == self.path_signatures.deep_view()[
                    i as int
                ]);
            }
            if self.path_signatures[i].matches(runtime_vars) {
                return true;
            }
            i = i + 1;
        }
        proof {
            if sig_matches(self@, runtime_vars@) {
                let j = choose|j: int|
                    0 <= j < self@.path_signatures.len() && conj_matches(
                        (#[trigger] self@.path_signatures[j]).conditions,
                        runtime_vars@,
                    );
            }
        }
        false
    }
}

/// The collected atomics of the pieces that parse, in order.
pub open spec fn collect_atomics(pieces: Seq<Seq<char>>) -> Seq<CondView>
    decreases pieces.len(),
{
    if pieces.len() == 0 {
        Seq::empty()
    } else {
        match sp_atomic(trim_spec(pieces[0])) {
            Some(c) => seq![c] + collect_atomics(pieces.skip(1)),
            None => collect_atomics(pieces.skip(1)),
        }
    }
}

/// The fallback interpretation of a guard: split on the literal
/// `" AND "`, parse each piece as an atomic condition, and collect the
/// successes into a single conjunction.
pub open spec fn sp_simple(s: Seq<char>) -> Seq<Seq<CondView>> {
    seq![collect_atomics(split_on(s, " AND "@))]
}

/// Each conjunction of the normal form in canonical shape: duplicates
/// removed, then sorted.
pub open spec fn canon_dnf(d: Seq<Seq<CondView>>) -> Seq<Seq<CondView>> {
    d.map_values(|c: Seq<CondView>| canon_conj(c))
}

/// The disjunctive normal form of a guard text. An empty guard or the
/// sentinel `"No Check"` is vacuously true. A guard whose tokens parse
/// as an expression is normalised and canonicalised; otherwise the
/// simple `AND`-split interpretation is used.
pub open spec fn sp_guard_dnf(s: Seq<char>) -> Seq<Seq<CondView>> {
    if s.len() == 0 || s == "No Check"@ {
        seq![seq![]]
    } else {
        let toks = tokens_of(s, 0);
        if toks.len() == 0 {
            seq![seq![]]
        } else {
            match sp_or(toks, 0) {
                Some((e, p)) => canon_dnf(dnf_of(e)),
                None => sp_simple(s),
            }
        }
    }
}

/// Every parsed guard expression normalises to at least one
/// conjunction, and in canonical form each conjunction is a set in
/// sort order: no triple occurs twice, and the atomics stand in
/// ascending (variable, operator, value) order.
pub proof fn lemma_guard_dnf_canonical(e: crate::expr::ExprView)
    ensures
        canon_dnf(dnf_of(e)).len() >= 1,
        forall|i: int|
            0 <= i < canon_dnf(dnf_of(e)).len() ==> sorted_conds(
                #[trigger] canon_dnf(dnf_of(e))[i],
            ) && distinct_conds(canon_dnf(dnf_of(e))[i]),
{
    crate::expr::lemma_dnf_nonempty(e);
    let d = dnf_of(e);
    assert(canon_dnf(d).len() == d.len());
    assert forall|i: int| 0 <= i < canon_dnf(d).len() implies sorted_conds(
        #[trigger] canon_dnf(d)[i],
    ) && distinct_conds(canon_dnf(d)[i]) by {
        assert(canon_dnf(d)[i] == canon_conj(d[i]));
        lemma_canon_conj_props(d[i]);
    }
}

/// Fold the cross product over the remaining normal forms.
pub open spec fn cross_fold(
    acc: Seq<Seq<CondView>>,
    ds: Seq<Seq<Seq<CondView>>>,
) -> Seq<Seq<CondView>>
    decreases ds.len(),
{
    if ds.len() == 0 {
        acc
    } else {
        cross_fold(cross2(acc, ds[0]), ds.skip(1))
    }
}

/// The conjunctions of a whole path: every way of choosing one
/// conjunction from each transition's normal form, concatenated in
/// path order. No transitions at all leave the single empty
/// conjunction.
pub open spec fn cross_many(ds: Seq<Seq<Seq<CondView>>>) -> Seq<Seq<CondView>> {
    if ds.len() == 0 {
        seq![seq![]]
    } else {
        cross_fold(ds[0], ds.skip(1))
    }
}

/// Keep, for each formatted conjunction, only the first signature that
/// carries it.
pub open spec fn merge_sigs(s: Seq<SigView>) -> Seq<SigView>
    decreases s.len(),
{
    if s.len() == 0 {
        Seq::empty()
    } else {
        let init = merge_sigs(s.drop_last());
        if exists|j: int|
            0 <= j < s.len() - 1 && fmt_conj(s[j].conditions) == fmt_conj(
                s.last().conditions,
            ) {
            init
        } else {
            init.push(s.last())
        }
    }
}

/// Appending one more piece extends the collected atomics by that
/// piece's parse, if it succeeds.
proof fn lemma_collect_atomics_snoc(pieces: Seq<Seq<char>>, x: Seq<char>)
    ensures
        collect_atomics(pieces.push(x)) == match sp_atomic(trim_spec(x)) {
            Some(c) => collect_atomics(pieces).push(c),
            None => collect_atomics(pieces),
        },
    decreases pieces.len(),
{
    if pieces.len() == 0 {
        assert(pieces.push(x)[0] == x);
        assert(pieces.push(x).skip(1) =~= pieces);
        match sp_atomic(trim_spec(x)) {
            Some(c) => {
                assert(collect_atomics(pieces.push(x)) == seq![c] + collect_atomics(pieces));
                assert(seq![c] + collect_atomics(pieces) =~= collect_atomics(pieces).push(c));
            },
            None => {
                assert(collect_atomics(pieces.push(x)) == collect_atomics(pieces));
            },
        }
    } else {
        assert(pieces.push(x)[0] == pieces[0]);
        assert(pieces.push(x).skip(1) =~= pieces.skip(1).push(x));
        lemma_collect_atomics_snoc(pieces.skip(1), x);
        match sp_atomic(trim_spec(x)) {
            Some(c) => {
                match sp_atomic(trim_spec(pieces[0])) {
                    Some(c0) => {
                        assert(collect_atomics(pieces.push(x)) == seq![c0] + collect_atomics(
                            pieces.skip(1),
                        ).push(c));
                        assert(seq![c0] + collect_atomics(pieces.skip(1)).push(c) =~= (seq![c0]
                            + collect_atomics(pieces.skip(1))).push(c));
                    },
                    None => {},
                }
            },
            None => {},
        }
    }
}

/// A key occurs among the merged signatures exactly when it occurs in
/// the list it was given.
proof fn lemma_merge_contains_key(s: Seq<SigView>, key: Seq<char>)
    ensures
        (exists|j: int|
            0 <= j < merge_sigs(s).len() && fmt_conj(#[trigger] merge_sigs(s)[j].conditions)
                == key) == (exists|j: int|
            0 <= j < s.len() && fmt_conj(#[trigger] s[j].conditions) == key),
    decreases s.len(),
{
    if s.len() > 0 {
        lemma_merge_contains_key(s.drop_last(), key);
        let m = merge_sigs(s);
        let mi = merge_sigs(s.drop_last());
        assert(forall|j: int| 0 <= j < s.len() - 1 ==> s.drop_last()[j] == #[trigger] s[j]);
        if exists|j: int|
            0 <= j < s.len() - 1 && fmt_conj(s[j].conditions) == fmt_conj(s.last().conditions) {
            // dropped: the same key already occurs earlier
            assert(m == mi);
            if exists|j: int| 0 <= j < s.len() && fmt_conj(#[trigger] s[j].conditions) == key {
                let j = choose|j: int|
                    0 <= j < s.len() && fmt_conj(#[trigger] s[j].conditions) == key;
                if j == s.len() - 1 {
                    let j2 = choose|j2: int|
                        0 <= j2 < s.len() - 1 && fmt_conj(s[j2].conditions) == fmt_conj(
                            s.last().conditions,
                        );
                    assert(fmt_conj(s.drop_last()[j2].conditions) == key);
                } else {
                    assert(fmt_conj(s.drop_last()[j].conditions) == key);
                }
            }
        } else {
            assert(m == mi.push(s.last()));
            assert(forall|j: int| 0 <= j < mi.len() ==> mi[j] == #[trigger] m[j]);
            assert(m.last() == s.last());
            if exists|j: int| 0 <= j < s.len() && fmt_conj(#[trigger] s[j].conditions) == key {
                let j = choose|j: int|
                    0 <= j < s.len() && fmt_conj(#[trigger] s[j].conditions) == key;
                if j == s.len() - 1 {
                    assert(fmt_conj(m[m.len() - 1].conditions) == key);
                } else {
                    assert(fmt_conj(s.drop_last()[j].conditions) == key);
                    let k = choose|k: int|
                        0 <= k < mi.len() && fmt_conj(#[trigger] mi[k].conditions) == key;
                    assert(fmt_conj(m[k].conditions) == key);
                }
            }
            if exists|j: int|
                0 <= j < m.len() && fmt_conj(#[trigger] m[j].conditions) == key {
                let j = choose|j: int|
                    0 <= j < m.len() && fmt_conj(#[trigger] m[j].conditions) == key;
                if j == m.len() - 1 {
                    assert(fmt_conj(s.last().conditions) == key);
                } else {
                    assert(fmt_conj(mi[j].conditions) == key);
                }
            }
        }
    }
}

/// The merged signatures carry pairwise distinct formatted conjunctions.
proof fn lemma_merge_keys_distinct(s: Seq<SigView>)
    ensures
        forall|i: int, j: int|
            0 <= i < j < merge_sigs(s).len() ==> fmt_conj(
                #[trigger] merge_sigs(s)[i].conditions,
            ) != fmt_conj(#[trigger] merge_sigs(s)[j].conditions),
    decreases s.len(),
{
    if s.len() > 0 {
        lemma_merge_keys_distinct(s.drop_last());
        let m = merge_sigs(s);
        let mi = merge_sigs(s.drop_last());
        if !(exists|j: int|
            0 <= j < s.len() - 1 && fmt_conj(s[j].conditions) == fmt_conj(
                s.last().conditions,
            )) {
            assert(m == mi.push(s.last()));
            assert(forall|j: int| 0 <= j < mi.len() ==> mi[j] == #[trigger] m[j]);
            lemma_merge_contains_key(s.drop_last(), fmt_conj(s.last().conditions));
            assert(forall|j: int| 0 <= j < s.len() - 1 ==> s.drop_last()[j] == #[trigger] s[j]);
            assert forall|i: int, j: int| 0 <= i < j < m.len() implies fmt_conj(
                #[trigger] m[i].conditions,
            ) != fmt_conj(#[trigger] m[j].conditions) by {
                if j == m.len() - 1 {
                    if fmt_conj(m[i].conditions) == fmt_conj(s.last().conditions) {
                        assert(fmt_conj(mi[i].conditions) == fmt_conj(s.last().conditions));
                    }
                }
            }
        }
    }
}

/// Merging a list whose keys are already pairwise distinct returns it
/// unchanged.
proof fn lemma_merge_identity(s: Seq<SigView>)
    requires
        forall|i: int, j: int|
            0 <= i < j < s.len() ==> fmt_conj(#[trigger] s[i].conditions) != fmt_conj(
                #[trigger] s[j].conditions,
            ),
    ensures
        merge_sigs(s) == s,
    decreases s.len(),
{
    if s.len() > 0 {
        assert(forall|j: int| 0 <= j < s.len() - 1 ==> s.drop_last()[j] == #[trigger] s[j]);
        lemma_merge_identity(s.drop_last());
        assert(!(exists|j: int|
            0 <= j < s.len() - 1 && fmt_conj(s[j].conditions) == fmt_conj(
                s.last().conditions,
            )));
        assert(merge_sigs(s) == s.drop_last().push(s.last()));
        assert(s.drop_last().push(s.last()) =~= s);
    }
}

/// Merging is idempotent: a second pass over already-merged signatures
/// changes nothing.
pub proof fn lemma_merge_idempotent(s: Seq<SigView>)
    ensures
        merge_sigs(merge_sigs(s)) == merge_sigs(s),
{
    lemma_merge_keys_distinct(s);
    lemma_merge_identity(merge_sigs(s));
}

/// Clone a normal form, keeping its views.
fn clone_dnf(v: &Vec<Vec<Condition>>) -> (r: Vec<Vec<Condition>>)
    ensures
        r.deep_view() == v.deep_view(),
{
    let mut r: Vec<Vec<Condition>> = Vec::new();
    let n = v.len();
    let mut i: usize = 0;
    proof {
        assert(v.deep_view().take(0) =~= Seq::<Seq<CondView>>::empty());
        assert(r.deep_view() =~= Seq::<Seq<CondView>>::empty());
    }
    while i < n
        invariant
            i <= n,
            n == v.len(),
            r.deep_view() == v.deep_view().take(i as int),
        decreases n - i,
    {
        proof {
            assert(v.deep_view().take(i as int).len() == i);
            assert(r.deep_view().len() == r@.len());
            assert(v.deep_view().len() == v@.len());
        }
        let c = clone_cond_vec(&v[i]);
        proof {
            assert(c.deep_view() == v.deep_view()[i as int]);
        }
        push_dv(&mut r, c);
        proof {
            assert(r.deep_view() =~= v.deep_view().take(i + 1));
        }
        i = i + 1;
    }
    proof {
        assert(v.deep_view().take(n as int) =~= v.deep_view());
    }
    r
}

/// Builds per-state signatures from the state graph's paths and guards.
pub struct SignatureGenerator;

impl SignatureGenerator {
    /// The normal form of one transition's guard text.
    pub fn parse_transition_condition(condition_str: &str) -> (r: Vec<Vec<Condition>>)
        ensures
            r.deep_view() == sp_guard_dnf(condition_str@),
            r.deep_view().len() >= 1,
    {
        proof {
            reveal_strlit("No Check");
        }
        if condition_str.unicode_len() == 0 || str_eq(condition_str, "No Check") {
            let mut r: Vec<Vec<Condition>> = Vec::new();
            let conj: Vec<Condition> = Vec::new();
            push_dv(&mut r, conj);
            proof {
                assert(r.deep_view() =~~= seq![Seq::<CondView>::empty()]);
            }
            return r;
        }
        let mut tokenizer = Tokenizer::new(condition_str);
        let tokens = tokenizer.tokenize();
        let ghost toks = tokens.deep_view();
        proof {
            assert(toks == tokens_of(condition_str@, 0));
            assert(toks.len() == tokens@.len());
        }
        if tokens.len() == 0 {
            let mut r: Vec<Vec<Condition>> = Vec::new();
            let conj: Vec<Condition> = Vec::new();
            push_dv(&mut r, conj);
            proof {
                assert(toks.len() == 0);
                assert(r.deep_view() =~~= seq![Seq::<CondView>::empty()]);
            }
            return r;
        }
        let mut parser = ExpressionParser::new(tokens);
        let expr = match parser.parse() {
            Some(e) => e,
            None => {
                return Self::parse_simple_condition(condition_str);
            },
        };
        let ghost ev = sp_or(toks, 0).unwrap().0;
        proof {
            assert(expr_view(&expr) == ev);
            lemma_dnf_nonempty(ev);
        }
        let dnf = expr.to_dnf();
        let ghost dv = dnf.deep_view();
        // canonicalise each conjunction
        let mut out: Vec<Vec<Condition>> = Vec::new();
        let n = dnf.len();
        let mut i: usize = 0;
        proof {
            assert(dv.len() == dnf@.len());
            assert(dv.take(0).map_values(|c: Seq<CondView>| canon_conj(c)) =~= Seq::<
                Seq<CondView>,
            >::empty());
            assert(out.deep_view() =~= Seq::<Seq<CondView>>::empty());
        }
        while i < n
            invariant
                i <= n,
                n == dnf@.len(),
                dv == dnf.deep_view(),
                dv.len() == n,
                out.deep_view() == dv.take(i as int).map_values(|c: Seq<CondView>| canon_conj(c)),
            decreases n - i,
        {
            let conj = clone_cond_vec(&dnf[i]);
            proof {
                assert(conj.deep_view() == dv[i as int]);
            }
            let canon = canon_conditions(conj);
            push_dv(&mut out, canon);
            proof {
                let f = |c: Seq<CondView>| canon_conj(c);
                assert(dv.take(i + 1).map_values(f) =~= dv.take(i as int).map_values(f).push(
                    f(dv[i as int]),
                ));
            }
            i = i + 1;
        }
        proof {
            assert(dv.take(n as int) =~= dv);
            assert(out.deep_view() == canon_dnf(dv));
            assert(out.deep_view().len() == dv.len());
        }
        out
    }

    /// Fallback: split the raw guard on the literal `" AND "` and parse
    /// each piece as an atomic condition; the successes form a single
    /// conjunction.
    pub fn parse_simple_condition(condition_str: &str) -> (r: Vec<Vec<Condition>>)
        ensures
            r.deep_view() == sp_simple(condition_str@),
            r.deep_view().len() == 1,
    {
        proof {
            reveal_strlit(" AND ");
        }
        let parts = split_str(condition_str, " AND ");
        let ghost pieces = split_on(condition_str@, " AND "@);
        let mut conditions: Vec<Condition> = Vec::new();
        let n = parts.len();
        let mut i: usize = 0;
        proof {
            assert(pieces.take(0) =~= Seq::<Seq<char>>::empty());
            assert(conditions.deep_view() =~= Seq::<CondView>::empty());
        }
        while i < n
            invariant
                i <= n,
                n == parts@.len(),
                n == pieces.len(),
                forall|j: int| 0 <= j < n ==> parts@[j]@ == #[trigger] pieces[j],
                conditions.deep_view() == collect_atomics(pieces.take(i as int)),
            decreases n - i,
        {
            let trimmed = trim_str(parts[i].as_str());
            proof {
                assert(trimmed@ == trim_spec(pieces[i as int]));
                lemma_collect_atomics_snoc(pieces.take(i as int), pieces[i as int]);
                assert(pieces.take(i as int).push(pieces[i as int]) =~= pieces.take(i + 1));
            }
            match parse_atomic_condition_str(trimmed.as_str()) {
                Some(cond) => {
                    proof {
                        assert(cond@ == sp_atomic(trim_spec(pieces[i as int])).unwrap());
                    }
                    push_dv(&mut conditions, cond);
                },
                None => {},
            }
            i = i + 1;
        }
        proof {
            assert(pieces.take(n as int) =~= pieces);
        }
        let mut r: Vec<Vec<Condition>> = Vec::new();
        push_dv(&mut r, conditions);
        proof {
            assert(r.deep_view() =~= seq![collect_atomics(pieces)]);
        }
        r
    }

    /// Parse one atomic condition.
    pub fn parse_single_condition(expr: &str) -> (r: Option<Condition>)
        ensures
            r.is_some() == sp_atomic(expr@).is_some(),
            r matches Some(c) ==> c@ == sp_atomic(expr@).unwrap(),
    {
        parse_atomic_condition_str(expr)
    }

    /// Combine the normal forms along a path: every choice of one
    /// conjunction per transition, concatenated in order.
    pub fn cross_product_dnf(dnfs: Vec<Vec<Vec<Condition>>>) -> (r: Vec<Vec<Condition>>)
        ensures
            r.deep_view() == cross_many(dnfs.deep_view()),
    {
        let ghost ds = dnfs.deep_view();
        proof {
            assert(ds.len() == dnfs@.len());
        }
        if dnfs.len() == 0 {
            let mut r: Vec<Vec<Condition>> = Vec::new();
            let conj: Vec<Condition> = Vec::new();
            push_dv(&mut r, conj);
            proof {
                assert(r.deep_view() =~~= seq![Seq::<CondView>::empty()]);
            }
            return r;
        }
        let mut result = clone_dnf(&dnfs[0]);
        proof {
            assert(result.deep_view() == ds[0]);
            assert(ds.skip(1).len() == ds.len() - 1);
        }
        let n = dnfs.len();
        let mut i: usize = 1;
        while i < n
            invariant
                1 <= i <= n,
                n == dnfs@.len(),
                ds == dnfs.deep_view(),
                ds.len() == n,
                cross_many(ds) == cross_fold(result.deep_view(), ds.skip(i as int)),
            decreases n - i,
        {
            let ghost acc = result.deep_view();
            result = crate::expr::cross_two(&result, &dnfs[i]);
            proof {
                assert(ds.skip(i as int)[0] == ds[i as int]);
                assert(ds.skip(i as int).skip(1) =~= ds.skip(i + 1));
                assert(cross_fold(acc, ds.skip(i as int)) == cross_fold(
                    cross2(acc, ds[i as int]),
                    ds.skip(i + 1),
                ));
                assert(result.deep_view() == cross2(acc, ds[i as int]));
            }
            i = i + 1;
        }
        proof {
            assert(ds.skip(n as int).len() == 0);
            assert(cross_fold(result.deep_view(), ds.skip(n as int)) == result.deep_view());
        }
        result
    }

    /// Canonicalise one path's conjunction: drop duplicate triples and
    /// sort ascending.
    pub fn remove_redundancy_in_path(conditions: Vec<Condition>) -> (r: Vec<Condition>)
        ensures
            r.deep_view() == canon_conj(conditions.deep_view()),
    {
        canon_conditions(conditions)
    }

    /// Keep one representative per formatted conjunction, the first in
    /// order of appearance.
    pub fn merge_equivalent_signatures(signatures: Vec<PathSignature>) -> (r: Vec<PathSignature>)
        ensures
            r.deep_view() == merge_sigs(signatures.deep_view()),
    {
        let ghost s = signatures.deep_view();
        proof {
            assert(s.len() == signatures@.len());
        }
        let mut out: Vec<PathSignature> = Vec::new();
        let n = signatures.len();
        let mut i: usize = 0;
        proof {
            assert(s.take(0) =~= Seq::<SigView>::empty());
            assert(out.deep_view() =~= Seq::<SigView>::empty());
        }
        while i < n
            invariant
                i <= n,
                n == signatures@.len(),
                s == signatures.deep_view(),
                s.len() == n,
                out.deep_view() == merge_sigs(s.take(i as int)),
            decreases n - i,
        {
            let key = signatures[i].format_conditions();
            proof {
                assert(signatures[i as int]@ == s[i as int]);
                assert(key@ == fmt_conj(s[i as int].conditions));
            }
            let mut found = false;
            let m = out.len();
            let mut j: usize = 0;
            loop
                invariant
                    j <= m,
                    m == out@.len(),
                    key@ == fmt_conj(s[i as int].conditions),
                    found ==> exists|k: int|
                        0 <= k < out.deep_view().len() && fmt_conj(
                            #[trigger] out.deep_view()[k].conditions,
                        ) == key@,
                    !found ==> forall|k: int|
                        0 <= k < j ==> fmt_conj(#[trigger] out.deep_view()[k].conditions)
                            != key@,
                ensures
                    found ==> exists|k: int|
                        0 <= k < out.deep_view().len() && fmt_conj(
                            #[trigger] out.deep_view()[k].conditions,
                        ) == key@,
                    !found ==> forall|k: int|
                        0 <= k < m ==> fmt_conj(#[trigger] out.deep_view()[k].conditions)
                            != key@,
                decreases m - j,
            {
                if j >= m {
                    proof {
                        assert(out.deep_view().len() == out@.len());
                    }
                    break;
                }
                let fk = out[j].format_conditions();
                proof {
                    assert(out[j as int]@ == out.deep_view()[j as int]);
                    assert(fk@ == fmt_conj(out.deep_view()[j as int].conditions));
                }
                if str_eq(fk.as_str(), key.as_str()) {
                    found = true;
                    proof {
                        assert(fmt_conj(out.deep_view()[j as int].conditions) == key@);
                    }
                    break;
                }
                j = j + 1;
            }
            proof {
                lemma_merge_contains_key(s.take(i as int), key@);
                assert(out.deep_view().len() == out@.len());
                assert(s.take(i + 1).drop_last() =~= s.take(i as int));
                assert(s.take(i + 1).last() == s[i as int]);
                assert(forall|k: int|
                    0 <= k < i ==> s.take(i as int)[k] == #[trigger] s.take(i + 1)[k]);
            }
            if !found {
                proof {
                    assert(forall|k: int|
                        0 <= k < out.deep_view().len() ==> fmt_conj(
                            #[trigger] out.deep_view()[k].conditions,
                        ) != key@);
                    assert(!(exists|k: int|
                        0 <= k < merge_sigs(s.take(i as int)).len() && fmt_conj(
                            #[trigger] merge_sigs(s.take(i as int))[k].conditions,
                        ) == key@));
                    assert(!(exists|k: int|
                        0 <= k < i && fmt_conj(#[trigger] s.take(i as int)[k].conditions)
                            == key@));
                    assert(!(exists|k: int|
                        0 <= k < s.take(i + 1).len() - 1 && fmt_conj(
                            #[trigger] s.take(i + 1)[k].conditions,
                        ) == fmt_conj(s.take(i + 1).last().conditions)));
                }
                let cloned = signatures[i].clone();
                push_dv(&mut out, cloned);
                proof {
                    assert(out.deep_view() == merge_sigs(s.take(i as int)).push(s[i as int]));
                    assert(merge_sigs(s.take(i + 1)) == merge_sigs(s.take(i as int)).push(
                        s.take(i + 1).last(),
                    ));
                }
            } else {
                proof {
                    assert(exists|k: int|
                        0 <= k < merge_sigs(s.take(i as int)).len() && fmt_conj(
                            #[trigger] merge_sigs(s.take(i as int))[k].conditions,
                        ) == key@);
                    assert(exists|k: int|
                        0 <= k < i && fmt_conj(#[trigger] s.take(i as int)[k].conditions)
                            == key@);
                    let k = choose|k: int|
                        0 <= k < i && fmt_conj(#[trigger] s.take(i as int)[k].conditions)
                            == key@;
                    assert(fmt_conj(s.take(i + 1)[k].conditions) == fmt_conj(
                        s.take(i + 1).last().conditions,
                    ));
                    assert(merge_sigs(s.take(i + 1)) == merge_sigs(s.take(i as int)));
                }
            }
            i = i + 1;
        }
        proof {
            assert(s.take(n as int) =~= s);
        }
        out
    }
}

/// The guard normal forms along one path, in order; the first step of
/// a walk contributes nothing.
pub open spec fn path_dnfs(b: BlockView, path: Seq<StepView>) -> Seq<Seq<Seq<CondView>>>
    decreases path.len(),
{
    if path.len() == 0 {
        Seq::empty()
    } else {
        (match path[0].transition_index {
            Some(idx) => if 0 <= idx < b.transitions.len() {
                seq![sp_guard_dnf(b.transitions[idx].condition)]
            } else {
                Seq::empty()
            },
            None => Seq::empty(),
        }) + path_dnfs(b, path.skip(1))
    }
}

/// The conjunctions of a whole path: the cross product of its guards'
/// normal forms.
pub open spec fn sp_path_conds(b: BlockView, path: Seq<StepView>) -> Seq<Seq<CondView>> {
    cross_many(path_dnfs(b, path))
}

/// The path signatures made of a run of conjunctions: each one
/// canonicalised and numbered from `next_id` on.
pub open spec fn sigs_of_conjs(conjs: Seq<Seq<CondView>>, next_id: int) -> Seq<SigView> {
    Seq::new(
        conjs.len(),
        |k: int| SigView { conditions: canon_conj(conjs[k]), path_id: next_id + k },
    )
}

/// All path signatures of a state, over its paths in order, numbered
/// consecutively.
pub open spec fn sp_all_sigs(b: BlockView, paths: Seq<Seq<StepView>>, next_id: int) -> Seq<
    SigView,
>
    decreases paths.len(),
{
    if paths.len() == 0 {
        Seq::empty()
    } else {
        let cs = sp_path_conds(b, paths[0]);
        sigs_of_conjs(cs, next_id) + sp_all_sigs(b, paths.skip(1), next_id + cs.len())
    }
}

/// The signature of one state: its merged path signatures and the
/// number of source paths before merging.
pub open spec fn sp_state_sig(b: BlockView, state_id: Seq<char>, paths: Seq<Seq<StepView>>) -> StateSigView {
    StateSigView {
        state_id: state_id,
        path_signatures: merge_sigs(sp_all_sigs(b, paths, 0)),
        paths_count: paths.len() as int,
    }
}

/// The paths of the recorded walks that end at the given state, in
/// traversal order.
pub open spec fn paths_for(records: Seq<PathRecView>, id: Seq<char>) -> Seq<Seq<StepView>>
    decreases records.len(),
{
    if records.len() == 0 {
        Seq::empty()
    } else {
        (if records[0].state_id == id {
            seq![records[0].path]
        } else {
            Seq::empty()
        }) + paths_for(records.skip(1), id)
    }
}

/// Mathematical form of the signature table.
pub ghost struct TableView {
    pub function_block_name: Seq<char>,
    pub case_variable: Seq<char>,
    pub signatures: Seq<(Seq<char>, StateSigView)>,
}

/// The signature table of a function block: one state signature per
/// reached state, keyed by state id in state insertion order.
pub struct StateSignatureTable {
    pub function_block_name: String,
    pub case_variable: String,
    pub signatures: indexmap::IndexMap<String, StateSignature>,
}

impl View for StateSignatureTable {
    type V = TableView;

    open spec fn view(&self) -> TableView {
        TableView {
            function_block_name: self.function_block_name@,
            case_variable: self.case_variable@,
            signatures: sig_entries(self.signatures),
        }
    }
}

impl StateSignatureTable {
    pub fn new(function_block_name: String, case_variable: String) -> (r: Self)
        ensures
            r@ == (TableView {
                function_block_name: function_block_name@,
                case_variable: case_variable@,
                signatures: Seq::empty(),
            }),
    {
        StateSignatureTable { function_block_name, case_variable, signatures: sigs_new() }
    }

    /// The signature stored for a state, if any.
    pub fn get_signature<'a>(&'a self, state_id: &str) -> (r: Option<&'a StateSignature>)
        ensures
            match r {
                Some(v) => find_entry(self@.signatures, state_id@) == Some(v@),
                None => find_entry(self@.signatures, state_id@).is_none(),
            },
    {
        sigs_get(&self.signatures, state_id)
    }

    /// The number of states with signatures.
    pub fn state_count(&self) -> (r: usize)
        ensures
            r == self@.signatures.len(),
    {
        sigs_len(&self.signatures)
    }

    /// The state ids with signatures, in order.
    pub fn signature_ids(&self) -> (r: Vec<String>)
        ensures
            r@.len() == self@.signatures.len(),
            forall|i: int| 0 <= i < r@.len() ==> r@[i]@ == (#[trigger] self@.signatures[i]).0,
    {
        sigs_keys(&self.signatures)
    }

    /// Whether a runtime assignment matches the signature of the given
    /// state; an unknown state never matches.
    pub fn verify_state(&self, state_id: &str, runtime_vars: &RuntimeVars) -> (r: bool)
        ensures
            r == match find_entry(self@.signatures, state_id@) {
                Some(s) => sig_matches(s, runtime_vars@),
                None => false,
            },
    {
        match sigs_get(&self.signatures, state_id) {
            Some(sig) => sig.matches_any(runtime_vars),
            None => false,
        }
    }
}

/// Inserting into the table: an existing key keeps its place, a new
/// key is appended.
pub open spec fn sig_insert_spec(
    e: Seq<(Seq<char>, StateSigView)>,
    k: Seq<char>,
    v: StateSigView,
) -> Seq<(Seq<char>, StateSigView)> {
    match find_entry(e, k) {
        Some(_) => map_update(e, k, v),
        None => e.push((k, v)),
    }
}

/// Walk the states in insertion order and record a signature for each
/// state at least one walk reaches.
pub open spec fn sp_table_fold(
    b: BlockView,
    records: Seq<PathRecView>,
    entries: Seq<(Seq<char>, crate::state::StateView)>,
    acc: Seq<(Seq<char>, StateSigView)>,
) -> Seq<(Seq<char>, StateSigView)>
    decreases entries.len(),
{
    if entries.len() == 0 {
        acc
    } else {
        let id = entries[0].0;
        let ps = paths_for(records, id);
        let acc2 = if ps.len() > 0 {
            sig_insert_spec(acc, id, sp_state_sig(b, id, ps))
        } else {
            acc
        };
        sp_table_fold(b, records, entries.skip(1), acc2)
    }
}

/// The signature table generated from a function block.
pub open spec fn sp_generate(b: BlockView) -> TableView {
    TableView {
        function_block_name: b.name,
        case_variable: b.case_variable,
        signatures: sp_table_fold(b, sp_find_all(b), b.states, Seq::empty()),
    }
}

/// Signature determinism: the generated table is a function of the
/// function block's mathematical view alone, so two runs on the same
/// block yield structurally identical tables, formatted texts
/// included.
pub proof fn lemma_signature_determinism(b: BlockView, t1: TableView, t2: TableView)
    requires
        t1 == sp_generate(b),
        t2 == sp_generate(b),
    ensures
        t1 == t2,
        forall|i: int|
            0 <= i < t1.signatures.len() ==> fmt_state_sig((#[trigger] t1.signatures[i]).1)
                == fmt_state_sig(t2.signatures[i].1),
{
}

fn paths_for_state(records: &Vec<PathRecord>, state_id: &str) -> (r: Vec<Vec<PathStep>>)
    ensures
        r.deep_view() == paths_for(records.deep_view(), state_id@),
{
    let ghost rv = records.deep_view();
    let mut out: Vec<Vec<PathStep>> = Vec::new();
    let n = records.len();
    proof {
        assert(rv.len() == records@.len());
        assert(out.deep_view() =~= Seq::<Seq<StepView>>::empty());
        assert(rv.skip(0) =~= rv);
    }
    let mut i: usize = 0;
    while i < n
        invariant
            i <= n,
            n == records@.len(),
            rv == records.deep_view(),
            rv.len() == n,
            out.deep_view() + paths_for(rv.skip(i as int), state_id@) == paths_for(
                rv,
                state_id@,
            ),
        decreases n - i,
    {
        proof {
            assert(rv.skip(i as int)[0] == rv[i as int]);
            assert(rv.skip(i as int).skip(1) =~= rv.skip(i + 1));
            assert(records[i as int]@ == rv[i as int]);
        }
        if str_eq(records[i].state_id.as_str(), state_id) {
            let p = crate::paths::clone_path(&records[i].path);
            let ghost ob = out.deep_view();
            push_dv(&mut out, p);
            proof {
                assert(out.deep_view() == ob.push(rv[i as int].path));
                assert(ob.push(rv[i as int].path) + paths_for(rv.skip(i + 1), state_id@) =~= ob
                    + (seq![rv[i as int].path] + paths_for(rv.skip(i + 1), state_id@)));
            }
        }
        i = i + 1;
    }
    proof {
        assert(rv.skip(n as int).len() == 0);
        assert(paths_for(rv.skip(n as int), state_id@) =~= Seq::<Seq<StepView>>::empty());
        assert(out.deep_view() + Seq::<Seq<StepView>>::empty() =~= out.deep_view());
    }
    out
}

impl SignatureGenerator {
    /// The guard normal forms along one path, combined into the path's
    /// conjunctions.
    pub fn extract_conditions_from_path(fb: &FunctionBlock, path: &Vec<PathStep>) -> (r: Vec<
        Vec<Condition>,
    >)
        ensures
            r.deep_view() == sp_path_conds(fb@, path.deep_view()),
    {
        let ghost b = fb@;
        let ghost pv = path.deep_view();
        let mut transition_dnfs: Vec<Vec<Vec<Condition>>> = Vec::new();
        let n = path.len();
        proof {
            assert(pv.len() == path@.len());
            assert(transition_dnfs.deep_view() =~= Seq::<Seq<Seq<CondView>>>::empty());
            assert(pv.skip(0) =~= pv);
            assert(b.transitions.len() == fb.transitions@.len());
        }
        let mut i: usize = 0;
        while i < n
            invariant
                i <= n,
                n == path@.len(),
                b == fb@,
                pv == path.deep_view(),
                pv.len() == n,
                b.transitions.len() == fb.transitions@.len(),
                transition_dnfs.deep_view() + path_dnfs(b, pv.skip(i as int)) == path_dnfs(
                    b,
                    pv,
                ),
            decreases n - i,
        {
            proof {
                assert(pv.skip(i as int)[0] == pv[i as int]);
                assert(pv.skip(i as int).skip(1) =~= pv.skip(i + 1));
                assert(path[i as int]@ == pv[i as int]);
            }
            match path[i].transition_index {
                Some(idx) => {
                    if idx < fb.transitions.len() {
                        proof {
                            assert(fb.transitions[idx as int]@ == b.transitions[idx as int]);
                        }
                        let dnf = Self::parse_transition_condition(
                            fb.transitions[idx].condition.as_str(),
                        );
                        let ghost ob = transition_dnfs.deep_view();
                        push_dv(&mut transition_dnfs, dnf);
                        proof {
                            assert(transition_dnfs.deep_view() == ob.push(
                                sp_guard_dnf(b.transitions[idx as int].condition),
                            ));
                            assert(ob.push(sp_guard_dnf(b.transitions[idx as int].condition))
                                + path_dnfs(b, pv.skip(i + 1)) =~= ob + (seq![
                                sp_guard_dnf(b.transitions[idx as int].condition),
                            ] + path_dnfs(b, pv.skip(i + 1))));
                        }
                    }
                },
                None => {},
            }
            i = i + 1;
        }
        proof {
            assert(pv.skip(n as int).len() == 0);
            assert(path_dnfs(b, pv.skip(n as int)) =~= Seq::<Seq<Seq<CondView>>>::empty());
            assert(transition_dnfs.deep_view() + Seq::<Seq<Seq<CondView>>>::empty()
                =~= transition_dnfs.deep_view());
        }
        Self::cross_product_dnf(transition_dnfs)
    }

    /// The signature of one state: one canonical conjunction per path
    /// and per choice of guard disjuncts, merged across paths.
    pub fn build_signature_for_state(
        fb: &FunctionBlock,
        state_id: &str,
        paths: &Vec<Vec<PathStep>>,
    ) -> (r: StateSignature)
        ensures
            r@ == sp_state_sig(fb@, state_id@, paths.deep_view()),
    {
        let ghost b = fb@;
        let ghost psv = paths.deep_view();
        let mut path_signatures: Vec<PathSignature> = Vec::new();
        let n = paths.len();
        proof {
            assert(psv.len() == paths@.len());
            assert(path_signatures.deep_view() =~= Seq::<SigView>::empty());
            assert(psv.skip(0) =~= psv);
        }
        let mut i: usize = 0;
        while i < n
            invariant
                i <= n,
                n == paths@.len(),
                b == fb@,
                psv == paths.deep_view(),
                psv.len() == n,
                path_signatures.deep_view().len() == path_signatures@.len(),
                path_signatures.deep_view() + sp_all_sigs(
                    b,
                    psv.skip(i as int),
                    path_signatures.deep_view().len() as int,
                ) == sp_all_sigs(b, psv, 0),
            decreases n - i,
        {
            proof {
                assert(psv.skip(i as int)[0] == psv[i as int]);
                assert(psv.skip(i as int).skip(1) =~= psv.skip(i + 1));
                assert(paths[i as int].deep_view() == psv[i as int]);
            }
            let condition_sets = Self::extract_conditions_from_path(fb, &paths[i]);
            let ghost cs = sp_path_conds(b, psv[i as int]);
            let ghost sigs_before = path_signatures.deep_view();
            let ghost id0 = sigs_before.len() as int;
            let m = condition_sets.len();
            proof {
                assert(condition_sets.deep_view() == cs);
                assert(cs.len() == condition_sets@.len());
                assert(sigs_of_conjs(cs, id0).take(0) =~= Seq::<SigView>::empty());
                assert(sigs_before + sigs_of_conjs(cs, id0).take(0) =~= sigs_before);
            }
            let mut j: usize = 0;
            while j < m
                invariant
                    j <= m,
                    m == condition_sets@.len(),
                    condition_sets.deep_view() == cs,
                    cs.len() == m,
                    b == fb@,
                    path_signatures.deep_view().len() == path_signatures@.len(),
                    path_signatures.deep_view() == sigs_before + sigs_of_conjs(cs, id0).take(
                        j as int,
                    ),
                    id0 == sigs_before.len(),
                decreases m - j,
            {
                proof {
                    assert(condition_sets[j as int].deep_view() == cs[j as int]);
                }
                let conj = clone_cond_vec(&condition_sets[j]);
                proof {
                    assert(conj.deep_view() == cs[j as int]);
                }
                let unique = Self::remove_redundancy_in_path(conj);
                let next_id = path_signatures.len();
                proof {
                    assert(next_id == id0 + j);
                }
                let sig = PathSignature::new(unique, next_id);
                let ghost before_push = path_signatures.deep_view();
                push_dv(&mut path_signatures, sig);
                proof {
                    assert(sig@ == sigs_of_conjs(cs, id0)[j as int]);
                    assert(sigs_of_conjs(cs, id0).take(j + 1) =~= sigs_of_conjs(cs, id0).take(
                        j as int,
                    ).push(sigs_of_conjs(cs, id0)[j as int]));
                    assert(path_signatures.deep_view() =~= sigs_before + sigs_of_conjs(
                        cs,
                        id0,
                    ).take(j + 1));
                }
                j = j + 1;
            }
            proof {
                assert(sigs_of_conjs(cs, id0).take(m as int) =~= sigs_of_conjs(cs, id0));
                assert(path_signatures.deep_view() == sigs_before + sigs_of_conjs(cs, id0));
                assert(sp_all_sigs(b, psv.skip(i as int), id0) == sigs_of_conjs(cs, id0)
                    + sp_all_sigs(b, psv.skip(i + 1), id0 + cs.len()));
                assert(path_signatures.deep_view().len() as int == id0 + cs.len());
                assert((sigs_before + sigs_of_conjs(cs, id0)) + sp_all_sigs(
                    b,
                    psv.skip(i + 1),
                    id0 + cs.len(),
                ) =~= sigs_before + (sigs_of_conjs(cs, id0) + sp_all_sigs(
                    b,
                    psv.skip(i + 1),
                    id0 + cs.len(),
                )));
            }
            i = i + 1;
        }
        proof {
            assert(psv.skip(n as int).len() == 0);
            assert(sp_all_sigs(b, psv.skip(n as int), path_signatures.deep_view().len() as int)
                =~= Seq::<SigView>::empty());
            assert(path_signatures.deep_view() + Seq::<SigView>::empty()
                =~= path_signatures.deep_view());
            assert(path_signatures.deep_view() == sp_all_sigs(b, psv, 0));
        }
        let optimized = Self::merge_equivalent_signatures(path_signatures);
        let r = StateSignature {
            state_id: state_id.to_owned(),
            path_signatures: optimized,
            paths_count: paths.len(),
        };
        r
    }

    /// Generate the signature table of a function block: enumerate the
    /// acyclic walks, then build and record one signature per reached
    /// state, in state insertion order.
    pub fn generate(fb: &FunctionBlock) -> (r: StateSignatureTable)
        ensures
            r@ == sp_generate(fb@),
    {
        let ghost b = fb@;
        let mut table = StateSignatureTable::new(fb.name.clone(), fb.case_variable.clone());
        let paths = PathFinder::find_all_paths(fb);
        let ghost records = paths.deep_view();
        let keys = fb.state_ids();
        let n = keys.len();
        proof {
            assert(records == sp_find_all(b));
            assert(sig_entries(table.signatures) =~= Seq::<(Seq<char>, StateSigView)>::empty());
            assert(b.states.skip(0) =~= b.states);
        }
        let mut i: usize = 0;
        while i < n
            invariant
                i <= n,
                n == keys@.len(),
                b == fb@,
                records == paths.deep_view(),
                records == sp_find_all(b),
                n == b.states.len(),
                forall|j: int| 0 <= j < n ==> keys@[j]@ == (#[trigger] b.states[j]).0,
                table@.function_block_name == b.name,
                table@.case_variable == b.case_variable,
                sp_table_fold(b, records, b.states.skip(i as int), sig_entries(table.signatures))
                    == sp_table_fold(b, records, b.states, Seq::empty()),
            decreases n - i,
        {
            proof {
                assert(b.states.skip(i as int)[0] == b.states[i as int]);
                assert(b.states.skip(i as int).skip(1) =~= b.states.skip(i + 1));
                assert(keys@[i as int]@ == b.states[i as int].0);
            }
            let ps = paths_for_state(&paths, keys[i].as_str());
            proof {
                assert(ps.deep_view() == paths_for(records, b.states[i as int].0));
                assert(ps.deep_view().len() == ps@.len());
            }
            if ps.len() > 0 {
                let sig = Self::build_signature_for_state(fb, keys[i].as_str(), &ps);
                sigs_insert(&mut table.signatures, keys[i].clone(), sig);
            }
            i = i + 1;
        }
        proof {
            assert(b.states.skip(n as int).len() == 0);
            assert(sp_table_fold(
                b,
                records,
                b.states.skip(n as int),
                sig_entries(table.signatures),
            ) == sig_entries(table.signatures));
        }
        table
    }
}

/// Splitting the joined text of plain conditions recovers exactly the
/// conditions' texts.
proof fn lemma_split_joined(c: Seq<CondView>)
    requires
        c.len() >= 1,
        forall|i: int| 0 <= i < c.len() ==> round_trip_cond(#[trigger] c[i]),
    ensures
        split_on(join_conds(c), " AND "@) == c.map_values(|x: CondView| cond_str(x)),
    decreases c.len(),
{
    reveal_strlit(" AND ");
    let sep = " AND "@;
    assert(sep.len() == 5);
    assert(sep[0] == ' ' && sep[1] == 'A' && sep[2] == 'N' && sep[3] == 'D' && sep[4] == ' ');
    let f = |x: CondView| cond_str(x);
    let p0 = cond_str(c[0]);
    lemma_cond_str_plain(c[0]);
    if c.len() == 1 {
        assert(join_conds(c) == p0);
        assert forall|q: int| 0 <= q && q + 5 <= p0.len() implies #[trigger] p0.subrange(
            q,
            q + 5,
        ) != sep by {
            let w = p0.subrange(q, q + 5);
            assert(w[1] == p0[q + 1]);
            assert(p0[q + 1] != 'A');
        }
        lemma_find_sub_none(p0, sep, 0);
        assert(split_on(p0, sep) == seq![p0]);
        assert(c.map_values(f) =~= seq![p0]);
    } else {
        let rest = join_conds(c.skip(1));
        let text = join_conds(c);
        assert(text == p0 + sep + rest);
        let pl = p0.len() as int;
        assert(text.subrange(pl, pl + 5) =~= sep);
        assert forall|q: int| 0 <= q < pl implies #[trigger] text.subrange(q, q + 5) != sep by {
            let w = text.subrange(q, q + 5);
            assert(w[1] == text[q + 1]);
            if q + 1 < pl {
                assert(text[q + 1] == p0[q + 1]);
                assert(p0[q + 1] != 'A');
            } else {
                assert(q + 1 == pl);
                assert(text[q + 1] == sep[0]);
            }
        }
        lemma_find_sub_first(text, sep, 0, p0.len());
        assert(split_on(text, sep) == seq![text.subrange(0, pl)] + split_on(
            text.skip(pl + 5),
            sep,
        ));
        assert(text.subrange(0, pl) =~= p0);
        assert(text.skip(pl + 5) =~= rest);
        assert(forall|i: int|
            0 <= i < c.skip(1).len() ==> round_trip_cond(#[trigger] c.skip(1)[i]));
        lemma_split_joined(c.skip(1));
        assert(c.skip(1).map_values(f) =~= c.map_values(f).skip(1));
        assert(seq![p0] + c.map_values(f).skip(1) =~= c.map_values(f));
    }
}

/// Parsing each piece of the joined text yields the conditions back.
proof fn lemma_collect_round(c: Seq<CondView>)
    requires
        forall|i: int| 0 <= i < c.len() ==> round_trip_cond(#[trigger] c[i]),
    ensures
        collect_atomics(c.map_values(|x: CondView| cond_str(x))) == c,
    decreases c.len(),
{
    let f = |x: CondView| cond_str(x);
    if c.len() == 0 {
        assert(c.map_values(f) =~= Seq::<Seq<char>>::empty());
        assert(collect_atomics(c.map_values(f)) =~= c);
    } else {
        let pieces = c.map_values(f);
        assert(pieces[0] == cond_str(c[0]));
        lemma_cond_str_plain(c[0]);
        lemma_atomic_round_trip(c[0]);
        assert(sp_atomic(trim_spec(pieces[0])) == Some(c[0]));
        assert(pieces.skip(1) =~= c.skip(1).map_values(f));
        assert(forall|i: int|
            0 <= i < c.skip(1).len() ==> round_trip_cond(#[trigger] c.skip(1)[i]));
        lemma_collect_round(c.skip(1));
        assert(collect_atomics(pieces) == seq![c[0]] + c.skip(1));
        assert(seq![c[0]] + c.skip(1) =~= c);
    }
}

/// Round trip of conjunction formatting: parsing the canonical text of
/// a conjunction of plain conditions as an `AND`-joined guard yields
/// the conjunction back. Plain means: non-empty variable and value
/// without whitespace, comparison characters, parentheses or a capital
/// `A`, and one of the six operators.
pub proof fn lemma_format_parse_round_trip(c: Seq<CondView>)
    requires
        forall|i: int| 0 <= i < c.len() ==> round_trip_cond(#[trigger] c[i]),
    ensures
        sp_simple(fmt_conj(c)) == seq![c],
{
    reveal_strlit("[initial]");
    reveal_strlit(" AND ");
    reveal_strlit("=");
    reveal_strlit("<>");
    reveal_strlit("<");
    reveal_strlit("<=");
    reveal_strlit(">");
    reveal_strlit(">=");
    let sep = " AND "@;
    assert(sep.len() == 5 && sep[1] == 'A');
    if c.len() == 0 {
        let t = "[initial]"@;
        assert(fmt_conj(c) == t);
        assert(t.len() == 9);
        assert(t[0] == '[' && t[1] == 'i' && t[2] == 'n' && t[3] == 'i' && t[4] == 't' && t[5]
            == 'i' && t[6] == 'a' && t[7] == 'l' && t[8] == ']');
        assert forall|q: int| 0 <= q && q + 5 <= t.len() implies #[trigger] t.subrange(q, q + 5)
            != sep by {
            let w = t.subrange(q, q + 5);
            assert(w[1] == t[q + 1]);
        }
        lemma_find_sub_none(t, sep, 0);
        assert(split_on(t, sep) == seq![t]);
        // the empty-conjunction text parses as no atomic at all
        assert(forall|i: int| 0 <= i < t.len() ==> !is_ws(#[trigger] t[i]));
        assert(trim_front(t) == t);
        assert(trim_back(t) == t);
        assert(trim_spec(t) == t);
        assert(crate::parse::strip_outer_parens(t) == t);
        assert forall|q: int| 0 <= q && q + 2 <= t.len() implies #[trigger] t.subrange(q, q + 2)
            != "<="@ by {
            assert(t.subrange(q, q + 2)[0] == t[q]);
        }
        assert forall|q: int| 0 <= q && q + 2 <= t.len() implies #[trigger] t.subrange(q, q + 2)
            != ">="@ by {
            assert(t.subrange(q, q + 2)[0] == t[q]);
        }
        assert forall|q: int| 0 <= q && q + 2 <= t.len() implies #[trigger] t.subrange(q, q + 2)
            != "<>"@ by {
            assert(t.subrange(q, q + 2)[0] == t[q]);
        }
        assert forall|q: int| 0 <= q && q + 1 <= t.len() implies #[trigger] t.subrange(q, q + 1)
            != "="@ by {
            assert(t.subrange(q, q + 1)[0] == t[q]);
        }
        assert forall|q: int| 0 <= q && q + 1 <= t.len() implies #[trigger] t.subrange(q, q + 1)
            != "<"@ by {
            assert(t.subrange(q, q + 1)[0] == t[q]);
        }
        assert forall|q: int| 0 <= q && q + 1 <= t.len() implies #[trigger] t.subrange(q, q + 1)
            != ">"@ by {
            assert(t.subrange(q, q + 1)[0] == t[q]);
        }
        lemma_find_sub_none(t, "<="@, 0);
        lemma_find_sub_none(t, ">="@, 0);
        lemma_find_sub_none(t, "<>"@, 0);
        lemma_find_sub_none(t, "="@, 0);
        lemma_find_sub_none(t, "<"@, 0);
        lemma_find_sub_none(t, ">"@, 0);
        assert(sp_atomic(t) is None);
        assert(seq![t].skip(1) =~= Seq::<Seq<char>>::empty());
        reveal_with_fuel(collect_atomics, 3);
        assert(collect_atomics(seq![t]) =~= Seq::<CondView>::empty());
        assert(c =~= Seq::<CondView>::empty());
        assert(sp_simple(t) =~= seq![c]);
    } else {
        assert(fmt_conj(c) == join_conds(c));
        lemma_split_joined(c);
        lemma_collect_round(c);
        assert(sp_simple(join_conds(c)) == seq![c]);
    }
}

} // verus!
