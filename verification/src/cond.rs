//! Atomic conditions: the `(variable, operator, value)` triple a guard
//! decomposes into, its canonical text, the total order used for
//! canonical sorting, and the dedup-then-sort canonicalisation of a
//! conjunction.

use vstd::prelude::*;

use crate::strutil::{lex_lt, lemma_lex_trichotomy, lemma_lex_trans, str_cmp3, str_eq};
use vstd::multiset::Multiset;

verus! {

/// Mathematical form of an atomic condition: three character sequences.
pub ghost struct CondView {
    pub variable: Seq<char>,
    pub operator: Seq<char>,
    pub value: Seq<char>,
}

/// A single atomic condition of a guard, e.g. `sensor = low`:
/// a variable name, a comparison operator, and an opaque value text.
pub struct Condition {
    pub variable: String,
    pub operator: String,
    pub value: String,
}

impl View for Condition {
    type V = CondView;

    open spec fn view(&self) -> CondView {
        CondView { variable: self.variable@, operator: self.operator@, value: self.value@ }
    }
}

impl DeepView for Condition {
    type V = CondView;

    open spec fn deep_view(&self) -> CondView {
        self.view()
    }
}

impl Clone for Condition {
    fn clone(&self) -> (r: Self)
        ensures
            r@ == self@,
    {
        Condition {
            variable: self.variable.clone(),
            operator: self.operator.clone(),
            value: self.value.clone(),
        }
    }
}

/// The canonical text of a condition: variable, operator and value
/// joined by single spaces.
pub open spec fn cond_str(c: CondView) -> Seq<char> {
    c.variable + " "@ + c.operator + " "@ + c.value
}

impl Condition {
    pub fn new(variable: String, operator: String, value: String) -> (r: Self)
        ensures
            r@ == (CondView { variable: variable@, operator: operator@, value: value@ }),
    {
        Condition { variable, operator, value }
    }

    /// Format the condition as `"<variable> <operator> <value>"`.
    pub fn to_string(&self) -> (r: String)
        ensures
            r@ == cond_str(self@),
    {
        let mut r = self.variable.clone();
        r.append(" ");
        r.append(self.operator.as_str());
        r.append(" ");
        r.append(self.value.as_str());
        proof {
            assert(r@ =~= cond_str(self@));
        }
        r
    }
}

pub fn cond_eq(a: &Condition, b: &Condition) -> (r: bool)
    ensures
        r == (a@ == b@),
{
    let r = str_eq(a.variable.as_str(), b.variable.as_str()) && str_eq(
        a.operator.as_str(),
        b.operator.as_str(),
    ) && str_eq(a.value.as_str(), b.value.as_str());
    proof {
        if r {
            assert(a@ =~= b@);
        }
    }
    r
}

/// Non-strict total order on conditions: by variable, then operator,
/// then value, each in lexicographic order.
pub open spec fn cond_le(a: CondView, b: CondView) -> bool {
    lex_lt(a.variable, b.variable) || (a.variable == b.variable && (lex_lt(a.operator, b.operator)
        || (a.operator == b.operator && (lex_lt(a.value, b.value) || a.value == b.value))))
}

pub proof fn lemma_cond_le_total(a: CondView, b: CondView)
    ensures
        cond_le(a, b) || cond_le(b, a),
        cond_le(a, b) && cond_le(b, a) ==> a == b,
{
    lemma_lex_trichotomy(a.variable, b.variable);
    lemma_lex_trichotomy(a.operator, b.operator);
    lemma_lex_trichotomy(a.value, b.value);
}

pub proof fn lemma_cond_le_trans(a: CondView, b: CondView, c: CondView)
    requires
        cond_le(a, b),
        cond_le(b, c),
    ensures
        cond_le(a, c),
{
    lemma_lex_trichotomy(a.variable, b.variable);
    lemma_lex_trichotomy(b.variable, c.variable);
    lemma_lex_trichotomy(a.operator, b.operator);
    lemma_lex_trichotomy(b.operator, c.operator);
    if lex_lt(a.variable, b.variable) && lex_lt(b.variable, c.variable) {
        lemma_lex_trans(a.variable, b.variable, c.variable);
    }
    if a.variable == b.variable && b.variable == c.variable {
        if lex_lt(a.operator, b.operator) && lex_lt(b.operator, c.operator) {
            lemma_lex_trans(a.operator, b.operator, c.operator);
        }
        if a.operator == b.operator && b.operator == c.operator {
            if lex_lt(a.value, b.value) && lex_lt(b.value, c.value) {
                lemma_lex_trans(a.value, b.value, c.value);
            }
        }
    }
}

pub fn cond_le_exec(a: &Condition, b: &Condition) -> (r: bool)
    ensures
        r == cond_le(a@, b@),
{
    let cv = str_cmp3(a.variable.as_str(), b.variable.as_str());
    if cv == -1 {
        return true;
    }
    if cv == 1 {
        proof {
            lemma_lex_trichotomy(a@.variable, b@.variable);
        }
        return false;
    }
    let co = str_cmp3(a.operator.as_str(), b.operator.as_str());
    if co == -1 {
        return true;
    }
    if co == 1 {
        proof {
            lemma_lex_trichotomy(a@.operator, b@.operator);
        }
        return false;
    }
    let cl = str_cmp3(a.value.as_str(), b.value.as_str());
    proof {
        lemma_lex_trichotomy(a@.value, b@.value);
    }
    cl != 1
}

/// Keep the first occurrence of each condition, in order of appearance.
pub open spec fn dedup_keep_first(s: Seq<CondView>) -> Seq<CondView>
    decreases s.len(),
{
    if s.len() == 0 {
        Seq::empty()
    } else {
        let init = dedup_keep_first(s.drop_last());
        if s.drop_last().contains(s.last()) {
            init
        } else {
            init.push(s.last())
        }
    }
}

pub proof fn lemma_dedup_contains(s: Seq<CondView>, x: CondView)
    ensures
        dedup_keep_first(s).contains(x) == s.contains(x),
    decreases s.len(),
{
    if s.len() > 0 {
        lemma_dedup_contains(s.drop_last(), x);
        if s.contains(x) {
            let i = choose|i: int| 0 <= i < s.len() && s[i] == x;
            if i < s.len() - 1 {
                assert(s.drop_last()[i] == x);
                assert(s.drop_last().contains(x));
            }
            if !s.drop_last().contains(x) {
                assert(s.last() == x);
                assert(dedup_keep_first(s).last() == x);
                assert(dedup_keep_first(s).contains(x));
            } else {
                if !s.drop_last().contains(s.last()) {
                    assert(dedup_keep_first(s).drop_last() == dedup_keep_first(s.drop_last()));
                    assert(dedup_keep_first(s.drop_last()).contains(x));
                    let j = choose|j: int|
                        0 <= j < dedup_keep_first(s.drop_last()).len() && dedup_keep_first(
                            s.drop_last(),
                        )[j] == x;
                    assert(dedup_keep_first(s)[j] == x);
                }
            }
        } else {
            assert(forall|i: int| 0 <= i < s.len() - 1 ==> s.drop_last()[i] == #[trigger] s[i]);
            assert(!s.drop_last().contains(x)) by {
                if s.drop_last().contains(x) {
                    let i = choose|i: int| 0 <= i < s.len() - 1 && s.drop_last()[i] == x;
                    assert(s[i] == x);
                }
            }
            if !s.drop_last().contains(s.last()) {
                assert(s.last() != x);
                assert(forall|j: int|
                    0 <= j < dedup_keep_first(s).len() ==> #[trigger] dedup_keep_first(s)[j]
                        != x) by {
                    assert(forall|j: int|
                        0 <= j < dedup_keep_first(s.drop_last()).len()
                            ==> #[trigger] dedup_keep_first(s.drop_last())[j] != x) by {
                        if exists|j: int|
                            0 <= j < dedup_keep_first(s.drop_last()).len()
                                && #[trigger] dedup_keep_first(s.drop_last())[j] == x {
                            assert(dedup_keep_first(s.drop_last()).contains(x));
                        }
                    }
                }
            } else {
                assert(forall|j: int|
                    0 <= j < dedup_keep_first(s).len() ==> #[trigger] dedup_keep_first(s)[j]
                        != x) by {
                    if exists|j: int|
                        0 <= j < dedup_keep_first(s).len() && #[trigger] dedup_keep_first(s)[j]
                            == x {
                        assert(dedup_keep_first(s).contains(x));
                        assert(dedup_keep_first(s.drop_last()).contains(x));
                    }
                }
            }
        }
    }
}

/// No condition appears twice.
pub open spec fn distinct_conds(s: Seq<CondView>) -> bool {
    forall|i: int, j: int| 0 <= i < j < s.len() ==> s[i] != s[j]
}

pub proof fn lemma_dedup_distinct(s: Seq<CondView>)
    ensures
        distinct_conds(dedup_keep_first(s)),
    decreases s.len(),
{
    if s.len() > 0 {
        lemma_dedup_distinct(s.drop_last());
        lemma_dedup_contains(s.drop_last(), s.last());
        if !s.drop_last().contains(s.last()) {
            let d = dedup_keep_first(s.drop_last());
            assert(!d.contains(s.last()));
            assert(forall|i: int| 0 <= i < d.len() ==> #[trigger] d[i] != s.last()) by {
                if exists|i: int| 0 <= i < d.len() && #[trigger] d[i] == s.last() {
                    assert(d.contains(s.last()));
                }
            }
            assert(forall|i: int|
                0 <= i < d.len() ==> #[trigger] dedup_keep_first(s)[i] == d[i]);
        }
    }
}

/// Insert `x` into a sorted sequence, after any equal or smaller elements.
pub open spec fn insert_sorted(x: CondView, s: Seq<CondView>) -> Seq<CondView>
    decreases s.len(),
{
    if s.len() == 0 {
        seq![x]
    } else if cond_le(s[0], x) {
        seq![s[0]] + insert_sorted(x, s.skip(1))
    } else {
        seq![x] + s
    }
}

/// Sort by repeated insertion, processing elements left to right.
pub open spec fn sort_conds(s: Seq<CondView>) -> Seq<CondView>
    decreases s.len(),
{
    if s.len() == 0 {
        Seq::empty()
    } else {
        insert_sorted(s.last(), sort_conds(s.drop_last()))
    }
}

/// The elements appear in non-decreasing order.
pub open spec fn sorted_conds(s: Seq<CondView>) -> bool {
    forall|i: int, j: int| 0 <= i < j < s.len() ==> cond_le(s[i], s[j])
}

pub proof fn lemma_insert_sorted_props(x: CondView, s: Seq<CondView>)
    requires
        sorted_conds(s),
    ensures
        sorted_conds(insert_sorted(x, s)),
        insert_sorted(x, s).to_multiset() == s.to_multiset().insert(x),
        insert_sorted(x, s).len() == s.len() + 1,
        forall|y: CondView| #[trigger] insert_sorted(x, s).contains(y) <==> (s.contains(y) || y
            == x),
    decreases s.len(),
{
    broadcast use vstd::seq_lib::group_to_multiset_ensures;
    broadcast use vstd::multiset::group_multiset_axioms;

    if s.len() == 0 {
        assert(seq![x] =~= s.push(x));
        assert(seq![x].to_multiset() =~= s.to_multiset().insert(x));
        assert(insert_sorted(x, s).contains(x)) by {
            assert(insert_sorted(x, s)[0] == x);
        }
    } else if cond_le(s[0], x) {
        assert(sorted_conds(s.skip(1))) by {
            assert(forall|i: int, j: int|
                0 <= i < j < s.skip(1).len() ==> cond_le(
                    #[trigger] s.skip(1)[i],
                    #[trigger] s.skip(1)[j],
                )) by {
                assert(forall|i: int|
                    0 <= i < s.skip(1).len() ==> #[trigger] s.skip(1)[i] == s[i + 1]);
            }
        }
        lemma_insert_sorted_props(x, s.skip(1));
        let t = insert_sorted(x, s.skip(1));
        let r = seq![s[0]] + t;
        assert(r[0] == s[0]);
        assert(forall|i: int| 0 <= i < t.len() ==> r[i + 1] == #[trigger] t[i]);
        assert(sorted_conds(r)) by {
            assert forall|i: int, j: int| 0 <= i < j < r.len() implies cond_le(r[i], r[j]) by {
                if i == 0 {
                    // r[j] is either x or an element of s.skip(1); both are >= s[0]
                    assert(t.contains(r[j])) by {
                        assert(t[j - 1] == r[j]);
                    }
                    if r[j] == x {
                        assert(cond_le(s[0], x));
                    } else {
                        assert(s.skip(1).contains(r[j]) || r[j] == x);
                        if s.skip(1).contains(r[j]) {
                            let k = choose|k: int|
                                0 <= k < s.skip(1).len() && s.skip(1)[k] == r[j];
                            assert(s[k + 1] == r[j]);
                            assert(cond_le(s[0], s[k + 1]));
                        }
                    }
                } else {
                    assert(r[i] == t[i - 1] && r[j] == t[j - 1]);
                }
            }
        }
        assert(r.to_multiset() =~= s.to_multiset().insert(x)) by {
            assert(r =~= s.subrange(0, 1) + t);
            vstd::seq_lib::lemma_multiset_commutative(s.subrange(0, 1), t);
            assert(s =~= s.subrange(0, 1) + s.skip(1));
            vstd::seq_lib::lemma_multiset_commutative(s.subrange(0, 1), s.skip(1));
        }
        assert(forall|y: CondView| #[trigger] r.contains(y) <==> (s.contains(y) || y == x)) by {
            assert forall|y: CondView| #[trigger] r.contains(y) implies (s.contains(y) || y == x)
                by {
                let k = choose|k: int| 0 <= k < r.len() && r[k] == y;
                if k == 0 {
                    assert(s[0] == y);
                } else {
                    assert(t[k - 1] == y);
                    assert(t.contains(y));
                    if s.skip(1).contains(y) {
                        let m = choose|m: int| 0 <= m < s.skip(1).len() && s.skip(1)[m] == y;
                        assert(s[m + 1] == y);
                    }
                }
            }
            assert forall|y: CondView| (s.contains(y) || y == x) implies #[trigger] r.contains(y)
                by {
                if y == x {
                    assert(t.contains(x));
                    let m = choose|m: int| 0 <= m < t.len() && t[m] == x;
                    assert(r[m + 1] == x);
                } else {
                    let k = choose|k: int| 0 <= k < s.len() && s[k] == y;
                    if k == 0 {
                        assert(r[0] == y);
                    } else {
                        assert(s.skip(1)[k - 1] == y);
                        assert(s.skip(1).contains(y));
                        assert(t.contains(y));
                        let m = choose|m: int| 0 <= m < t.len() && t[m] == y;
                        assert(r[m + 1] == y);
                    }
                }
            }
        }
    } else {
        let r = seq![x] + s;
        assert(r[0] == x);
        assert(forall|i: int| 0 <= i < s.len() ==> r[i + 1] == #[trigger] s[i]);
        lemma_cond_le_total(s[0], x);
        assert(cond_le(x, s[0]));
        assert(sorted_conds(r)) by {
            assert forall|i: int, j: int| 0 <= i < j < r.len() implies cond_le(r[i], r[j]) by {
                if i == 0 {
                    assert(r[j] == s[j - 1]);
                    if j - 1 > 0 {
                        assert(cond_le(s[0], s[j - 1]));
                        lemma_cond_le_trans(x, s[0], s[j - 1]);
                    }
                } else {
                    assert(r[i] == s[i - 1] && r[j] == s[j - 1]);
                }
            }
        }
        assert(r.to_multiset() =~= s.to_multiset().insert(x)) by {
            assert(r =~= seq![x] + s);
            vstd::seq_lib::lemma_multiset_commutative(seq![x], s);
            assert(seq![x] =~= Seq::<CondView>::empty().push(x));
            assert(seq![x].to_multiset() =~= Seq::<CondView>::empty().to_multiset().insert(x));
            assert(Seq::<CondView>::empty().to_multiset() =~= Multiset::<CondView>::empty()) by {
                assert(forall|a: CondView|
                    Seq::<CondView>::empty().to_multiset().count(a) == 0) by {
                    assert(forall|a: CondView| !Seq::<CondView>::empty().contains(a));
                }
            }
            assert(Multiset::empty().insert(x).add(s.to_multiset()) =~= s.to_multiset().insert(
                x,
            ));
        }
        assert(forall|y: CondView| #[trigger] r.contains(y) <==> (s.contains(y) || y == x)) by {
            assert forall|y: CondView| #[trigger] r.contains(y) implies (s.contains(y) || y == x)
                by {
                let k = choose|k: int| 0 <= k < r.len() && r[k] == y;
                if k > 0 {
                    assert(s[k - 1] == y);
                }
            }
            assert forall|y: CondView| (s.contains(y) || y == x) implies #[trigger] r.contains(y)
                by {
                if y == x {
                    assert(r[0] == y);
                } else {
                    let k = choose|k: int| 0 <= k < s.len() && s[k] == y;
                    assert(r[k + 1] == y);
                }
            }
        }
    }
}

pub proof fn lemma_sort_conds_props(s: Seq<CondView>)
    ensures
        sorted_conds(sort_conds(s)),
        sort_conds(s).to_multiset() == s.to_multiset(),
        sort_conds(s).len() == s.len(),
        forall|y: CondView| #[trigger] sort_conds(s).contains(y) <==> s.contains(y),
    decreases s.len(),
{
    broadcast use vstd::seq_lib::group_to_multiset_ensures;
    broadcast use vstd::multiset::group_multiset_axioms;

    if s.len() > 0 {
        lemma_sort_conds_props(s.drop_last());
        lemma_insert_sorted_props(s.last(), sort_conds(s.drop_last()));
        assert(s =~= s.drop_last().push(s.last()));
        assert(s.to_multiset() =~= s.drop_last().to_multiset().insert(s.last()));
        assert(sort_conds(s).to_multiset() =~= s.to_multiset());
    }
    assert forall|y: CondView| #[trigger] sort_conds(s).contains(y) <==> s.contains(y) by {
        assert(sort_conds(s).contains(y) <==> sort_conds(s).to_multiset().count(y) > 0);
        assert(s.contains(y) <==> s.to_multiset().count(y) > 0);
    }
}

/// The canonical form of a conjunction: duplicates removed (first
/// occurrence kept), then sorted by (variable, operator, value).
pub open spec fn canon_conj(s: Seq<CondView>) -> Seq<CondView> {
    sort_conds(dedup_keep_first(s))
}

pub proof fn lemma_canon_conj_props(s: Seq<CondView>)
    ensures
        sorted_conds(canon_conj(s)),
        distinct_conds(canon_conj(s)),
        forall|y: CondView| #[trigger] canon_conj(s).contains(y) <==> s.contains(y),
{
    let d = dedup_keep_first(s);
    lemma_dedup_distinct(s);
    lemma_sort_conds_props(d);
    assert(distinct_conds(canon_conj(s))) by {
        let c = canon_conj(s);
        assert(d.no_duplicates()) by {
            assert(forall|i: int, j: int| 0 <= i < j < d.len() ==> d[i] != d[j]);
        }
        d.lemma_multiset_has_no_duplicates();
        assert(forall|x: CondView| c.to_multiset().contains(x) ==> c.to_multiset().count(x) == 1);
        c.lemma_multiset_has_no_duplicates_conv();
        assert(c.no_duplicates());
    }
    assert forall|y: CondView| #[trigger] canon_conj(s).contains(y) <==> s.contains(y) by {
        lemma_dedup_contains(s, y);
    }
}

/// Clone a conjunction, keeping its element views.
pub fn clone_cond_vec(v: &Vec<Condition>) -> (r: Vec<Condition>)
    ensures
        r.deep_view() == v.deep_view(),
{
    let mut r: Vec<Condition> = Vec::new();
    let n = v.len();
    let mut i: usize = 0;
    proof {
        assert(v.deep_view().take(0) =~= Seq::<CondView>::empty());
    }
    while i < n
        invariant
            i <= n,
            n == v.len(),
            r.deep_view() == v.deep_view().take(i as int),
        decreases n - i,
    {
        proof {
            assert(v.deep_view().take(i as int).len() == i);
            assert(r.deep_view().len() == r@.len());
            assert(v.deep_view().len() == v@.len());
        }
        crate::strutil::push_dv(&mut r, v[i].clone());
        proof {
            assert(r.deep_view() =~= v.deep_view().take(i + 1));
        }
        i = i + 1;
    }
    proof {
        assert(v.deep_view().take(n as int) =~= v.deep_view());
    }
    r
}

fn contains_cond(v: &Vec<Condition>, c: &Condition) -> (r: bool)
    ensures
        r == v.deep_view().contains(c@),
{
    let n = v.len();
    let mut i: usize = 0;
    while i < n
        invariant
            i <= n,
            n == v.len(),
            forall|j: int| 0 <= j < i ==> v.deep_view()[j] != c@,
        decreases n - i,
    {
        if cond_eq(&v[i], c) {
            proof {
                assert(v.deep_view()[i as int] == c@);
            }
            return true;
        }
        i = i + 1;
    }
    proof {
        if v.deep_view().contains(c@) {
            let k = choose|k: int| 0 <= k < v.deep_view().len() && v.deep_view()[k] == c@;
        }
    }
    false
}

/// Canonicalise a conjunction: drop duplicate triples, keeping the first
/// occurrence of each, then sort ascending by (variable, operator, value).
pub fn canon_conditions(v: Vec<Condition>) -> (r: Vec<Condition>)
    ensures
        r.deep_view() == canon_conj(v.deep_view()),
{
    let n = v.len();
    let mut unique: Vec<Condition> = Vec::new();
    let mut i: usize = 0;
    proof {
        assert(v.deep_view().take(0) =~= Seq::<CondView>::empty());
    }
    while i < n
        invariant
            i <= n,
            n == v.len(),
            unique.deep_view() == dedup_keep_first(v.deep_view().take(i as int)),
        decreases n - i,
    {
        let ghost prefix = v.deep_view().take(i as int);
        let c = v[i].clone();
        proof {
            assert(v.deep_view().take(i + 1).drop_last() =~= prefix);
            assert(v.deep_view().take(i + 1).last() == v.deep_view()[i as int]);
            lemma_dedup_contains(prefix, v.deep_view()[i as int]);
        }
        if !contains_cond(&unique, &c) {
            proof {
                assert(!unique.deep_view().contains(c@));
                assert(!prefix.contains(v.deep_view()[i as int]));
            }
            unique.push(c);
        } else {
            proof {
                assert(prefix.contains(v.deep_view()[i as int]));
            }
        }
        i = i + 1;
    }
    proof {
        assert(v.deep_view().take(n as int) =~= v.deep_view());
    }
    // insertion sort over the deduplicated conditions
    let m = unique.len();
    let ghost d = unique.deep_view();
    let mut out: Vec<Condition> = Vec::new();
    let mut k: usize = 0;
    proof {
        assert(d.take(0) =~= Seq::<CondView>::empty());
    }
    while k < m
        invariant
            k <= m,
            m == unique.len(),
            d == unique.deep_view(),
            out.deep_view() == sort_conds(d.take(k as int)),
            sorted_conds(out.deep_view()),
        decreases m - k,
    {
        let x = unique[k].clone();
        let ghost before = out.deep_view();
        // find the first position whose element is not <= x
        let olen = out.len();
        let mut p: usize = 0;
        loop
            invariant
                p <= olen,
                olen == out.len(),
                before == out.deep_view(),
                forall|j: int| 0 <= j < p ==> cond_le(#[trigger] before[j], x@),
            ensures
                p <= olen,
                forall|j: int| 0 <= j < p ==> cond_le(#[trigger] before[j], x@),
                p < olen ==> !cond_le(before[p as int], x@),
            decreases olen - p,
        {
            if p >= olen {
                break;
            }
            if !cond_le_exec(&out[p], &x) {
                break;
            }
            p = p + 1;
        }
        proof {
            lemma_insert_sorted_at(x@, before, p as int);
            assert(d.take(k + 1).drop_last() =~= d.take(k as int));
            assert(d.take(k + 1).last() == d[k as int]);
            assert(d[k as int] == x@);
        }
        out.insert(p, x);
        proof {
            assert(out.deep_view() =~= before.take(p as int) + seq![x@] + before.skip(p as int));
            assert(out.deep_view() == insert_sorted(x@, before));
            lemma_insert_sorted_props(x@, before);
        }
        k = k + 1;
    }
    proof {
        assert(d.take(m as int) =~= d);
    }
    out
}

/// Where the spec-level insertion lands: before the first element that is
/// not `<=` the inserted one.
proof fn lemma_insert_sorted_at(x: CondView, s: Seq<CondView>, p: int)
    requires
        0 <= p <= s.len(),
        forall|j: int| 0 <= j < p ==> cond_le(#[trigger] s[j], x),
        p < s.len() ==> !cond_le(s[p], x),
    ensures
        insert_sorted(x, s) == s.take(p) + seq![x] + s.skip(p),
    decreases s.len(),
{
    if s.len() == 0 {
        assert(insert_sorted(x, s) =~= s.take(p) + seq![x] + s.skip(p));
    } else if p == 0 {
        assert(!cond_le(s[0], x));
        assert(insert_sorted(x, s) == seq![x] + s);
        assert(s.take(0) =~= Seq::<CondView>::empty());
        assert(s.skip(0) =~= s);
        assert(seq![x] + s =~= s.take(0) + seq![x] + s.skip(0));
    } else {
        assert(cond_le(s[0], x));
        let t = s.skip(1);
        assert(forall|j: int| 0 <= j < p - 1 ==> cond_le(#[trigger] t[j], x)) by {
            assert(forall|j: int| 0 <= j < t.len() ==> #[trigger] t[j] == s[j + 1]);
        }
        assert(p - 1 < t.len() ==> !cond_le(t[p - 1], x));
        lemma_insert_sorted_at(x, t, p - 1);
        assert(insert_sorted(x, s) == seq![s[0]] + (t.take(p - 1) + seq![x] + t.skip(p - 1)));
        assert(seq![s[0]] + (t.take(p - 1) + seq![x] + t.skip(p - 1)) =~= s.take(p) + seq![x]
            + s.skip(p));
    }
}

} // verus!
