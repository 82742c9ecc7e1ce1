//! Boolean guard expressions and their disjunctive normal form:
//! negation is pushed inward by De Morgan's laws, double negation
//! cancels, and conjunction distributes over disjunction.

use vstd::prelude::*;

use crate::cond::{CondView, Condition};

verus! {

/// Mathematical form of a boolean guard expression.
pub ghost enum ExprView {
    Atomic(CondView),
    And(Box<ExprView>, Box<ExprView>),
    Or(Box<ExprView>, Box<ExprView>),
    Not(Box<ExprView>),
}

/// A boolean guard expression over atomic conditions, with
/// precedence NOT > AND > OR resolved by the parser.
pub enum BooleanExpr {
    Atomic(Condition),
    And(Box<BooleanExpr>, Box<BooleanExpr>),
    Or(Box<BooleanExpr>, Box<BooleanExpr>),
    Not(Box<BooleanExpr>),
}

pub open spec fn expr_view(e: &BooleanExpr) -> ExprView
    decreases e,
{
    match e {
        BooleanExpr::Atomic(c) => ExprView::Atomic(c@),
        BooleanExpr::And(l, r) => ExprView::And(Box::new(expr_view(l)), Box::new(expr_view(r))),
        BooleanExpr::Or(l, r) => ExprView::Or(Box::new(expr_view(l)), Box::new(expr_view(r))),
        BooleanExpr::Not(i) => ExprView::Not(Box::new(expr_view(i))),
    }
}

/// Node count of an expression; the termination measure for
/// normalisation.
pub open spec fn esize(e: ExprView) -> nat
    decreases e,
{
    match e {
        ExprView::Atomic(_) => 1,
        ExprView::And(l, r) => 1 + esize(*l) + esize(*r),
        ExprView::Or(l, r) => 1 + esize(*l) + esize(*r),
        ExprView::Not(i) => 1 + esize(*i),
    }
}

/// The operator-negation table: `=` and `<>` swap, and each ordering
/// operator maps to its complement. An unrecognised operator maps to `=`.
pub open spec fn neg_op(op: Seq<char>) -> Seq<char> {
    if op == "="@ {
        "<>"@
    } else if op == "<>"@ {
        "="@
    } else if op == "<"@ {
        ">="@
    } else if op == "<="@ {
        ">"@
    } else if op == ">"@ {
        "<="@
    } else if op == ">="@ {
        "<"@
    } else {
        "="@
    }
}

/// The six comparison operators a condition may carry.
pub open spec fn is_known_op(op: Seq<char>) -> bool {
    op == "="@ || op == "<>"@ || op == "<"@ || op == "<="@ || op == ">"@ || op == ">="@
}

pub open spec fn neg_cond(c: CondView) -> CondView {
    CondView { variable: c.variable, operator: neg_op(c.operator), value: c.value }
}

/// All pairings of a conjunction from `a` with a conjunction from `b`,
/// in order: for each element of `a`, its combinations with all of `b`.
pub open spec fn cross2(a: Seq<Seq<CondView>>, b: Seq<Seq<CondView>>) -> Seq<Seq<CondView>>
    decreases a.len(),
{
    if a.len() == 0 {
        Seq::empty()
    } else {
        b.map_values(|c: Seq<CondView>| a[0] + c) + cross2(a.skip(1), b)
    }
}

/// Disjunctive normal form of an expression: a disjunction (outer
/// sequence) of conjunctions (inner sequences) of atomic conditions.
/// Negation is pushed inward by De Morgan's laws; double negation
/// cancels; a negated atomic negates its operator.
pub open spec fn dnf_of(e: ExprView) -> Seq<Seq<CondView>>
    decreases esize(e), 1nat,
{
    match e {
        ExprView::Atomic(c) => seq![seq![c]],
        ExprView::And(l, r) => cross2(dnf_of(*l), dnf_of(*r)),
        ExprView::Or(l, r) => dnf_of(*l) + dnf_of(*r),
        ExprView::Not(inner) => dnf_neg(*inner),
    }
}

/// The normal form of the negation of `e`.
pub open spec fn dnf_neg(e: ExprView) -> Seq<Seq<CondView>>
    decreases esize(e), 2nat,
{
    match e {
        ExprView::Atomic(c) => seq![seq![neg_cond(c)]],
        ExprView::And(l, r) => dnf_neg(*l) + dnf_neg(*r),
        ExprView::Or(l, r) => cross2(dnf_neg(*l), dnf_neg(*r)),
        ExprView::Not(i) => dnf_of(*i),
    }
}

/// Appending one more conjunction to the left operand extends the cross
/// product by that conjunction's combinations.
pub proof fn lemma_cross2_snoc(s: Seq<Seq<CondView>>, x: Seq<CondView>, b: Seq<Seq<CondView>>)
    ensures
        cross2(s.push(x), b) == cross2(s, b) + b.map_values(|c: Seq<CondView>| x + c),
    decreases s.len(),
{
    if s.len() == 0 {
        assert(s.push(x).skip(1) =~= Seq::<Seq<CondView>>::empty());
        assert(cross2(s.push(x), b) == b.map_values(|c: Seq<CondView>| s.push(x)[0] + c) + cross2(
            s.push(x).skip(1),
            b,
        ));
        assert(s.push(x)[0] == x);
        assert(cross2(s.push(x), b) =~= cross2(s, b) + b.map_values(
            |c: Seq<CondView>| x + c,
        ));
    } else {
        assert(s.push(x).skip(1) =~= s.skip(1).push(x));
        lemma_cross2_snoc(s.skip(1), x, b);
        assert(s.push(x)[0] == s[0]);
        assert(cross2(s.push(x), b) == b.map_values(|c: Seq<CondView>| s[0] + c) + cross2(
            s.skip(1).push(x),
            b,
        ));
        assert(cross2(s.push(x), b) =~= cross2(s, b) + b.map_values(
            |c: Seq<CondView>| x + c,
        ));
    }
}

pub proof fn lemma_cross2_len(a: Seq<Seq<CondView>>, b: Seq<Seq<CondView>>)
    ensures
        cross2(a, b).len() >= a.len() * b.len(),
        a.len() >= 1 && b.len() >= 1 ==> cross2(a, b).len() >= 1,
    decreases a.len(),
{
    if a.len() == 0 {
    } else {
        lemma_cross2_len(a.skip(1), b);
        assert(cross2(a, b).len() == b.len() + cross2(a.skip(1), b).len());
        assert(b.len() + (a.len() - 1) * b.len() == a.len() * b.len()) by (nonlinear_arith);
    }
}

/// Every parsed expression normalises to at least one conjunction.
pub proof fn lemma_dnf_nonempty(e: ExprView)
    ensures
        dnf_of(e).len() >= 1,
    decreases esize(e), 1nat,
{
    match e {
        ExprView::Atomic(_) => {},
        ExprView::And(l, r) => {
            lemma_dnf_nonempty(*l);
            lemma_dnf_nonempty(*r);
            lemma_cross2_len(dnf_of(*l), dnf_of(*r));
        },
        ExprView::Or(l, r) => {
            lemma_dnf_nonempty(*l);
        },
        ExprView::Not(inner) => {
            lemma_dnf_neg_nonempty(*inner);
        },
    }
}

pub proof fn lemma_dnf_neg_nonempty(e: ExprView)
    ensures
        dnf_neg(e).len() >= 1,
    decreases esize(e), 2nat,
{
    match e {
        ExprView::Atomic(_) => {},
        ExprView::And(l, r) => {
            lemma_dnf_neg_nonempty(*l);
        },
        ExprView::Or(l, r) => {
            lemma_dnf_neg_nonempty(*l);
            lemma_dnf_neg_nonempty(*r);
            lemma_cross2_len(dnf_neg(*l), dnf_neg(*r));
        },
        ExprView::Not(i) => {
            lemma_dnf_nonempty(*i);
        },
    }
}

/// Double negation: normalising `NOT (NOT e)` gives exactly the
/// normal form of `e`.
pub proof fn lemma_double_negation(e: ExprView)
    ensures
        dnf_of(ExprView::Not(Box::new(ExprView::Not(Box::new(e))))) == dnf_of(e),
{
    let ne = ExprView::Not(Box::new(e));
    assert(dnf_of(ExprView::Not(Box::new(ne))) == dnf_neg(ne));
    assert(dnf_neg(ne) == dnf_of(e));
}

/// De Morgan for a negated conjunction: `NOT (a AND b)` normalises to
/// the disjunction of the normal forms of `NOT a` and `NOT b`.
pub proof fn lemma_de_morgan_and(a: ExprView, b: ExprView)
    ensures
        dnf_of(ExprView::Not(Box::new(ExprView::And(Box::new(a), Box::new(b))))) == dnf_of(
            ExprView::Not(Box::new(a)),
        ) + dnf_of(ExprView::Not(Box::new(b))),
{
    let conj = ExprView::And(Box::new(a), Box::new(b));
    assert(dnf_of(ExprView::Not(Box::new(conj))) == dnf_neg(conj));
    assert(dnf_neg(conj) == dnf_neg(a) + dnf_neg(b));
    assert(dnf_of(ExprView::Not(Box::new(a))) == dnf_neg(a));
    assert(dnf_of(ExprView::Not(Box::new(b))) == dnf_neg(b));
}

/// De Morgan for a negated disjunction: `NOT (a OR b)` normalises to
/// the conjunction (cross product) of the normal forms of `NOT a` and
/// `NOT b`.
pub proof fn lemma_de_morgan_or(a: ExprView, b: ExprView)
    ensures
        dnf_of(ExprView::Not(Box::new(ExprView::Or(Box::new(a), Box::new(b))))) == cross2(
            dnf_of(ExprView::Not(Box::new(a))),
            dnf_of(ExprView::Not(Box::new(b))),
        ),
{
    let disj = ExprView::Or(Box::new(a), Box::new(b));
    assert(dnf_of(ExprView::Not(Box::new(disj))) == dnf_neg(disj));
    assert(dnf_neg(disj) == cross2(dnf_neg(a), dnf_neg(b)));
    assert(dnf_of(ExprView::Not(Box::new(a))) == dnf_neg(a));
    assert(dnf_of(ExprView::Not(Box::new(b))) == dnf_neg(b));
}

/// Applying the operator-negation table twice is the identity on the
/// six recognised operators.
pub proof fn lemma_neg_op_involution(op: Seq<char>)
    requires
        is_known_op(op),
    ensures
        neg_op(neg_op(op)) == op,
{
    reveal_strlit("=");
    reveal_strlit("<>");
    reveal_strlit("<");
    reveal_strlit("<=");
    reveal_strlit(">");
    reveal_strlit(">=");
    assert("="@.len() == 1 && "<"@.len() == 1 && ">"@.len() == 1);
    assert("<>"@.len() == 2 && "<="@.len() == 2 && ">="@.len() == 2);
    assert("<"@[0] == '<' && ">"@[0] == '>' && "="@[0] == '=');
    assert("<>"@[0] == '<' && "<>"@[1] == '>');
    assert("<="@[0] == '<' && "<="@[1] == '=');
    assert(">="@[0] == '>' && ">="@[1] == '=');
    if op == "="@ {
        assert(neg_op(op) == "<>"@);
        assert(neg_op("<>"@) == "="@);
    } else if op == "<>"@ {
        assert(neg_op(op) == "="@);
        assert(neg_op("="@) == "<>"@);
    } else if op == "<"@ {
        assert(neg_op(op) == ">="@);
        assert(neg_op(">="@) == "<"@);
    } else if op == "<="@ {
        assert(neg_op(op) == ">"@);
        assert(neg_op(">"@) == "<="@);
    } else if op == ">"@ {
        assert(neg_op(op) == "<="@);
        assert(neg_op("<="@) == ">"@);
    } else {
        assert(neg_op(op) == "<"@);
        assert(neg_op("<"@) == ">="@);
    }
}

fn clone_conds(v: &Vec<Condition>) -> (r: Vec<Condition>)
    ensures
        r.deep_view() == v.deep_view(),
{
    let mut r: Vec<Condition> = Vec::new();
    let n = v.len();
    let mut i: usize = 0;
    while i < n
        invariant
            i <= n,
            n == v.len(),
            r.deep_view() == v.deep_view().take(i as int),
        decreases n - i,
    {
        proof {
            assert(v.deep_view().take(i as int).len() == i);
            assert(r.deep_view().len() == r@.len());
            assert(v.deep_view().len() == v@.len());
        }
        r.push(v[i].clone());
        proof {
            assert(r.deep_view() =~= v.deep_view().take(i + 1));
        }
        i = i + 1;
    }
    proof {
        assert(v.deep_view().take(n as int) =~= v.deep_view());
    }
    r
}

/// The concatenation of two conjunctions.
fn concat_conds(a: &Vec<Condition>, b: &Vec<Condition>) -> (r: Vec<Condition>)
    ensures
        r.deep_view() == a.deep_view() + b.deep_view(),
{
    let mut r = clone_conds(a);
    proof {
        assert(a.deep_view() + b.deep_view().take(0) =~= a.deep_view());
    }
    let n = b.len();
    let mut i: usize = 0;
    while i < n
        invariant
            i <= n,
            n == b.len(),
            r.deep_view() == a.deep_view() + b.deep_view().take(i as int),
        decreases n - i,
    {
        let c = b[i].clone();
        proof {
            assert(r.deep_view().len() == r@.len());
            assert(a.deep_view().len() == a@.len());
            assert(b.deep_view().len() == b@.len());
            assert(b.deep_view().take(i as int).len() == i);
            assert((a.deep_view() + b.deep_view().take(i as int)).len() == a@.len() + i);
            assert(r@.len() == a@.len() + i);
            assert(c.deep_view() == b.deep_view()[i as int]);
        }
        let ghost rv_old = r@;
        let ghost dv_old = r.deep_view();
        r.push(c);
        proof {
            let dv = r.deep_view();
            let rhs = a.deep_view() + b.deep_view().take(i + 1);
            assert(r@ == rv_old.push(c));
            assert(dv.len() == rhs.len());
            assert forall|k: int| 0 <= k < dv.len() implies dv[k] == rhs[k] by {
                assert(dv[k] == r@[k].deep_view());
                if k < rv_old.len() {
                    assert(r@[k] == rv_old[k]);
                    assert(dv_old[k] == rv_old[k].deep_view());
                    assert(dv_old[k] == (a.deep_view() + b.deep_view().take(i as int))[k]);
                } else {
                    assert(r@[k] == c);
                }
            }
            assert(dv =~= rhs);
        }
        i = i + 1;
    }
    proof {
        assert(a.deep_view() + b.deep_view().take(n as int) =~= a.deep_view() + b.deep_view());
        assert(a.deep_view() + b.deep_view().take(0) =~= a.deep_view());
    }
    r
}

/// Distribute AND over OR: every conjunction of `a` combined with every
/// conjunction of `b`.
pub fn cross_two(a: &Vec<Vec<Condition>>, b: &Vec<Vec<Condition>>) -> (r: Vec<Vec<Condition>>)
    ensures
        r.deep_view() == cross2(a.deep_view(), b.deep_view()),
{
    let mut r: Vec<Vec<Condition>> = Vec::new();
    let n = a.len();
    let m = b.len();
    let mut i: usize = 0;
    proof {
        assert(a.deep_view().take(0) =~= Seq::<Seq<CondView>>::empty());
    }
    while i < n
        invariant
            i <= n,
            n == a.len(),
            m == b.len(),
            r.deep_view() == cross2(a.deep_view().take(i as int), b.deep_view()),
        decreases n - i,
    {
        let ghost before = r.deep_view();
        proof {
            let f = |c: Seq<CondView>| a.deep_view()[i as int] + c;
            assert(before + b.deep_view().take(0).map_values(f) =~= before);
        }
        let mut j: usize = 0;
        while j < m
            invariant
                j <= m,
                i < n,
                n == a.len(),
                m == b.len(),
                r.deep_view() == before + b.deep_view().take(j as int).map_values(
                    |c: Seq<CondView>| a.deep_view()[i as int] + c,
                ),
            decreases m - j,
        {
            let combined = concat_conds(&a[i], &b[j]);
            proof {
                let f = |c: Seq<CondView>| a.deep_view()[i as int] + c;
                assert(r.deep_view().len() == r@.len());
                assert(b.deep_view().len() == b@.len());
                assert(a.deep_view().len() == a@.len());
                assert(b.deep_view().take(j as int).map_values(f).len() == j);
                assert(r@.len() == before.len() + j);
                assert(combined.deep_view() == f(b.deep_view()[j as int]));
            }
            let ghost rv_old = r@;
            let ghost dv_old = r.deep_view();
            r.push(combined);
            proof {
                let f = |c: Seq<CondView>| a.deep_view()[i as int] + c;
                let dv = r.deep_view();
                let rhs = before + b.deep_view().take(j + 1).map_values(f);
                assert(b.deep_view().take(j + 1).map_values(f) =~= b.deep_view().take(
                    j as int,
                ).map_values(f).push(f(b.deep_view()[j as int])));
                assert(r@ == rv_old.push(combined));
                assert(dv.len() == rhs.len());
                assert forall|k: int| 0 <= k < dv.len() implies dv[k] == rhs[k] by {
                    assert(dv[k] == r@[k].deep_view());
                    if k < rv_old.len() {
                        assert(r@[k] == rv_old[k]);
                        assert(dv_old[k] == rv_old[k].deep_view());
                        assert(dv_old[k] == (before + b.deep_view().take(j as int).map_values(
                            f,
                        ))[k]);
                    } else {
                        assert(r@[k] == combined);
                    }
                }
                assert(dv =~= rhs);
            }
            j = j + 1;
        }
        proof {
            let f = |c: Seq<CondView>| a.deep_view()[i as int] + c;
            assert(b.deep_view().take(m as int) =~= b.deep_view());
            lemma_cross2_snoc(a.deep_view().take(i as int), a.deep_view()[i as int], b.deep_view());
            assert(a.deep_view().take(i as int).push(a.deep_view()[i as int]) =~= a.deep_view()
                .take(i + 1));
            assert(before + b.deep_view().take(0).map_values(f) =~= before);
        }
        i = i + 1;
    }
    proof {
        assert(a.deep_view().take(n as int) =~= a.deep_view());
    }
    r
}

impl BooleanExpr {
    /// Negate an atomic condition by the operator-negation table.
    pub fn negate_condition(cond: &Condition) -> (r: Condition)
        ensures
            r@ == neg_cond(cond@),
    {
        let negated_op: &str = if crate::strutil::str_eq(cond.operator.as_str(), "=") {
            "<>"
        } else if crate::strutil::str_eq(cond.operator.as_str(), "<>") {
            "="
        } else if crate::strutil::str_eq(cond.operator.as_str(), "<") {
            ">="
        } else if crate::strutil::str_eq(cond.operator.as_str(), "<=") {
            ">"
        } else if crate::strutil::str_eq(cond.operator.as_str(), ">") {
            "<="
        } else if crate::strutil::str_eq(cond.operator.as_str(), ">=") {
            "<"
        } else {
            "="
        };
        Condition::new(cond.variable.clone(), negated_op.to_owned(), cond.value.clone())
    }

    /// Convert the expression to disjunctive normal form.
    pub fn to_dnf(&self) -> (r: Vec<Vec<Condition>>)
        ensures
            r.deep_view() == dnf_of(expr_view(self)),
        decreases esize(expr_view(self)), 1nat,
    {
        match self {
            BooleanExpr::Atomic(c) => {
                let mut conj: Vec<Condition> = Vec::new();
                conj.push(c.clone());
                proof {
                    assert(conj.deep_view().len() == conj@.len());
                    assert(conj.deep_view() =~= seq![c@]);
                }
                let mut r: Vec<Vec<Condition>> = Vec::new();
                r.push(conj);
                proof {
                    assert(r.deep_view().len() == r@.len());
                    assert(r.deep_view() =~= seq![seq![c@]]);
                }
                r
            },
            BooleanExpr::And(l, r) => {
                let a = l.to_dnf();
                let b = r.to_dnf();
                cross_two(&a, &b)
            },
            BooleanExpr::Or(l, r) => {
                let mut a = l.to_dnf();
                let mut b = r.to_dnf();
                let ghost av = a.deep_view();
                let ghost bv = b.deep_view();
                a.append(&mut b);
                proof {
                    assert(a.deep_view().len() == a@.len());
                    assert(a.deep_view() =~= av + bv);
                }
                a
            },
            BooleanExpr::Not(inner) => inner.to_dnf_negated(),
        }
    }

    /// The normal form of the negation of this expression, with the
    /// negation pushed inward by De Morgan's laws.
    fn to_dnf_negated(&self) -> (r: Vec<Vec<Condition>>)
        ensures
            r.deep_view() == dnf_neg(expr_view(self)),
        decreases esize(expr_view(self)), 2nat,
    {
        match self {
            BooleanExpr::Atomic(c) => {
                let mut conj: Vec<Condition> = Vec::new();
                conj.push(Self::negate_condition(c));
                proof {
                    assert(conj.deep_view().len() == conj@.len());
                    assert(conj.deep_view() =~= seq![neg_cond(c@)]);
                }
                let mut r: Vec<Vec<Condition>> = Vec::new();
                r.push(conj);
                proof {
                    assert(r.deep_view().len() == r@.len());
                    assert(r.deep_view() =~= seq![seq![neg_cond(c@)]]);
                }
                r
            },
            BooleanExpr::And(l, r) => {
                // NOT (l AND r) = (NOT l) OR (NOT r)
                let mut a = l.to_dnf_negated();
                let mut b = r.to_dnf_negated();
                let ghost av = a.deep_view();
                let ghost bv = b.deep_view();
                a.append(&mut b);
                proof {
                    assert(a.deep_view().len() == a@.len());
                    assert(a.deep_view() =~= av + bv);
                }
                a
            },
            BooleanExpr::Or(l, r) => {
                // NOT (l OR r) = (NOT l) AND (NOT r)
                let a = l.to_dnf_negated();
                let b = r.to_dnf_negated();
                cross_two(&a, &b)
            },
            BooleanExpr::Not(i) => i.to_dnf(),
        }
    }
}

} // verus!
