//! The guard parsers: the atomic-condition splitter with its
//! longest-match operator rule, and the recursive-descent expression
//! parser with precedence NOT > AND > OR.

use vstd::prelude::*;

use crate::cond::{cond_str, CondView, Condition};
use crate::expr::{expr_view, is_known_op, BooleanExpr, ExprView};
use crate::strutil::{
    find_sub, find_substr, is_ws, lemma_find_sub_bounds, lemma_find_sub_first,
    lemma_find_sub_none, lemma_trim_plain, no_ws, trim_front, trim_back, trim_spec, trim_str,
};
use crate::token::{TokView, Token};

verus! {

/// One pair of outer parentheses wrapping the whole text is removed.
pub open spec fn strip_outer_parens(t: Seq<char>) -> Seq<char> {
    if t.len() >= 2 && t[0] == '(' && t[t.len() - 1] == ')' {
        t.subrange(1, t.len() - 1)
    } else {
        t
    }
}

/// The condition built from `e` once the operator `op` was found at `p`:
/// variable before, value after, both trimmed; one pair of parentheses
/// around the whole value is removed and the remainder trimmed again.
pub open spec fn mk_cond(e: Seq<char>, p: nat, op: Seq<char>) -> CondView {
    let variable = trim_spec(e.subrange(0, p as int));
    let raw_val = trim_spec(e.subrange((p + op.len()) as int, e.len() as int));
    let value = if raw_val.len() >= 2 && raw_val[0] == '(' && raw_val[raw_val.len() - 1] == ')' {
        trim_spec(raw_val.subrange(1, raw_val.len() - 1))
    } else {
        raw_val
    };
    CondView { variable, operator: op, value }
}

/// Parse an atomic condition's text: trim, strip one pair of outer
/// parentheses, then split at the first occurrence of an operator,
/// trying `<=`, `>=`, `<>`, `=`, `<`, `>` in that order so that the
/// longest match wins. Without an operator the text is rejected.
pub open spec fn sp_atomic(text: Seq<char>) -> Option<CondView> {
    let e = strip_outer_parens(trim_spec(text));
    if find_sub(e, "<="@, 0).is_some() {
        Some(mk_cond(e, find_sub(e, "<="@, 0).unwrap(), "<="@))
    } else if find_sub(e, ">="@, 0).is_some() {
        Some(mk_cond(e, find_sub(e, ">="@, 0).unwrap(), ">="@))
    } else if find_sub(e, "<>"@, 0).is_some() {
        Some(mk_cond(e, find_sub(e, "<>"@, 0).unwrap(), "<>"@))
    } else if find_sub(e, "="@, 0).is_some() {
        Some(mk_cond(e, find_sub(e, "="@, 0).unwrap(), "="@))
    } else if find_sub(e, "<"@, 0).is_some() {
        Some(mk_cond(e, find_sub(e, "<"@, 0).unwrap(), "<"@))
    } else if find_sub(e, ">"@, 0).is_some() {
        Some(mk_cond(e, find_sub(e, ">"@, 0).unwrap(), ">"@))
    } else {
        None
    }
}

/// Remove one pair of outer parentheses if they wrap the entire string.
fn strip_outer_exec(t: String) -> (r: String)
    ensures
        r@ == strip_outer_parens(t@),
{
    let len = t.as_str().unicode_len();
    if len >= 2 {
        let first = t.as_str().get_char(0);
        let last = t.as_str().get_char(len - 1);
        if first == '(' && last == ')' {
            return t.as_str().substring_char(1, len - 1).to_owned();
        }
    }
    t
}

/// Build the condition for an operator found at `p`.
fn build_cond(e: &str, p: usize, op: &str) -> (r: Condition)
    requires
        p + op@.len() <= e@.len(),
    ensures
        r@ == mk_cond(e@, p as nat, op@),
{
    let elen = e.unicode_len();
    let oplen = op.unicode_len();
    let variable = trim_str(e.substring_char(0, p));
    let raw_val = trim_str(e.substring_char(p + oplen, elen));
    let vlen = raw_val.as_str().unicode_len();
    let value = if vlen >= 2 {
        let first = raw_val.as_str().get_char(0);
        let last = raw_val.as_str().get_char(vlen - 1);
        if first == '(' && last == ')' {
            trim_str(raw_val.as_str().substring_char(1, vlen - 1))
        } else {
            raw_val
        }
    } else {
        raw_val
    };
    Condition::new(variable, op.to_owned(), value)
}

/// Parse a single atomic condition expression, handling the operators
/// `=`, `<>`, `<=`, `>=`, `<`, `>` with longest match first.
pub fn parse_atomic_condition_str(expr: &str) -> (r: Option<Condition>)
    ensures
        r.is_some() == sp_atomic(expr@).is_some(),
        r matches Some(c) ==> c@ == sp_atomic(expr@).unwrap(),
{
    proof {
        reveal_strlit("<=");
        reveal_strlit(">=");
        reveal_strlit("<>");
        reveal_strlit("=");
        reveal_strlit("<");
        reveal_strlit(">");
    }
    let t = trim_str(expr);
    let stripped = strip_outer_exec(t);
    let e = stripped.as_str();
    if let Some(p) = find_substr(e, "<=") {
        proof {
            lemma_find_sub_bounds(e@, "<="@, 0);
        }
        return Some(build_cond(e, p, "<="));
    }
    if let Some(p) = find_substr(e, ">=") {
        proof {
            lemma_find_sub_bounds(e@, ">="@, 0);
        }
        return Some(build_cond(e, p, ">="));
    }
    if let Some(p) = find_substr(e, "<>") {
        proof {
            lemma_find_sub_bounds(e@, "<>"@, 0);
        }
        return Some(build_cond(e, p, "<>"));
    }
    if let Some(p) = find_substr(e, "=") {
        proof {
            lemma_find_sub_bounds(e@, "="@, 0);
        }
        return Some(build_cond(e, p, "="));
    }
    if let Some(p) = find_substr(e, "<") {
        proof {
            lemma_find_sub_bounds(e@, "<"@, 0);
        }
        return Some(build_cond(e, p, "<"));
    }
    if let Some(p) = find_substr(e, ">") {
        proof {
            lemma_find_sub_bounds(e@, ">"@, 0);
        }
        return Some(build_cond(e, p, ">"));
    }
    None
}

/// Recursive-descent parse of a primary expression: a parenthesised
/// expression or a single atomic condition. Returns the expression and
/// the position after it.
pub open spec fn sp_primary(toks: Seq<TokView>, pos: nat) -> Option<(ExprView, nat)>
    decreases toks.len() - pos, 0nat when pos <= toks.len()
{
    if pos >= toks.len() {
        None
    } else {
        match toks[pos as int] {
            TokView::LParen => match sp_or(toks, pos + 1) {
                None => None,
                Some((e, p2)) => if p2 < toks.len() && toks[p2 as int] == TokView::RParen {
                    Some((e, p2 + 1))
                } else {
                    // a missing closing parenthesis is tolerated
                    Some((e, p2))
                },
            },
            TokView::Cond(txt) => match sp_atomic(txt) {
                Some(c) => Some((ExprView::Atomic(c), pos + 1)),
                None => None,
            },
            _ => None,
        }
    }
}

/// `NOT` binds strongest: an optional leading `NOT`, then a primary.
pub open spec fn sp_not(toks: Seq<TokView>, pos: nat) -> Option<(ExprView, nat)>
    decreases toks.len() - pos, 1nat when pos <= toks.len()
{
    if pos < toks.len() && toks[pos as int] == TokView::Not {
        match sp_primary(toks, pos + 1) {
            None => None,
            Some((e, p2)) => Some((ExprView::Not(Box::new(e)), p2)),
        }
    } else {
        sp_primary(toks, pos)
    }
}

/// `AND` binds tighter than `OR`, left-associatively.
pub open spec fn sp_and(toks: Seq<TokView>, pos: nat) -> Option<(ExprView, nat)>
    decreases toks.len() - pos, 2nat when pos <= toks.len()
{
    match sp_not(toks, pos) {
        None => None,
        Some((l, p1)) => if pos < p1 <= toks.len() {
            sp_and_rest(toks, l, p1)
        } else {
            // never reached: a parsed operand advances the position
            Some((l, p1))
        },
    }
}

pub open spec fn sp_and_rest(toks: Seq<TokView>, left: ExprView, pos: nat) -> Option<
    (ExprView, nat),
>
    decreases toks.len() - pos, 0nat when pos <= toks.len()
{
    if pos < toks.len() && toks[pos as int] == TokView::And {
        match sp_not(toks, pos + 1) {
            None => None,
            Some((r, p2)) => if pos < p2 <= toks.len() {
                sp_and_rest(toks, ExprView::And(Box::new(left), Box::new(r)), p2)
            } else {
                Some((ExprView::And(Box::new(left), Box::new(r)), p2))
            },
        }
    } else {
        Some((left, pos))
    }
}

/// `OR` has the lowest precedence, left-associatively.
pub open spec fn sp_or(toks: Seq<TokView>, pos: nat) -> Option<(ExprView, nat)>
    decreases toks.len() - pos, 3nat when pos <= toks.len()
{
    match sp_and(toks, pos) {
        None => None,
        Some((l, p1)) => if pos < p1 <= toks.len() {
            sp_or_rest(toks, l, p1)
        } else {
            Some((l, p1))
        },
    }
}

pub open spec fn sp_or_rest(toks: Seq<TokView>, left: ExprView, pos: nat) -> Option<
    (ExprView, nat),
>
    decreases toks.len() - pos, 0nat when pos <= toks.len()
{
    if pos < toks.len() && toks[pos as int] == TokView::Or {
        match sp_and(toks, pos + 1) {
            None => None,
            Some((r, p2)) => if pos < p2 <= toks.len() {
                sp_or_rest(toks, ExprView::Or(Box::new(left), Box::new(r)), p2)
            } else {
                Some((ExprView::Or(Box::new(left), Box::new(r)), p2))
            },
        }
    } else {
        Some((left, pos))
    }
}

/// A successful parse consumes at least one token and stays in bounds.
pub proof fn lemma_sp_primary_advances(toks: Seq<TokView>, pos: nat)
    requires
        pos <= toks.len(),
    ensures
        sp_primary(toks, pos) matches Some((e, p)) ==> pos < p <= toks.len(),
    decreases toks.len() - pos, 0nat,
{
    if pos < toks.len() {
        if toks[pos as int] == TokView::LParen {
            lemma_sp_or_advances(toks, pos + 1);
        }
    }
}

pub proof fn lemma_sp_not_advances(toks: Seq<TokView>, pos: nat)
    requires
        pos <= toks.len(),
    ensures
        sp_not(toks, pos) matches Some((e, p)) ==> pos < p <= toks.len(),
    decreases toks.len() - pos, 1nat,
{
    if pos < toks.len() && toks[pos as int] == TokView::Not {
        lemma_sp_primary_advances(toks, pos + 1);
    } else {
        lemma_sp_primary_advances(toks, pos);
    }
}

pub proof fn lemma_sp_and_advances(toks: Seq<TokView>, pos: nat)
    requires
        pos <= toks.len(),
    ensures
        sp_and(toks, pos) matches Some((e, p)) ==> pos < p <= toks.len(),
    decreases toks.len() - pos, 2nat,
{
    lemma_sp_not_advances(toks, pos);
    match sp_not(toks, pos) {
        None => {},
        Some((l, p1)) => {
            if pos < p1 <= toks.len() {
                lemma_sp_and_rest_advances(toks, l, p1);
            }
        },
    }
}

pub proof fn lemma_sp_and_rest_advances(toks: Seq<TokView>, left: ExprView, pos: nat)
    requires
        pos <= toks.len(),
    ensures
        sp_and_rest(toks, left, pos) matches Some((e, p)) ==> pos <= p <= toks.len(),
    decreases toks.len() - pos, 0nat,
{
    if pos < toks.len() && toks[pos as int] == TokView::And {
        lemma_sp_not_advances(toks, pos + 1);
        match sp_not(toks, pos + 1) {
            None => {},
            Some((r, p2)) => {
                if pos < p2 <= toks.len() {
                    lemma_sp_and_rest_advances(
                        toks,
                        ExprView::And(Box::new(left), Box::new(r)),
                        p2,
                    );
                }
            },
        }
    }
}

pub proof fn lemma_sp_or_advances(toks: Seq<TokView>, pos: nat)
    requires
        pos <= toks.len(),
    ensures
        sp_or(toks, pos) matches Some((e, p)) ==> pos < p <= toks.len(),
    decreases toks.len() - pos, 3nat,
{
    lemma_sp_and_advances(toks, pos);
    match sp_and(toks, pos) {
        None => {},
        Some((l, p1)) => {
            if pos < p1 <= toks.len() {
                lemma_sp_or_rest_advances(toks, l, p1);
            }
        },
    }
}

pub proof fn lemma_sp_or_rest_advances(toks: Seq<TokView>, left: ExprView, pos: nat)
    requires
        pos <= toks.len(),
    ensures
        sp_or_rest(toks, left, pos) matches Some((e, p)) ==> pos <= p <= toks.len(),
    decreases toks.len() - pos, 0nat,
{
    if pos < toks.len() && toks[pos as int] == TokView::Or {
        lemma_sp_and_advances(toks, pos + 1);
        match sp_and(toks, pos + 1) {
            None => {},
            Some((r, p2)) => {
                if pos < p2 <= toks.len() {
                    lemma_sp_or_rest_advances(
                        toks,
                        ExprView::Or(Box::new(left), Box::new(r)),
                        p2,
                    );
                }
            },
        }
    }
}

/// A parenthesised expression or a single atomic condition.
fn parse_primary_at(tokens: &Vec<Token>, pos: usize) -> (r: (Option<BooleanExpr>, usize))
    requires
        pos <= tokens@.len(),
    ensures
        r.1 <= tokens@.len(),
        match (r.0, sp_primary(tokens.deep_view(), pos as nat)) {
            (Some(e), Some((v, p))) => expr_view(&e) == v && r.1 == p && pos < r.1,
            (None, None) => true,
            _ => false,
        },
    decreases tokens@.len() - pos, 0nat,
{
    let ghost toks = tokens.deep_view();
    proof {
        assert(toks.len() == tokens@.len());
        lemma_sp_primary_advances(toks, pos as nat);
    }
    if pos >= tokens.len() {
        return (None, pos);
    }
    match &tokens[pos] {
        Token::LParen => {
            proof {
                assert(toks[pos as int] == TokView::LParen);
                lemma_sp_or_advances(toks, pos as nat + 1);
            }
            let (inner, p2) = parse_or_at(tokens, pos + 1);
            match inner {
                None => (None, p2),
                Some(e) => {
                    let mut is_rparen = false;
                    if p2 < tokens.len() {
                        match &tokens[p2] {
                            Token::RParen => {
                                is_rparen = true;
                                proof {
                                    assert(toks[p2 as int] == TokView::RParen);
                                }
                            },
                            _ => {},
                        }
                    }
                    if is_rparen {
                        (Some(e), p2 + 1)
                    } else {
                        (Some(e), p2)
                    }
                },
            }
        },
        Token::Condition(txt) => {
            proof {
                assert(toks[pos as int] == TokView::Cond(txt@));
            }
            let parsed = parse_atomic_condition_str(txt.as_str());
            match parsed {
                Some(c) => (Some(BooleanExpr::Atomic(c)), pos + 1),
                None => (None, pos),
            }
        },
        _ => (None, pos),
    }
}

/// An optional leading `NOT`, then a primary expression.
fn parse_not_at(tokens: &Vec<Token>, pos: usize) -> (r: (Option<BooleanExpr>, usize))
    requires
        pos <= tokens@.len(),
    ensures
        r.1 <= tokens@.len(),
        match (r.0, sp_not(tokens.deep_view(), pos as nat)) {
            (Some(e), Some((v, p))) => expr_view(&e) == v && r.1 == p && pos < r.1,
            (None, None) => true,
            _ => false,
        },
    decreases tokens@.len() - pos, 1nat,
{
    let ghost toks = tokens.deep_view();
    proof {
        assert(toks.len() == tokens@.len());
        lemma_sp_not_advances(toks, pos as nat);
    }
    let mut is_not = false;
    if pos < tokens.len() {
        match &tokens[pos] {
            Token::Not => {
                is_not = true;
                proof {
                    assert(toks[pos as int] == TokView::Not);
                }
            },
            _ => {},
        }
    }
    if is_not {
        proof {
            lemma_sp_primary_advances(toks, pos as nat + 1);
        }
        let (inner, p2) = parse_primary_at(tokens, pos + 1);
        match inner {
            None => (None, p2),
            Some(e) => {
                let ghost iv = expr_view(&e);
                let r = BooleanExpr::Not(Box::new(e));
                proof {
                    assert(expr_view(&r) == ExprView::Not(Box::new(iv)));
                }
                (Some(r), p2)
            },
        }
    } else {
        parse_primary_at(tokens, pos)
    }
}

/// `parse_not ( AND parse_not )*`, left-associative.
fn parse_and_at(tokens: &Vec<Token>, pos: usize) -> (r: (Option<BooleanExpr>, usize))
    requires
        pos <= tokens@.len(),
    ensures
        r.1 <= tokens@.len(),
        match (r.0, sp_and(tokens.deep_view(), pos as nat)) {
            (Some(e), Some((v, p))) => expr_view(&e) == v && r.1 == p && pos < r.1,
            (None, None) => true,
            _ => false,
        },
    decreases tokens@.len() - pos, 2nat,
{
    let ghost toks = tokens.deep_view();
    proof {
        assert(toks.len() == tokens@.len());
        lemma_sp_not_advances(toks, pos as nat);
        lemma_sp_and_advances(toks, pos as nat);
    }
    let (first, p1) = parse_not_at(tokens, pos);
    let mut left = match first {
        None => {
            return (None, p1);
        },
        Some(e) => e,
    };
    let mut cur = p1;
    proof {
        lemma_sp_and_rest_advances(toks, expr_view(&left), cur as nat);
    }
    loop
        invariant
            pos < cur <= toks.len(),
            toks == tokens.deep_view(),
            toks.len() == tokens@.len(),
            sp_and(toks, pos as nat) == sp_and_rest(toks, expr_view(&left), cur as nat),
        ensures
            pos < cur <= toks.len(),
            sp_and(toks, pos as nat) matches Some((v, p)) && expr_view(&left) == v && cur == p,
        decreases toks.len() - cur,
    {
        let mut is_and = false;
        if cur < tokens.len() {
            match &tokens[cur] {
                Token::And => {
                    is_and = true;
                    proof {
                        assert(toks[cur as int] == TokView::And);
                    }
                },
                _ => {},
            }
        }
        if !is_and {
            proof {
                assert(sp_and_rest(toks, expr_view(&left), cur as nat) == Some(
                    (expr_view(&left), cur as nat),
                ));
            }
            break;
        }
        proof {
            lemma_sp_not_advances(toks, cur as nat + 1);
        }
        let (right, p2) = parse_not_at(tokens, cur + 1);
        match right {
            None => {
                proof {
                    assert(sp_and_rest(toks, expr_view(&left), cur as nat) is None);
                }
                return (None, p2);
            },
            Some(re) => {
                let ghost lv = expr_view(&left);
                let ghost rv = expr_view(&re);
                let ghost prev_cur = cur as nat;
                left = BooleanExpr::And(Box::new(left), Box::new(re));
                cur = p2;
                proof {
                    assert(expr_view(&left) == ExprView::And(Box::new(lv), Box::new(rv)));
                    assert(sp_and_rest(toks, lv, prev_cur) == sp_and_rest(
                        toks,
                        expr_view(&left),
                        cur as nat,
                    ));
                    lemma_sp_and_rest_advances(toks, expr_view(&left), cur as nat);
                }
            },
        }
    }
    (Some(left), cur)
}

/// `parse_and ( OR parse_and )*`, left-associative.
fn parse_or_at(tokens: &Vec<Token>, pos: usize) -> (r: (Option<BooleanExpr>, usize))
    requires
        pos <= tokens@.len(),
    ensures
        r.1 <= tokens@.len(),
        match (r.0, sp_or(tokens.deep_view(), pos as nat)) {
            (Some(e), Some((v, p))) => expr_view(&e) == v && r.1 == p && pos < r.1,
            (None, None) => true,
            _ => false,
        },
    decreases tokens@.len() - pos, 3nat,
{
    let ghost toks = tokens.deep_view();
    proof {
        assert(toks.len() == tokens@.len());
        lemma_sp_and_advances(toks, pos as nat);
        lemma_sp_or_advances(toks, pos as nat);
    }
    let (first, p1) = parse_and_at(tokens, pos);
    let mut left = match first {
        None => {
            return (None, p1);
        },
        Some(e) => e,
    };
    let mut cur = p1;
    proof {
        lemma_sp_or_rest_advances(toks, expr_view(&left), cur as nat);
    }
    loop
        invariant
            pos < cur <= toks.len(),
            toks == tokens.deep_view(),
            toks.len() == tokens@.len(),
            sp_or(toks, pos as nat) == sp_or_rest(toks, expr_view(&left), cur as nat),
        ensures
            pos < cur <= toks.len(),
            sp_or(toks, pos as nat) matches Some((v, p)) && expr_view(&left) == v && cur == p,
        decreases toks.len() - cur,
    {
        let mut is_or = false;
        if cur < tokens.len() {
            match &tokens[cur] {
                Token::Or => {
                    is_or = true;
                    proof {
                        assert(toks[cur as int] == TokView::Or);
                    }
                },
                _ => {},
            }
        }
        if !is_or {
            proof {
                assert(sp_or_rest(toks, expr_view(&left), cur as nat) == Some(
                    (expr_view(&left), cur as nat),
                ));
            }
            break;
        }
        proof {
            lemma_sp_and_advances(toks, cur as nat + 1);
        }
        let (right, p2) = parse_and_at(tokens, cur + 1);
        match right {
            None => {
                proof {
                    assert(sp_or_rest(toks, expr_view(&left), cur as nat) is None);
                }
                return (None, p2);
            },
            Some(re) => {
                let ghost lv = expr_view(&left);
                let ghost rv = expr_view(&re);
                let ghost prev_cur = cur as nat;
                left = BooleanExpr::Or(Box::new(left), Box::new(re));
                cur = p2;
                proof {
                    assert(expr_view(&left) == ExprView::Or(Box::new(lv), Box::new(rv)));
                    assert(sp_or_rest(toks, lv, prev_cur) == sp_or_rest(
                        toks,
                        expr_view(&left),
                        cur as nat,
                    ));
                    lemma_sp_or_rest_advances(toks, expr_view(&left), cur as nat);
                }
            },
        }
    }
    (Some(left), cur)
}

/// Recursive-descent parser over a token sequence, with precedence
/// NOT > AND > OR and parentheses overriding.
pub struct ExpressionParser {
    pub tokens: Vec<Token>,
    pub position: usize,
}

impl ExpressionParser {
    pub fn new(tokens: Vec<Token>) -> (r: Self)
        ensures
            r.tokens == tokens,
            r.position == 0,
    {
        ExpressionParser { tokens, position: 0 }
    }

    /// Parse the whole token sequence as one expression.
    pub fn parse(&mut self) -> (r: Option<BooleanExpr>)
        requires
            old(self).position <= old(self).tokens@.len(),
        ensures
            final(self).tokens == old(self).tokens,
            r.is_some() == sp_or(old(self).tokens.deep_view(), old(self).position as nat).is_some(),
            r matches Some(e) ==> expr_view(&e) == sp_or(
                old(self).tokens.deep_view(),
                old(self).position as nat,
            ).unwrap().0,
    {
        self.parse_or()
    }

    /// `parse_and ( OR parse_and )*` — OR has the lowest precedence.
    pub fn parse_or(&mut self) -> (r: Option<BooleanExpr>)
        requires
            old(self).position <= old(self).tokens@.len(),
        ensures
            final(self).tokens == old(self).tokens,
            final(self).position <= final(self).tokens@.len(),
            match (r, sp_or(old(self).tokens.deep_view(), old(self).position as nat)) {
                (Some(e), Some((v, p))) => expr_view(&e) == v && final(self).position == p,
                (None, None) => true,
                _ => false,
            },
    {
        let (r, p) = parse_or_at(&self.tokens, self.position);
        self.position = p;
        r
    }

    /// `parse_not ( AND parse_not )*` — AND binds tighter than OR.
    pub fn parse_and(&mut self) -> (r: Option<BooleanExpr>)
        requires
            old(self).position <= old(self).tokens@.len(),
        ensures
            final(self).tokens == old(self).tokens,
            final(self).position <= final(self).tokens@.len(),
            match (r, sp_and(old(self).tokens.deep_view(), old(self).position as nat)) {
                (Some(e), Some((v, p))) => expr_view(&e) == v && final(self).position == p,
                (None, None) => true,
                _ => false,
            },
    {
        let (r, p) = parse_and_at(&self.tokens, self.position);
        self.position = p;
        r
    }

    /// An optional leading `NOT`, then a primary — NOT binds strongest.
    pub fn parse_not(&mut self) -> (r: Option<BooleanExpr>)
        requires
            old(self).position <= old(self).tokens@.len(),
        ensures
            final(self).tokens == old(self).tokens,
            final(self).position <= final(self).tokens@.len(),
            match (r, sp_not(old(self).tokens.deep_view(), old(self).position as nat)) {
                (Some(e), Some((v, p))) => expr_view(&e) == v && final(self).position == p,
                (None, None) => true,
                _ => false,
            },
    {
        let (r, p) = parse_not_at(&self.tokens, self.position);
        self.position = p;
        r
    }

    /// A parenthesised expression or a single atomic condition.
    pub fn parse_primary(&mut self) -> (r: Option<BooleanExpr>)
        requires
            old(self).position <= old(self).tokens@.len(),
        ensures
            final(self).tokens == old(self).tokens,
            final(self).position <= final(self).tokens@.len(),
            match (r, sp_primary(old(self).tokens.deep_view(), old(self).position as nat)) {
                (Some(e), Some((v, p))) => expr_view(&e) == v && final(self).position == p,
                (None, None) => true,
                _ => false,
            },
    {
        let (r, p) = parse_primary_at(&self.tokens, self.position);
        self.position = p;
        r
    }
}

/// Characters that keep a condition's text unambiguous when it is
/// formatted and parsed again: no whitespace, no comparison-operator
/// characters, no parentheses, and no capital `A`, which could open a
/// keyword.
pub open spec fn plain_text(s: Seq<char>) -> bool {
    forall|i: int|
        0 <= i < s.len() ==> {
            let ch = #[trigger] s[i];
            &&& !is_ws(ch)
            &&& ch != '<'
            &&& ch != '>'
            &&& ch != '='
            &&& ch != '('
            &&& ch != ')'
            &&& ch != 'A'
        }
}

/// A condition whose canonical text parses back to it: variable and
/// value are non-empty and plain, and the operator is one of the six.
pub open spec fn round_trip_cond(c: CondView) -> bool {
    &&& c.variable.len() > 0
    &&& c.value.len() > 0
    &&& plain_text(c.variable)
    &&& plain_text(c.value)
    &&& is_known_op(c.operator)
}

/// Parsing the canonical text of a plain condition yields the
/// condition back.
pub proof fn lemma_atomic_round_trip(c: CondView)
    requires
        round_trip_cond(c),
    ensures
        sp_atomic(cond_str(c)) == Some(c),
{
    reveal_strlit(" ");
    reveal_strlit("=");
    reveal_strlit("<>");
    reveal_strlit("<");
    reveal_strlit("<=");
    reveal_strlit(">");
    reveal_strlit(">=");
    assert(" "@.len() == 1 && " "@[0] == ' ');
    assert("="@.len() == 1 && "<"@.len() == 1 && ">"@.len() == 1);
    assert("<>"@.len() == 2 && "<="@.len() == 2 && ">="@.len() == 2);
    assert("<"@[0] == '<' && ">"@[0] == '>' && "="@[0] == '=');
    assert("<>"@[0] == '<' && "<>"@[1] == '>');
    assert("<="@[0] == '<' && "<="@[1] == '=');
    assert(">="@[0] == '>' && ">="@[1] == '=');
    let e = cond_str(c);
    let p = c.variable.len() as int;
    let ol = c.operator.len() as int;
    let vl = c.value.len() as int;
    assert(e.len() == p + ol + vl + 2);
    assert(forall|i: int| 0 <= i < p ==> e[i] == c.variable[i]);
    assert(e[p] == ' ');
    assert(forall|k: int| 0 <= k < ol ==> e[p + 1 + k] == c.operator[k]);
    assert(e[p + 1 + ol] == ' ');
    assert(forall|k: int| 0 <= k < vl ==> e[p + 2 + ol + k] == c.value[k]);
    // the only operator characters lie inside the operator itself
    assert forall|x: int|
        0 <= x < e.len() && (e[x] == '<' || e[x] == '>' || e[x] == '=') implies p + 1 <= x < p
        + 1 + ol by {
        if x < p {
            assert(e[x] == c.variable[x]);
        } else if x == p {
        } else if x >= p + 2 + ol {
            assert(e[x] == c.value[x - (p + 2 + ol)]);
        } else if x == p + 1 + ol {
        }
    }
    // trimming and paren-stripping leave the text unchanged
    assert(!is_ws(e[0]));
    assert(!is_ws(e[e.len() - 1]));
    assert(trim_front(e) == e);
    assert(trim_back(e) == e);
    assert(trim_spec(e) == e);
    assert(e[0] != '(');
    assert(strip_outer_parens(e) == e);
    // the operator occurs at its place
    assert(e.subrange(p + 1, p + 1 + ol) =~= c.operator);
    assert(no_ws(c.variable));
    assert(no_ws(c.value));
    lemma_trim_plain(c.variable);
    lemma_trim_plain(c.value);
    assert(e.subrange(0, p + 1) =~= c.variable + " "@);
    assert(e.subrange(p + 1 + ol, e.len() as int) =~= " "@ + c.value);
    if c.operator == "="@ {
        lemma_op_absent(c, e, p, ol, "<="@);
        lemma_op_absent(c, e, p, ol, ">="@);
        lemma_op_absent(c, e, p, ol, "<>"@);
        lemma_op_found(c, e, p, ol);
        assert(sp_atomic(e) == Some(mk_cond(e, (p + 1) as nat, "="@)));
    } else if c.operator == "<>"@ {
        lemma_op_absent(c, e, p, ol, "<="@);
        lemma_op_absent(c, e, p, ol, ">="@);
        lemma_op_found(c, e, p, ol);
        assert(sp_atomic(e) == Some(mk_cond(e, (p + 1) as nat, "<>"@)));
    } else if c.operator == "<"@ {
        lemma_op_absent(c, e, p, ol, "<="@);
        lemma_op_absent(c, e, p, ol, ">="@);
        lemma_op_absent(c, e, p, ol, "<>"@);
        lemma_op_absent(c, e, p, ol, "="@);
        lemma_op_found(c, e, p, ol);
        assert(sp_atomic(e) == Some(mk_cond(e, (p + 1) as nat, "<"@)));
    } else if c.operator == "<="@ {
        lemma_op_found(c, e, p, ol);
        assert(sp_atomic(e) == Some(mk_cond(e, (p + 1) as nat, "<="@)));
    } else if c.operator == ">"@ {
        lemma_op_absent(c, e, p, ol, "<="@);
        lemma_op_absent(c, e, p, ol, ">="@);
        lemma_op_absent(c, e, p, ol, "<>"@);
        lemma_op_absent(c, e, p, ol, "="@);
        lemma_op_absent(c, e, p, ol, "<"@);
        lemma_op_found(c, e, p, ol);
        assert(sp_atomic(e) == Some(mk_cond(e, (p + 1) as nat, ">"@)));
    } else {
        lemma_op_absent(c, e, p, ol, "<="@);
        lemma_op_found(c, e, p, ol);
        assert(sp_atomic(e) == Some(mk_cond(e, (p + 1) as nat, ">="@)));
    }
    let m = mk_cond(e, (p + 1) as nat, c.operator);
    assert(m.variable == trim_spec(c.variable + " "@));
    assert(m.variable == c.variable);
    let raw = trim_spec(" "@ + c.value);
    assert(raw == c.value);
    assert(m.value == c.value) by {
        assert(c.value[0] != '(');
    }
    assert(m == c);
}

/// The canonical text of a plain condition: it is non-empty, carries
/// no capital `A`, and neither starts nor ends with whitespace.
pub proof fn lemma_cond_str_plain(c: CondView)
    requires
        round_trip_cond(c),
    ensures
        cond_str(c).len() >= 5,
        forall|i: int| 0 <= i < cond_str(c).len() ==> #[trigger] cond_str(c)[i] != 'A',
        !is_ws(cond_str(c)[0]),
        !is_ws(cond_str(c)[cond_str(c).len() - 1]),
        trim_spec(cond_str(c)) == cond_str(c),
{
    reveal_strlit(" ");
    reveal_strlit("=");
    reveal_strlit("<>");
    reveal_strlit("<");
    reveal_strlit("<=");
    reveal_strlit(">");
    reveal_strlit(">=");
    assert(" "@.len() == 1 && " "@[0] == ' ');
    let e = cond_str(c);
    let p = c.variable.len() as int;
    let ol = c.operator.len() as int;
    let vl = c.value.len() as int;
    assert(ol >= 1);
    assert(e.len() == p + ol + vl + 2);
    assert(forall|i: int| 0 <= i < p ==> e[i] == c.variable[i]);
    assert(e[p] == ' ');
    assert(forall|k: int| 0 <= k < ol ==> e[p + 1 + k] == c.operator[k]);
    assert(e[p + 1 + ol] == ' ');
    assert(forall|k: int| 0 <= k < vl ==> e[p + 2 + ol + k] == c.value[k]);
    assert(c.operator[0] == '<' || c.operator[0] == '>' || c.operator[0] == '=');
    assert(ol == 2 ==> (c.operator[1] == '>' || c.operator[1] == '='));
    assert(ol == 1 || ol == 2);
    assert forall|i: int| 0 <= i < e.len() implies #[trigger] e[i] != 'A' by {
        if i < p {
            assert(e[i] == c.variable[i]);
        } else if i == p || i == p + 1 + ol {
        } else if i >= p + 2 + ol {
            assert(e[i] == c.value[i - (p + 2 + ol)]);
        } else {
            let k = i - (p + 1);
            assert(e[i] == c.operator[k]);
        }
    }
    assert(!is_ws(e[0]));
    assert(!is_ws(e[e.len() - 1]));
    assert(trim_front(e) == e);
    assert(trim_back(e) == e);
}

/// The order in which the atomic parser tries the operators.
pub open spec fn op_rank(op: Seq<char>) -> int {
    if op == "<="@ {
        0
    } else if op == ">="@ {
        1
    } else if op == "<>"@ {
        2
    } else if op == "="@ {
        3
    } else if op == "<"@ {
        4
    } else {
        5
    }
}

/// A pattern tried before the condition's own operator does not occur
/// in the condition's text.
proof fn lemma_op_absent(c: CondView, e: Seq<char>, p: int, ol: int, pat: Seq<char>)
    requires
        round_trip_cond(c),
        e == cond_str(c),
        p == c.variable.len(),
        ol == c.operator.len(),
        is_known_op(pat),
        pat != ">"@,
        op_rank(pat) < op_rank(c.operator),
    ensures
        find_sub(e, pat, 0).is_none(),
{
    reveal_strlit(" ");
    reveal_strlit("=");
    reveal_strlit("<>");
    reveal_strlit("<");
    reveal_strlit("<=");
    reveal_strlit(">");
    reveal_strlit(">=");
    assert(" "@.len() == 1 && " "@[0] == ' ');
    assert("="@.len() == 1 && "<"@.len() == 1 && ">"@.len() == 1);
    assert("<>"@.len() == 2 && "<="@.len() == 2 && ">="@.len() == 2);
    assert("<"@[0] == '<' && ">"@[0] == '>' && "="@[0] == '=');
    assert("<>"@[0] == '<' && "<>"@[1] == '>');
    assert("<="@[0] == '<' && "<="@[1] == '=');
    assert(">="@[0] == '>' && ">="@[1] == '=');
    let vl = c.value.len() as int;
    assert(e.len() == p + ol + vl + 2);
    assert(forall|i: int| 0 <= i < p ==> e[i] == c.variable[i]);
    assert(e[p] == ' ');
    assert(forall|k: int| 0 <= k < ol ==> e[p + 1 + k] == c.operator[k]);
    assert(e[p + 1 + ol] == ' ');
    assert(forall|k: int| 0 <= k < vl ==> e[p + 2 + ol + k] == c.value[k]);
    assert forall|q: int| 0 <= q && q + pat.len() <= e.len() implies #[trigger] e.subrange(
        q,
        q + pat.len(),
    ) != pat by {
        let w = e.subrange(q, q + pat.len());
        assert(w[0] == e[q]);
        if w == pat {
            assert(e[q] == pat[0]);
            assert(pat[0] == '<' || pat[0] == '>' || pat[0] == '=');
            if q < p {
                assert(e[q] == c.variable[q]);
            } else if q == p || q == p + 1 + ol {
                assert(e[q] == ' ');
            } else if q >= p + 2 + ol {
                assert(e[q] == c.value[q - (p + 2 + ol)]);
            } else {
                let k = q - (p + 1);
                assert(0 <= k < ol);
                assert(e[q] == c.operator[k]);
                if pat.len() == 1 {
                    // only `=` and `<` are single-character patterns
                    // here, and they precede only the one-character
                    // operators that differ from them
                    assert(pat == "="@ || pat == "<"@);
                    if pat == "="@ {
                        assert(c.operator == "<"@ || c.operator == ">"@);
                        assert(k == 0);
                        assert(c.operator[0] == '<' || c.operator[0] == '>');
                    } else {
                        assert(c.operator == ">"@);
                        assert(k == 0);
                        assert(c.operator[0] == '>');
                    }
                    assert(e[q] != pat[0]);
                } else {
                    assert(pat == "<="@ || pat == ">="@ || pat == "<>"@);
                    assert(w[1] == e[q + 1]);
                    assert(e[q + 1] == pat[1]);
                    assert(pat[1] == '=' || pat[1] == '>');
                    if k + 1 < ol {
                        // the whole window lies inside the operator,
                        // so the pattern would equal the operator
                        assert(ol == 2 && k == 0);
                        assert(e[q] == c.operator[0] && e[q + 1] == c.operator[1]);
                        assert(pat =~= c.operator);
                    } else {
                        assert(q + 1 == p + 1 + ol);
                        assert(e[q + 1] == ' ');
                    }
                }
            }
        }
    }
    lemma_find_sub_none(e, pat, 0);
}

/// The operator itself is found exactly where the format placed it.
proof fn lemma_op_found(c: CondView, e: Seq<char>, p: int, ol: int)
    requires
        round_trip_cond(c),
        e == cond_str(c),
        p == c.variable.len(),
        ol == c.operator.len(),
    ensures
        find_sub(e, c.operator, 0) == Some((p + 1) as nat),
{
    reveal_strlit(" ");
    reveal_strlit("=");
    reveal_strlit("<>");
    reveal_strlit("<");
    reveal_strlit("<=");
    reveal_strlit(">");
    reveal_strlit(">=");
    let vl = c.value.len() as int;
    assert(e.len() == p + ol + vl + 2);
    assert(forall|i: int| 0 <= i < p ==> e[i] == c.variable[i]);
    assert(e[p] == ' ');
    assert(forall|k: int| 0 <= k < ol ==> e[p + 1 + k] == c.operator[k]);
    assert(e.subrange(p + 1, p + 1 + ol) =~= c.operator);
    assert(c.operator[0] == '<' || c.operator[0] == '>' || c.operator[0] == '=');
    assert forall|q: int| 0 <= q < p + 1 implies #[trigger] e.subrange(q, q + c.operator.len())
        != c.operator by {
        if q + ol <= e.len() {
            let w = e.subrange(q, q + ol);
            assert(w[0] == e[q]);
            if w == c.operator {
                assert(e[q] == c.operator[0]);
                if q < p {
                    assert(e[q] == c.variable[q]);
                } else {
                    assert(q == p);
                }
            }
        }
    }
    lemma_find_sub_first(e, c.operator, 0, (p + 1) as nat);
}

} // verus!
