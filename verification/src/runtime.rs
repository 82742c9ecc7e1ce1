//! Runtime matching: variable assignments, exact decimal comparison,
//! and the evaluation of one atomic condition against a bound value.

use vstd::prelude::*;

use crate::cond::{CondView, Condition};
use crate::strutil::{lex_lt, lemma_lex_trichotomy, str_cmp3, str_eq};

verus! {

pub open spec fn is_digit(c: char) -> bool {
    '0' <= c && c <= '9'
}

pub fn digit_char(c: char) -> (r: bool)
    ensures
        r == is_digit(c),
{
    '0' <= c && c <= '9'
}

/// A decimal number in canonical form: sign, integer digits without
/// leading zeros, fraction digits without trailing zeros. Zero is never
/// negative.
pub ghost struct DecView {
    pub neg: bool,
    pub int_digits: Seq<char>,
    pub frac_digits: Seq<char>,
}

/// The end of the digit run starting at `i`.
pub open spec fn digits_end(s: Seq<char>, i: nat) -> nat
    decreases s.len() - i when i <= s.len()
{
    if i < s.len() && is_digit(s[i as int]) {
        digits_end(s, i + 1)
    } else {
        i
    }
}

pub open spec fn strip_leading_zeros(d: Seq<char>) -> Seq<char>
    decreases d.len(),
{
    if d.len() > 0 && d[0] == '0' {
        strip_leading_zeros(d.skip(1))
    } else {
        d
    }
}

pub open spec fn strip_trailing_zeros(d: Seq<char>) -> Seq<char>
    decreases d.len(),
{
    if d.len() > 0 && d[d.len() - 1] == '0' {
        strip_trailing_zeros(d.take(d.len() - 1))
    } else {
        d
    }
}

/// The canonical decimal with the given sign and digit runs.
pub open spec fn canon_dec(neg: bool, intd: Seq<char>, fracd: Seq<char>) -> DecView {
    let si = strip_leading_zeros(intd);
    let sf = strip_trailing_zeros(fracd);
    DecView {
        neg: if si.len() == 0 && sf.len() == 0 {
            false
        } else {
            neg
        },
        int_digits: si,
        frac_digits: sf,
    }
}

/// Parse a decimal number: an optional sign, then digits with at most
/// one decimal point, and at least one digit in all. Anything else is
/// rejected.
pub open spec fn parse_dec(s: Seq<char>) -> Option<DecView> {
    if s.len() == 0 {
        None
    } else {
        let neg = s[0] == '-';
        let i0: nat = if s[0] == '-' || s[0] == '+' {
            1
        } else {
            0
        };
        let i1 = digits_end(s, i0);
        let intd = s.subrange(i0 as int, i1 as int);
        if i1 == s.len() {
            if intd.len() == 0 {
                None
            } else {
                Some(canon_dec(neg, intd, Seq::empty()))
            }
        } else if s[i1 as int] == '.' {
            let i2 = digits_end(s, i1 + 1);
            if i2 != s.len() {
                None
            } else {
                let fracd = s.subrange(i1 as int + 1, i2 as int);
                if intd.len() + fracd.len() == 0 {
                    None
                } else {
                    Some(canon_dec(neg, intd, fracd))
                }
            }
        } else {
            None
        }
    }
}

/// Strictly-less on magnitudes of canonical decimals: a shorter integer
/// part is smaller; equal lengths compare digit-wise; equal integer
/// parts compare the fractions, where a proper prefix is smaller.
pub open spec fn mag_lt(a: DecView, b: DecView) -> bool {
    ||| a.int_digits.len() < b.int_digits.len()
    ||| (a.int_digits.len() == b.int_digits.len() && lex_lt(a.int_digits, b.int_digits))
    ||| (a.int_digits == b.int_digits && lex_lt(a.frac_digits, b.frac_digits))
}

/// Numeric strictly-less on canonical decimals.
pub open spec fn dec_lt(a: DecView, b: DecView) -> bool {
    if a.neg != b.neg {
        a.neg
    } else if a.neg {
        mag_lt(b, a)
    } else {
        mag_lt(a, b)
    }
}

/// Both sides parse as decimals and the left is strictly below the
/// right; a parse failure makes the comparison false.
pub open spec fn num_lt(a: Seq<char>, b: Seq<char>) -> bool {
    match (parse_dec(a), parse_dec(b)) {
        (Some(x), Some(y)) => dec_lt(x, y),
        _ => false,
    }
}

/// Both sides parse and the left is below or equal.
pub open spec fn num_le(a: Seq<char>, b: Seq<char>) -> bool {
    match (parse_dec(a), parse_dec(b)) {
        (Some(x), Some(y)) => dec_lt(x, y) || x == y,
        _ => false,
    }
}

/// One atomic comparison against a runtime value: `=` and `<>` compare
/// text; the ordering operators compare both sides as decimal numbers,
/// and a parse failure makes the comparison false. An unknown operator
/// is false.
pub open spec fn eval_op(op: Seq<char>, runtime_val: Seq<char>, cond_val: Seq<char>) -> bool {
    if op == "="@ {
        runtime_val == cond_val
    } else if op == "<>"@ {
        runtime_val != cond_val
    } else if op == "<"@ {
        num_lt(runtime_val, cond_val)
    } else if op == "<="@ {
        num_le(runtime_val, cond_val)
    } else if op == ">"@ {
        num_lt(cond_val, runtime_val)
    } else if op == ">="@ {
        num_le(cond_val, runtime_val)
    } else {
        false
    }
}

/// A decimal number split into its parts, canonicalised.
pub struct DecParse {
    pub neg: bool,
    pub int_part: String,
    pub frac_part: String,
}

impl View for DecParse {
    type V = DecView;

    open spec fn view(&self) -> DecView {
        DecView { neg: self.neg, int_digits: self.int_part@, frac_digits: self.frac_part@ }
    }
}

/// Scan the digit run starting at `i`.
fn scan_digits(s: &str, i: usize, len: usize) -> (r: usize)
    requires
        i <= len,
        len == s@.len(),
    ensures
        r == digits_end(s@, i as nat),
        i <= r <= len,
{
    let mut j = i;
    loop
        invariant
            i <= j <= len,
            len == s@.len(),
            digits_end(s@, i as nat) == digits_end(s@, j as nat),
        ensures
            i <= j <= len,
            j == digits_end(s@, i as nat),
        decreases len - j,
    {
        if j >= len {
            break;
        }
        let c = s.get_char(j);
        if !digit_char(c) {
            break;
        }
        j = j + 1;
    }
    j
}

/// Remove leading zeros from a digit run given as index bounds.
fn strip_lead(s: &str, from: usize, to: usize) -> (r: usize)
    requires
        from <= to <= s@.len(),
    ensures
        from <= r <= to,
        s@.subrange(r as int, to as int) == strip_leading_zeros(
            s@.subrange(from as int, to as int),
        ),
{
    let mut i = from;
    loop
        invariant
            from <= i <= to,
            to <= s@.len(),
            strip_leading_zeros(s@.subrange(from as int, to as int)) == strip_leading_zeros(
                s@.subrange(i as int, to as int),
            ),
        ensures
            from <= i <= to,
            s@.subrange(i as int, to as int) == strip_leading_zeros(
                s@.subrange(from as int, to as int),
            ),
        decreases to - i,
    {
        if i >= to {
            proof {
                assert(s@.subrange(i as int, to as int).len() == 0);
            }
            break;
        }
        let c = s.get_char(i);
        if c == '0' {
            proof {
                let u = s@.subrange(i as int, to as int);
                assert(u[0] == s@[i as int]);
                assert(u.skip(1) =~= s@.subrange(i + 1, to as int));
            }
            i = i + 1;
        } else {
            proof {
                let u = s@.subrange(i as int, to as int);
                assert(u[0] == s@[i as int]);
            }
            break;
        }
    }
    i
}

/// Remove trailing zeros from a digit run given as index bounds.
fn strip_trail(s: &str, from: usize, to: usize) -> (r: usize)
    requires
        from <= to <= s@.len(),
    ensures
        from <= r <= to,
        s@.subrange(from as int, r as int) == strip_trailing_zeros(
            s@.subrange(from as int, to as int),
        ),
{
    let mut j = to;
    loop
        invariant
            from <= j <= to,
            to <= s@.len(),
            strip_trailing_zeros(s@.subrange(from as int, to as int)) == strip_trailing_zeros(
                s@.subrange(from as int, j as int),
            ),
        ensures
            from <= j <= to,
            s@.subrange(from as int, j as int) == strip_trailing_zeros(
                s@.subrange(from as int, to as int),
            ),
        decreases j,
    {
        if j <= from {
            proof {
                assert(s@.subrange(from as int, j as int).len() == 0);
            }
            break;
        }
        let c = s.get_char(j - 1);
        if c == '0' {
            proof {
                let u = s@.subrange(from as int, j as int);
                assert(u[u.len() - 1] == s@[j - 1]);
                assert(u.take(u.len() - 1) =~= s@.subrange(from as int, j - 1));
            }
            j = j - 1;
        } else {
            proof {
                let u = s@.subrange(from as int, j as int);
                assert(u[u.len() - 1] == s@[j - 1]);
            }
            break;
        }
    }
    j
}

/// Parse a string as a decimal number in canonical form.
pub fn parse_decimal(s: &str) -> (r: Option<DecParse>)
    ensures
        r.is_some() == parse_dec(s@).is_some(),
        r matches Some(d) ==> d@ == parse_dec(s@).unwrap(),
{
    let len = s.unicode_len();
    if len == 0 {
        return None;
    }
    let first = s.get_char(0);
    let neg = first == '-';
    let i0: usize = if first == '-' || first == '+' {
        1
    } else {
        0
    };
    let i1 = scan_digits(s, i0, len);
    if i1 == len {
        if i1 == i0 {
            return None;
        }
        let a = strip_lead(s, i0, i1);
        let int_part = s.substring_char(a, i1).to_owned();
        let is_zero = int_part.as_str().unicode_len() == 0;
        proof {
            assert(strip_trailing_zeros(Seq::<char>::empty()) =~= Seq::<char>::empty());
            assert(s@.subrange(i0 as int, i1 as int).len() > 0);
        }
        return Some(
            DecParse {
                neg: if is_zero {
                    false
                } else {
                    neg
                },
                int_part,
                frac_part: String::new(),
            },
        );
    }
    let dot = s.get_char(i1);
    if dot != '.' {
        return None;
    }
    let i2 = scan_digits(s, i1 + 1, len);
    if i2 != len {
        return None;
    }
    if i1 == i0 && i2 == i1 + 1 {
        // neither integer nor fraction digits
        return None;
    }
    let a = strip_lead(s, i0, i1);
    let b = strip_trail(s, i1 + 1, i2);
    let int_part = s.substring_char(a, i1).to_owned();
    let frac_part = s.substring_char(i1 + 1, b).to_owned();
    let is_zero = int_part.as_str().unicode_len() == 0 && frac_part.as_str().unicode_len() == 0;
    proof {
        assert(s@.subrange(i0 as int, i1 as int).len() + s@.subrange(i1 + 1, i2 as int).len()
            > 0);
    }
    Some(
        DecParse {
            neg: if is_zero {
                false
            } else {
                neg
            },
            int_part,
            frac_part,
        },
    )
}

/// Three-way numeric comparison of two canonical decimals.
fn dec_cmp(a: &DecParse, b: &DecParse) -> (o: i32)
    ensures
        o == -1 || o == 0 || o == 1,
        (o == -1) == dec_lt(a@, b@),
        (o == 0) == (a@ == b@),
        (o == 1) == dec_lt(b@, a@),
{
    proof {
        lemma_lex_trichotomy(a@.int_digits, b@.int_digits);
        lemma_lex_trichotomy(a@.frac_digits, b@.frac_digits);
    }
    if a.neg != b.neg {
        if a.neg {
            return -1;
        } else {
            return 1;
        }
    }
    let ai = a.int_part.as_str().unicode_len();
    let bi = b.int_part.as_str().unicode_len();
    let mag: i32 = if ai < bi {
        -1
    } else if ai > bi {
        1
    } else {
        let ci = str_cmp3(a.int_part.as_str(), b.int_part.as_str());
        if ci != 0 {
            ci
        } else {
            str_cmp3(a.frac_part.as_str(), b.frac_part.as_str())
        }
    };
    proof {
        if mag == -1 {
            assert(mag_lt(a@, b@));
            assert(!mag_lt(b@, a@));
            assert(a@ != b@);
        }
        if mag == 1 {
            assert(mag_lt(b@, a@));
            assert(!mag_lt(a@, b@));
            assert(a@ != b@);
        }
        if mag == 0 {
            assert(a@.int_digits == b@.int_digits && a@.frac_digits == b@.frac_digits);
            assert(a@ =~= b@);
            assert(!mag_lt(a@, b@) && !mag_lt(b@, a@));
        }
    }
    if a.neg {
        if mag == -1 {
            1
        } else if mag == 1 {
            -1
        } else {
            0
        }
    } else {
        mag
    }
}

/// Evaluate one atomic condition against a runtime value.
pub fn evaluate_condition(cond: &Condition, runtime_value: &str) -> (r: bool)
    ensures
        r == eval_op(cond@.operator, runtime_value@, cond@.value),
{
    proof {
        reveal_strlit("=");
        reveal_strlit("<>");
        reveal_strlit("<");
        reveal_strlit("<=");
        reveal_strlit(">");
        reveal_strlit(">=");
        assert("="@.len() == 1 && "<"@.len() == 1 && ">"@.len() == 1);
        assert("<>"@.len() == 2 && "<="@.len() == 2 && ">="@.len() == 2);
        assert("<"@[0] == '<' && ">"@[0] == '>' && "="@[0] == '=');
        assert("<>"@[0] == '<' && "<>"@[1] == '>');
        assert("<="@[0] == '<' && "<="@[1] == '=');
        assert(">="@[0] == '>' && ">="@[1] == '=');
    }
    let op = cond.operator.as_str();
    if str_eq(op, "=") {
        return str_eq(runtime_value, cond.value.as_str());
    }
    if str_eq(op, "<>") {
        return !str_eq(runtime_value, cond.value.as_str());
    }
    if str_eq(op, "<") || str_eq(op, "<=") || str_eq(op, ">") || str_eq(op, ">=") {
        let rv = parse_decimal(runtime_value);
        let cv = parse_decimal(cond.value.as_str());
        match (rv, cv) {
            (Some(x), Some(y)) => {
                let c = dec_cmp(&x, &y);
                if str_eq(op, "<") {
                    return c == -1;
                }
                if str_eq(op, "<=") {
                    return c == -1 || c == 0;
                }
                if str_eq(op, ">") {
                    return c == 1;
                }
                return c == 1 || c == 0;
            },
            _ => {
                return false;
            },
        }
    }
    false
}

/// A runtime assignment of variable names to textual values: the last
/// binding for a name wins.
pub struct RuntimeVars {
    pub entries: Vec<(String, String)>,
}

/// The mapping described by a list of bindings, later entries
/// overriding earlier ones.
pub open spec fn vars_map(entries: Seq<(String, String)>) -> Map<Seq<char>, Seq<char>>
    decreases entries.len(),
{
    if entries.len() == 0 {
        Map::empty()
    } else {
        vars_map(entries.drop_last()).insert(entries.last().0@, entries.last().1@)
    }
}

impl View for RuntimeVars {
    type V = Map<Seq<char>, Seq<char>>;

    open spec fn view(&self) -> Map<Seq<char>, Seq<char>> {
        vars_map(self.entries@)
    }
}

/// The value of the last binding for a name is the one the map holds.
proof fn lemma_vars_map_at(entries: Seq<(String, String)>, j: int)
    requires
        0 <= j < entries.len(),
        forall|l: int| j < l < entries.len() ==> (#[trigger] entries[l].0)@ != entries[j].0@,
    ensures
        vars_map(entries).contains_key(entries[j].0@),
        vars_map(entries)[entries[j].0@] == entries[j].1@,
    decreases entries.len(),
{
    if j == entries.len() - 1 {
    } else {
        assert(forall|l: int|
            0 <= l < entries.len() - 1 ==> entries.drop_last()[l] == #[trigger] entries[l]);
        lemma_vars_map_at(entries.drop_last(), j);
        assert(entries.last().0@ != entries[j].0@);
    }
}

/// A name bound nowhere in the list is absent from the map.
proof fn lemma_vars_map_absent(entries: Seq<(String, String)>, k: Seq<char>)
    requires
        forall|l: int| 0 <= l < entries.len() ==> (#[trigger] entries[l].0)@ != k,
    ensures
        !vars_map(entries).contains_key(k),
    decreases entries.len(),
{
    if entries.len() > 0 {
        assert(forall|l: int|
            0 <= l < entries.len() - 1 ==> entries.drop_last()[l] == #[trigger] entries[l]);
        lemma_vars_map_absent(entries.drop_last(), k);
        assert(entries.last().0@ != k);
    }
}

impl RuntimeVars {
    pub fn new() -> (r: Self)
        ensures
            r@ == Map::<Seq<char>, Seq<char>>::empty(),
    {
        RuntimeVars { entries: Vec::new() }
    }

    /// Bind `variable` to `value`, overriding any earlier binding.
    pub fn insert(&mut self, variable: String, value: String)
        ensures
            final(self)@ == old(self)@.insert(variable@, value@),
    {
        let ghost before = self.entries@;
        self.entries.push((variable, value));
        proof {
            assert(self.entries@.drop_last() =~= before);
        }
    }

    /// Look up the value bound to `variable`, if any.
    pub fn get(&self, variable: &str) -> (r: Option<&String>)
        ensures
            r matches Some(v) ==> self@.contains_key(variable@) && v@ == self@[variable@],
            r.is_none() ==> !self@.contains_key(variable@),
    {
        let n = self.entries.len();
        let mut i: usize = n;
        loop
            invariant
                i <= n,
                n == self.entries@.len(),
                forall|l: int| i <= l < n ==> (#[trigger] self.entries@[l].0)@ != variable@,
            ensures
                i == 0,
                forall|l: int| i <= l < n ==> (#[trigger] self.entries@[l].0)@ != variable@,
            decreases i,
        {
            if i == 0 {
                break;
            }
            if str_eq(self.entries[i - 1].0.as_str(), variable) {
                proof {
                    assert(self.entries@[i - 1].0@ == variable@);
                    lemma_vars_map_at(self.entries@, i - 1);
                }
                return Some(&self.entries[i - 1].1);
            }
            i = i - 1;
        }
        proof {
            lemma_vars_map_absent(self.entries@, variable@);
        }
        None
    }
}

/// An atomic condition holds of an assignment when its variable is
/// bound and the bound value satisfies the comparison; an unbound
/// variable makes it false.
pub open spec fn eval_cond(c: CondView, vars: Map<Seq<char>, Seq<char>>) -> bool {
    vars.contains_key(c.variable) && eval_op(c.operator, vars[c.variable], c.value)
}

/// A conjunction holds when every atomic in it holds.
pub open spec fn conj_matches(conds: Seq<CondView>, vars: Map<Seq<char>, Seq<char>>) -> bool {
    forall|i: int| 0 <= i < conds.len() ==> eval_cond(#[trigger] conds[i], vars)
}

} // verus!
