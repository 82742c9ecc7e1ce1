//! Character-level utilities shared by the guard pipeline: whitespace
//! and identifier classes, lexicographic order, trimming, substring
//! search and splitting, each with its mathematical counterpart.

use vstd::prelude::*;

verus! {

/// ASCII whitespace: the separators recognised between guard tokens.
pub open spec fn is_ws(c: char) -> bool {
    c == ' ' || c == '\t' || c == '\n' || c == '\r'
}

/// Characters that may continue an identifier; a keyword followed by one of
/// these is part of a longer name, not an operator.
pub open spec fn is_word_char(c: char) -> bool {
    ('a' <= c && c <= 'z') || ('A' <= c && c <= 'Z') || ('0' <= c && c <= '9') || c == '_'
}

pub fn ws_char(c: char) -> (r: bool)
    ensures
        r == is_ws(c),
{
    c == ' ' || c == '\t' || c == '\n' || c == '\r'
}

pub fn word_char(c: char) -> (r: bool)
    ensures
        r == is_word_char(c),
{
    ('a' <= c && c <= 'z') || ('A' <= c && c <= 'Z') || ('0' <= c && c <= '9') || c == '_'
}

/// Strict lexicographic order on character sequences, by code point,
/// with a proper prefix ordered before its extensions.
pub open spec fn lex_lt(a: Seq<char>, b: Seq<char>) -> bool
    decreases a.len(),
{
    if b.len() == 0 {
        false
    } else if a.len() == 0 {
        true
    } else if a[0] == b[0] {
        lex_lt(a.skip(1), b.skip(1))
    } else {
        (a[0] as u32) < (b[0] as u32)
    }
}

proof fn lemma_char_eq_of_u32(a: char, b: char)
    requires
        a as u32 == b as u32,
    ensures
        a == b,
{
    vstd::utf8::char_u32_cast(a, a as u32);
    vstd::utf8::char_u32_cast(b, b as u32);
}

/// Exactly one of `lex_lt(a, b)`, `a == b`, `lex_lt(b, a)` holds.
pub proof fn lemma_lex_trichotomy(a: Seq<char>, b: Seq<char>)
    ensures
        lex_lt(a, b) ==> !lex_lt(b, a) && a != b,
        lex_lt(b, a) ==> !lex_lt(a, b) && a != b,
        !lex_lt(a, b) && !lex_lt(b, a) ==> a == b,
    decreases a.len(),
{
    if a.len() == 0 || b.len() == 0 {
        if a.len() == 0 && b.len() == 0 {
            assert(a =~= b);
        }
    } else if a[0] == b[0] {
        lemma_lex_trichotomy(a.skip(1), b.skip(1));
        if a.skip(1) == b.skip(1) {
            assert forall|i: int| 0 <= i < a.len() implies a[i] == b[i] by {
                if i > 0 {
                    assert(a.skip(1)[i - 1] == a[i]);
                    assert(b.skip(1)[i - 1] == b[i]);
                }
            }
            assert(a =~= b);
        }
    } else {
        if a[0] as u32 == b[0] as u32 {
            lemma_char_eq_of_u32(a[0], b[0]);
        }
        assert(a[0] as u32 != b[0] as u32);
    }
}

pub proof fn lemma_lex_trans(a: Seq<char>, b: Seq<char>, c: Seq<char>)
    requires
        lex_lt(a, b),
        lex_lt(b, c),
    ensures
        lex_lt(a, c),
    decreases a.len(),
{
    if a.len() == 0 {
        // b is below c, so c is nonempty, and lex_lt(a, c) holds vacuously
    } else {
        // a nonempty forces b nonempty, which forces c nonempty
        if a[0] == b[0] {
            if b[0] == c[0] {
                lemma_lex_trans(a.skip(1), b.skip(1), c.skip(1));
            }
        } else {
            if b[0] == c[0] {
            } else if a[0] == c[0] {
                assert((a[0] as u32) < (b[0] as u32));
                assert((b[0] as u32) < (c[0] as u32));
            }
        }
    }
}

/// Three-way comparison of two string slices in the order `lex_lt`:
/// -1 for below, 0 for equal, 1 for above.
pub fn str_cmp3(a: &str, b: &str) -> (o: i32)
    ensures
        o == -1 || o == 0 || o == 1,
        (o == -1) == lex_lt(a@, b@),
        (o == 0) == (a@ == b@),
        (o == 1) == lex_lt(b@, a@),
{
    let la = a.unicode_len();
    let lb = b.unicode_len();
    let mut i: usize = 0;
    proof {
        assert(a@.skip(0) =~= a@);
        assert(b@.skip(0) =~= b@);
    }
    loop
        invariant
            i <= la,
            i <= lb,
            la == a@.len(),
            lb == b@.len(),
            forall|j: int| 0 <= j < i ==> a@[j] == b@[j],
            lex_lt(a@, b@) == lex_lt(a@.skip(i as int), b@.skip(i as int)),
            lex_lt(b@, a@) == lex_lt(b@.skip(i as int), a@.skip(i as int)),
        decreases la - i,
    {
        if i >= la {
            if i >= lb {
                proof {
                    assert(a@ =~= b@);
                    lemma_lex_trichotomy(a@, b@);
                }
                return 0;
            } else {
                proof {
                    assert(a@.skip(i as int).len() == 0);
                    assert(b@.skip(i as int).len() > 0);
                    lemma_lex_trichotomy(a@, b@);
                }
                return -1;
            }
        }
        if i >= lb {
            proof {
                assert(b@.skip(i as int).len() == 0);
                assert(a@.skip(i as int).len() > 0);
                lemma_lex_trichotomy(a@, b@);
            }
            return 1;
        }
        let ca = a.get_char(i);
        let cb = b.get_char(i);
        if ca == cb {
            proof {
                let sa = a@.skip(i as int);
                let sb = b@.skip(i as int);
                assert(sa[0] == a@[i as int]);
                assert(sb[0] == b@[i as int]);
                assert(sa.skip(1) =~= a@.skip(i + 1));
                assert(sb.skip(1) =~= b@.skip(i + 1));
            }
            i = i + 1;
        } else {
            proof {
                let sa = a@.skip(i as int);
                let sb = b@.skip(i as int);
                assert(sa[0] == a@[i as int]);
                assert(sb[0] == b@[i as int]);
                if sa[0] as u32 == sb[0] as u32 {
                    lemma_char_eq_of_u32(ca, cb);
                }
                lemma_lex_trichotomy(a@, b@);
            }
            if (ca as u32) < (cb as u32) {
                return -1;
            } else {
                return 1;
            }
        }
    }
}

pub fn str_eq(a: &str, b: &str) -> (r: bool)
    ensures
        r == (a@ == b@),
{
    str_cmp3(a, b) == 0
}

/// The sequence with leading whitespace removed.
pub open spec fn trim_front(s: Seq<char>) -> Seq<char>
    decreases s.len(),
{
    if s.len() > 0 && is_ws(s[0]) {
        trim_front(s.skip(1))
    } else {
        s
    }
}

/// The sequence with trailing whitespace removed.
pub open spec fn trim_back(s: Seq<char>) -> Seq<char>
    decreases s.len(),
{
    if s.len() > 0 && is_ws(s[s.len() - 1]) {
        trim_back(s.take(s.len() - 1))
    } else {
        s
    }
}

/// The sequence with whitespace removed from both ends.
pub open spec fn trim_spec(s: Seq<char>) -> Seq<char> {
    trim_back(trim_front(s))
}

pub fn trim_str(s: &str) -> (r: String)
    ensures
        r@ == trim_spec(s@),
{
    let len = s.unicode_len();
    let mut i: usize = 0;
    proof {
        assert(s@.skip(0) =~= s@);
    }
    loop
        invariant
            i <= len,
            len == s@.len(),
            trim_front(s@) == trim_front(s@.skip(i as int)),
        ensures
            i <= len,
            trim_front(s@) == s@.skip(i as int),
        decreases len - i,
    {
        if i >= len {
            proof {
                assert(s@.skip(i as int).len() == 0);
            }
            break;
        }
        let c = s.get_char(i);
        if ws_char(c) {
            proof {
                let t = s@.skip(i as int);
                assert(t[0] == s@[i as int]);
                assert(t.skip(1) =~= s@.skip(i + 1));
            }
            i = i + 1;
        } else {
            proof {
                let t = s@.skip(i as int);
                assert(t[0] == s@[i as int]);
            }
            break;
        }
    }
    let ghost t = s@.skip(i as int);
    let mut j: usize = len;
    proof {
        assert(t.take(t.len() as int) =~= t);
    }
    loop
        invariant
            i <= j,
            j <= len,
            len == s@.len(),
            t == s@.skip(i as int),
            trim_back(t) == trim_back(t.take(j - i)),
        ensures
            i <= j <= len,
            trim_back(t) == t.take(j - i),
        decreases j,
    {
        if j <= i {
            proof {
                assert(t.take(0).len() == 0);
            }
            break;
        }
        let c = s.get_char(j - 1);
        proof {
            let u = t.take(j - i);
            assert(u.len() == j - i);
            assert(u[u.len() - 1] == t[j - i - 1]);
            assert(t[j - i - 1] == s@[j - 1]);
        }
        if ws_char(c) {
            proof {
                let u = t.take(j - i);
                assert(u.take(u.len() - 1) =~= t.take(j - 1 - i));
            }
            j = j - 1;
        } else {
            break;
        }
    }
    proof {
        assert(t.take(j - i) =~= s@.subrange(i as int, j as int));
    }
    let piece = s.substring_char(i, j);
    piece.to_owned()
}

/// Index of the first occurrence of `pat` in `s` at or after `from`.
pub open spec fn find_sub(s: Seq<char>, pat: Seq<char>, from: nat) -> Option<nat>
    decreases s.len() - from when from <= s.len() && pat.len() >= 1
{
    if from + pat.len() > s.len() {
        None
    } else if s.subrange(from as int, (from + pat.len()) as int) == pat {
        Some(from)
    } else {
        find_sub(s, pat, from + 1)
    }
}

pub proof fn lemma_find_sub_bounds(s: Seq<char>, pat: Seq<char>, from: nat)
    requires
        from <= s.len(),
        pat.len() >= 1,
        find_sub(s, pat, from).is_some(),
    ensures
        from <= find_sub(s, pat, from).unwrap(),
        find_sub(s, pat, from).unwrap() + pat.len() <= s.len(),
        s.subrange(
            find_sub(s, pat, from).unwrap() as int,
            (find_sub(s, pat, from).unwrap() + pat.len()) as int,
        ) == pat,
    decreases s.len() - from,
{
    if from + pat.len() > s.len() {
    } else if s.subrange(from as int, (from + pat.len()) as int) == pat {
    } else {
        lemma_find_sub_bounds(s, pat, from + 1);
    }
}

/// Whether `pat` occurs in `s` starting exactly at `from`.
fn match_at(s: &str, pat: &str, from: usize, n: usize, m: usize) -> (r: bool)
    requires
        n == s@.len(),
        m == pat@.len(),
        from <= n,
        m <= n - from,
    ensures
        r == (s@.subrange(from as int, from as int + pat@.len()) == pat@),
{
    let mut k: usize = 0;
    while k < m
        invariant
            k <= m,
            n == s@.len(),
            m == pat@.len(),
            from <= n,
            m <= n - from,
            forall|j: int| 0 <= j < k ==> s@[from + j] == pat@[j],
        decreases m - k,
    {
        let cs = s.get_char(from + k);
        let cp = pat.get_char(k);
        if cs != cp {
            proof {
                let w = s@.subrange(from as int, from as int + pat@.len());
                assert(w[k as int] == s@[from + k]);
            }
            return false;
        }
        k = k + 1;
    }
    proof {
        assert(s@.subrange(from as int, from as int + pat@.len()) =~= pat@);
    }
    true
}

pub fn find_substr(s: &str, pat: &str) -> (r: Option<usize>)
    requires
        pat@.len() >= 1,
    ensures
        match r {
            Some(p) => find_sub(s@, pat@, 0) == Some(p as nat),
            None => find_sub(s@, pat@, 0).is_none(),
        },
{
    let n = s.unicode_len();
    let m = pat.unicode_len();
    let mut from: usize = 0;
    loop
        invariant
            from <= n,
            n == s@.len(),
            m == pat@.len(),
            m >= 1,
            find_sub(s@, pat@, 0) == find_sub(s@, pat@, from as nat),
        decreases n - from,
    {
        if m > n - from {
            return None;
        }
        if match_at(s, pat, from, n, m) {
            return Some(from);
        }
        proof {
            assert(find_sub(s@, pat@, from as nat) == find_sub(s@, pat@, from as nat + 1));
        }
        from = from + 1;
    }
}

/// Without any occurrence of `pat`, the search fails.
pub proof fn lemma_find_sub_none(s: Seq<char>, pat: Seq<char>, from: nat)
    requires
        pat.len() >= 1,
        from <= s.len(),
        forall|q: int|
            from <= q && q + pat.len() <= s.len() ==> #[trigger] s.subrange(q, q + pat.len())
                != pat,
    ensures
        find_sub(s, pat, from).is_none(),
    decreases s.len() - from,
{
    if from + pat.len() <= s.len() {
        assert(s.subrange(from as int, from as int + pat.len()) != pat);
        lemma_find_sub_none(s, pat, from + 1);
    }
}

/// The first occurrence is the one the search returns.
pub proof fn lemma_find_sub_first(s: Seq<char>, pat: Seq<char>, from: nat, p: nat)
    requires
        pat.len() >= 1,
        from <= p,
        p + pat.len() <= s.len(),
        s.subrange(p as int, (p + pat.len()) as int) == pat,
        forall|q: int| from <= q < p ==> #[trigger] s.subrange(q, q + pat.len()) != pat,
    ensures
        find_sub(s, pat, from) == Some(p),
    decreases p - from,
{
    if from < p {
        assert(s.subrange(from as int, from as int + pat.len()) != pat);
        lemma_find_sub_first(s, pat, from + 1, p);
    }
}

/// No character of the sequence is whitespace.
pub open spec fn no_ws(s: Seq<char>) -> bool {
    forall|i: int| 0 <= i < s.len() ==> !is_ws(#[trigger] s[i])
}

/// Trimming does nothing to a sequence without whitespace, and removes
/// exactly one space padded on either side of it.
pub proof fn lemma_trim_plain(v: Seq<char>)
    requires
        no_ws(v),
    ensures
        trim_spec(v) == v,
        trim_spec(v + " "@) == v,
        trim_spec(" "@ + v) == v,
{
    reveal_strlit(" ");
    assert(" "@.len() == 1 && " "@[0] == ' ');
    if v.len() == 0 {
        assert(v =~= Seq::<char>::empty());
        assert(trim_front(v) == v);
        assert(trim_back(v) == v);
        assert(v + " "@ =~= " "@);
        assert(" "@ + v =~= " "@);
        assert(trim_front(" "@) == trim_front(" "@.skip(1)));
        assert(" "@.skip(1).len() == 0);
        assert(trim_front(" "@) =~= Seq::<char>::empty());
        assert(trim_back(Seq::<char>::empty()) =~= Seq::<char>::empty());
        assert(trim_spec(" "@) =~= v);
    } else {
        assert(!is_ws(v[0]));
        assert(trim_front(v) == v);
        assert(!is_ws(v[v.len() - 1]));
        assert(trim_back(v) == v);
        // one trailing space
        let vp = v + " "@;
        assert(vp[0] == v[0]);
        assert(trim_front(vp) == vp);
        assert(vp[vp.len() - 1] == ' ');
        assert(vp.take(vp.len() - 1) =~= v);
        assert(trim_back(vp) == trim_back(v));
        // one leading space
        let pv = " "@ + v;
        assert(pv[0] == ' ');
        assert(pv.skip(1) =~= v);
        assert(trim_front(pv) == trim_front(v));
        assert(trim_spec(pv) == trim_back(v));
    }
}

/// The pieces of `s` between non-overlapping occurrences of `pat`,
/// scanning left to right.
pub open spec fn split_on(s: Seq<char>, pat: Seq<char>) -> Seq<Seq<char>>
    decreases s.len() when pat.len() >= 1
{
    match find_sub(s, pat, 0) {
        None => seq![s],
        Some(p) => if p + pat.len() <= s.len() {
            seq![s.subrange(0, p as int)] + split_on(s.skip((p + pat.len()) as int), pat)
        } else {
            // never reached: a found occurrence lies within the sequence
            seq![s]
        },
    }
}

pub fn split_str(s: &str, pat: &str) -> (r: Vec<String>)
    requires
        pat@.len() >= 1,
    ensures
        r@.len() == split_on(s@, pat@).len(),
        forall|i: int| 0 <= i < r@.len() ==> r@[i]@ == #[trigger] split_on(s@, pat@)[i],
{
    let mut rest: String = s.to_owned();
    let mut out: Vec<String> = Vec::new();
    loop
        invariant
            pat@.len() >= 1,
            split_on(s@, pat@).len() == out@.len() + split_on(rest@, pat@).len(),
            forall|i: int|
                0 <= i < out@.len() ==> out@[i]@ == #[trigger] split_on(s@, pat@)[i],
            forall|i: int|
                0 <= i < split_on(rest@, pat@).len() ==> #[trigger] split_on(rest@, pat@)[i]
                    == split_on(s@, pat@)[out@.len() + i],
        decreases rest@.len(),
    {
        match find_substr(rest.as_str(), pat) {
            None => {
                proof {
                    assert(split_on(rest@, pat@) == seq![rest@]);
                    assert(split_on(rest@, pat@)[0] == rest@);
                }
                out.push(rest);
                return out;
            },
            Some(p) => {
                proof {
                    lemma_find_sub_bounds(rest@, pat@, 0);
                }
                let ghost prev = rest@;
                let ghost sp_prev = split_on(prev, pat@);
                let piece = rest.as_str().substring_char(0, p);
                let len = rest.unicode_len();
                let tail = rest.as_str().substring_char(p + pat.unicode_len(), len);
                proof {
                    assert(piece@ == prev.subrange(0, p as int));
                    assert(tail@ =~= prev.skip((p + pat@.len()) as int));
                    assert(sp_prev == seq![prev.subrange(0, p as int)] + split_on(tail@, pat@));
                    assert(sp_prev[0] == piece@);
                    assert(forall|i: int|
                        0 <= i < split_on(tail@, pat@).len() ==> #[trigger] split_on(
                            tail@,
                            pat@,
                        )[i] == sp_prev[i + 1]);
                }
                out.push(piece.to_owned());
                rest = tail.to_owned();
            },
        }
    }
}

/// Push an element and carry the element-wise view across the append.
pub fn push_dv<T: DeepView>(v: &mut Vec<T>, x: T)
    ensures
        final(v).deep_view() == old(v).deep_view().push(x.deep_view()),
        final(v)@.len() == old(v)@.len() + 1,
{
    let ghost rv_old = v@;
    let ghost dv_old = v.deep_view();
    v.push(x);
    proof {
        let dv = v.deep_view();
        assert(dv_old.len() == rv_old.len());
        assert(dv.len() == v@.len());
        assert forall|k: int| 0 <= k < dv.len() implies dv[k] == dv_old.push(
            v@[v@.len() - 1].deep_view(),
        )[k] by {
            assert(dv[k] == v@[k].deep_view());
            if k < rv_old.len() {
                assert(v@[k] == rv_old[k]);
                assert(dv_old[k] == rv_old[k].deep_view());
            }
        }
        assert(dv =~= dv_old.push(v@[v@.len() - 1].deep_view()));
    }
}

} // verus!
