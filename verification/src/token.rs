//! The guard tokeniser: whitespace-separated tokens over atomic
//! condition texts, the keywords recognised as complete words, and
//! parentheses, which count as dedicated tokens only at the top level.

use vstd::prelude::*;

use crate::strutil::{is_word_char, is_ws, push_dv, trim_back, trim_front, trim_spec, trim_str, word_char, ws_char};

verus! {

/// Mathematical form of a guard token.
pub ghost enum TokView {
    Cond(Seq<char>),
    And,
    Or,
    Not,
    LParen,
    RParen,
}

/// A token of a guard string: an atomic condition's text, one of the
/// keywords `AND`, `OR`, `NOT`, or a parenthesis.
pub enum Token {
    Condition(String),
    And,
    Or,
    Not,
    LParen,
    RParen,
}

impl View for Token {
    type V = TokView;

    open spec fn view(&self) -> TokView {
        match self {
            Token::Condition(s) => TokView::Cond(s@),
            Token::And => TokView::And,
            Token::Or => TokView::Or,
            Token::Not => TokView::Not,
            Token::LParen => TokView::LParen,
            Token::RParen => TokView::RParen,
        }
    }
}

impl DeepView for Token {
    type V = TokView;

    open spec fn deep_view(&self) -> TokView {
        self.view()
    }
}

/// The keyword `kw` occurs at `pos` as a complete word: the text matches
/// and the following character, if any, cannot continue an identifier.
pub open spec fn kw_at(s: Seq<char>, pos: nat, kw: Seq<char>) -> bool {
    &&& pos + kw.len() <= s.len()
    &&& s.subrange(pos as int, (pos + kw.len()) as int) == kw
    &&& (pos + kw.len() == s.len() || !is_word_char(s[(pos + kw.len()) as int]))
}

/// A complete-word `AND` at `pos`, spelt out character by character.
pub open spec fn kw_and_at(s: Seq<char>, pos: nat) -> bool {
    &&& pos + 3 <= s.len()
    &&& s[pos as int] == 'A' && s[pos as int + 1] == 'N' && s[pos as int + 2] == 'D'
    &&& (pos + 3 == s.len() || !is_word_char(s[pos as int + 3]))
}

/// A complete-word `OR` at `pos`.
pub open spec fn kw_or_at(s: Seq<char>, pos: nat) -> bool {
    &&& pos + 2 <= s.len()
    &&& s[pos as int] == 'O' && s[pos as int + 1] == 'R'
    &&& (pos + 2 == s.len() || !is_word_char(s[pos as int + 2]))
}

/// A complete-word `NOT` at `pos`.
pub open spec fn kw_not_at(s: Seq<char>, pos: nat) -> bool {
    &&& pos + 3 <= s.len()
    &&& s[pos as int] == 'N' && s[pos as int + 1] == 'O' && s[pos as int + 2] == 'T'
    &&& (pos + 3 == s.len() || !is_word_char(s[pos as int + 3]))
}

pub proof fn lemma_kw_forms(s: Seq<char>, pos: nat)
    ensures
        kw_at(s, pos, "AND"@) == kw_and_at(s, pos),
        kw_at(s, pos, "OR"@) == kw_or_at(s, pos),
        kw_at(s, pos, "NOT"@) == kw_not_at(s, pos),
{
    reveal_strlit("AND");
    reveal_strlit("OR");
    reveal_strlit("NOT");
    assert("AND"@.len() == 3 && "OR"@.len() == 2 && "NOT"@.len() == 3);
    if pos + 3 <= s.len() {
        let w = s.subrange(pos as int, pos as int + 3);
        assert(w[0] == s[pos as int] && w[1] == s[pos as int + 1] && w[2] == s[pos as int + 2]);
        if s[pos as int] == 'A' && s[pos as int + 1] == 'N' && s[pos as int + 2] == 'D' {
            assert(w =~= "AND"@);
        }
        if s[pos as int] == 'N' && s[pos as int + 1] == 'O' && s[pos as int + 2] == 'T' {
            assert(w =~= "NOT"@);
        }
    }
    if pos + 2 <= s.len() {
        let w = s.subrange(pos as int, pos as int + 2);
        assert(w[0] == s[pos as int] && w[1] == s[pos as int + 1]);
        if s[pos as int] == 'O' && s[pos as int + 1] == 'R' {
            assert(w =~= "OR"@);
        }
    }
}

/// Where an atomic condition's text ends: at the first complete-word
/// `AND` or `OR` at parenthesis depth zero, at an unmatched closing
/// parenthesis, or at the end of the string.
pub open spec fn atom_end(s: Seq<char>, pos: nat, depth: nat) -> nat
    decreases s.len() - pos when pos <= s.len()
{
    if pos >= s.len() {
        pos
    } else if s[pos as int] == '(' {
        atom_end(s, pos + 1, depth + 1)
    } else if s[pos as int] == ')' {
        if depth > 0 {
            atom_end(s, pos + 1, (depth - 1) as nat)
        } else {
            pos
        }
    } else if depth == 0 && (kw_and_at(s, pos) || kw_or_at(s, pos)) {
        pos
    } else {
        atom_end(s, pos + 1, depth)
    }
}

pub proof fn lemma_atom_end_bounds(s: Seq<char>, pos: nat, depth: nat)
    requires
        pos <= s.len(),
    ensures
        pos <= atom_end(s, pos, depth) <= s.len(),
    decreases s.len() - pos,
{
    if pos >= s.len() {
    } else if s[pos as int] == '(' {
        lemma_atom_end_bounds(s, pos + 1, depth + 1);
    } else if s[pos as int] == ')' {
        if depth > 0 {
            lemma_atom_end_bounds(s, pos + 1, (depth - 1) as nat);
        }
    } else if depth == 0 && (kw_and_at(s, pos) || kw_or_at(s, pos)) {
    } else {
        lemma_atom_end_bounds(s, pos + 1, depth);
    }
}

/// The token sequence of the guard text from position `pos` on.
/// Whitespace separates tokens; keywords are recognised as complete
/// words; elsewhere an atomic condition's text is accumulated up to
/// `atom_end` and trimmed.
pub open spec fn tokens_of(s: Seq<char>, pos: nat) -> Seq<TokView>
    decreases s.len() - pos when pos <= s.len()
{
    if pos >= s.len() {
        Seq::empty()
    } else if is_ws(s[pos as int]) {
        tokens_of(s, pos + 1)
    } else if kw_and_at(s, pos) {
        seq![TokView::And] + tokens_of(s, pos + 3)
    } else if kw_or_at(s, pos) {
        seq![TokView::Or] + tokens_of(s, pos + 2)
    } else if kw_not_at(s, pos) {
        seq![TokView::Not] + tokens_of(s, pos + 3)
    } else if s[pos as int] == '(' {
        seq![TokView::LParen] + tokens_of(s, pos + 1)
    } else if s[pos as int] == ')' {
        seq![TokView::RParen] + tokens_of(s, pos + 1)
    } else {
        let e = atom_end(s, pos, 0);
        if e <= pos || e > s.len() {
            // never reached: the scan always advances and stays in bounds
            tokens_of(s, pos + 1)
        } else {
            let txt = trim_spec(s.subrange(pos as int, e as int));
            if txt.len() > 0 {
                seq![TokView::Cond(txt)] + tokens_of(s, e)
            } else if e + 1 <= s.len() {
                tokens_of(s, e + 1)
            } else {
                Seq::empty()
            }
        }
    }
}


/// Leading whitespace does not change the token sequence.
pub proof fn lemma_tokens_ws_skip(s: Seq<char>, p0: nat, p1: nat)
    requires
        p0 <= p1 <= s.len(),
        forall|j: int| p0 <= j < p1 ==> is_ws(s[j]),
    ensures
        tokens_of(s, p0) == tokens_of(s, p1),
    decreases p1 - p0,
{
    if p0 < p1 {
        assert(is_ws(s[p0 as int]));
        assert(tokens_of(s, p0) == tokens_of(s, p0 + 1));
        lemma_tokens_ws_skip(s, p0 + 1, p1);
    }
}

/// A text whose first character is not whitespace trims to something
/// non-empty.
pub proof fn lemma_trim_nonempty(u: Seq<char>)
    requires
        u.len() > 0,
        !is_ws(u[0]),
    ensures
        trim_spec(u).len() > 0,
{
    assert(trim_front(u) == u);
    lemma_trim_back_keeps_head(u);
}

proof fn lemma_trim_back_keeps_head(u: Seq<char>)
    requires
        u.len() > 0,
        !is_ws(u[0]),
    ensures
        trim_back(u).len() > 0,
    decreases u.len(),
{
    if is_ws(u[u.len() - 1]) {
        assert(u.len() >= 2);
        assert(u.take(u.len() - 1)[0] == u[0]);
        lemma_trim_back_keeps_head(u.take(u.len() - 1));
    }
}

/// Converts a guard string into its token sequence.
pub struct Tokenizer {
    pub input: String,
    pub position: usize,
}

impl Tokenizer {
    pub fn new(input: &str) -> (r: Self)
        ensures
            r.input@ == input@,
            r.position == 0,
    {
        Tokenizer { input: input.to_owned(), position: 0 }
    }

    /// The character at the current position, or NUL at the end.
    pub fn current_char(&self) -> (c: char)
        requires
            self.position <= self.input@.len(),
        ensures
            c == if self.position < self.input@.len() {
                self.input@[self.position as int]
            } else {
                '\0'
            },
    {
        let len = self.input.as_str().unicode_len();
        if self.position < len {
            self.input.as_str().get_char(self.position)
        } else {
            '\0'
        }
    }

    pub fn skip_whitespace(&mut self)
        requires
            old(self).position <= old(self).input@.len(),
        ensures
            final(self).input == old(self).input,
            old(self).position <= final(self).position <= old(self).input@.len(),
            forall|j: int|
                old(self).position <= j < final(self).position ==> is_ws(old(self).input@[j]),
            final(self).position < old(self).input@.len() ==> !is_ws(
                old(self).input@[final(self).position as int],
            ),
    {
        let len = self.input.as_str().unicode_len();
        while self.position < len
            invariant
                self.input == old(self).input,
                len == self.input@.len(),
                old(self).position <= self.position <= len,
                forall|j: int| old(self).position <= j < self.position ==> is_ws(self.input@[j]),
            decreases len - self.position,
        {
            let c = self.input.as_str().get_char(self.position);
            if !ws_char(c) {
                return ;
            }
            self.position = self.position + 1;
        }
    }

    /// Whether `keyword` occurs at the current position as a complete word.
    pub fn check_keyword(&self, keyword: &str) -> (r: bool)
        requires
            self.position <= self.input@.len(),
        ensures
            r == kw_at(self.input@, self.position as nat, keyword@),
    {
        let len = self.input.as_str().unicode_len();
        let klen = keyword.unicode_len();
        if klen > len - self.position {
            return false;
        }
        let mut k: usize = 0;
        while k < klen
            invariant
                k <= klen,
                len == self.input@.len(),
                klen == keyword@.len(),
                self.position + klen <= len,
                forall|j: int| 0 <= j < k ==> self.input@[self.position + j] == keyword@[j],
            decreases klen - k,
        {
            let cs = self.input.as_str().get_char(self.position + k);
            let cp = keyword.get_char(k);
            if cs != cp {
                proof {
                    let w = self.input@.subrange(
                        self.position as int,
                        self.position + keyword@.len(),
                    );
                    assert(w[k as int] == self.input@[self.position + k]);
                }
                return false;
            }
            k = k + 1;
        }
        proof {
            assert(self.input@.subrange(self.position as int, self.position + keyword@.len())
                =~= keyword@);
        }
        let next_pos = self.position + klen;
        if next_pos < len {
            let next_char = self.input.as_str().get_char(next_pos);
            if word_char(next_char) {
                return false;
            }
        }
        true
    }

    /// Scan an atomic condition's text: up to a complete-word `AND` or
    /// `OR` at depth zero, or an unmatched `)`. Balanced parentheses are
    /// consumed as part of the text. Returns the trimmed text if any.
    pub fn parse_atomic_condition(&mut self) -> (r: Option<String>)
        requires
            old(self).position <= old(self).input@.len(),
        ensures
            final(self).input == old(self).input,
            final(self).position == atom_end(old(self).input@, old(self).position as nat, 0),
            old(self).position <= final(self).position <= old(self).input@.len(),
            ({
                let txt = trim_spec(
                    old(self).input@.subrange(
                        old(self).position as int,
                        final(self).position as int,
                    ),
                );
                match r {
                    Some(t) => txt.len() > 0 && t@ == txt,
                    None => txt.len() == 0,
                }
            }),
    {
        let ghost s = self.input@;
        let start_pos = self.position;
        let len = self.input.as_str().unicode_len();
        let mut depth: usize = 0;
        loop
            invariant
                self.input == old(self).input,
                self.input@ == s,
                len == s.len(),
                start_pos <= self.position <= len,
                depth <= self.position - start_pos,
                atom_end(s, start_pos as nat, 0) == atom_end(
                    s,
                    self.position as nat,
                    depth as nat,
                ),
            ensures
                self.input == old(self).input,
                self.input@ == s,
                start_pos <= self.position <= len,
                self.position == atom_end(s, start_pos as nat, 0),
            decreases len - self.position,
        {
            if self.position >= len {
                proof {
                    assert(atom_end(s, self.position as nat, depth as nat)
                        == self.position as nat);
                }
                break;
            }
            let ch = self.input.as_str().get_char(self.position);
            if ch == '(' {
                proof {
                    assert(atom_end(s, self.position as nat, depth as nat) == atom_end(
                        s,
                        self.position as nat + 1,
                        depth as nat + 1,
                    ));
                }
                depth = depth + 1;
                self.position = self.position + 1;
            } else if ch == ')' {
                if depth > 0 {
                    proof {
                        assert(atom_end(s, self.position as nat, depth as nat) == atom_end(
                            s,
                            self.position as nat + 1,
                            (depth - 1) as nat,
                        ));
                    }
                    depth = depth - 1;
                    self.position = self.position + 1;
                } else {
                    proof {
                        assert(atom_end(s, self.position as nat, 0) == self.position as nat);
                    }
                    break;
                }
            } else if depth == 0 && (self.check_keyword("AND") || self.check_keyword("OR")) {
                proof {
                    lemma_kw_forms(s, self.position as nat);
                    assert(atom_end(s, self.position as nat, 0) == self.position as nat);
                }
                break;
            } else {
                proof {
                    lemma_kw_forms(s, self.position as nat);
                    assert(atom_end(s, self.position as nat, depth as nat) == atom_end(
                        s,
                        self.position as nat + 1,
                        depth as nat,
                    ));
                }
                self.position = self.position + 1;
            }
        }
        let piece = self.input.as_str().substring_char(start_pos, self.position);
        let txt = trim_str(piece);
        if txt.as_str().unicode_len() > 0 {
            Some(txt)
        } else {
            None
        }
    }

    /// Convert the whole guard text into tokens.
    pub fn tokenize(&mut self) -> (r: Vec<Token>)
        requires
            old(self).position <= old(self).input@.len(),
        ensures
            final(self).input == old(self).input,
            r.deep_view() == tokens_of(old(self).input@, old(self).position as nat),
    {
        let ghost s = self.input@;
        let ghost p0 = self.position as nat;
        let mut tokens: Vec<Token> = Vec::new();
        let len = self.input.as_str().unicode_len();
        loop
            invariant
                self.input == old(self).input,
                self.input@ == s,
                len == s.len(),
                self.position <= len,
                tokens.deep_view() + tokens_of(s, self.position as nat) == tokens_of(s, p0),
            ensures
                self.input == old(self).input,
                tokens.deep_view() == tokens_of(s, p0),
            decreases len - self.position,
        {
            if self.position >= len {
                proof {
                    assert(tokens_of(s, self.position as nat) =~= Seq::<TokView>::empty());
                    assert(tokens.deep_view() + Seq::<TokView>::empty() =~= tokens.deep_view());
                }
                break;
            }
            let before_ws = self.position;
            self.skip_whitespace();
            proof {
                lemma_tokens_ws_skip(s, before_ws as nat, self.position as nat);
            }
            if self.position >= len {
                proof {
                    assert(tokens_of(s, self.position as nat) =~= Seq::<TokView>::empty());
                    assert(tokens.deep_view() + Seq::<TokView>::empty() =~= tokens.deep_view());
                }
                break;
            }
            let ghost pos = self.position as nat;
            proof {
                lemma_kw_forms(s, pos);
            }
            let ghost toks_before = tokens.deep_view();
            if self.check_keyword("AND") {
                proof {
                    assert(tokens_of(s, pos) == seq![TokView::And] + tokens_of(s, pos + 3));
                }
                push_dv(&mut tokens, Token::And);
                self.position = self.position + 3;
                proof {
                    assert(tokens.deep_view() + tokens_of(s, pos + 3) =~= toks_before + tokens_of(
                        s,
                        pos,
                    ));
                }
            } else if self.check_keyword("OR") {
                proof {
                    assert(tokens_of(s, pos) == seq![TokView::Or] + tokens_of(s, pos + 2));
                }
                push_dv(&mut tokens, Token::Or);
                self.position = self.position + 2;
                proof {
                    assert(tokens.deep_view() + tokens_of(s, pos + 2) =~= toks_before + tokens_of(
                        s,
                        pos,
                    ));
                }
            } else if self.check_keyword("NOT") {
                proof {
                    assert(tokens_of(s, pos) == seq![TokView::Not] + tokens_of(s, pos + 3));
                }
                push_dv(&mut tokens, Token::Not);
                self.position = self.position + 3;
                proof {
                    assert(tokens.deep_view() + tokens_of(s, pos + 3) =~= toks_before + tokens_of(
                        s,
                        pos,
                    ));
                }
            } else if self.current_char() == '(' {
                proof {
                    assert(tokens_of(s, pos) == seq![TokView::LParen] + tokens_of(s, pos + 1));
                }
                push_dv(&mut tokens, Token::LParen);
                self.position = self.position + 1;
                proof {
                    assert(tokens.deep_view() + tokens_of(s, pos + 1) =~= toks_before + tokens_of(
                        s,
                        pos,
                    ));
                }
            } else if self.current_char() == ')' {
                proof {
                    assert(tokens_of(s, pos) == seq![TokView::RParen] + tokens_of(s, pos + 1));
                }
                push_dv(&mut tokens, Token::RParen);
                self.position = self.position + 1;
                proof {
                    assert(tokens.deep_view() + tokens_of(s, pos + 1) =~= toks_before + tokens_of(
                        s,
                        pos,
                    ));
                }
            } else {
                let r = self.parse_atomic_condition();
                proof {
                    let e = atom_end(s, pos, 0);
                    lemma_atom_end_bounds(s, pos + 1, 0);
                    assert(e == atom_end(s, pos + 1, 0));
                    assert(pos < e <= s.len());
                    let sub = s.subrange(pos as int, e as int);
                    assert(sub[0] == s[pos as int]);
                    lemma_trim_nonempty(sub);
                }
                match r {
                    Some(t) => {
                        proof {
                            let e = atom_end(s, pos, 0);
                            let txt = trim_spec(s.subrange(pos as int, e as int));
                            assert(tokens_of(s, pos) == seq![TokView::Cond(txt)] + tokens_of(
                                s,
                                e,
                            ));
                        }
                        push_dv(&mut tokens, Token::Condition(t));
                        proof {
                            let e = atom_end(s, pos, 0);
                            assert(tokens.deep_view() + tokens_of(s, e) =~= toks_before
                                + tokens_of(s, pos));
                        }
                    },
                    None => {
                        // the scanned text begins with a non-whitespace
                        // character, so its trimmed form cannot be empty
                        proof {
                            assert(false);
                        }
                    },
                }
            }
        }
        tokens
    }
}

} // verus!
