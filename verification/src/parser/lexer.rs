//! Tokenizer of the SQL subset.
//!
//! Tokens are read from the bytes of the input, left to right, skipping
//! whitespace; at each position the longest token is taken:
//!
//! - identifiers `[A-Za-z_][A-Za-z0-9_]*`, unless the word is one of the
//!   keywords, compared case-insensitively;
//! - integers `-?[0-9]+`;
//! - strings `'...'`, where `''` stands for one quote;
//! - the punctuation `( ) , ; * = < > <= >= <>`.
//!
//! Tokenizing stops at the first position where no token starts.
use vstd::prelude::*;

verus! {

/// The keywords of the language.
#[derive(Debug, Clone, Copy, PartialEq, Eq, Structural)]
pub enum Keyword {
    Create,
    Table,
    Integer,
    Varchar,
    Boolean,
    Not,
    Null,
    Insert,
    Into,
    Values,
    Select,
    From,
    Where,
    Update,
    SetKw,
    Delete,
    And,
    Or,
    True,
    False,
}

/// The kinds of token.
#[derive(Debug, Clone, Copy, PartialEq, Eq, Structural)]
pub enum TokenKind {
    Keyword(Keyword),
    Ident,
    Int,
    Str,
    LParen,
    RParen,
    Comma,
    Semi,
    Star,
    Eq,
    Lt,
    Gt,
    Le,
    Ge,
    Ne,
}

/// A token: its kind and the byte range `start..end` it covers in the input.
#[derive(Debug, Clone, Copy, PartialEq, Eq, Structural)]
pub struct Token {
    pub kind: TokenKind,
    pub start: usize,
    pub end: usize,
}

/// The keywords, in a fixed order.
pub open spec fn keyword_at_index(i: int) -> Keyword {
    if i == 0 { Keyword::Create }
    else if i == 1 { Keyword::Table }
    else if i == 2 { Keyword::Integer }
    else if i == 3 { Keyword::Varchar }
    else if i == 4 { Keyword::Boolean }
    else if i == 5 { Keyword::Not }
    else if i == 6 { Keyword::Null }
    else if i == 7 { Keyword::Insert }
    else if i == 8 { Keyword::Into }
    else if i == 9 { Keyword::Values }
    else if i == 10 { Keyword::Select }
    else if i == 11 { Keyword::From }
    else if i == 12 { Keyword::Where }
    else if i == 13 { Keyword::Update }
    else if i == 14 { Keyword::SetKw }
    else if i == 15 { Keyword::Delete }
    else if i == 16 { Keyword::And }
    else if i == 17 { Keyword::Or }
    else if i == 18 { Keyword::True }
    else { Keyword::False }
}

/// The number of keywords.
pub const NUM_KEYWORDS: usize = 20;

/// The upper-case ASCII text of keyword `k`.
pub open spec fn keyword_text(k: Keyword) -> Seq<u8> {
    match k {
        Keyword::Create => seq![67u8, 82, 69, 65, 84, 69],
        Keyword::Table => seq![84u8, 65, 66, 76, 69],
        Keyword::Integer => seq![73u8, 78, 84, 69, 71, 69, 82],
        Keyword::Varchar => seq![86u8, 65, 82, 67, 72, 65, 82],
        Keyword::Boolean => seq![66u8, 79, 79, 76, 69, 65, 78],
        Keyword::Not => seq![78u8, 79, 84],
        Keyword::Null => seq![78u8, 85, 76, 76],
        Keyword::Insert => seq![73u8, 78, 83, 69, 82, 84],
        Keyword::Into => seq![73u8, 78, 84, 79],
        Keyword::Values => seq![86u8, 65, 76, 85, 69, 83],
        Keyword::Select => seq![83u8, 69, 76, 69, 67, 84],
        Keyword::From => seq![70u8, 82, 79, 77],
        Keyword::Where => seq![87u8, 72, 69, 82, 69],
        Keyword::Update => seq![85u8, 80, 68, 65, 84, 69],
        Keyword::SetKw => seq![83u8, 69, 84],
        Keyword::Delete => seq![68u8, 69, 76, 69, 84, 69],
        Keyword::And => seq![65u8, 78, 68],
        Keyword::Or => seq![79u8, 82],
        Keyword::True => seq![84u8, 82, 85, 69],
        Keyword::False => seq![70u8, 65, 76, 83, 69],
    }
}

/// ASCII whitespace.
pub open spec fn is_ws(c: u8) -> bool {
    c == 32 || (9 <= c <= 13)
}

pub open spec fn is_alpha(c: u8) -> bool {
    (65 <= c <= 90) || (97 <= c <= 122)
}

pub open spec fn is_digit(c: u8) -> bool {
    48 <= c <= 57
}

/// A byte that can start an identifier.
pub open spec fn is_ident_start(c: u8) -> bool {
    is_alpha(c) || c == 95
}

/// A byte that can continue an identifier.
pub open spec fn is_ident_char(c: u8) -> bool {
    is_alpha(c) || is_digit(c) || c == 95
}

/// The upper-case form of an ASCII byte.
pub open spec fn upper(c: u8) -> u8 {
    if 97 <= c <= 122 {
        (c - 32) as u8
    } else {
        c
    }
}

/// The bytes `s..e` of `b`, in upper case.
pub open spec fn upper_bytes(b: Seq<u8>, s: int, e: int) -> Seq<u8> {
    Seq::new((e - s) as nat, |i: int| upper(b[s + i]))
}

/// The first keyword, from the `i`-th on, spelled by the word `s..e` of `b` in any letter case.
pub open spec fn keyword_search(b: Seq<u8>, s: int, e: int, i: int) -> Option<Keyword>
    decreases NUM_KEYWORDS - i,
{
    if i < 0 || i >= NUM_KEYWORDS {
        None
    } else if upper_bytes(b, s, e) == keyword_text(keyword_at_index(i)) {
        Some(keyword_at_index(i))
    } else {
        keyword_search(b, s, e, i + 1)
    }
}

/// The keyword spelled by the word `s..e` of `b`, in any letter case.
pub open spec fn keyword_of(b: Seq<u8>, s: int, e: int) -> Option<Keyword> {
    keyword_search(b, s, e, 0)
}

/// The first position at or after `p` that is not whitespace.
pub open spec fn skip_ws(b: Seq<u8>, p: int) -> int
    decreases b.len() - p,
{
    if 0 <= p < b.len() && is_ws(b[p]) {
        skip_ws(b, p + 1)
    } else {
        p
    }
}

/// The first position at or after `p` that cannot continue an identifier.
pub open spec fn ident_end(b: Seq<u8>, p: int) -> int
    decreases b.len() - p,
{
    if 0 <= p < b.len() && is_ident_char(b[p]) {
        ident_end(b, p + 1)
    } else {
        p
    }
}

/// The first position at or after `p` that is not a digit.
pub open spec fn digits_end(b: Seq<u8>, p: int) -> int
    decreases b.len() - p,
{
    if 0 <= p < b.len() && is_digit(b[p]) {
        digits_end(b, p + 1)
    } else {
        p
    }
}

/// The end of a string whose contents start at `p` (just past the opening
/// quote): the position past its closing quote, where a doubled quote `''`
/// belongs to the contents.
pub open spec fn string_end(b: Seq<u8>, p: int) -> Option<int>
    decreases b.len() - p,
{
    if p < 0 || p >= b.len() {
        None
    } else if b[p] == 39 {
        if p + 1 < b.len() && b[p + 1] == 39 {
            string_end(b, p + 2)
        } else {
            Some(p + 1)
        }
    } else {
        string_end(b, p + 1)
    }
}

/// A token of `kind` covering `s..e`.
pub open spec fn tok(kind: TokenKind, s: int, e: int) -> Token {
    Token { kind, start: s as usize, end: e as usize }
}

/// The token that starts at `q`, which holds no whitespace, if one does.
pub open spec fn next_token(b: Seq<u8>, q: int) -> Option<Token> {
    let c = b[q];
    let has_next = q + 1 < b.len();
    if is_ident_start(c) {
        let e = ident_end(b, q + 1);
        match keyword_of(b, q, e) {
            Some(k) => Some(tok(TokenKind::Keyword(k), q, e)),
            None => Some(tok(TokenKind::Ident, q, e)),
        }
    } else if is_digit(c) {
        Some(tok(TokenKind::Int, q, digits_end(b, q + 1)))
    } else if c == 45 && has_next && is_digit(b[q + 1]) {
        Some(tok(TokenKind::Int, q, digits_end(b, q + 2)))
    } else if c == 39 {
        match string_end(b, q + 1) {
            Some(e) => Some(tok(TokenKind::Str, q, e)),
            None => None,
        }
    } else if c == 40 {
        Some(tok(TokenKind::LParen, q, q + 1))
    } else if c == 41 {
        Some(tok(TokenKind::RParen, q, q + 1))
    } else if c == 44 {
        Some(tok(TokenKind::Comma, q, q + 1))
    } else if c == 59 {
        Some(tok(TokenKind::Semi, q, q + 1))
    } else if c == 42 {
        Some(tok(TokenKind::Star, q, q + 1))
    } else if c == 61 {
        Some(tok(TokenKind::Eq, q, q + 1))
    } else if c == 60 {
        if has_next && b[q + 1] == 61 {
            Some(tok(TokenKind::Le, q, q + 2))
        } else if has_next && b[q + 1] == 62 {
            Some(tok(TokenKind::Ne, q, q + 2))
        } else {
            Some(tok(TokenKind::Lt, q, q + 1))
        }
    } else if c == 62 {
        if has_next && b[q + 1] == 61 {
            Some(tok(TokenKind::Ge, q, q + 2))
        } else {
            Some(tok(TokenKind::Gt, q, q + 1))
        }
    } else {
        None
    }
}

/// The tokens of `b` from position `p` on, and the position where no token
/// starts, if tokenizing stopped before the end.
pub open spec fn lex_from(b: Seq<u8>, p: int) -> (Seq<Token>, Option<int>)
    decreases b.len() - p,
{
    let q = skip_ws(b, p);
    if p < 0 || q >= b.len() {
        (Seq::empty(), None)
    } else {
        match next_token(b, q) {
            None => (Seq::empty(), Some(q)),
            Some(t) => if p < t.end && t.end <= b.len() {
                let rest = lex_from(b, t.end as int);
                (seq![t] + rest.0, rest.1)
            } else {
                (Seq::empty(), Some(q))
            },
        }
    }
}

/// The tokens of `b`, and where tokenizing stopped early, if it did.
pub open spec fn lex(b: Seq<u8>) -> (Seq<Token>, Option<int>) {
    lex_from(b, 0)
}

/// The scans stay within the input and move forward.
pub proof fn lemma_scan_bounds(b: Seq<u8>, p: int)
    requires
        0 <= p <= b.len(),
    ensures
        p <= skip_ws(b, p) <= b.len(),
        p <= ident_end(b, p) <= b.len(),
        p <= digits_end(b, p) <= b.len(),
        string_end(b, p) matches Some(e) ==> p < e <= b.len(),
    decreases b.len() - p,
{
    if p < b.len() {
        lemma_scan_bounds(b, p + 1);
        if p + 2 <= b.len() {
            lemma_scan_bounds(b, p + 2);
        }
    }
}

/// A token starting at `q` ends after `q`, within the input.
pub proof fn lemma_next_token_bounds(b: Seq<u8>, q: int)
    requires
        0 <= q < b.len(),
        b.len() <= usize::MAX,
    ensures
        next_token(b, q) matches Some(t) ==> t.start == q && q < t.end <= b.len(),
{
    lemma_scan_bounds(b, q + 1);
    if q + 2 <= b.len() {
        lemma_scan_bounds(b, q + 2);
    }
}

/// The keyword search sees a word only through its upper-case form.
proof fn lemma_keyword_search_upper(b1: Seq<u8>, s1: int, e1: int, b2: Seq<u8>, s2: int, e2: int, i: int)
    requires
        upper_bytes(b1, s1, e1) == upper_bytes(b2, s2, e2),
    ensures
        keyword_search(b1, s1, e1, i) == keyword_search(b2, s2, e2, i),
    decreases NUM_KEYWORDS - i,
{
    if 0 <= i < NUM_KEYWORDS {
        lemma_keyword_search_upper(b1, s1, e1, b2, s2, e2, i + 1);
    }
}

/// Keywords are recognized in any letter case: two words that are equal once
/// upper-cased spell the same keyword, or both spell none.
pub proof fn lemma_keyword_case_insensitive(b1: Seq<u8>, s1: int, e1: int, b2: Seq<u8>, s2: int, e2: int)
    requires
        upper_bytes(b1, s1, e1) == upper_bytes(b2, s2, e2),
    ensures
        keyword_of(b1, s1, e1) == keyword_of(b2, s2, e2),
{
    lemma_keyword_search_upper(b1, s1, e1, b2, s2, e2, 0);
}

/// `b1` and `b2` differ at most in the letter case of some of their letters.
pub open spec fn same_but_case(b1: Seq<u8>, b2: Seq<u8>) -> bool {
    &&& b1.len() == b2.len()
    &&& forall|i: int|
        0 <= i < b1.len() ==> upper(#[trigger] b1[i]) == upper(b2[i]) && (b1[i] != b2[i]
            ==> is_alpha(b1[i]) && is_alpha(b2[i]))
}

/// The scans see the same byte classes in inputs that differ only in letter case.
proof fn lemma_scans_ignore_case(b1: Seq<u8>, b2: Seq<u8>, p: int)
    requires
        same_but_case(b1, b2),
    ensures
        skip_ws(b1, p) == skip_ws(b2, p),
        ident_end(b1, p) == ident_end(b2, p),
        digits_end(b1, p) == digits_end(b2, p),
        string_end(b1, p) == string_end(b2, p),
    decreases b1.len() - p,
{
    if 0 <= p < b1.len() {
        assert(upper(b1[p]) == upper(b2[p]));
        if p + 1 < b1.len() {
            assert(upper(b1[p + 1]) == upper(b2[p + 1]));
        }
        lemma_scans_ignore_case(b1, b2, p + 1);
        if p + 2 <= b1.len() {
            lemma_scans_ignore_case(b1, b2, p + 2);
        }
    }
}

/// The token read at `q` has the same kind and position in inputs that differ
/// only in letter case.
proof fn lemma_next_token_ignores_case(b1: Seq<u8>, b2: Seq<u8>, q: int)
    requires
        same_but_case(b1, b2),
        0 <= q < b1.len(),
    ensures
        next_token(b1, q) == next_token(b2, q),
{
    assert(upper(b1[q]) == upper(b2[q]));
    if q + 1 < b1.len() {
        assert(upper(b1[q + 1]) == upper(b2[q + 1]));
    }
    lemma_scans_ignore_case(b1, b2, q + 1);
    lemma_scans_ignore_case(b1, b2, q + 2);
    let e = ident_end(b1, q + 1);
    lemma_scan_bounds(b1, q + 1);
    assert(upper_bytes(b1, q, e) =~= upper_bytes(b2, q, e)) by {
        assert forall|i: int| 0 <= i < e - q implies #[trigger] upper_bytes(b1, q, e)[i] == upper_bytes(b2, q, e)[i] by {
            assert(upper(b1[q + i]) == upper(b2[q + i]));
        }
    }
    lemma_keyword_case_insensitive(b1, q, e, b2, q, e);
}

/// Tokenizing from `p` gives the same tokens, and stops at the same place, in
/// inputs that differ only in letter case.
proof fn lemma_lex_from_ignores_case(b1: Seq<u8>, b2: Seq<u8>, p: int)
    requires
        same_but_case(b1, b2),
    ensures
        lex_from(b1, p) == lex_from(b2, p),
    decreases b1.len() - p,
{
    lemma_scans_ignore_case(b1, b2, p);
    let q = skip_ws(b1, p);
    if 0 <= p && q < b1.len() {
        lemma_scan_bounds(b1, p);
        lemma_next_token_ignores_case(b1, b2, q);
        if let Some(t) = next_token(b1, q) {
            if p < t.end && t.end <= b1.len() {
                lemma_lex_from_ignores_case(b1, b2, t.end as int);
            }
        }
    }
}

/// Tokenizing ignores letter case: inputs that differ only in the case of their
/// letters are read as the same tokens (same kinds, keywords and positions), and
/// tokenizing stops at the same place in both.
pub proof fn lemma_lex_ignores_case(b1: Seq<u8>, b2: Seq<u8>)
    requires
        same_but_case(b1, b2),
    ensures
        lex(b1) == lex(b2),
{
    lemma_lex_from_ignores_case(b1, b2, 0);
}

/// The scans from inside `b` end at the same places when a `;` follows `b`.
proof fn lemma_scans_before_semicolon(b: Seq<u8>, p: int)
    requires
        0 <= p <= b.len(),
    ensures
        skip_ws(b.push(59u8), p) == skip_ws(b, p),
        ident_end(b.push(59u8), p) == ident_end(b, p),
        digits_end(b.push(59u8), p) == digits_end(b, p),
        string_end(b.push(59u8), p) == string_end(b, p),
    decreases b.len() - p,
{
    let b2 = b.push(59u8);
    if p < b.len() {
        assert(b2[p] == b[p]);
        if p + 1 < b.len() {
            assert(b2[p + 1] == b[p + 1]);
        }
        lemma_scans_before_semicolon(b, p + 1);
        if p + 2 <= b.len() {
            lemma_scans_before_semicolon(b, p + 2);
        }
    } else {
        assert(b2[p] == 59u8);
        assert(string_end(b2, p + 1) is None);
    }
}

/// A token read inside `b` is the same when a `;` follows `b`.
proof fn lemma_next_token_before_semicolon(b: Seq<u8>, q: int)
    requires
        0 <= q < b.len(),
    ensures
        next_token(b.push(59u8), q) == next_token(b, q),
{
    let b2 = b.push(59u8);
    assert(b2[q] == b[q]);
    if q + 1 < b.len() {
        assert(b2[q + 1] == b[q + 1]);
    } else {
        assert(b2[q + 1] == 59u8);
    }
    lemma_scans_before_semicolon(b, q + 1);
    if q + 2 <= b.len() {
        lemma_scans_before_semicolon(b, q + 2);
    }
    let e = ident_end(b, q + 1);
    lemma_scan_bounds(b, q + 1);
    assert(upper_bytes(b2, q, e) =~= upper_bytes(b, q, e)) by {
        assert forall|i: int| 0 <= i < e - q implies #[trigger] upper_bytes(b2, q, e)[i]
            == upper_bytes(b, q, e)[i] by {
            assert(b2[q + i] == b[q + i]);
        }
    }
    lemma_keyword_case_insensitive(b2, q, e, b, q, e);
}

/// Tokenizing from `p` in `b` followed by `;`: the tokens read from `p` in `b`,
/// then the `;`, when tokenizing `b` did not stop early.
proof fn lemma_lex_from_before_semicolon(b: Seq<u8>, p: int)
    requires
        0 <= p <= b.len(),
        b.len() < usize::MAX,
        lex_from(b, p).1 is None,
    ensures
        lex_from(b.push(59u8), p) == (
            lex_from(b, p).0.push(tok(TokenKind::Semi, b.len() as int, b.len() + 1int)),
            None::<int>,
        ),
    decreases b.len() - p,
{
    let b2 = b.push(59u8);
    let semi = tok(TokenKind::Semi, b.len() as int, b.len() + 1int);
    lemma_scans_before_semicolon(b, p);
    lemma_scan_bounds(b, p);
    let q = skip_ws(b, p);
    if q >= b.len() {
        assert(b2[b.len() as int] == 59u8);
        lemma_scans_before_semicolon(b, b.len() as int);
        assert(skip_ws(b2, b.len() + 1int) == b.len() + 1);
        assert(lex_from(b2, b.len() + 1int) == (Seq::<Token>::empty(), None::<int>));
        assert(next_token(b2, q) == Some(semi));
        assert(Seq::<Token>::empty().push(semi) =~= seq![semi] + Seq::<Token>::empty());
    } else {
        lemma_next_token_before_semicolon(b, q);
        let t = next_token(b, q)->Some_0;
        lemma_lex_from_before_semicolon(b, t.end as int);
        let rest = lex_from(b, t.end as int).0;
        assert(seq![t] + rest.push(semi) =~= (seq![t] + rest).push(semi));
    }
}

/// Tokenizing `b` followed by `;` gives the tokens of `b` and then the `;`,
/// when tokenizing `b` does not stop early.
pub proof fn lemma_lex_semicolon(b: Seq<u8>)
    requires
        b.len() < usize::MAX,
        lex(b).1 is None,
    ensures
        lex(b.push(59u8)) == (lex(b).0.push(tok(TokenKind::Semi, b.len() as int, b.len() + 1int)), None::<int>),
{
    lemma_lex_from_before_semicolon(b, 0);
}

/// `b` with the bytes `w` inserted at `k`.
pub open spec fn insert_at(b: Seq<u8>, k: int, w: Seq<u8>) -> Seq<u8> {
    b.subrange(0, k) + w + b.subrange(k, b.len() as int)
}

/// Every byte of `w` is whitespace.
pub open spec fn all_ws(w: Seq<u8>) -> bool {
    forall|i: int| 0 <= i < w.len() ==> is_ws(#[trigger] w[i])
}

/// Offset `k` of `b` lies between tokens, as tokenizing from `p` reads them:
/// each token read before `k` ends at or before `k`, and the rest of the way to
/// `k` is whitespace.
pub open spec fn between_tokens(b: Seq<u8>, p: int, k: int) -> bool
    decreases b.len() - p,
{
    let q = skip_ws(b, p);
    if p < 0 || p > k || k > b.len() {
        false
    } else if q >= k {
        true
    } else {
        match next_token(b, q) {
            Some(t) => p < t.end && t.end <= k && between_tokens(b, t.end as int, k),
            None => false,
        }
    }
}

/// The tokens `t1` of `b1` and `t2` of `b2` have the same kinds and the same
/// texts, one by one.
pub open spec fn tokens_match(b1: Seq<u8>, t1: Seq<Token>, b2: Seq<u8>, t2: Seq<Token>) -> bool {
    &&& t1.len() == t2.len()
    &&& forall|j: int|
        0 <= j < t1.len() ==> (#[trigger] t1[j]).kind == t2[j].kind && b1.subrange(
            t1[j].start as int,
            t1[j].end as int,
        ) == b2.subrange(t2[j].start as int, t2[j].end as int)
}

/// The bytes of `b` after whitespace `w` is inserted at `k`.
proof fn lemma_insert_at_bytes(b: Seq<u8>, k: int, w: Seq<u8>)
    requires
        0 <= k <= b.len(),
    ensures
        insert_at(b, k, w).len() == b.len() + w.len(),
        forall|i: int| 0 <= i < k ==> #[trigger] insert_at(b, k, w)[i] == b[i],
        forall|i: int| k <= i < k + w.len() ==> #[trigger] insert_at(b, k, w)[i] == w[i - k],
        forall|i: int| k <= i < b.len() ==> #[trigger] insert_at(b, k, w)[i + w.len()] == b[i],
{
}

/// Scans that start at or after `k` run the same way, `w.len()` bytes later.
proof fn lemma_scans_shift(b: Seq<u8>, k: int, w: Seq<u8>, p: int)
    requires
        0 <= k <= p <= b.len(),
    ensures
        skip_ws(insert_at(b, k, w), p + w.len()) == skip_ws(b, p) + w.len(),
        ident_end(insert_at(b, k, w), p + w.len()) == ident_end(b, p) + w.len(),
        digits_end(insert_at(b, k, w), p + w.len()) == digits_end(b, p) + w.len(),
        string_end(insert_at(b, k, w), p + w.len()) == match string_end(b, p) {
            Some(e) => Some(e + w.len()),
            None => None::<int>,
        },
    decreases b.len() - p,
{
    lemma_insert_at_bytes(b, k, w);
    let d = w.len() as int;
    let b2 = insert_at(b, k, w);
    if p < b.len() {
        assert(b2[p + d] == b[p]);
        if p + 1 < b.len() {
            assert(b2[p + 1 + d] == b[p + 1]);
        }
        lemma_scans_shift(b, k, w, p + 1);
        if p + 2 <= b.len() {
            lemma_scans_shift(b, k, w, p + 2);
        }
    }
}

/// A token read at or after `k` is the same, `w.len()` bytes later.
proof fn lemma_next_token_shift(b: Seq<u8>, k: int, w: Seq<u8>, q: int)
    requires
        0 <= k <= q < b.len(),
        b.len() + w.len() <= usize::MAX,
    ensures
        next_token(insert_at(b, k, w), q + w.len()) == match next_token(b, q) {
            Some(t) => Some(tok(t.kind, t.start + w.len(), t.end + w.len())),
            None => None::<Token>,
        },
{
    lemma_insert_at_bytes(b, k, w);
    let d = w.len() as int;
    let b2 = insert_at(b, k, w);
    assert(b2[q + d] == b[q]);
    if q + 1 < b.len() {
        assert(b2[q + 1 + d] == b[q + 1]);
    }
    lemma_scans_shift(b, k, w, q + 1);
    lemma_scan_bounds(b, q + 1);
    if q + 2 <= b.len() {
        lemma_scans_shift(b, k, w, q + 2);
        lemma_scan_bounds(b, q + 2);
    }
    lemma_next_token_bounds(b, q);
    let e = ident_end(b, q + 1);
    assert(upper_bytes(b2, q + d, e + d) =~= upper_bytes(b, q, e)) by {
        assert forall|i: int| 0 <= i < e - q implies #[trigger] upper_bytes(b2, q + d, e + d)[i]
            == upper_bytes(b, q, e)[i] by {
            assert(b2[q + i + d] == b[q + i]);
        }
    }
    lemma_keyword_case_insensitive(b2, q + d, e + d, b, q, e);
}

/// Tokenizing from `p` at or after `k` reads the same tokens, `w.len()` bytes
/// later, and stops early in both or in neither.
proof fn lemma_lex_from_shift(b: Seq<u8>, k: int, w: Seq<u8>, p: int)
    requires
        0 <= k <= p <= b.len(),
        b.len() + w.len() <= usize::MAX,
    ensures
        tokens_match(
            b,
            lex_from(b, p).0,
            insert_at(b, k, w),
            lex_from(insert_at(b, k, w), p + w.len()).0,
        ),
        lex_from(b, p).1 is None <==> lex_from(insert_at(b, k, w), p + w.len()).1 is None,
    decreases b.len() - p,
{
    let d = w.len() as int;
    let b2 = insert_at(b, k, w);
    lemma_insert_at_bytes(b, k, w);
    lemma_scans_shift(b, k, w, p);
    lemma_scan_bounds(b, p);
    let q = skip_ws(b, p);
    if q < b.len() {
        lemma_next_token_shift(b, k, w, q);
        lemma_next_token_bounds(b, q);
        if let Some(t) = next_token(b, q) {
            if p < t.end && t.end <= b.len() {
                lemma_lex_from_shift(b, k, w, t.end as int);
                let t2 = tok(t.kind, t.start + d, t.end + d);
                let r1 = lex_from(b, t.end as int).0;
                let r2 = lex_from(b2, t.end + d).0;
                assert(b2.subrange(t.start + d, t.end + d) =~= b.subrange(
                    t.start as int,
                    t.end as int,
                )) by {
                    assert forall|i: int| 0 <= i < t.end - t.start implies #[trigger] b2.subrange(
                        t.start + d,
                        t.end + d,
                    )[i] == b.subrange(t.start as int, t.end as int)[i] by {
                        assert(b2[t.start + i + d] == b[t.start + i]);
                    }
                }
                assert forall|j: int| 0 <= j < (seq![t] + r1).len() implies (#[trigger] (seq![t]
                    + r1)[j]).kind == (seq![t2] + r2)[j].kind && b.subrange(
                    (seq![t] + r1)[j].start as int,
                    (seq![t] + r1)[j].end as int,
                ) == b2.subrange((seq![t2] + r2)[j].start as int, (seq![t2] + r2)[j].end as int) by {
                    if j > 0 {
                        assert((seq![t] + r1)[j] == r1[j - 1]);
                        assert((seq![t2] + r2)[j] == r2[j - 1]);
                    }
                }
            }
        }
    }
}

/// Whitespace from `p` on: the first non-whitespace position is the same from
/// any point of the run, and so are the tokens read.
proof fn lemma_lex_from_in_ws(b: Seq<u8>, p: int, p2: int)
    requires
        0 <= p <= p2 <= skip_ws(b, p),
        p2 <= b.len(),
        b.len() <= usize::MAX,
    ensures
        skip_ws(b, p2) == skip_ws(b, p),
        lex_from(b, p2) == lex_from(b, p),
    decreases p2 - p,
{
    if p < p2 {
        lemma_lex_from_in_ws(b, p + 1, p2);
    }
    lemma_scan_bounds(b, p);
    let q = skip_ws(b, p);
    if q < b.len() {
        lemma_next_token_bounds(b, q);
    }
}

/// Skipping whitespace from `p` past `k` passes only whitespace before `k`.
proof fn lemma_skip_ws_run(b: Seq<u8>, p: int, k: int)
    requires
        0 <= p <= k <= b.len(),
    ensures
        skip_ws(b, p) >= k ==> forall|i: int| p <= i < k ==> is_ws(#[trigger] b[i]),
        (forall|i: int| p <= i < k ==> is_ws(#[trigger] b[i])) ==> skip_ws(b, p) == skip_ws(b, k),
    decreases k - p,
{
    if p < k {
        lemma_skip_ws_run(b, p + 1, k);
    }
}

/// Scans that start before `k` and end by `k` run the same way after
/// whitespace is inserted at `k`.
proof fn lemma_scans_prefix(b: Seq<u8>, k: int, w: Seq<u8>, p: int)
    requires
        0 <= p <= k <= b.len(),
        w.len() > 0,
        all_ws(w),
    ensures
        skip_ws(b, p) < k ==> skip_ws(insert_at(b, k, w), p) == skip_ws(b, p),
        ident_end(b, p) <= k ==> ident_end(insert_at(b, k, w), p) == ident_end(b, p),
        digits_end(b, p) <= k ==> digits_end(insert_at(b, k, w), p) == digits_end(b, p),
        (string_end(b, p) matches Some(e) && e <= k) ==> string_end(insert_at(b, k, w), p)
            == string_end(b, p),
    decreases k - p,
{
    lemma_insert_at_bytes(b, k, w);
    let b2 = insert_at(b, k, w);
    assert(b2[k] == w[0]);
    assert(is_ws(w[0]));
    lemma_scan_bounds(b, p);
    if p < k {
        assert(b2[p] == b[p]);
        if p + 1 < k {
            assert(b2[p + 1] == b[p + 1]);
        }
        lemma_scans_prefix(b, k, w, p + 1);
        lemma_scan_bounds(b, p + 1);
        if p + 2 <= k {
            lemma_scans_prefix(b, k, w, p + 2);
        }
        if p + 2 <= b.len() {
            lemma_scan_bounds(b, p + 2);
        }
    }
}

/// A token read before `k` that ends by `k` is read the same after whitespace
/// is inserted at `k`.
proof fn lemma_next_token_prefix(b: Seq<u8>, k: int, w: Seq<u8>, q: int)
    requires
        0 <= q < k <= b.len(),
        w.len() > 0,
        all_ws(w),
        b.len() + w.len() <= usize::MAX,
        next_token(b, q) matches Some(t) && t.end <= k,
    ensures
        next_token(insert_at(b, k, w), q) == next_token(b, q),
{
    lemma_insert_at_bytes(b, k, w);
    let b2 = insert_at(b, k, w);
    assert(b2[q] == b[q]);
    assert(b2[k] == w[0]);
    assert(is_ws(w[0]));
    if q + 1 < k {
        assert(b2[q + 1] == b[q + 1]);
    }
    lemma_scans_prefix(b, k, w, q + 1);
    lemma_scan_bounds(b, q + 1);
    if q + 2 <= k {
        lemma_scans_prefix(b, k, w, q + 2);
    }
    if q + 2 <= b.len() {
        lemma_scan_bounds(b, q + 2);
    }
    lemma_next_token_bounds(b, q);
    let e = ident_end(b, q + 1);
    if e <= k {
        assert(upper_bytes(b2, q, e) =~= upper_bytes(b, q, e)) by {
            assert forall|i: int| 0 <= i < e - q implies #[trigger] upper_bytes(b2, q, e)[i]
                == upper_bytes(b, q, e)[i] by {
                assert(b2[q + i] == b[q + i]);
            }
        }
        lemma_keyword_case_insensitive(b2, q, e, b, q, e);
    }
}

/// Tokenizing from `p` up to an offset `k` between tokens reads tokens of the
/// same kinds and texts after whitespace is inserted at `k`, and stops early in
/// both or in neither.
proof fn lemma_lex_from_prefix(b: Seq<u8>, k: int, w: Seq<u8>, p: int)
    requires
        0 <= p <= k <= b.len(),
        between_tokens(b, p, k),
        w.len() > 0,
        all_ws(w),
        b.len() + w.len() <= usize::MAX,
    ensures
        tokens_match(b, lex_from(b, p).0, insert_at(b, k, w), lex_from(insert_at(b, k, w), p).0),
        lex_from(b, p).1 is None <==> lex_from(insert_at(b, k, w), p).1 is None,
    decreases b.len() - p,
{
    let d = w.len() as int;
    let b2 = insert_at(b, k, w);
    lemma_insert_at_bytes(b, k, w);
    lemma_scan_bounds(b, p);
    let q = skip_ws(b, p);
    if q >= k {
        lemma_skip_ws_run(b, p, k);
        assert forall|i: int| p <= i < k + d implies is_ws(#[trigger] b2[i]) by {
            if i < k {
                assert(b2[i] == b[i]);
            } else {
                assert(b2[i] == w[i - k]);
            }
        }
        lemma_skip_ws_run(b2, p, k + d);
        lemma_scans_shift(b, k, w, k);
        lemma_scan_bounds(b, k);
        lemma_scan_bounds(b2, k + d);
        lemma_lex_from_in_ws(b, p, k);
        lemma_lex_from_in_ws(b2, p, k + d);
        lemma_lex_from_shift(b, k, w, k);
    } else {
        lemma_scans_prefix(b, k, w, p);
        let t = next_token(b, q)->Some_0;
        lemma_next_token_prefix(b, k, w, q);
        lemma_next_token_bounds(b, q);
        lemma_lex_from_prefix(b, k, w, t.end as int);
        let r1 = lex_from(b, t.end as int).0;
        let r2 = lex_from(b2, t.end as int).0;
        assert(b2.subrange(t.start as int, t.end as int) =~= b.subrange(
            t.start as int,
            t.end as int,
        ));
        assert forall|j: int| 0 <= j < (seq![t] + r1).len() implies (#[trigger] (seq![t]
            + r1)[j]).kind == (seq![t] + r2)[j].kind && b.subrange(
            (seq![t] + r1)[j].start as int,
            (seq![t] + r1)[j].end as int,
        ) == b2.subrange((seq![t] + r2)[j].start as int, (seq![t] + r2)[j].end as int) by {
            if j > 0 {
                assert((seq![t] + r1)[j] == r1[j - 1]);
                assert((seq![t] + r2)[j] == r2[j - 1]);
            }
        }
    }
}

/// Tokenizing ignores how much whitespace stands between tokens: inserting
/// whitespace at an offset between tokens gives tokens of the same kinds and
/// texts, and tokenizing stops early in both inputs or in neither.
pub proof fn lemma_lex_ignores_whitespace(b: Seq<u8>, k: int, w: Seq<u8>)
    requires
        0 <= k <= b.len(),
        between_tokens(b, 0, k),
        w.len() > 0,
        all_ws(w),
        b.len() + w.len() <= usize::MAX,
    ensures
        tokens_match(b, lex(b).0, insert_at(b, k, w), lex(insert_at(b, k, w)).0),
        lex(b).1 is None <==> lex(insert_at(b, k, w)).1 is None,
{
    lemma_lex_from_prefix(b, k, w, 0);
}

/// The upper-case ASCII text of keyword `k`.
fn keyword_text_vec(k: Keyword) -> (r: Vec<u8>)
    ensures
        r@ == keyword_text(k),
{
    let r = match k {
        Keyword::Create => vec![67u8, 82, 69, 65, 84, 69],
        Keyword::Table => vec![84u8, 65, 66, 76, 69],
        Keyword::Integer => vec![73u8, 78, 84, 69, 71, 69, 82],
        Keyword::Varchar => vec![86u8, 65, 82, 67, 72, 65, 82],
        Keyword::Boolean => vec![66u8, 79, 79, 76, 69, 65, 78],
        Keyword::Not => vec![78u8, 79, 84],
        Keyword::Null => vec![78u8, 85, 76, 76],
        Keyword::Insert => vec![73u8, 78, 83, 69, 82, 84],
        Keyword::Into => vec![73u8, 78, 84, 79],
        Keyword::Values => vec![86u8, 65, 76, 85, 69, 83],
        Keyword::Select => vec![83u8, 69, 76, 69, 67, 84],
        Keyword::From => vec![70u8, 82, 79, 77],
        Keyword::Where => vec![87u8, 72, 69, 82, 69],
        Keyword::Update => vec![85u8, 80, 68, 65, 84, 69],
        Keyword::SetKw => vec![83u8, 69, 84],
        Keyword::Delete => vec![68u8, 69, 76, 69, 84, 69],
        Keyword::And => vec![65u8, 78, 68],
        Keyword::Or => vec![79u8, 82],
        Keyword::True => vec![84u8, 82, 85, 69],
        Keyword::False => vec![70u8, 65, 76, 83, 69],
    };
    assert(r@ =~= keyword_text(k));
    r
}

/// The `i`-th keyword.
fn keyword_from_index(i: usize) -> (k: Keyword)
    ensures
        k == keyword_at_index(i as int),
{
    match i {
        0 => Keyword::Create,
        1 => Keyword::Table,
        2 => Keyword::Integer,
        3 => Keyword::Varchar,
        4 => Keyword::Boolean,
        5 => Keyword::Not,
        6 => Keyword::Null,
        7 => Keyword::Insert,
        8 => Keyword::Into,
        9 => Keyword::Values,
        10 => Keyword::Select,
        11 => Keyword::From,
        12 => Keyword::Where,
        13 => Keyword::Update,
        14 => Keyword::SetKw,
        15 => Keyword::Delete,
        16 => Keyword::And,
        17 => Keyword::Or,
        18 => Keyword::True,
        _ => Keyword::False,
    }
}

/// The upper-case form of an ASCII byte.
fn upper_byte(c: u8) -> (r: u8)
    ensures
        r == upper(c),
{
    if 97 <= c && c <= 122 {
        c - 32
    } else {
        c
    }
}

/// Whether two byte vectors are equal.
fn same_bytes(a: &Vec<u8>, b: &Vec<u8>) -> (r: bool)
    ensures
        r == (a@ == b@),
{
    crate::text::bytes_eq(a.as_slice(), b.as_slice())
}

/// The keyword spelled by the word `s..e` of `b`, in any letter case.
fn match_keyword(b: &[u8], s: usize, e: usize) -> (r: Option<Keyword>)
    requires
        s <= e <= b@.len(),
    ensures
        r == keyword_of(b@, s as int, e as int),
{
    let mut up: Vec<u8> = Vec::new();
    let mut j = s;
    while j < e
        invariant
            s <= j <= e <= b@.len(),
            up@ == upper_bytes(b@, s as int, j as int),
        decreases e - j,
    {
        up.push(upper_byte(b[j]));
        j = j + 1;
        assert(up@ =~= upper_bytes(b@, s as int, j as int));
    }
    let mut i: usize = 0;
    while i < NUM_KEYWORDS
        invariant
            0 <= i <= NUM_KEYWORDS,
            up@ == upper_bytes(b@, s as int, e as int),
            keyword_of(b@, s as int, e as int) == keyword_search(b@, s as int, e as int, i as int),
        decreases NUM_KEYWORDS - i,
    {
        let k = keyword_from_index(i);
        if same_bytes(&up, &keyword_text_vec(k)) {
            return Some(k);
        }
        i = i + 1;
    }
    None
}

/// Whether `c` is ASCII whitespace.
fn ws_byte(c: u8) -> (r: bool)
    ensures
        r == is_ws(c),
{
    c == 32 || (9 <= c && c <= 13)
}

/// Whether `c` can continue an identifier.
fn ident_byte(c: u8) -> (r: bool)
    ensures
        r == is_ident_char(c),
{
    (65 <= c && c <= 90) || (97 <= c && c <= 122) || (48 <= c && c <= 57) || c == 95
}

/// Whether `c` is a digit.
fn digit_byte(c: u8) -> (r: bool)
    ensures
        r == is_digit(c),
{
    48 <= c && c <= 57
}

/// The first position at or after `p` that is not whitespace.
fn scan_ws(b: &[u8], p: usize) -> (r: usize)
    requires
        p <= b@.len(),
    ensures
        r == skip_ws(b@, p as int),
{
    let mut q = p;
    while q < b.len() && ws_byte(b[q])
        invariant
            p <= q <= b@.len(),
            skip_ws(b@, p as int) == skip_ws(b@, q as int),
        decreases b@.len() - q,
    {
        q = q + 1;
    }
    q
}

/// The first position at or after `p` that cannot continue an identifier.
fn scan_ident(b: &[u8], p: usize) -> (r: usize)
    requires
        p <= b@.len(),
    ensures
        r == ident_end(b@, p as int),
{
    let mut q = p;
    while q < b.len() && ident_byte(b[q])
        invariant
            p <= q <= b@.len(),
            ident_end(b@, p as int) == ident_end(b@, q as int),
        decreases b@.len() - q,
    {
        q = q + 1;
    }
    q
}

/// The first position at or after `p` that is not a digit.
fn scan_digits(b: &[u8], p: usize) -> (r: usize)
    requires
        p <= b@.len(),
    ensures
        r == digits_end(b@, p as int),
{
    let mut q = p;
    while q < b.len() && digit_byte(b[q])
        invariant
            p <= q <= b@.len(),
            digits_end(b@, p as int) == digits_end(b@, q as int),
        decreases b@.len() - q,
    {
        q = q + 1;
    }
    q
}

/// The position past the closing quote of a string whose contents start at `p`.
fn scan_string(b: &[u8], p: usize) -> (r: Option<usize>)
    requires
        p <= b@.len(),
    ensures
        match string_end(b@, p as int) {
            Some(e) => r == Some(e as usize),
            None => r is None,
        },
{
    let mut q = p;
    while q < b.len()
        invariant
            p <= q <= b@.len(),
            string_end(b@, p as int) == string_end(b@, q as int),
        decreases b@.len() - q,
    {
        if b[q] == 39 {
            if q + 1 < b.len() && b[q + 1] == 39 {
                q = q + 2;
            } else {
                return Some(q + 1);
            }
        } else {
            q = q + 1;
        }
    }
    None
}

/// The token that starts at `q`, which holds no whitespace, if one does.
fn scan_token(b: &[u8], q: usize) -> (r: Option<Token>)
    requires
        q < b@.len(),
    ensures
        r == next_token(b@, q as int),
{
    proof {
        lemma_scan_bounds(b@, q + 1);
        if q + 2 <= b@.len() {
            lemma_scan_bounds(b@, q + 2);
        }
    }
    let c = b[q];
    let has_next = q + 1 < b.len();
    if (65 <= c && c <= 90) || (97 <= c && c <= 122) || c == 95 {
        let e = scan_ident(b, q + 1);
        match match_keyword(b, q, e) {
            Some(k) => Some(Token { kind: TokenKind::Keyword(k), start: q, end: e }),
            None => Some(Token { kind: TokenKind::Ident, start: q, end: e }),
        }
    } else if digit_byte(c) {
        Some(Token { kind: TokenKind::Int, start: q, end: scan_digits(b, q + 1) })
    } else if c == 45 && has_next && digit_byte(b[q + 1]) {
        Some(Token { kind: TokenKind::Int, start: q, end: scan_digits(b, q + 2) })
    } else if c == 39 {
        match scan_string(b, q + 1) {
            Some(e) => Some(Token { kind: TokenKind::Str, start: q, end: e }),
            None => None,
        }
    } else if c == 40 {
        Some(Token { kind: TokenKind::LParen, start: q, end: q + 1 })
    } else if c == 41 {
        Some(Token { kind: TokenKind::RParen, start: q, end: q + 1 })
    } else if c == 44 {
        Some(Token { kind: TokenKind::Comma, start: q, end: q + 1 })
    } else if c == 59 {
        Some(Token { kind: TokenKind::Semi, start: q, end: q + 1 })
    } else if c == 42 {
        Some(Token { kind: TokenKind::Star, start: q, end: q + 1 })
    } else if c == 61 {
        Some(Token { kind: TokenKind::Eq, start: q, end: q + 1 })
    } else if c == 60 {
        if has_next && b[q + 1] == 61 {
            Some(Token { kind: TokenKind::Le, start: q, end: q + 2 })
        } else if has_next && b[q + 1] == 62 {
            Some(Token { kind: TokenKind::Ne, start: q, end: q + 2 })
        } else {
            Some(Token { kind: TokenKind::Lt, start: q, end: q + 1 })
        }
    } else if c == 62 {
        if has_next && b[q + 1] == 61 {
            Some(Token { kind: TokenKind::Ge, start: q, end: q + 2 })
        } else {
            Some(Token { kind: TokenKind::Gt, start: q, end: q + 1 })
        }
    } else {
        None
    }
}

/// Tokenizes `b`: the tokens, and the position where no token starts if
/// tokenizing stopped before the end.
pub fn tokenize(b: &[u8]) -> (r: (Vec<Token>, Option<usize>))
    ensures
        r.0@ == lex(b@).0,
        match r.1 {
            Some(q) => lex(b@).1 == Some(q as int),
            None => lex(b@).1 is None,
        },
{
    let mut toks: Vec<Token> = Vec::new();
    let mut p: usize = 0;
    assert(b@.len() == b.len());
    assert(toks@ + lex_from(b@, 0).0 =~= lex_from(b@, 0).0);
    loop
        invariant
            p <= b@.len(),
            b@.len() <= usize::MAX,
            lex(b@).0 == toks@ + lex_from(b@, p as int).0,
            lex(b@).1 == lex_from(b@, p as int).1,
        decreases b@.len() - p,
    {
        let q = scan_ws(b, p);
        proof {
            lemma_scan_bounds(b@, p as int);
        }
        if q >= b.len() {
            assert(toks@ + lex_from(b@, p as int).0 =~= toks@);
            return (toks, None);
        }
        proof {
            lemma_next_token_bounds(b@, q as int);
        }
        match scan_token(b, q) {
            None => {
                assert(toks@ + lex_from(b@, p as int).0 =~= toks@);
                return (toks, Some(q));
            },
            Some(t) => {
                let ghost prev = toks@;
                toks.push(t);
                assert(prev + lex_from(b@, p as int).0 =~= toks@ + lex_from(b@, t.end as int).0);
                p = t.end;
            },
        }
    }
}


/// The scan of an identifier stops at the first byte that cannot continue one.
proof fn lemma_ident_end_stops(b: Seq<u8>, p: int)
    requires
        0 <= p <= b.len(),
    ensures
        p <= ident_end(b, p) <= b.len(),
        forall|i: int| p <= i < ident_end(b, p) ==> is_ident_char(#[trigger] b[i]),
        ident_end(b, p) < b.len() ==> !is_ident_char(b[ident_end(b, p)]),
    decreases b.len() - p,
{
    if p < b.len() && is_ident_char(b[p]) {
        lemma_ident_end_stops(b, p + 1);
    }
}

/// Every token that tokenizing from `p` gives is the token that starts where
/// it starts.
proof fn lemma_lex_from_tokens(b: Seq<u8>, p: int)
    requires
        0 <= p,
        b.len() <= usize::MAX,
    ensures
        forall|j: int|
            0 <= j < lex_from(b, p).0.len() ==> {
                let tk = #[trigger] lex_from(b, p).0[j];
                &&& p <= tk.start < b.len()
                &&& next_token(b, tk.start as int) == Some(tk)
            },
    decreases b.len() - p,
{
    let q = skip_ws(b, p);
    if p <= b.len() {
        lemma_scan_bounds(b, p);
    }
    if !(p < 0 || q >= b.len()) {
        lemma_next_token_bounds(b, q);
        if let Some(t) = next_token(b, q) {
            if p < t.end && t.end <= b.len() {
                lemma_lex_from_tokens(b, t.end as int);
                let r = lex_from(b, t.end as int).0;
                assert forall|j: int| 0 <= j < lex_from(b, p).0.len() implies {
                    let tk = #[trigger] lex_from(b, p).0[j];
                    &&& p <= tk.start < b.len()
                    &&& next_token(b, tk.start as int) == Some(tk)
                } by {
                    if j > 0 {
                        assert(lex_from(b, p).0[j] == r[j - 1]);
                    }
                }
            }
        }
    }
}

/// Identifiers and keywords are whole words: a word token starts with an ASCII
/// letter or `_`, every byte it covers is an ASCII letter, digit or `_`, and
/// the byte right after it is none of these. So `student_id` is one token, and
/// a word is never split in two.
pub proof fn lemma_words_are_whole(b: Seq<u8>, j: int)
    requires
        b.len() <= usize::MAX,
        0 <= j < lex(b).0.len(),
        lex(b).0[j].kind == TokenKind::Ident || lex(b).0[j].kind is Keyword,
    ensures
        ({
            let tk = lex(b).0[j];
            let s = tk.start as int;
            let e = tk.end as int;
            &&& 0 <= s < e <= b.len()
            &&& (65 <= b[s] <= 90 || 97 <= b[s] <= 122 || b[s] == 95)
            &&& forall|i: int|
                s <= i < e ==> (65 <= #[trigger] b[i] <= 90 || 97 <= b[i] <= 122 || 48 <= b[i] <= 57
                    || b[i] == 95)
            &&& e < b.len() ==> !(65 <= b[e] <= 90 || 97 <= b[e] <= 122 || 48 <= b[e] <= 57 || b[e]
                == 95)
        }),
{
    lemma_lex_from_tokens(b, 0);
    let tk = lex(b).0[j];
    let s = tk.start as int;
    assert(next_token(b, s) == Some(tk));
    lemma_ident_end_stops(b, s + 1);
}

/// The scan of whitespace passes only whitespace and stops at the first other byte.
proof fn lemma_skip_ws_stops(b: Seq<u8>, p: int)
    requires
        0 <= p <= b.len(),
    ensures
        p <= skip_ws(b, p) <= b.len(),
        forall|i: int| p <= i < skip_ws(b, p) ==> is_ws(#[trigger] b[i]),
        skip_ws(b, p) < b.len() ==> !is_ws(b[skip_ws(b, p)]),
    decreases b.len() - p,
{
    if p < b.len() && is_ws(b[p]) {
        lemma_skip_ws_stops(b, p + 1);
    }
}

/// The scan of digits passes only digits and stops at the first other byte.
proof fn lemma_digits_end_stops(b: Seq<u8>, p: int)
    requires
        0 <= p <= b.len(),
    ensures
        p <= digits_end(b, p) <= b.len(),
        forall|i: int| p <= i < digits_end(b, p) ==> is_digit(#[trigger] b[i]),
        digits_end(b, p) < b.len() ==> !is_digit(b[digits_end(b, p)]),
    decreases b.len() - p,
{
    if p < b.len() && is_digit(b[p]) {
        lemma_digits_end_stops(b, p + 1);
    }
}

/// A string ends just past a quote.
proof fn lemma_string_end_quote(b: Seq<u8>, p: int)
    requires
        0 <= p,
    ensures
        string_end(b, p) matches Some(e) ==> p < e <= b.len() && b[e - 1] == 39,
    decreases b.len() - p,
{
    if 0 <= p < b.len() {
        if b[p] == 39 {
            if p + 1 < b.len() && b[p + 1] == 39 {
                lemma_string_end_quote(b, p + 2);
            }
        } else {
            lemma_string_end_quote(b, p + 1);
        }
    }
}

/// Tokens from `p` on follow one another: the first starts where the
/// whitespace after `p` ends, and each next one where the whitespace after the
/// one before ends.
proof fn lemma_lex_from_gaps(b: Seq<u8>, p: int)
    requires
        0 <= p <= b.len(),
        b.len() <= usize::MAX,
    ensures
        ({
            let ts = lex_from(b, p).0;
            &&& ts.len() > 0 ==> ts[0].start == skip_ws(b, p)
            &&& forall|j: int|
                0 <= j < ts.len() ==> p <= (#[trigger] ts[j]).start < ts[j].end <= b.len()
            &&& forall|j: int|
                0 <= j < ts.len() - 1 ==> #[trigger] ts[j + 1].start == skip_ws(b, ts[j].end as int)
        }),
    decreases b.len() - p,
{
    let q = skip_ws(b, p);
    lemma_scan_bounds(b, p);
    if q < b.len() {
        lemma_next_token_bounds(b, q);
        if let Some(t) = next_token(b, q) {
            if p < t.end && t.end <= b.len() {
                lemma_lex_from_gaps(b, t.end as int);
                let r = lex_from(b, t.end as int).0;
                let ts = lex_from(b, p).0;
                assert(ts == seq![t] + r);
                assert forall|j: int| 0 <= j < ts.len() implies p <= (#[trigger] ts[j]).start
                    < ts[j].end <= b.len() by {
                    if j > 0 {
                        assert(ts[j] == r[j - 1]);
                    }
                }
                assert forall|j: int| 0 <= j < ts.len() - 1 implies #[trigger] ts[j + 1].start
                    == skip_ws(b, ts[j].end as int) by {
                    assert(ts[j + 1] == r[j]);
                    if j > 0 {
                        let k = j - 1;
                        assert(ts[j] == r[k]);
                        assert(0 <= k < r.len() - 1);
                        assert(r[k + 1].start == skip_ws(b, r[k].end as int));
                    } else {
                        assert(ts[0] == t);
                    }
                }
            }
        }
    }
}

/// Only whitespace (space, tab, line feed, vertical tab, form feed, carriage
/// return) lies before the first token and between two tokens; tokens come in
/// the order of the input and never overlap.
pub proof fn lemma_only_whitespace_between_tokens(b: Seq<u8>, j: int)
    requires
        b.len() <= usize::MAX,
        0 <= j < lex(b).0.len(),
    ensures
        ({
            let ts = lex(b).0;
            let from = if j == 0 {
                0
            } else {
                ts[j - 1].end as int
            };
            &&& from <= ts[j].start < ts[j].end <= b.len()
            &&& forall|i: int|
                from <= i < ts[j].start ==> (#[trigger] b[i] == 32 || 9 <= b[i] <= 13)
        }),
{
    lemma_lex_from_gaps(b, 0);
    let ts = lex(b).0;
    if j == 0 {
        lemma_skip_ws_stops(b, 0);
    } else {
        let k = j - 1;
        assert(ts[k + 1].start == skip_ws(b, ts[k].end as int));
        assert(0 <= ts[j - 1].start < ts[j - 1].end <= b.len());
        lemma_skip_ws_stops(b, ts[j - 1].end as int);
    }
}

/// Integers, strings and punctuation are read as written: an integer token is
/// an optional `-` and the longest run of digits after it; a string token runs
/// from a quote to a quote; `<=`, `>=` and `<>` are read whole, and a lone
/// `<`, `>`, `=`, `(`, `)`, `,`, `;` or `*` is a token of one byte.
pub proof fn lemma_token_shapes(b: Seq<u8>, j: int)
    requires
        b.len() <= usize::MAX,
        0 <= j < lex(b).0.len(),
    ensures
        ({
            let tk = lex(b).0[j];
            let s = tk.start as int;
            let e = tk.end as int;
            let next_is = |c: u8| s + 1 < b.len() && b[s + 1] == c;
            &&& 0 <= s < e <= b.len()
            &&& tk.kind == TokenKind::Int ==> {
                &&& (48 <= b[s] <= 57 || (b[s] == 45 && e >= s + 2))
                &&& forall|i: int| s < i < e ==> 48 <= #[trigger] b[i] <= 57
                &&& e < b.len() ==> !(48 <= b[e] <= 57)
            }
            &&& tk.kind == TokenKind::Str ==> b[s] == 39 && e >= s + 2 && b[e - 1] == 39
            &&& tk.kind == TokenKind::Le ==> e == s + 2 && b[s] == 60 && b[s + 1] == 61
            &&& tk.kind == TokenKind::Ne ==> e == s + 2 && b[s] == 60 && b[s + 1] == 62
            &&& tk.kind == TokenKind::Ge ==> e == s + 2 && b[s] == 62 && b[s + 1] == 61
            &&& tk.kind == TokenKind::Lt ==> e == s + 1 && b[s] == 60 && !next_is(61) && !next_is(62)
            &&& tk.kind == TokenKind::Gt ==> e == s + 1 && b[s] == 62 && !next_is(61)
            &&& tk.kind == TokenKind::Eq ==> e == s + 1 && b[s] == 61
            &&& tk.kind == TokenKind::LParen ==> e == s + 1 && b[s] == 40
            &&& tk.kind == TokenKind::RParen ==> e == s + 1 && b[s] == 41
            &&& tk.kind == TokenKind::Comma ==> e == s + 1 && b[s] == 44
            &&& tk.kind == TokenKind::Semi ==> e == s + 1 && b[s] == 59
            &&& tk.kind == TokenKind::Star ==> e == s + 1 && b[s] == 42
        }),
{
    lemma_lex_from_tokens(b, 0);
    let tk = lex(b).0[j];
    let s = tk.start as int;
    assert(next_token(b, s) == Some(tk));
    lemma_next_token_bounds(b, s);
    lemma_digits_end_stops(b, s + 1);
    if s + 2 <= b.len() {
        lemma_digits_end_stops(b, s + 2);
    }
    lemma_string_end_quote(b, s + 1);
}
} // verus!
