//! SQL parser: the tokenizer, the grammar, and the mapping of its failures to
//! [`crate::Error::Syntax`] with line and column information.
use vstd::prelude::*;
use vstd::string::*;
use vstd::utf8::{decode_utf8, valid_utf8};

pub mod ast;
pub mod descent;
pub mod grammar;
pub mod lexer;

pub use ast::{
    BinaryOp, ColumnDef, CreateTableStatement, DataType, DeleteStatement, Expr, InsertStatement,
    Literal, SelectItem, SelectStatement, Statement, UpdateStatement,
};

use self::ast::StatementV;
use self::descent::parse_token_seq;
use self::grammar::{
    ends_with_semi, lemma_ends_with_semi_wf, lemma_lex_wf, lemma_parse_reads_only_token_texts,
    lemma_texts_agree_same, lemma_trailing_semicolon, parse_tokens, same_tokens, texts_agree, token_bytes_agree, ParseErr,
    NUM_TERMINALS,
};
use self::lexer::{
    all_ws, between_tokens, insert_at, lemma_lex_ignores_case, lemma_lex_ignores_whitespace,
    lemma_lex_semicolon, lex, same_but_case, tokenize, Token, TokenKind,
};
use crate::error::Error;
use crate::text::{dec_chars, push_decimal, text, utf8_to_string};

verus! {

/// The number of newline bytes among the first `o` bytes of `b`.
pub open spec fn newlines_before(b: Seq<u8>, o: int) -> nat
    decreases o,
{
    if o <= 0 {
        0
    } else {
        newlines_before(b, o - 1) + if b[o - 1] == 10 {
            1nat
        } else {
            0nat
        }
    }
}

/// Where the line that holds offset `o` starts: just past the last newline
/// before `o`, or the start of the input.
pub open spec fn line_start(b: Seq<u8>, o: int) -> int
    decreases o,
{
    if o <= 0 {
        0
    } else if b[o - 1] == 10 {
        o
    } else {
        line_start(b, o - 1)
    }
}

/// `n`, or `usize::MAX` if it is larger.
pub open spec fn capped(n: int) -> int {
    if n > usize::MAX {
        usize::MAX as int
    } else {
        n
    }
}

/// The line and column, both counted from 1, of byte offset `offset` of `b`;
/// an offset past the end stands for the end. The column counts bytes.
pub open spec fn line_col(b: Seq<u8>, offset: int) -> (int, int) {
    let o = if offset > b.len() {
        b.len() as int
    } else {
        offset
    };
    (capped(newlines_before(b, o) + 1int), capped(o - line_start(b, o) + 1))
}

/// The line and column of byte offset `offset` of `input`.
fn offset_to_line_col(input: &[u8], offset: usize) -> (r: (usize, usize))
    ensures
        (r.0 as int, r.1 as int) == line_col(input@, offset as int),
{
    let o = if offset > input.len() {
        input.len()
    } else {
        offset
    };
    let mut count: usize = 0;
    let mut start: usize = 0;
    let mut i: usize = 0;
    while i < o
        invariant
            o <= input@.len(),
            i <= o,
            count == newlines_before(input@, i as int),
            start == line_start(input@, i as int),
            count <= i,
            start <= i,
        decreases o - i,
    {
        if input[i] == 10 {
            count = count + 1;
            start = i + 1;
        }
        i = i + 1;
    }
    (count.saturating_add(1), (o - start).saturating_add(1))
}

/// The name of terminal `i`, as error messages list it.
pub open spec fn terminal_name(i: int) -> Seq<char> {
    if i == 0 { "\"CREATE\""@ }
    else if i == 1 { "\"TABLE\""@ }
    else if i == 2 { "\"INTEGER\""@ }
    else if i == 3 { "\"VARCHAR\""@ }
    else if i == 4 { "\"BOOLEAN\""@ }
    else if i == 5 { "\"NOT\""@ }
    else if i == 6 { "\"NULL\""@ }
    else if i == 7 { "\"INSERT\""@ }
    else if i == 8 { "\"INTO\""@ }
    else if i == 9 { "\"VALUES\""@ }
    else if i == 10 { "\"SELECT\""@ }
    else if i == 11 { "\"FROM\""@ }
    else if i == 12 { "\"WHERE\""@ }
    else if i == 13 { "\"UPDATE\""@ }
    else if i == 14 { "\"SET\""@ }
    else if i == 15 { "\"DELETE\""@ }
    else if i == 16 { "\"AND\""@ }
    else if i == 17 { "\"OR\""@ }
    else if i == 18 { "\"TRUE\""@ }
    else if i == 19 { "\"FALSE\""@ }
    else if i == 20 { "identifier"@ }
    else if i == 21 { "integer"@ }
    else if i == 22 { "string"@ }
    else if i == 23 { "\"(\""@ }
    else if i == 24 { "\")\""@ }
    else if i == 25 { "\",\""@ }
    else if i == 26 { "\";\""@ }
    else if i == 27 { "\"*\""@ }
    else if i == 28 { "\"=\""@ }
    else if i == 29 { "\"<\""@ }
    else if i == 30 { "\">\""@ }
    else if i == 31 { "\"<=\""@ }
    else if i == 32 { "\">=\""@ }
    else { "\"<>\""@ }
}

/// The name of terminal `i`.
fn terminal_name_str(i: u64) -> (r: &'static str)
    ensures
        r@ == terminal_name(i as int),
{
    match i {
        0 => "\"CREATE\"",
        1 => "\"TABLE\"",
        2 => "\"INTEGER\"",
        3 => "\"VARCHAR\"",
        4 => "\"BOOLEAN\"",
        5 => "\"NOT\"",
        6 => "\"NULL\"",
        7 => "\"INSERT\"",
        8 => "\"INTO\"",
        9 => "\"VALUES\"",
        10 => "\"SELECT\"",
        11 => "\"FROM\"",
        12 => "\"WHERE\"",
        13 => "\"UPDATE\"",
        14 => "\"SET\"",
        15 => "\"DELETE\"",
        16 => "\"AND\"",
        17 => "\"OR\"",
        18 => "\"TRUE\"",
        19 => "\"FALSE\"",
        20 => "identifier",
        21 => "integer",
        22 => "string",
        23 => "\"(\"",
        24 => "\")\"",
        25 => "\",\"",
        26 => "\";\"",
        27 => "\"*\"",
        28 => "\"=\"",
        29 => "\"<\"",
        30 => "\">\"",
        31 => "\"<=\"",
        32 => "\">=\"",
        _ => "\"<>\"",
    }
}

/// Whether terminal `i` belongs to the set `set`.
pub open spec fn has_terminal(set: u64, i: u64) -> bool {
    (set >> i) & 1u64 == 1u64
}

/// The names of the terminals of `set` from the `i`-th on, separated by `, `;
/// `first` tells whether none was listed before.
pub open spec fn expected_names(set: u64, i: int, first: bool) -> Seq<char>
    decreases NUM_TERMINALS - i,
{
    if i < 0 || i >= NUM_TERMINALS {
        Seq::empty()
    } else if has_terminal(set, i as u64) {
        (if first {
            Seq::empty()
        } else {
            ", "@
        }) + terminal_name(i) + expected_names(set, i + 1, false)
    } else {
        expected_names(set, i + 1, first)
    }
}

/// Appends the names of the terminals of `set` to `s`.
fn push_expected(s: &mut String, set: u64)
    ensures
        final(s)@ == old(s)@ + expected_names(set, 0, true),
{
    let ghost s0 = s@;
    let mut first = true;
    let mut i: u64 = 0;
    while i < NUM_TERMINALS as u64
        invariant
            i <= NUM_TERMINALS,
            s0 + expected_names(set, 0, true) == s@ + expected_names(set, i as int, first),
        decreases NUM_TERMINALS - i,
    {
        let ghost prev = s@;
        let ghost was_first = first;
        if (set >> i) & 1 == 1 {
            if !first {
                s.append(", ");
            }
            s.append(terminal_name_str(i));
            first = false;
            assert(has_terminal(set, i));
            assert(prev + expected_names(set, i as int, was_first) =~= s@ + expected_names(
                set,
                i + 1,
                false,
            ));
        } else {
            assert(!has_terminal(set, i));
        }
        i = i + 1;
    }
}

/// The text that token `tk` covers in `b` (empty if it is not valid UTF-8).
pub open spec fn token_text(b: Seq<u8>, tk: Token) -> Seq<char> {
    let raw = b.subrange(tk.start as int, tk.end as int);
    if valid_utf8(raw) {
        decode_utf8(raw)
    } else {
        Seq::empty()
    }
}

/// The index of the token at which parsing failed.
pub open spec fn failed_at(e: ParseErr) -> int {
    match e {
        ParseErr::Unexpected { at, .. } => at as int,
        ParseErr::Extra { at } => at as int,
        ParseErr::BadInteger { at } => at as int,
        ParseErr::BadString { at } => at as int,
    }
}

/// The byte offset at which a failure is reported: the start of the token at
/// which it happened, or the end of the last token when the tokens ran out.
pub open spec fn failure_offset(t: Seq<Token>, e: ParseErr) -> int {
    if failed_at(e) < t.len() {
        t[failed_at(e)].start as int
    } else if t.len() > 0 {
        t.last().end as int
    } else {
        0
    }
}

/// What a failure message says after the position.
pub open spec fn failure_detail(b: Seq<u8>, t: Seq<Token>, e: ParseErr) -> Seq<char> {
    let quoted = if failed_at(e) < t.len() {
        "\""@ + token_text(b, t[failed_at(e)]) + "\""@
    } else {
        Seq::empty()
    };
    match e {
        ParseErr::Unexpected { at, expected } => if at < t.len() {
            "unexpected token "@ + quoted + "; expected one of: "@ + expected_names(
                expected,
                0,
                true,
            )
        } else {
            "unexpected end of input; expected one of: "@ + expected_names(expected, 0, true)
        },
        ParseErr::Extra { .. } => "extra token "@ + quoted,
        ParseErr::BadInteger { .. } => "integer literal out of range: "@ + quoted,
        ParseErr::BadString { .. } => "invalid string literal: "@ + quoted,
    }
}

/// A syntax error message: the line and column of `offset` in `b`, then `detail`.
pub open spec fn syntax_message(b: Seq<u8>, offset: int, detail: Seq<char>) -> Seq<char> {
    let (line, column) = line_col(b, offset);
    "Syntax error at line "@ + dec_chars(line as nat) + ", column "@ + dec_chars(column as nat)
        + ": "@ + detail
}

/// What parsing `b` gives: the statement, or the offset and the detail of the
/// syntax error. Where the tokenizer stopped at a byte that starts no token,
/// that byte is the error unless the grammar failed on an earlier token.
pub open spec fn parse_outcome(b: Seq<u8>) -> core::result::Result<StatementV, (int, Seq<char>)> {
    let (t, stop) = lex(b);
    let r = parse_tokens(b, t);
    let earlier = r matches Err(e) && failed_at(e) < t.len();
    match stop {
        Some(q) if !earlier => Err((q, "invalid token"@)),
        _ => match r {
            Ok(v) => Ok(v),
            Err(e) => Err((failure_offset(t, e), failure_detail(b, t, e))),
        },
    }
}

/// The text of token `tk` of `b`, in double quotes.
fn push_quoted_token(s: &mut String, b: &[u8], tk: Token)
    requires
        tk.start <= tk.end <= b@.len(),
    ensures
        final(s)@ == old(s)@ + "\""@ + token_text(b@, tk) + "\""@,
{
    s.append("\"");
    match utf8_to_string(&b[tk.start..tk.end]) {
        Ok(x) => s.append(x.as_str()),
        Err(_) => {},
    }
    s.append("\"");
}

/// The message for the failure `e` of the grammar on the tokens `t` of `input`.
fn describe_parse_error(input: &[u8], t: &[Token], e: ParseErr) -> (m: String)
    requires
        forall|i: int| 0 <= i < t@.len() ==> #[trigger] t@[i].start <= t@[i].end <= input@.len(),
    ensures
        m@ == syntax_message(input@, failure_offset(t@, e), failure_detail(input@, t@, e)),
{
    let at = match e {
        ParseErr::Unexpected { at, .. } => at,
        ParseErr::Extra { at } => at,
        ParseErr::BadInteger { at } => at,
        ParseErr::BadString { at } => at,
    };
    let offset = if at < t.len() {
        t[at].start
    } else if t.len() > 0 {
        t[t.len() - 1].end
    } else {
        0
    };
    let (line, column) = offset_to_line_col(input, offset);
    let mut m = text("Syntax error at line ");
    push_decimal(&mut m, line as u64);
    m.append(", column ");
    push_decimal(&mut m, column as u64);
    m.append(": ");
    match e {
        ParseErr::Unexpected { at, expected } => {
            if at < t.len() {
                m.append("unexpected token ");
                push_quoted_token(&mut m, input, t[at]);
                m.append("; expected one of: ");
            } else {
                m.append("unexpected end of input; expected one of: ");
            }
            push_expected(&mut m, expected);
        },
        ParseErr::Extra { at } => {
            m.append("extra token ");
            if at < t.len() {
                push_quoted_token(&mut m, input, t[at]);
            }
        },
        ParseErr::BadInteger { at } => {
            m.append("integer literal out of range: ");
            if at < t.len() {
                push_quoted_token(&mut m, input, t[at]);
            }
        },
        ParseErr::BadString { at } => {
            m.append("invalid string literal: ");
            if at < t.len() {
                push_quoted_token(&mut m, input, t[at]);
            }
        },
    }
    m
}

/// The message for a byte, at offset `q` of `input`, that starts no token.
fn invalid_token_message(input: &[u8], q: usize) -> (m: String)
    ensures
        m@ == syntax_message(input@, q as int, "invalid token"@),
{
    let (line, column) = offset_to_line_col(input, q);
    let mut m = text("Syntax error at line ");
    push_decimal(&mut m, line as u64);
    m.append(", column ");
    push_decimal(&mut m, column as u64);
    m.append(": ");
    m.append("invalid token");
    m
}

/// Parses exactly one SQL statement, optionally followed by `;`.
///
/// Keywords are matched case-insensitively, identifiers keep their case, and a
/// failure is reported as [`Error::Syntax`] with its line and column.
pub fn parse(sql: &str) -> (r: crate::Result<Statement>)
    ensures
        match parse_outcome(sql.spec_bytes()) {
            Ok(v) => r matches Ok(x) && x@ == v,
            Err((offset, detail)) => r matches Err(Error::Syntax(m)) && m@ == syntax_message(
                sql.spec_bytes(),
                offset,
                detail,
            ),
        },
{
    let b = sql.as_bytes();
    let (tokens, stop) = tokenize(b);
    proof {
        assert(b@.len() == b.len());
        lemma_lex_wf(b@);
    }
    let t = tokens.as_slice();
    let res = parse_token_seq(b, t);
    let earlier = match res {
        Err(e) => {
            let at = match e {
                ParseErr::Unexpected { at, .. } => at,
                ParseErr::Extra { at } => at,
                ParseErr::BadInteger { at } => at,
                ParseErr::BadString { at } => at,
            };
            at < t.len()
        },
        Ok(_) => false,
    };
    match stop {
        Some(q) => if !earlier {
            return Err(Error::Syntax(invalid_token_message(b, q)));
        },
        None => {},
    }
    match res {
        Ok(st) => Ok(st),
        Err(e) => Err(Error::Syntax(describe_parse_error(b, t, e))),
    }
}

/// Keywords are read in any letter case: two inputs that differ only in the
/// letter case of bytes inside keyword tokens (identifiers, integers and
/// strings are the same) are read as the same tokens and give the same
/// statement, or both fail at the same offset.
pub proof fn lemma_parse_ignores_keyword_case(b1: Seq<u8>, b2: Seq<u8>)
    requires
        b1.len() <= usize::MAX,
        same_but_case(b1, b2),
        texts_agree(b1, b2, lex(b1).0),
    ensures
        lex(b1) == lex(b2),
        parse_tokens(b1, lex(b1).0) == parse_tokens(b2, lex(b2).0),
        parse_outcome(b1) is Ok <==> parse_outcome(b2) is Ok,
        parse_outcome(b1) is Ok ==> parse_outcome(b1) == parse_outcome(b2),
        parse_outcome(b1) matches Err((o1, _)) ==> parse_outcome(b2) matches Err((o2, _)) && o1
            == o2,
{
    lemma_lex_ignores_case(b1, b2);
    lemma_lex_wf(b1);
    lemma_lex_wf(b2);
    lemma_texts_agree_same(b1, b2, lex(b1).0);
    lemma_parse_reads_only_token_texts(b1, lex(b1).0, b2, lex(b1).0);
}

/// The `;` after a statement is optional: appending one `;` to an input that
/// parses, and whose last token is not already `;`, gives the same statement.
pub proof fn lemma_parse_trailing_semicolon(b: Seq<u8>)
    requires
        b.len() < usize::MAX,
        parse_outcome(b) is Ok,
        lex(b).0.len() == 0 || lex(b).0.last().kind != TokenKind::Semi,
    ensures
        parse_outcome(b.push(59u8)) == parse_outcome(b),
{
    let b2 = b.push(59u8);
    let t1 = lex(b).0;
    lemma_lex_semicolon(b);
    let t2 = lex(b2).0;
    assert(ends_with_semi(t1, t2));
    lemma_lex_wf(b);
    lemma_lex_wf(b2);
    lemma_ends_with_semi_wf(b2, t1, t2);
    assert forall|j: int| 0 <= j < t1.len() implies token_bytes_agree(b, b2, #[trigger] t1[j]) by {
        assert(b.subrange(t1[j].start as int, t1[j].end as int) =~= b2.subrange(
            t1[j].start as int,
            t1[j].end as int,
        ));
    }
    assert(texts_agree(b, b2, t1));
    lemma_texts_agree_same(b, b2, t1);
    lemma_parse_reads_only_token_texts(b, t1, b2, t1);
    lemma_trailing_semicolon(b2, t1, t2);
}

/// Whitespace between tokens does not matter: inserting a non-empty run of
/// whitespace at an offset between the tokens of an input gives the same
/// statement, and a failing input still fails.
pub proof fn lemma_parse_ignores_whitespace(b: Seq<u8>, k: int, w: Seq<u8>)
    requires
        0 <= k <= b.len(),
        between_tokens(b, 0, k),
        w.len() > 0,
        all_ws(w),
        b.len() + w.len() <= usize::MAX,
    ensures
        parse_outcome(b) is Ok <==> parse_outcome(insert_at(b, k, w)) is Ok,
        parse_outcome(b) is Ok ==> parse_outcome(insert_at(b, k, w)) == parse_outcome(b),
{
    let b2 = insert_at(b, k, w);
    assert(b2.len() == b.len() + w.len());
    lemma_lex_ignores_whitespace(b, k, w);
    lemma_lex_wf(b);
    lemma_lex_wf(b2);
    assert(same_tokens(b, lex(b).0, b2, lex(b2).0));
    lemma_parse_reads_only_token_texts(b, lex(b).0, b2, lex(b2).0);
}


/// One change that leaves the statement read from an input as it is: the
/// letter case of keywords changed, a non-empty run of whitespace put between
/// tokens or taken out from between them, or a `;` appended after a last
/// token that is not one.
pub open spec fn reading_kept(b1: Seq<u8>, b2: Seq<u8>) -> bool {
    ||| same_but_case(b1, b2) && texts_agree(b1, b2, lex(b1).0)
    ||| exists|k: int, w: Seq<u8>|
        0 <= k <= b1.len() && between_tokens(b1, 0, k) && w.len() > 0 && all_ws(w) && b2
            == #[trigger] insert_at(b1, k, w)
    ||| exists|k: int, w: Seq<u8>|
        0 <= k <= b2.len() && between_tokens(b2, 0, k) && w.len() > 0 && all_ws(w) && b1
            == #[trigger] insert_at(b2, k, w)
    ||| b2 == b1.push(59u8) && (lex(b1).0.len() == 0 || lex(b1).0.last().kind != TokenKind::Semi)
}

/// An input that parses gives the same statement after any series of changes
/// of keyword case, of the whitespace between tokens and of a trailing `;`:
/// `bs` lists the inputs, each one change away from the one before.
pub proof fn lemma_parse_kept_through_changes(bs: Seq<Seq<u8>>)
    requires
        bs.len() > 0,
        parse_outcome(bs[0]) is Ok,
        forall|i: int| 0 <= i < bs.len() ==> (#[trigger] bs[i]).len() < usize::MAX,
        forall|i: int| 0 <= i < bs.len() - 1 ==> reading_kept(#[trigger] bs[i], bs[i + 1]),
    ensures
        parse_outcome(bs.last()) == parse_outcome(bs[0]),
    decreases bs.len(),
{
    if bs.len() > 1 {
        let p = bs.drop_last();
        assert forall|i: int| 0 <= i < p.len() implies (#[trigger] p[i]).len() < usize::MAX by {
            assert(p[i] == bs[i]);
        }
        assert forall|i: int| 0 <= i < p.len() - 1 implies reading_kept(#[trigger] p[i], p[i + 1]) by {
            assert(p[i] == bs[i] && p[i + 1] == bs[i + 1]);
        }
        lemma_parse_kept_through_changes(p);
        let n = bs.len() - 2;
        let b1 = bs[n];
        let b2 = bs[n + 1];
        assert(p.last() == b1);
        assert(bs.last() == b2);
        assert(b1.len() < usize::MAX && b2.len() < usize::MAX);
        assert(reading_kept(b1, b2));
        if same_but_case(b1, b2) && texts_agree(b1, b2, lex(b1).0) {
            lemma_parse_ignores_keyword_case(b1, b2);
        } else if exists|k: int, w: Seq<u8>|
            0 <= k <= b1.len() && between_tokens(b1, 0, k) && w.len() > 0 && all_ws(w) && b2
                == #[trigger] insert_at(b1, k, w) {
            let (k, w) = choose|k: int, w: Seq<u8>|
                0 <= k <= b1.len() && between_tokens(b1, 0, k) && w.len() > 0 && all_ws(w) && b2
                    == #[trigger] insert_at(b1, k, w);
            assert(insert_at(b1, k, w).len() == b1.len() + w.len());
            lemma_parse_ignores_whitespace(b1, k, w);
        } else if exists|k: int, w: Seq<u8>|
            0 <= k <= b2.len() && between_tokens(b2, 0, k) && w.len() > 0 && all_ws(w) && b1
                == #[trigger] insert_at(b2, k, w) {
            let (k, w) = choose|k: int, w: Seq<u8>|
                0 <= k <= b2.len() && between_tokens(b2, 0, k) && w.len() > 0 && all_ws(w) && b1
                    == #[trigger] insert_at(b2, k, w);
            assert(insert_at(b2, k, w).len() == b2.len() + w.len());
            lemma_parse_ignores_whitespace(b2, k, w);
        } else {
            lemma_parse_trailing_semicolon(b1);
        }
    }
}
} // verus!
