//! A recursive-descent parser, proved to compute the grammar of
//! [`super::grammar`] on every sequence of well-formed tokens.
use vstd::prelude::*;
use vstd::utf8::{decode_utf8, valid_utf8};

use super::ast::{
    defs_view, BinaryOp, ColumnDef, ColumnDefV, CreateTableStatement, DataType, Expr, ExprV, Literal,
    SelectItem, Statement, StatementV, names_view, literals_view, tuples_view, InsertStatement,
    LiteralV, items_view, opt_expr_view, assignments_view, SelectItemV, SelectStatement,
    UpdateStatement, DeleteStatement,
};
use super::grammar::{
    at_kind, at_kw, bin, comparison_of, digits_value, int_value, kind_at, p_and, p_and_rest, p_comparison,
    p_literal, p_not, p_operand, p_or, p_or_rest, string_raw, ident_chars, token_wf, tokens_wf,
    unescape, lemma_and_advances, lemma_and_rest_advances, lemma_comparison_advances,
    lemma_not_advances, lemma_operand_advances, lemma_or_advances, lemma_or_rest_advances,
    p_expect, p_ident, p_data_type, p_column_def, p_column_defs_rest, p_create, unexpected,
    ParseErr, PRes, E_LITERAL, E_OPERAND, E_TYPE, T_IDENT, T_LPAREN, T_NULL, T_RPAREN, T_COMMA,
    T_TABLE, p_idents_rest, p_literals_rest, p_tuple, p_tuples_rest, p_insert_columns, p_insert,
    T_INTO, T_VALUES, p_select_rest, p_select_list, p_where, p_select, p_assignment,
    p_assignments_rest, p_update, p_delete, p_statement, parse_tokens, T_EQ, T_FROM, T_SET,
    E_STATEMENT,
};
use super::lexer::{is_digit, Keyword, Token, TokenKind};
use crate::text::{lemma_ascii_valid_utf8, utf8_to_string};

verus! {

/// The kind of token `pos`, if there is one.
fn kind_of(t: &[Token], pos: usize) -> (r: Option<TokenKind>)
    ensures
        r == kind_at(t@, pos as int),
        r is Some ==> pos < t.len(),
{
    if pos < t.len() {
        Some(t[pos].kind)
    } else {
        None
    }
}

/// Whether token `pos` has kind `k`.
fn is_kind(t: &[Token], pos: usize, k: TokenKind) -> (r: bool)
    ensures
        r == at_kind(t@, pos as int, k),
        r ==> pos < t.len(),
{
    pos < t.len() && t[pos].kind == k
}

/// The text of an identifier token.
fn ident_string(b: &[u8], tk: Token) -> (s: String)
    requires
        token_wf(b@, tk),
        tk.kind == TokenKind::Ident,
    ensures
        s@ == ident_chars(b@, tk),
{
    let raw = &b[tk.start..tk.end];
    proof {
        assert forall|i: int| 0 <= i < raw@.len() implies #[trigger] raw@[i] < 0x80 by {
            assert(raw@[i] == b@[tk.start + i]);
        }
        lemma_ascii_valid_utf8(raw@);
    }
    match utf8_to_string(raw) {
        Ok(s) => s,
        Err(_) => String::new(),
    }
}

/// A longer run of digits has a value at least as large.
proof fn lemma_digits_value_monotone(b: Seq<u8>, s: int, e1: int, e2: int)
    requires
        s <= e1 <= e2 <= b.len(),
        0 <= s,
        forall|i: int| s <= i < e2 ==> is_digit(#[trigger] b[i]),
    ensures
        0 <= digits_value(b, s, e1) <= digits_value(b, s, e2),
    decreases e2 - s,
{
    if e2 > s {
        if e1 < e2 {
            lemma_digits_value_monotone(b, s, e1, e2 - 1);
        } else {
            lemma_digits_value_monotone(b, s, e1 - 1, e2 - 1);
        }
    }
}

/// The value of an integer token, if it fits in an `i64`.
fn int_token_value(b: &[u8], tk: Token) -> (r: Option<i64>)
    requires
        token_wf(b@, tk),
        tk.kind == TokenKind::Int,
    ensures
        match r {
            Some(v) => v == int_value(b@, tk),
            None => !(i64::MIN <= int_value(b@, tk) <= i64::MAX),
        },
{
    let neg = b[tk.start] == 45;
    let s0 = if neg { tk.start + 1 } else { tk.start };
    let mut i = s0;
    let mut acc: i128 = 0;
    let limit: i128 = 0x8000_0000_0000_0000;
    while i < tk.end
        invariant
            token_wf(b@, tk),
            tk.kind == TokenKind::Int,
            s0 <= i <= tk.end,
            s0 == if neg { tk.start + 1 } else { tk.start as int },
            neg == (b@[tk.start as int] == 45),
            acc == digits_value(b@, s0 as int, i as int),
            0 <= acc <= limit,
            limit == 0x8000_0000_0000_0000,
        decreases tk.end - i,
    {
        assert(is_digit(b@[i as int]));
        acc = acc * 10 + (b[i] as i128 - 48);
        i = i + 1;
        if acc > limit {
            proof {
                assert forall|j: int| s0 <= j < tk.end implies is_digit(#[trigger] b@[j]) by {
                    if j > tk.start {
                        assert(is_digit(b@[j]));
                    }
                }
                lemma_digits_value_monotone(b@, s0 as int, i as int, tk.end as int);
            }
            return None;
        }
    }
    if neg {
        Some((-acc) as i64)
    } else if acc < limit {
        Some(acc as i64)
    } else {
        None
    }
}

/// `c` from `i` on, with every doubled quote read as one quote, appended to `out`.
proof fn lemma_unescape_step(c: Seq<u8>, i: int)
    requires
        0 <= i < c.len(),
    ensures
        (i + 1 < c.len() && c[i] == 39 && c[i + 1] == 39) ==> unescape(c.subrange(i, c.len() as int))
            == seq![39u8] + unescape(c.subrange(i + 2, c.len() as int)),
        !(i + 1 < c.len() && c[i] == 39 && c[i + 1] == 39) ==> unescape(
            c.subrange(i, c.len() as int),
        ) == seq![c[i]] + unescape(c.subrange(i + 1, c.len() as int)),
{
    let d = c.subrange(i, c.len() as int);
    if d.len() >= 2 {
        assert(d.subrange(2, d.len() as int) =~= c.subrange(i + 2, c.len() as int));
    }
    assert(d.subrange(1, d.len() as int) =~= c.subrange(i + 1, c.len() as int));
}

/// The text of a string token, if its contents are valid UTF-8.
fn string_value(b: &[u8], tk: Token) -> (r: Option<String>)
    requires
        token_wf(b@, tk),
        tk.kind == TokenKind::Str,
    ensures
        match r {
            Some(s) => valid_utf8(unescape(string_raw(b@, tk))) && s@ == decode_utf8(
                unescape(string_raw(b@, tk)),
            ),
            None => !valid_utf8(unescape(string_raw(b@, tk))),
        },
{
    let raw = &b[tk.start + 1..tk.end - 1];
    let ghost c = raw@;
    let mut out: Vec<u8> = Vec::new();
    let mut i: usize = 0;
    assert(c.subrange(0, c.len() as int) =~= c);
    while i < raw.len()
        invariant
            c == raw@,
            0 <= i <= c.len(),
            unescape(c) == out@ + unescape(c.subrange(i as int, c.len() as int)),
        decreases c.len() - i,
    {
        proof {
            lemma_unescape_step(c, i as int);
        }
        let ghost prev = out@;
        if raw[i] == 39 && i + 1 < raw.len() && raw[i + 1] == 39 {
            out.push(39);
            i = i + 2;
            assert(prev + (seq![39u8] + unescape(c.subrange(i as int, c.len() as int))) =~= out@
                + unescape(c.subrange(i as int, c.len() as int)));
        } else {
            out.push(raw[i]);
            i = i + 1;
            assert(prev + (seq![c[i - 1]] + unescape(c.subrange(i as int, c.len() as int)))
                =~= out@ + unescape(c.subrange(i as int, c.len() as int)));
        }
    }
    assert(c.subrange(c.len() as int, c.len() as int) =~= Seq::<u8>::empty());
    assert(out@ + Seq::<u8>::empty() =~= out@);
    match utf8_to_string(out.as_slice()) {
        Ok(s) => Some(s),
        Err(_) => None,
    }
}

/// literal := integer | string | TRUE | FALSE | NULL
fn parse_literal(b: &[u8], t: &[Token], pos: usize) -> (r: core::result::Result<(Literal, usize), ParseErr>)
    requires
        tokens_wf(b@, t@),
    ensures
        match p_literal(b@, t@, pos as int) {
            Ok((v, p)) => r matches Ok((x, q)) && x@ == v && q == p,
            Err(e) => r matches Err(e2) && e2 == e,
        },
{
    match kind_of(t, pos) {
        Some(TokenKind::Int) => {
            let tk = t[pos];
            assert(token_wf(b@, t@[pos as int]));
            match int_token_value(b, tk) {
                Some(v) => Ok((Literal::Integer(v), pos + 1)),
                None => Err(ParseErr::BadInteger { at: pos }),
            }
        },
        Some(TokenKind::Str) => {
            let tk = t[pos];
            assert(token_wf(b@, t@[pos as int]));
            match string_value(b, tk) {
                Some(s) => Ok((Literal::String(s), pos + 1)),
                None => Err(ParseErr::BadString { at: pos }),
            }
        },
        Some(TokenKind::Keyword(Keyword::True)) => Ok((Literal::Boolean(true), pos + 1)),
        Some(TokenKind::Keyword(Keyword::False)) => Ok((Literal::Boolean(false), pos + 1)),
        Some(TokenKind::Keyword(Keyword::Null)) => Ok((Literal::Null, pos + 1)),
        _ => Err(ParseErr::Unexpected { at: pos, expected: E_LITERAL }),
    }
}

/// The exec result `r` is the one the grammar gives, `s`.
pub open spec fn expr_agrees(s: PRes<ExprV>, r: core::result::Result<(Expr, usize), ParseErr>) -> bool {
    match s {
        Ok((v, p)) => r matches Ok((x, q)) && x@ == v && q == p,
        Err(e) => r matches Err(e2) && e2 == e,
    }
}

/// Whether token `pos` is keyword `k`.
fn is_kw(t: &[Token], pos: usize, k: Keyword) -> (r: bool)
    ensures
        r == at_kw(t@, pos as int, k),
        r ==> pos < t.len(),
{
    pos < t.len() && t[pos].kind == TokenKind::Keyword(k)
}

/// The comparison operator of a token kind, if it is one.
fn comparison_op(k: TokenKind) -> (r: Option<BinaryOp>)
    ensures
        r == comparison_of(k),
{
    match k {
        TokenKind::Eq => Some(BinaryOp::Eq),
        TokenKind::Lt => Some(BinaryOp::Lt),
        TokenKind::Gt => Some(BinaryOp::Gt),
        TokenKind::Le => Some(BinaryOp::Le),
        TokenKind::Ge => Some(BinaryOp::Ge),
        TokenKind::Ne => Some(BinaryOp::Ne),
        _ => None,
    }
}

/// operand := literal | ident | '(' expr ')'
fn parse_operand(b: &[u8], t: &[Token], pos: usize) -> (r: core::result::Result<(Expr, usize), ParseErr>)
    requires
        tokens_wf(b@, t@),
        pos <= t@.len(),
    ensures
        expr_agrees(p_operand(b@, t@, pos as int), r),
    decreases t@.len() - pos, 0int,
{
    match kind_of(t, pos) {
        Some(TokenKind::Ident) => {
            assert(token_wf(b@, t@[pos as int]));
            let s = ident_string(b, t[pos]);
            Ok((Expr::Column(s), pos + 1))
        },
        Some(TokenKind::LParen) => {
            proof {
                lemma_or_advances(b@, t@, pos + 1);
            }
            match parse_or(b, t, pos + 1) {
                Err(e) => Err(e),
                Ok((e, p)) => if is_kind(t, p, TokenKind::RParen) {
                    Ok((e, p + 1))
                } else {
                    Err(ParseErr::Unexpected { at: p, expected: T_RPAREN })
                },
            }
        },
        Some(TokenKind::Int) | Some(TokenKind::Str) | Some(TokenKind::Keyword(Keyword::True))
        | Some(TokenKind::Keyword(Keyword::False)) | Some(TokenKind::Keyword(Keyword::Null)) => {
            match parse_literal(b, t, pos) {
                Ok((l, p)) => Ok((Expr::Literal(l), p)),
                Err(e) => Err(e),
            }
        },
        _ => Err(ParseErr::Unexpected { at: pos, expected: E_OPERAND }),
    }
}

/// comparison := operand (comparison_of operand)?
fn parse_comparison(b: &[u8], t: &[Token], pos: usize) -> (r: core::result::Result<(Expr, usize), ParseErr>)
    requires
        tokens_wf(b@, t@),
        pos <= t@.len(),
    ensures
        expr_agrees(p_comparison(b@, t@, pos as int), r),
    decreases t@.len() - pos, 1int,
{
    proof {
        lemma_operand_advances(b@, t@, pos as int);
    }
    match parse_operand(b, t, pos) {
        Err(e) => Err(e),
        Ok((l, p1)) => match kind_of(t, p1) {
            Some(k) => match comparison_op(k) {
                Some(op) => match parse_operand(b, t, p1 + 1) {
                    Ok((r, p2)) => Ok((Expr::Binary { op, left: Box::new(l), right: Box::new(r) }, p2)),
                    Err(e) => Err(e),
                },
                None => Ok((l, p1)),
            },
            None => Ok((l, p1)),
        },
    }
}

/// not_expr := 'NOT' not_expr | comparison
fn parse_not(b: &[u8], t: &[Token], pos: usize) -> (r: core::result::Result<(Expr, usize), ParseErr>)
    requires
        tokens_wf(b@, t@),
        pos <= t@.len(),
    ensures
        expr_agrees(p_not(b@, t@, pos as int), r),
    decreases t@.len() - pos, 2int,
{
    if is_kw(t, pos, Keyword::Not) {
        match parse_not(b, t, pos + 1) {
            Ok((e, p)) => Ok((Expr::Not(Box::new(e)), p)),
            Err(e) => Err(e),
        }
    } else {
        parse_comparison(b, t, pos)
    }
}

/// and_expr := not_expr ('AND' not_expr)*
fn parse_and(b: &[u8], t: &[Token], pos: usize) -> (r: core::result::Result<(Expr, usize), ParseErr>)
    requires
        tokens_wf(b@, t@),
        pos <= t@.len(),
    ensures
        expr_agrees(p_and(b@, t@, pos as int), r),
    decreases t@.len() - pos, 4int,
{
    proof {
        lemma_not_advances(b@, t@, pos as int);
    }
    let (mut l, mut p) = match parse_not(b, t, pos) {
        Err(e) => return Err(e),
        Ok(x) => x,
    };
    while is_kw(t, p, Keyword::And)
        invariant
            tokens_wf(b@, t@),
            pos < p <= t@.len(),
            p_and(b@, t@, pos as int) == p_and_rest(b@, t@, l@, p as int),
        decreases t@.len() - p,
    {
        proof {
            lemma_not_advances(b@, t@, p + 1);
        }
        match parse_not(b, t, p + 1) {
            Err(e) => return Err(e),
            Ok((r, p2)) => {
                l = Expr::Binary { op: BinaryOp::And, left: Box::new(l), right: Box::new(r) };
                p = p2;
            },
        }
    }
    Ok((l, p))
}

/// expr := or_expr := and_expr ('OR' and_expr)*
fn parse_or(b: &[u8], t: &[Token], pos: usize) -> (r: core::result::Result<(Expr, usize), ParseErr>)
    requires
        tokens_wf(b@, t@),
        pos <= t@.len(),
    ensures
        expr_agrees(p_or(b@, t@, pos as int), r),
    decreases t@.len() - pos, 6int,
{
    proof {
        lemma_and_advances(b@, t@, pos as int);
    }
    let (mut l, mut p) = match parse_and(b, t, pos) {
        Err(e) => return Err(e),
        Ok(x) => x,
    };
    while is_kw(t, p, Keyword::Or)
        invariant
            tokens_wf(b@, t@),
            pos < p <= t@.len(),
            p_or(b@, t@, pos as int) == p_or_rest(b@, t@, l@, p as int),
        decreases t@.len() - p,
    {
        proof {
            lemma_and_advances(b@, t@, p + 1);
        }
        match parse_and(b, t, p + 1) {
            Err(e) => return Err(e),
            Ok((r, p2)) => {
                l = Expr::Binary { op: BinaryOp::Or, left: Box::new(l), right: Box::new(r) };
                p = p2;
            },
        }
    }
    Ok((l, p))
}

/// Token `pos` must have kind `k`; the index after it.
fn expect(t: &[Token], pos: usize, k: TokenKind, expected: u64) -> (r: core::result::Result<usize, ParseErr>)
    ensures
        match p_expect(t@, pos as int, k, expected) {
            Ok(p) => r == Ok::<usize, ParseErr>(p as usize) && pos < t.len(),
            Err(e) => r == Err::<usize, ParseErr>(e),
        },
{
    if is_kind(t, pos, k) {
        Ok(pos + 1)
    } else {
        Err(ParseErr::Unexpected { at: pos, expected })
    }
}

/// ident
fn parse_ident(b: &[u8], t: &[Token], pos: usize) -> (r: core::result::Result<(String, usize), ParseErr>)
    requires
        tokens_wf(b@, t@),
    ensures
        match p_ident(b@, t@, pos as int) {
            Ok((v, p)) => r matches Ok((x, q)) && x@ == v && q == p,
            Err(e) => r matches Err(e2) && e2 == e,
        },
{
    if is_kind(t, pos, TokenKind::Ident) {
        assert(token_wf(b@, t@[pos as int]));
        Ok((ident_string(b, t[pos]), pos + 1))
    } else {
        Err(ParseErr::Unexpected { at: pos, expected: T_IDENT })
    }
}

/// type := INTEGER | VARCHAR | BOOLEAN
fn parse_data_type(t: &[Token], pos: usize) -> (r: core::result::Result<(DataType, usize), ParseErr>)
    ensures
        match p_data_type(t@, pos as int) {
            Ok((v, p)) => r matches Ok((x, q)) && x == v && q == p,
            Err(e) => r matches Err(e2) && e2 == e,
        },
{
    if is_kw(t, pos, Keyword::Integer) {
        Ok((DataType::Integer, pos + 1))
    } else if is_kw(t, pos, Keyword::Varchar) {
        Ok((DataType::Varchar, pos + 1))
    } else if is_kw(t, pos, Keyword::Boolean) {
        Ok((DataType::Boolean, pos + 1))
    } else {
        Err(ParseErr::Unexpected { at: pos, expected: E_TYPE })
    }
}

/// column_def := ident type ('NOT' 'NULL' | 'NULL')?
fn parse_column_def(b: &[u8], t: &[Token], pos: usize) -> (r: core::result::Result<(ColumnDef, usize), ParseErr>)
    requires
        tokens_wf(b@, t@),
    ensures
        match p_column_def(b@, t@, pos as int) {
            Ok((v, p)) => r matches Ok((x, q)) && x@ == v && q == p && pos < p <= t@.len(),
            Err(e) => r matches Err(e2) && e2 == e,
        },
{
    let (name, p1) = match parse_ident(b, t, pos) {
        Err(e) => return Err(e),
        Ok(x) => x,
    };
    let (data_type, p2) = match parse_data_type(t, p1) {
        Err(e) => return Err(e),
        Ok(x) => x,
    };
    if is_kw(t, p2, Keyword::Not) {
        if is_kw(t, p2 + 1, Keyword::Null) {
            Ok((ColumnDef { name, data_type, nullable: false }, p2 + 2))
        } else {
            Err(ParseErr::Unexpected { at: p2 + 1, expected: T_NULL })
        }
    } else if is_kw(t, p2, Keyword::Null) {
        Ok((ColumnDef { name, data_type, nullable: true }, p2 + 1))
    } else {
        Ok((ColumnDef { name, data_type, nullable: true }, p2))
    }
}

/// create_table := CREATE TABLE ident '(' column_def (',' column_def)* ')'
/// (token `pos` is `CREATE`)
#[verifier::loop_isolation(false)]
fn parse_create(b: &[u8], t: &[Token], pos: usize) -> (r: core::result::Result<(Statement, usize), ParseErr>)
    requires
        tokens_wf(b@, t@),
        pos < t.len(),
    ensures
        match p_create(b@, t@, pos as int) {
            Ok((v, p)) => r matches Ok((x, q)) && x@ == v && q == p,
            Err(e) => r matches Err(e2) && e2 == e,
        },
{
    let p1 = match expect(t, pos + 1, TokenKind::Keyword(Keyword::Table), T_TABLE) {
        Err(e) => return Err(e),
        Ok(p) => p,
    };
    let (table_name, p2) = match parse_ident(b, t, p1) {
        Err(e) => return Err(e),
        Ok(x) => x,
    };
    let p3 = match expect(t, p2, TokenKind::LParen, T_LPAREN) {
        Err(e) => return Err(e),
        Ok(p) => p,
    };
    let (c, p4) = match parse_column_def(b, t, p3) {
        Err(e) => return Err(e),
        Ok(x) => x,
    };
    let ghost first = c@;
    let mut columns: Vec<ColumnDef> = Vec::new();
    columns.push(c);
    assert(defs_view(columns@) =~= seq![first]);
    let mut p = p4;
    while is_kind(t, p, TokenKind::Comma)
        invariant
            tokens_wf(b@, t@),
            p3 < p <= t@.len(),
            p_column_defs_rest(b@, t@, seq![first], p4 as int) == p_column_defs_rest(
                b@,
                t@,
                defs_view(columns@),
                p as int,
            ),
        decreases t@.len() - p,
    {
        match parse_column_def(b, t, p + 1) {
            Err(e) => return Err(e),
            Ok((c, q)) => {
                let ghost prev = columns@;
                columns.push(c);
                assert(defs_view(columns@) =~= defs_view(prev).push(c@));
                p = q;
            },
        }
    }
    let p6 = match expect(t, p, TokenKind::RParen, T_RPAREN | T_COMMA) {
        Err(e) => return Err(e),
        Ok(q) => q,
    };
    Ok((Statement::CreateTable(CreateTableStatement { table_name, columns }), p6))
}

/// tuple := '(' literal (',' literal)* ')'
#[verifier::loop_isolation(false)]
fn parse_tuple(b: &[u8], t: &[Token], pos: usize) -> (r: core::result::Result<(Vec<Literal>, usize), ParseErr>)
    requires
        tokens_wf(b@, t@),
    ensures
        match p_tuple(b@, t@, pos as int) {
            Ok((v, p)) => r matches Ok((x, q)) && literals_view(x@) == v && q == p && pos < p
                <= t@.len(),
            Err(e) => r matches Err(e2) && e2 == e,
        },
{
    let p1 = match expect(t, pos, TokenKind::LParen, T_LPAREN) {
        Err(e) => return Err(e),
        Ok(p) => p,
    };
    let (l, p2) = match parse_literal(b, t, p1) {
        Err(e) => return Err(e),
        Ok(x) => x,
    };
    let ghost first = l@;
    let mut values: Vec<Literal> = Vec::new();
    values.push(l);
    assert(literals_view(values@) =~= seq![first]);
    let mut p = p2;
    while is_kind(t, p, TokenKind::Comma)
        invariant
            pos < p <= t@.len(),
            p_literals_rest(b@, t@, seq![first], p2 as int) == p_literals_rest(
                b@,
                t@,
                literals_view(values@),
                p as int,
            ),
        decreases t@.len() - p,
    {
        match parse_literal(b, t, p + 1) {
            Err(e) => return Err(e),
            Ok((l, q)) => {
                let ghost prev = values@;
                values.push(l);
                assert(literals_view(values@) =~= literals_view(prev).push(l@));
                p = q;
            },
        }
    }
    let p4 = match expect(t, p, TokenKind::RParen, T_RPAREN | T_COMMA) {
        Err(e) => return Err(e),
        Ok(q) => q,
    };
    Ok((values, p4))
}

/// The optional column list of an insert: `('(' ident (',' ident)* ')')?`
#[verifier::loop_isolation(false)]
fn parse_insert_columns(b: &[u8], t: &[Token], pos: usize) -> (r: core::result::Result<(Option<Vec<String>>, usize), ParseErr>)
    requires
        tokens_wf(b@, t@),
        pos <= t@.len(),
    ensures
        match p_insert_columns(b@, t@, pos as int) {
            Ok((v, p)) => r matches Ok((x, q)) && q == p && pos <= p <= t@.len() && match x {
                Some(cs) => v == Some(names_view(cs@)),
                None => v is None,
            },
            Err(e) => r matches Err(e2) && e2 == e,
        },
{
    if !is_kind(t, pos, TokenKind::LParen) {
        return Ok((None, pos));
    }
    let (c, p1) = match parse_ident(b, t, pos + 1) {
        Err(e) => return Err(e),
        Ok(x) => x,
    };
    let ghost first = c@;
    let mut names: Vec<String> = Vec::new();
    names.push(c);
    assert(names_view(names@) =~= seq![first]);
    let mut p = p1;
    while is_kind(t, p, TokenKind::Comma)
        invariant
            pos < p <= t@.len(),
            p_idents_rest(b@, t@, seq![first], p1 as int) == p_idents_rest(
                b@,
                t@,
                names_view(names@),
                p as int,
            ),
        decreases t@.len() - p,
    {
        match parse_ident(b, t, p + 1) {
            Err(e) => return Err(e),
            Ok((c, q)) => {
                let ghost prev = names@;
                names.push(c);
                assert(names_view(names@) =~= names_view(prev).push(c@));
                p = q;
            },
        }
    }
    let p3 = match expect(t, p, TokenKind::RParen, T_RPAREN | T_COMMA) {
        Err(e) => return Err(e),
        Ok(q) => q,
    };
    Ok((Some(names), p3))
}

/// insert := INSERT INTO ident ('(' ident (',' ident)* ')')? VALUES tuple (',' tuple)*
/// (token `pos` is `INSERT`)
#[verifier::loop_isolation(false)]
fn parse_insert(b: &[u8], t: &[Token], pos: usize) -> (r: core::result::Result<(Statement, usize), ParseErr>)
    requires
        tokens_wf(b@, t@),
        pos < t.len(),
    ensures
        match p_insert(b@, t@, pos as int) {
            Ok((v, p)) => r matches Ok((x, q)) && x@ == v && q == p,
            Err(e) => r matches Err(e2) && e2 == e,
        },
{
    let p1 = match expect(t, pos + 1, TokenKind::Keyword(Keyword::Into), T_INTO) {
        Err(e) => return Err(e),
        Ok(p) => p,
    };
    let (table_name, p2) = match parse_ident(b, t, p1) {
        Err(e) => return Err(e),
        Ok(x) => x,
    };
    let (columns, p3) = match parse_insert_columns(b, t, p2) {
        Err(e) => return Err(e),
        Ok(x) => x,
    };
    let expected = if columns.is_none() {
        T_VALUES | T_LPAREN
    } else {
        T_VALUES
    };
    let p4 = match expect(t, p3, TokenKind::Keyword(Keyword::Values), expected) {
        Err(e) => return Err(e),
        Ok(p) => p,
    };
    let (tp, p5) = match parse_tuple(b, t, p4) {
        Err(e) => return Err(e),
        Ok(x) => x,
    };
    let ghost first = literals_view(tp@);
    let mut values: Vec<Vec<Literal>> = Vec::new();
    values.push(tp);
    assert(tuples_view(values@) =~= seq![first]);
    let mut p = p5;
    while is_kind(t, p, TokenKind::Comma)
        invariant
            pos < p <= t@.len(),
            p_tuples_rest(b@, t@, seq![first], p5 as int) == p_tuples_rest(
                b@,
                t@,
                tuples_view(values@),
                p as int,
            ),
        decreases t@.len() - p,
    {
        match parse_tuple(b, t, p + 1) {
            Err(e) => return Err(e),
            Ok((tp, q)) => {
                let ghost prev = values@;
                let ghost v = literals_view(tp@);
                values.push(tp);
                assert(tuples_view(values@) =~= tuples_view(prev).push(v));
                p = q;
            },
        }
    }
    Ok((Statement::Insert(InsertStatement { table_name, columns, values }), p))
}

/// select_list := '*' | expr (',' expr)*
#[verifier::loop_isolation(false)]
fn parse_select_list(b: &[u8], t: &[Token], pos: usize) -> (r: core::result::Result<(Vec<SelectItem>, usize), ParseErr>)
    requires
        tokens_wf(b@, t@),
        pos <= t@.len(),
    ensures
        match p_select_list(b@, t@, pos as int) {
            Ok((v, p)) => r matches Ok((x, q)) && items_view(x@) == v && q == p && pos < p
                <= t@.len(),
            Err(e) => r matches Err(e2) && e2 == e,
        },
{
    if is_kind(t, pos, TokenKind::Star) {
        let mut items: Vec<SelectItem> = Vec::new();
        items.push(SelectItem::Wildcard);
        assert(items_view(items@) =~= seq![SelectItemV::Wildcard]);
        return Ok((items, pos + 1));
    }
    proof {
        lemma_or_advances(b@, t@, pos as int);
    }
    let (e, p1) = match parse_or(b, t, pos) {
        Err(e) => return Err(e),
        Ok(x) => x,
    };
    let ghost first = SelectItemV::Expr(e@);
    let mut items: Vec<SelectItem> = Vec::new();
    items.push(SelectItem::Expr(e));
    assert(items_view(items@) =~= seq![first]);
    let mut p = p1;
    while is_kind(t, p, TokenKind::Comma)
        invariant
            pos < p <= t@.len(),
            p_select_rest(b@, t@, seq![first], p1 as int) == p_select_rest(
                b@,
                t@,
                items_view(items@),
                p as int,
            ),
        decreases t@.len() - p,
    {
        proof {
            lemma_or_advances(b@, t@, p + 1);
        }
        match parse_or(b, t, p + 1) {
            Err(e) => return Err(e),
            Ok((e, q)) => {
                let ghost prev = items@;
                let ghost v = SelectItemV::Expr(e@);
                items.push(SelectItem::Expr(e));
                assert(items_view(items@) =~= items_view(prev).push(v));
                p = q;
            },
        }
    }
    Ok((items, p))
}

/// ('WHERE' expr)?
fn parse_where(b: &[u8], t: &[Token], pos: usize) -> (r: core::result::Result<(Option<Expr>, usize), ParseErr>)
    requires
        tokens_wf(b@, t@),
        pos <= t@.len(),
    ensures
        match p_where(b@, t@, pos as int) {
            Ok((v, p)) => r matches Ok((x, q)) && opt_expr_view(x) == v && q == p && pos <= p
                <= t@.len(),
            Err(e) => r matches Err(e2) && e2 == e,
        },
{
    if is_kw(t, pos, Keyword::Where) {
        proof {
            lemma_or_advances(b@, t@, pos + 1);
        }
        match parse_or(b, t, pos + 1) {
            Err(e) => Err(e),
            Ok((e, p)) => Ok((Some(e), p)),
        }
    } else {
        Ok((None, pos))
    }
}

/// select := SELECT select_list FROM ident ('WHERE' expr)?
/// (token `pos` is `SELECT`)
fn parse_select(b: &[u8], t: &[Token], pos: usize) -> (r: core::result::Result<(Statement, usize), ParseErr>)
    requires
        tokens_wf(b@, t@),
        pos < t.len(),
    ensures
        match p_select(b@, t@, pos as int) {
            Ok((v, p)) => r matches Ok((x, q)) && x@ == v && q == p,
            Err(e) => r matches Err(e2) && e2 == e,
        },
{
    let (columns, p1) = match parse_select_list(b, t, pos + 1) {
        Err(e) => return Err(e),
        Ok(x) => x,
    };
    let p2 = match expect(t, p1, TokenKind::Keyword(Keyword::From), T_FROM | T_COMMA) {
        Err(e) => return Err(e),
        Ok(p) => p,
    };
    let (table, p3) = match parse_ident(b, t, p2) {
        Err(e) => return Err(e),
        Ok(x) => x,
    };
    let (predicate, p4) = match parse_where(b, t, p3) {
        Err(e) => return Err(e),
        Ok(x) => x,
    };
    Ok((Statement::Select(SelectStatement { columns, table, predicate }), p4))
}

/// assignment := ident '=' expr
fn parse_assignment(b: &[u8], t: &[Token], pos: usize) -> (r: core::result::Result<((String, Expr), usize), ParseErr>)
    requires
        tokens_wf(b@, t@),
    ensures
        match p_assignment(b@, t@, pos as int) {
            Ok((v, p)) => r matches Ok((x, q)) && x.0@ == v.0 && x.1@ == v.1 && q == p && pos < p
                <= t@.len(),
            Err(e) => r matches Err(e2) && e2 == e,
        },
{
    let (c, p1) = match parse_ident(b, t, pos) {
        Err(e) => return Err(e),
        Ok(x) => x,
    };
    let p2 = match expect(t, p1, TokenKind::Eq, T_EQ) {
        Err(e) => return Err(e),
        Ok(p) => p,
    };
    proof {
        lemma_or_advances(b@, t@, p2 as int);
    }
    match parse_or(b, t, p2) {
        Err(e) => Err(e),
        Ok((e, p3)) => Ok(((c, e), p3)),
    }
}

/// update := UPDATE ident SET assignment (',' assignment)* ('WHERE' expr)?
/// (token `pos` is `UPDATE`)
#[verifier::loop_isolation(false)]
fn parse_update(b: &[u8], t: &[Token], pos: usize) -> (r: core::result::Result<(Statement, usize), ParseErr>)
    requires
        tokens_wf(b@, t@),
        pos < t.len(),
    ensures
        match p_update(b@, t@, pos as int) {
            Ok((v, p)) => r matches Ok((x, q)) && x@ == v && q == p,
            Err(e) => r matches Err(e2) && e2 == e,
        },
{
    let (table, p1) = match parse_ident(b, t, pos + 1) {
        Err(e) => return Err(e),
        Ok(x) => x,
    };
    let p2 = match expect(t, p1, TokenKind::Keyword(Keyword::SetKw), T_SET) {
        Err(e) => return Err(e),
        Ok(p) => p,
    };
    let (a, p3) = match parse_assignment(b, t, p2) {
        Err(e) => return Err(e),
        Ok(x) => x,
    };
    let ghost first = (a.0@, a.1@);
    let mut assignments: Vec<(String, Expr)> = Vec::new();
    assignments.push(a);
    assert(assignments_view(assignments@) =~= seq![first]);
    let mut p = p3;
    while is_kind(t, p, TokenKind::Comma)
        invariant
            pos < p <= t@.len(),
            p_assignments_rest(b@, t@, seq![first], p3 as int) == p_assignments_rest(
                b@,
                t@,
                assignments_view(assignments@),
                p as int,
            ),
        decreases t@.len() - p,
    {
        match parse_assignment(b, t, p + 1) {
            Err(e) => return Err(e),
            Ok((a, q)) => {
                let ghost prev = assignments@;
                let ghost v = (a.0@, a.1@);
                assignments.push(a);
                assert(assignments_view(assignments@) =~= assignments_view(prev).push(v));
                p = q;
            },
        }
    }
    let (predicate, p5) = match parse_where(b, t, p) {
        Err(e) => return Err(e),
        Ok(x) => x,
    };
    Ok((Statement::Update(UpdateStatement { table, assignments, predicate }), p5))
}

/// delete := DELETE FROM ident ('WHERE' expr)?
/// (token `pos` is `DELETE`)
fn parse_delete(b: &[u8], t: &[Token], pos: usize) -> (r: core::result::Result<(Statement, usize), ParseErr>)
    requires
        tokens_wf(b@, t@),
        pos < t.len(),
    ensures
        match p_delete(b@, t@, pos as int) {
            Ok((v, p)) => r matches Ok((x, q)) && x@ == v && q == p,
            Err(e) => r matches Err(e2) && e2 == e,
        },
{
    let p1 = match expect(t, pos + 1, TokenKind::Keyword(Keyword::From), T_FROM) {
        Err(e) => return Err(e),
        Ok(p) => p,
    };
    let (table, p2) = match parse_ident(b, t, p1) {
        Err(e) => return Err(e),
        Ok(x) => x,
    };
    let (predicate, p3) = match parse_where(b, t, p2) {
        Err(e) => return Err(e),
        Ok(x) => x,
    };
    Ok((Statement::Delete(DeleteStatement { table, predicate }), p3))
}

/// statement := create_table | insert | select | update | delete
fn parse_statement(b: &[u8], t: &[Token]) -> (r: core::result::Result<(Statement, usize), ParseErr>)
    requires
        tokens_wf(b@, t@),
    ensures
        match p_statement(b@, t@) {
            Ok((v, p)) => r matches Ok((x, q)) && x@ == v && q == p,
            Err(e) => r matches Err(e2) && e2 == e,
        },
{
    reveal(p_statement);
    if is_kw(t, 0, Keyword::Create) {
        parse_create(b, t, 0)
    } else if is_kw(t, 0, Keyword::Insert) {
        parse_insert(b, t, 0)
    } else if is_kw(t, 0, Keyword::Select) {
        parse_select(b, t, 0)
    } else if is_kw(t, 0, Keyword::Update) {
        parse_update(b, t, 0)
    } else if is_kw(t, 0, Keyword::Delete) {
        parse_delete(b, t, 0)
    } else {
        Err(ParseErr::Unexpected { at: 0, expected: E_STATEMENT })
    }
}

/// Parses the tokens `t` of the input `b`: one statement, an optional `;`,
/// then nothing.
pub fn parse_token_seq(b: &[u8], t: &[Token]) -> (r: core::result::Result<Statement, ParseErr>)
    requires
        tokens_wf(b@, t@),
    ensures
        match parse_tokens(b@, t@) {
            Ok(v) => r matches Ok(x) && x@ == v,
            Err(e) => r == Err::<Statement, ParseErr>(e),
        },
{
    let (st, p) = match parse_statement(b, t) {
        Err(e) => return Err(e),
        Ok(x) => x,
    };
    let q = if is_kind(t, p, TokenKind::Semi) {
        p + 1
    } else {
        p
    };
    if q >= t.len() {
        Ok(st)
    } else {
        Err(ParseErr::Extra { at: q })
    }
}

} // verus!
