//! Grammar of the SQL subset, over the tokens of the input.
//!
//! ```text
//! statement    := (create_table | insert | select | update | delete) ';'?
//! create_table := CREATE TABLE ident '(' column_def (',' column_def)* ')'
//! column_def   := ident type ('NOT' 'NULL' | 'NULL')?
//! type         := INTEGER | VARCHAR | BOOLEAN
//! insert       := INSERT INTO ident ('(' ident (',' ident)* ')')? VALUES tuple (',' tuple)*
//! tuple        := '(' literal (',' literal)* ')'
//! select       := SELECT select_list FROM ident ('WHERE' expr)?
//! select_list  := '*' | expr (',' expr)*
//! update       := UPDATE ident SET assignment (',' assignment)* ('WHERE' expr)?
//! assignment   := ident '=' expr
//! delete       := DELETE FROM ident ('WHERE' expr)?
//! expr         := or_expr
//! or_expr      := and_expr ('OR' and_expr)*
//! and_expr     := not_expr ('AND' not_expr)*
//! not_expr     := 'NOT' not_expr | comparison
//! comparison   := operand (comparison_of operand)?
//! comparison_of       := '=' | '<' | '>' | '<=' | '>=' | '<>'
//! operand      := literal | ident | '(' expr ')'
//! literal      := integer | string | TRUE | FALSE | NULL
//! ```
//!
//! Precedence, loosest first: `OR`, `AND`, `NOT`, comparison; `AND` and `OR`
//! associate to the left. Each rule is a spec function over the token
//! sequence; [`super::descent`] holds the executable parser proved to compute it.
use vstd::prelude::*;
use vstd::utf8::{decode_utf8, valid_utf8};

use super::ast::{
    BinaryOp, ColumnDef, ColumnDefV, DataType, Expr, ExprV, Literal, LiteralV, SelectItem,
    SelectItemV, Statement, StatementV,
};
use super::lexer::{
    digits_end, ident_end, is_digit, is_ident_char, lemma_next_token_bounds, lemma_scan_bounds,
    lex, lex_from, next_token, skip_ws, string_end, Keyword, Token, TokenKind,
};

verus! {

/// Why the tokens do not form a statement.
#[derive(Debug, Clone, Copy, PartialEq, Eq, Structural)]
pub enum ParseErr {
    /// Token `at` (or the end of the tokens, when `at` is their number) cannot
    /// come there; `expected` is the set of terminals that could.
    Unexpected { at: usize, expected: u64 },
    /// A complete statement is followed by token `at`.
    Extra { at: usize },
    /// Integer literal `at` does not fit in an `i64`.
    BadInteger { at: usize },
    /// String literal `at` does not hold valid UTF-8.
    BadString { at: usize },
}

// Terminal sets, one bit per terminal.
pub const T_CREATE: u64 = 0x1;
pub const T_TABLE: u64 = 0x2;
pub const T_INTEGER: u64 = 0x4;
pub const T_VARCHAR: u64 = 0x8;
pub const T_BOOLEAN: u64 = 0x10;
pub const T_NOT: u64 = 0x20;
pub const T_NULL: u64 = 0x40;
pub const T_INSERT: u64 = 0x80;
pub const T_INTO: u64 = 0x100;
pub const T_VALUES: u64 = 0x200;
pub const T_SELECT: u64 = 0x400;
pub const T_FROM: u64 = 0x800;
pub const T_WHERE: u64 = 0x1000;
pub const T_UPDATE: u64 = 0x2000;
pub const T_SET: u64 = 0x4000;
pub const T_DELETE: u64 = 0x8000;
pub const T_AND: u64 = 0x1_0000;
pub const T_OR: u64 = 0x2_0000;
pub const T_TRUE: u64 = 0x4_0000;
pub const T_FALSE: u64 = 0x8_0000;
pub const T_IDENT: u64 = 0x10_0000;
pub const T_INT: u64 = 0x20_0000;
pub const T_STR: u64 = 0x40_0000;
pub const T_LPAREN: u64 = 0x80_0000;
pub const T_RPAREN: u64 = 0x100_0000;
pub const T_COMMA: u64 = 0x200_0000;
pub const T_SEMI: u64 = 0x400_0000;
pub const T_STAR: u64 = 0x800_0000;
pub const T_EQ: u64 = 0x1000_0000;
pub const T_LT: u64 = 0x2000_0000;
pub const T_GT: u64 = 0x4000_0000;
pub const T_LE: u64 = 0x8000_0000;
pub const T_GE: u64 = 0x1_0000_0000;
pub const T_NE: u64 = 0x2_0000_0000;

/// The number of terminals.
pub const NUM_TERMINALS: u32 = 34;

/// The terminals that can start a literal.
pub const E_LITERAL: u64 = 0x20_0000 | 0x40_0000 | 0x4_0000 | 0x8_0000 | 0x40;

/// The terminals that can start an operand.
pub const E_OPERAND: u64 = 0x20_0000 | 0x40_0000 | 0x4_0000 | 0x8_0000 | 0x40 | 0x10_0000
    | 0x80_0000;

/// The terminals that can name a column type.
pub const E_TYPE: u64 = 0x4 | 0x8 | 0x10;

/// The terminals that can start a statement.
pub const E_STATEMENT: u64 = 0x1 | 0x80 | 0x400 | 0x2000 | 0x8000;

/// The result of parsing a phrase: its value and the index of the next token.
pub type PRes<T> = core::result::Result<(T, int), ParseErr>;

/// The kind of token `pos`, if there is one.
pub open spec fn kind_at(t: Seq<Token>, pos: int) -> Option<TokenKind> {
    if 0 <= pos < t.len() {
        Some(t[pos].kind)
    } else {
        None
    }
}

/// Whether token `pos` has kind `k`.
pub open spec fn at_kind(t: Seq<Token>, pos: int, k: TokenKind) -> bool {
    kind_at(t, pos) == Some(k)
}

/// Whether token `pos` is keyword `k`.
pub open spec fn at_kw(t: Seq<Token>, pos: int, k: Keyword) -> bool {
    at_kind(t, pos, TokenKind::Keyword(k))
}

/// Token `pos` cannot come there; `expected` could.
pub open spec fn unexpected(pos: int, expected: u64) -> ParseErr {
    ParseErr::Unexpected { at: pos as usize, expected }
}

/// The characters of an identifier token.
pub open spec fn ident_chars(b: Seq<u8>, tk: Token) -> Seq<char> {
    decode_utf8(b.subrange(tk.start as int, tk.end as int))
}

/// The bytes between the quotes of a string token.
pub open spec fn string_raw(b: Seq<u8>, tk: Token) -> Seq<u8> {
    b.subrange(tk.start + 1, tk.end - 1)
}

/// `c` with every doubled quote `''` read as one quote.
pub open spec fn unescape(c: Seq<u8>) -> Seq<u8>
    decreases c.len(),
{
    if c.len() == 0 {
        Seq::empty()
    } else if c.len() >= 2 && c[0] == 39 && c[1] == 39 {
        seq![39u8] + unescape(c.subrange(2, c.len() as int))
    } else {
        seq![c[0]] + unescape(c.subrange(1, c.len() as int))
    }
}

/// The decimal value of the digits `s..e` of `b`.
pub open spec fn digits_value(b: Seq<u8>, s: int, e: int) -> int
    decreases e - s,
{
    if e <= s {
        0
    } else {
        digits_value(b, s, e - 1) * 10 + (b[e - 1] - 48)
    }
}

/// The value of an integer token (`-?[0-9]+`).
pub open spec fn int_value(b: Seq<u8>, tk: Token) -> int {
    if b[tk.start as int] == 45 {
        -digits_value(b, tk.start + 1, tk.end as int)
    } else {
        digits_value(b, tk.start as int, tk.end as int)
    }
}

/// literal := integer | string | TRUE | FALSE | NULL
pub open spec fn p_literal(b: Seq<u8>, t: Seq<Token>, pos: int) -> PRes<LiteralV> {
    match kind_at(t, pos) {
        Some(TokenKind::Int) => {
            let v = int_value(b, t[pos]);
            if i64::MIN <= v <= i64::MAX {
                Ok((LiteralV::Integer(v as i64), pos + 1))
            } else {
                Err(ParseErr::BadInteger { at: pos as usize })
            }
        },
        Some(TokenKind::Str) => {
            let c = unescape(string_raw(b, t[pos]));
            if valid_utf8(c) {
                Ok((LiteralV::String(decode_utf8(c)), pos + 1))
            } else {
                Err(ParseErr::BadString { at: pos as usize })
            }
        },
        Some(TokenKind::Keyword(Keyword::True)) => Ok((LiteralV::Boolean(true), pos + 1)),
        Some(TokenKind::Keyword(Keyword::False)) => Ok((LiteralV::Boolean(false), pos + 1)),
        Some(TokenKind::Keyword(Keyword::Null)) => Ok((LiteralV::Null, pos + 1)),
        _ => Err(unexpected(pos, E_LITERAL)),
    }
}

/// Whether a token of kind `k` starts a literal.
pub open spec fn starts_literal(k: TokenKind) -> bool {
    k == TokenKind::Int || k == TokenKind::Str || k == TokenKind::Keyword(Keyword::True) || k
        == TokenKind::Keyword(Keyword::False) || k == TokenKind::Keyword(Keyword::Null)
}

/// The comparison operator of a token kind, if it is one.
pub open spec fn comparison_of(k: TokenKind) -> Option<BinaryOp> {
    match k {
        TokenKind::Eq => Some(BinaryOp::Eq),
        TokenKind::Lt => Some(BinaryOp::Lt),
        TokenKind::Gt => Some(BinaryOp::Gt),
        TokenKind::Le => Some(BinaryOp::Le),
        TokenKind::Ge => Some(BinaryOp::Ge),
        TokenKind::Ne => Some(BinaryOp::Ne),
        _ => None,
    }
}

/// The binary expression `l op r`.
pub open spec fn bin(op: BinaryOp, l: ExprV, r: ExprV) -> ExprV {
    ExprV::Binary(op, Box::new(l), Box::new(r))
}

/// operand := literal | ident | '(' expr ')'
pub open spec fn p_operand(b: Seq<u8>, t: Seq<Token>, pos: int) -> PRes<ExprV>
    decreases t.len() - pos, 0int,
{
    match kind_at(t, pos) {
        Some(TokenKind::Ident) => Ok((ExprV::Column(ident_chars(b, t[pos])), pos + 1)),
        Some(TokenKind::LParen) => match p_or(b, t, pos + 1) {
            Err(e) => Err(e),
            Ok((e, p)) => if at_kind(t, p, TokenKind::RParen) {
                Ok((e, p + 1))
            } else {
                Err(unexpected(p, T_RPAREN))
            },
        },
        Some(k) => if starts_literal(k) {
            match p_literal(b, t, pos) {
                Ok((l, p)) => Ok((ExprV::Literal(l), p)),
                Err(e) => Err(e),
            }
        } else {
            Err(unexpected(pos, E_OPERAND))
        },
        None => Err(unexpected(pos, E_OPERAND)),
    }
}

/// comparison := operand (comparison_of operand)?
pub open spec fn p_comparison(b: Seq<u8>, t: Seq<Token>, pos: int) -> PRes<ExprV>
    decreases t.len() - pos, 1int,
{
    match p_operand(b, t, pos) {
        Err(e) => Err(e),
        Ok((l, p1)) => match kind_at(t, p1) {
            Some(k) => match comparison_of(k) {
                Some(op) => if pos < p1 < t.len() {
                    match p_operand(b, t, p1 + 1) {
                        Ok((r, p2)) => Ok((bin(op, l, r), p2)),
                        Err(e) => Err(e),
                    }
                } else {
                    Err(unexpected(p1, 0))
                },
                None => Ok((l, p1)),
            },
            None => Ok((l, p1)),
        },
    }
}

/// not_expr := 'NOT' not_expr | comparison
pub open spec fn p_not(b: Seq<u8>, t: Seq<Token>, pos: int) -> PRes<ExprV>
    decreases t.len() - pos, 2int,
{
    if at_kw(t, pos, Keyword::Not) {
        match p_not(b, t, pos + 1) {
            Ok((e, p)) => Ok((ExprV::Not(Box::new(e)), p)),
            Err(e) => Err(e),
        }
    } else {
        p_comparison(b, t, pos)
    }
}

/// The `('AND' not_expr)*` that follows `l`.
pub open spec fn p_and_rest(b: Seq<u8>, t: Seq<Token>, l: ExprV, pos: int) -> PRes<ExprV>
    decreases t.len() - pos, 3int,
{
    if at_kw(t, pos, Keyword::And) {
        match p_not(b, t, pos + 1) {
            Ok((r, p)) => if pos < p <= t.len() {
                p_and_rest(b, t, bin(BinaryOp::And, l, r), p)
            } else {
                Err(unexpected(p, 0))
            },
            Err(e) => Err(e),
        }
    } else {
        Ok((l, pos))
    }
}

/// and_expr := not_expr ('AND' not_expr)*
pub open spec fn p_and(b: Seq<u8>, t: Seq<Token>, pos: int) -> PRes<ExprV>
    decreases t.len() - pos, 4int,
{
    match p_not(b, t, pos) {
        Ok((l, p)) => if pos < p <= t.len() {
            p_and_rest(b, t, l, p)
        } else {
            Err(unexpected(p, 0))
        },
        Err(e) => Err(e),
    }
}

/// The `('OR' and_expr)*` that follows `l`.
pub open spec fn p_or_rest(b: Seq<u8>, t: Seq<Token>, l: ExprV, pos: int) -> PRes<ExprV>
    decreases t.len() - pos, 5int,
{
    if at_kw(t, pos, Keyword::Or) {
        match p_and(b, t, pos + 1) {
            Ok((r, p)) => if pos < p <= t.len() {
                p_or_rest(b, t, bin(BinaryOp::Or, l, r), p)
            } else {
                Err(unexpected(p, 0))
            },
            Err(e) => Err(e),
        }
    } else {
        Ok((l, pos))
    }
}

/// expr := or_expr := and_expr ('OR' and_expr)*
pub open spec fn p_or(b: Seq<u8>, t: Seq<Token>, pos: int) -> PRes<ExprV>
    decreases t.len() - pos, 6int,
{
    match p_and(b, t, pos) {
        Ok((l, p)) => if pos < p <= t.len() {
            p_or_rest(b, t, l, p)
        } else {
            Err(unexpected(p, 0))
        },
        Err(e) => Err(e),
    }
}

/// A parsed operand consumes at least one token.
pub proof fn lemma_operand_advances(b: Seq<u8>, t: Seq<Token>, pos: int)
    requires
        0 <= pos <= t.len(),
    ensures
        p_operand(b, t, pos) matches Ok((_, p)) ==> pos < p <= t.len(),
    decreases t.len() - pos, 0int,
{
    if at_kind(t, pos, TokenKind::LParen) {
        lemma_or_advances(b, t, pos + 1);
    }
}

/// A parsed comparison consumes at least one token.
pub proof fn lemma_comparison_advances(b: Seq<u8>, t: Seq<Token>, pos: int)
    requires
        0 <= pos <= t.len(),
    ensures
        p_comparison(b, t, pos) matches Ok((_, p)) ==> pos < p <= t.len(),
    decreases t.len() - pos, 1int,
{
    lemma_operand_advances(b, t, pos);
    if let Ok((_, p1)) = p_operand(b, t, pos) {
        if p1 < t.len() {
            lemma_operand_advances(b, t, p1 + 1);
        }
    }
}

/// A parsed `not_expr` consumes at least one token.
pub proof fn lemma_not_advances(b: Seq<u8>, t: Seq<Token>, pos: int)
    requires
        0 <= pos <= t.len(),
    ensures
        p_not(b, t, pos) matches Ok((_, p)) ==> pos < p <= t.len(),
    decreases t.len() - pos, 2int,
{
    if at_kw(t, pos, Keyword::Not) {
        lemma_not_advances(b, t, pos + 1);
    } else {
        lemma_comparison_advances(b, t, pos);
    }
}

/// The `AND` continuation never moves backwards.
pub proof fn lemma_and_rest_advances(b: Seq<u8>, t: Seq<Token>, l: ExprV, pos: int)
    requires
        0 <= pos <= t.len(),
    ensures
        p_and_rest(b, t, l, pos) matches Ok((_, p)) ==> pos <= p <= t.len(),
    decreases t.len() - pos, 3int,
{
    if at_kw(t, pos, Keyword::And) {
        lemma_not_advances(b, t, pos + 1);
        if let Ok((r, p)) = p_not(b, t, pos + 1) {
            lemma_and_rest_advances(b, t, bin(BinaryOp::And, l, r), p);
        }
    }
}

/// A parsed `and_expr` consumes at least one token.
pub proof fn lemma_and_advances(b: Seq<u8>, t: Seq<Token>, pos: int)
    requires
        0 <= pos <= t.len(),
    ensures
        p_and(b, t, pos) matches Ok((_, p)) ==> pos < p <= t.len(),
    decreases t.len() - pos, 4int,
{
    lemma_not_advances(b, t, pos);
    if let Ok((l, p)) = p_not(b, t, pos) {
        lemma_and_rest_advances(b, t, l, p);
    }
}

/// The `OR` continuation never moves backwards.
pub proof fn lemma_or_rest_advances(b: Seq<u8>, t: Seq<Token>, l: ExprV, pos: int)
    requires
        0 <= pos <= t.len(),
    ensures
        p_or_rest(b, t, l, pos) matches Ok((_, p)) ==> pos <= p <= t.len(),
    decreases t.len() - pos, 5int,
{
    if at_kw(t, pos, Keyword::Or) {
        lemma_and_advances(b, t, pos + 1);
        if let Ok((r, p)) = p_and(b, t, pos + 1) {
            lemma_or_rest_advances(b, t, bin(BinaryOp::Or, l, r), p);
        }
    }
}

/// A parsed expression consumes at least one token.
pub proof fn lemma_or_advances(b: Seq<u8>, t: Seq<Token>, pos: int)
    requires
        0 <= pos <= t.len(),
    ensures
        p_or(b, t, pos) matches Ok((_, p)) ==> pos < p <= t.len(),
    decreases t.len() - pos, 6int,
{
    lemma_and_advances(b, t, pos);
    if let Ok((l, p)) = p_and(b, t, pos) {
        lemma_or_rest_advances(b, t, l, p);
    }
}

/// Token `pos` must have kind `k`; the index after it.
pub open spec fn p_expect(t: Seq<Token>, pos: int, k: TokenKind, expected: u64) -> core::result::Result<
    int,
    ParseErr,
> {
    if at_kind(t, pos, k) {
        Ok(pos + 1)
    } else {
        Err(unexpected(pos, expected))
    }
}

/// ident
pub open spec fn p_ident(b: Seq<u8>, t: Seq<Token>, pos: int) -> PRes<Seq<char>> {
    if at_kind(t, pos, TokenKind::Ident) {
        Ok((ident_chars(b, t[pos]), pos + 1))
    } else {
        Err(unexpected(pos, T_IDENT))
    }
}

/// type := INTEGER | VARCHAR | BOOLEAN
pub open spec fn p_data_type(t: Seq<Token>, pos: int) -> PRes<DataType> {
    if at_kw(t, pos, Keyword::Integer) {
        Ok((DataType::Integer, pos + 1))
    } else if at_kw(t, pos, Keyword::Varchar) {
        Ok((DataType::Varchar, pos + 1))
    } else if at_kw(t, pos, Keyword::Boolean) {
        Ok((DataType::Boolean, pos + 1))
    } else {
        Err(unexpected(pos, E_TYPE))
    }
}

/// column_def := ident type ('NOT' 'NULL' | 'NULL')?
pub open spec fn p_column_def(b: Seq<u8>, t: Seq<Token>, pos: int) -> PRes<ColumnDefV> {
    match p_ident(b, t, pos) {
        Err(e) => Err(e),
        Ok((name, p1)) => match p_data_type(t, p1) {
            Err(e) => Err(e),
            Ok((dt, p2)) => if at_kw(t, p2, Keyword::Not) {
                if at_kw(t, p2 + 1, Keyword::Null) {
                    Ok((ColumnDefV { name, data_type: dt, nullable: false }, p2 + 2))
                } else {
                    Err(unexpected(p2 + 1, T_NULL))
                }
            } else if at_kw(t, p2, Keyword::Null) {
                Ok((ColumnDefV { name, data_type: dt, nullable: true }, p2 + 1))
            } else {
                Ok((ColumnDefV { name, data_type: dt, nullable: true }, p2))
            },
        },
    }
}

/// The `(',' column_def)*` that follows the definitions `acc`.
pub open spec fn p_column_defs_rest(b: Seq<u8>, t: Seq<Token>, acc: Seq<ColumnDefV>, pos: int) -> PRes<
    Seq<ColumnDefV>,
>
    decreases t.len() - pos,
{
    if at_kind(t, pos, TokenKind::Comma) {
        match p_column_def(b, t, pos + 1) {
            Err(e) => Err(e),
            Ok((c, p)) => if pos < p <= t.len() {
                p_column_defs_rest(b, t, acc.push(c), p)
            } else {
                Err(unexpected(p, 0))
            },
        }
    } else {
        Ok((acc, pos))
    }
}

/// create_table := CREATE TABLE ident '(' column_def (',' column_def)* ')'
/// (token `pos` is `CREATE`)
pub open spec fn p_create(b: Seq<u8>, t: Seq<Token>, pos: int) -> PRes<StatementV> {
    match p_expect(t, pos + 1, TokenKind::Keyword(Keyword::Table), T_TABLE) {
        Err(e) => Err(e),
        Ok(p1) => match p_ident(b, t, p1) {
            Err(e) => Err(e),
            Ok((name, p2)) => match p_expect(t, p2, TokenKind::LParen, T_LPAREN) {
                Err(e) => Err(e),
                Ok(p3) => match p_column_def(b, t, p3) {
                    Err(e) => Err(e),
                    Ok((c, p4)) => match p_column_defs_rest(b, t, seq![c], p4) {
                        Err(e) => Err(e),
                        Ok((cs, p5)) => match p_expect(
                            t,
                            p5,
                            TokenKind::RParen,
                            T_RPAREN | T_COMMA,
                        ) {
                            Err(e) => Err(e),
                            Ok(p6) => Ok(
                                (StatementV::CreateTable { table_name: name, columns: cs }, p6),
                            ),
                        },
                    },
                },
            },
        },
    }
}

/// The `(',' ident)*` that follows the names `acc`.
pub open spec fn p_idents_rest(b: Seq<u8>, t: Seq<Token>, acc: Seq<Seq<char>>, pos: int) -> PRes<
    Seq<Seq<char>>,
>
    decreases t.len() - pos,
{
    if at_kind(t, pos, TokenKind::Comma) {
        match p_ident(b, t, pos + 1) {
            Err(e) => Err(e),
            Ok((c, p)) => if pos < p <= t.len() {
                p_idents_rest(b, t, acc.push(c), p)
            } else {
                Err(unexpected(p, 0))
            },
        }
    } else {
        Ok((acc, pos))
    }
}

/// The `(',' literal)*` that follows the literals `acc`.
pub open spec fn p_literals_rest(b: Seq<u8>, t: Seq<Token>, acc: Seq<LiteralV>, pos: int) -> PRes<
    Seq<LiteralV>,
>
    decreases t.len() - pos,
{
    if at_kind(t, pos, TokenKind::Comma) {
        match p_literal(b, t, pos + 1) {
            Err(e) => Err(e),
            Ok((l, p)) => if pos < p <= t.len() {
                p_literals_rest(b, t, acc.push(l), p)
            } else {
                Err(unexpected(p, 0))
            },
        }
    } else {
        Ok((acc, pos))
    }
}

/// tuple := '(' literal (',' literal)* ')'
pub open spec fn p_tuple(b: Seq<u8>, t: Seq<Token>, pos: int) -> PRes<Seq<LiteralV>> {
    match p_expect(t, pos, TokenKind::LParen, T_LPAREN) {
        Err(e) => Err(e),
        Ok(p1) => match p_literal(b, t, p1) {
            Err(e) => Err(e),
            Ok((l, p2)) => match p_literals_rest(b, t, seq![l], p2) {
                Err(e) => Err(e),
                Ok((ls, p3)) => match p_expect(t, p3, TokenKind::RParen, T_RPAREN | T_COMMA) {
                    Err(e) => Err(e),
                    Ok(p4) => Ok((ls, p4)),
                },
            },
        },
    }
}

/// The `(',' tuple)*` that follows the tuples `acc`.
pub open spec fn p_tuples_rest(b: Seq<u8>, t: Seq<Token>, acc: Seq<Seq<LiteralV>>, pos: int) -> PRes<
    Seq<Seq<LiteralV>>,
>
    decreases t.len() - pos,
{
    if at_kind(t, pos, TokenKind::Comma) {
        match p_tuple(b, t, pos + 1) {
            Err(e) => Err(e),
            Ok((tp, p)) => if pos < p <= t.len() {
                p_tuples_rest(b, t, acc.push(tp), p)
            } else {
                Err(unexpected(p, 0))
            },
        }
    } else {
        Ok((acc, pos))
    }
}

/// The optional column list of an insert: `('(' ident (',' ident)* ')')?`
pub open spec fn p_insert_columns(b: Seq<u8>, t: Seq<Token>, pos: int) -> PRes<
    Option<Seq<Seq<char>>>,
> {
    if at_kind(t, pos, TokenKind::LParen) {
        match p_ident(b, t, pos + 1) {
            Err(e) => Err(e),
            Ok((c, p1)) => match p_idents_rest(b, t, seq![c], p1) {
                Err(e) => Err(e),
                Ok((cs, p2)) => match p_expect(t, p2, TokenKind::RParen, T_RPAREN | T_COMMA) {
                    Err(e) => Err(e),
                    Ok(p3) => Ok((Some(cs), p3)),
                },
            },
        }
    } else {
        Ok((None, pos))
    }
}

/// insert := INSERT INTO ident ('(' ident (',' ident)* ')')? VALUES tuple (',' tuple)*
/// (token `pos` is `INSERT`)
pub open spec fn p_insert(b: Seq<u8>, t: Seq<Token>, pos: int) -> PRes<StatementV> {
    match p_expect(t, pos + 1, TokenKind::Keyword(Keyword::Into), T_INTO) {
        Err(e) => Err(e),
        Ok(p1) => match p_ident(b, t, p1) {
            Err(e) => Err(e),
            Ok((name, p2)) => match p_insert_columns(b, t, p2) {
                Err(e) => Err(e),
                Ok((cols, p3)) => match p_expect(
                    t,
                    p3,
                    TokenKind::Keyword(Keyword::Values),
                    if cols is None {
                        T_VALUES | T_LPAREN
                    } else {
                        T_VALUES
                    },
                ) {
                    Err(e) => Err(e),
                    Ok(p4) => match p_tuple(b, t, p4) {
                        Err(e) => Err(e),
                        Ok((tp, p5)) => match p_tuples_rest(b, t, seq![tp], p5) {
                            Err(e) => Err(e),
                            Ok((ts, p6)) => Ok(
                                (
                                    StatementV::Insert {
                                        table_name: name,
                                        columns: cols,
                                        values: ts,
                                    },
                                    p6,
                                ),
                            ),
                        },
                    },
                },
            },
        },
    }
}

/// The `(',' expr)*` that follows the select items `acc`.
pub open spec fn p_select_rest(b: Seq<u8>, t: Seq<Token>, acc: Seq<SelectItemV>, pos: int) -> PRes<
    Seq<SelectItemV>,
>
    decreases t.len() - pos,
{
    if at_kind(t, pos, TokenKind::Comma) {
        match p_or(b, t, pos + 1) {
            Err(e) => Err(e),
            Ok((e, p)) => if pos < p <= t.len() {
                p_select_rest(b, t, acc.push(SelectItemV::Expr(e)), p)
            } else {
                Err(unexpected(p, 0))
            },
        }
    } else {
        Ok((acc, pos))
    }
}

/// select_list := '*' | expr (',' expr)*
pub open spec fn p_select_list(b: Seq<u8>, t: Seq<Token>, pos: int) -> PRes<Seq<SelectItemV>> {
    if at_kind(t, pos, TokenKind::Star) {
        Ok((seq![SelectItemV::Wildcard], pos + 1))
    } else {
        match p_or(b, t, pos) {
            Err(e) => Err(e),
            Ok((e, p)) => p_select_rest(b, t, seq![SelectItemV::Expr(e)], p),
        }
    }
}

/// ('WHERE' expr)?
pub open spec fn p_where(b: Seq<u8>, t: Seq<Token>, pos: int) -> PRes<Option<ExprV>> {
    if at_kw(t, pos, Keyword::Where) {
        match p_or(b, t, pos + 1) {
            Err(e) => Err(e),
            Ok((e, p)) => Ok((Some(e), p)),
        }
    } else {
        Ok((None, pos))
    }
}

/// select := SELECT select_list FROM ident ('WHERE' expr)?
/// (token `pos` is `SELECT`)
pub open spec fn p_select(b: Seq<u8>, t: Seq<Token>, pos: int) -> PRes<StatementV> {
    match p_select_list(b, t, pos + 1) {
        Err(e) => Err(e),
        Ok((items, p1)) => match p_expect(
            t,
            p1,
            TokenKind::Keyword(Keyword::From),
            T_FROM | T_COMMA,
        ) {
            Err(e) => Err(e),
            Ok(p2) => match p_ident(b, t, p2) {
                Err(e) => Err(e),
                Ok((table, p3)) => match p_where(b, t, p3) {
                    Err(e) => Err(e),
                    Ok((predicate, p4)) => Ok(
                        (StatementV::Select { columns: items, table, predicate }, p4),
                    ),
                },
            },
        },
    }
}

/// assignment := ident '=' expr
pub open spec fn p_assignment(b: Seq<u8>, t: Seq<Token>, pos: int) -> PRes<(Seq<char>, ExprV)> {
    match p_ident(b, t, pos) {
        Err(e) => Err(e),
        Ok((c, p1)) => match p_expect(t, p1, TokenKind::Eq, T_EQ) {
            Err(e) => Err(e),
            Ok(p2) => match p_or(b, t, p2) {
                Err(e) => Err(e),
                Ok((e, p3)) => Ok(((c, e), p3)),
            },
        },
    }
}

/// The `(',' assignment)*` that follows the assignments `acc`.
pub open spec fn p_assignments_rest(
    b: Seq<u8>,
    t: Seq<Token>,
    acc: Seq<(Seq<char>, ExprV)>,
    pos: int,
) -> PRes<Seq<(Seq<char>, ExprV)>>
    decreases t.len() - pos,
{
    if at_kind(t, pos, TokenKind::Comma) {
        match p_assignment(b, t, pos + 1) {
            Err(e) => Err(e),
            Ok((a, p)) => if pos < p <= t.len() {
                p_assignments_rest(b, t, acc.push(a), p)
            } else {
                Err(unexpected(p, 0))
            },
        }
    } else {
        Ok((acc, pos))
    }
}

/// update := UPDATE ident SET assignment (',' assignment)* ('WHERE' expr)?
/// (token `pos` is `UPDATE`)
pub open spec fn p_update(b: Seq<u8>, t: Seq<Token>, pos: int) -> PRes<StatementV> {
    match p_ident(b, t, pos + 1) {
        Err(e) => Err(e),
        Ok((table, p1)) => match p_expect(t, p1, TokenKind::Keyword(Keyword::SetKw), T_SET) {
            Err(e) => Err(e),
            Ok(p2) => match p_assignment(b, t, p2) {
                Err(e) => Err(e),
                Ok((a, p3)) => match p_assignments_rest(b, t, seq![a], p3) {
                    Err(e) => Err(e),
                    Ok((assignments, p4)) => match p_where(b, t, p4) {
                        Err(e) => Err(e),
                        Ok((predicate, p5)) => Ok(
                            (StatementV::Update { table, assignments, predicate }, p5),
                        ),
                    },
                },
            },
        },
    }
}

/// delete := DELETE FROM ident ('WHERE' expr)?
/// (token `pos` is `DELETE`)
pub open spec fn p_delete(b: Seq<u8>, t: Seq<Token>, pos: int) -> PRes<StatementV> {
    match p_expect(t, pos + 1, TokenKind::Keyword(Keyword::From), T_FROM) {
        Err(e) => Err(e),
        Ok(p1) => match p_ident(b, t, p1) {
            Err(e) => Err(e),
            Ok((table, p2)) => match p_where(b, t, p2) {
                Err(e) => Err(e),
                Ok((predicate, p3)) => Ok((StatementV::Delete { table, predicate }, p3)),
            },
        },
    }
}

/// statement := create_table | insert | select | update | delete
#[verifier::opaque]
pub open spec fn p_statement(b: Seq<u8>, t: Seq<Token>) -> PRes<StatementV> {
    if at_kw(t, 0, Keyword::Create) {
        p_create(b, t, 0)
    } else if at_kw(t, 0, Keyword::Insert) {
        p_insert(b, t, 0)
    } else if at_kw(t, 0, Keyword::Select) {
        p_select(b, t, 0)
    } else if at_kw(t, 0, Keyword::Update) {
        p_update(b, t, 0)
    } else if at_kw(t, 0, Keyword::Delete) {
        p_delete(b, t, 0)
    } else {
        Err(unexpected(0, E_STATEMENT))
    }
}

/// The statement that the tokens form: one statement, then an optional `;`,
/// then nothing.
pub open spec fn parse_tokens(b: Seq<u8>, t: Seq<Token>) -> core::result::Result<
    StatementV,
    ParseErr,
> {
    match p_statement(b, t) {
        Err(e) => Err(e),
        Ok((st, p)) => {
            let q = if at_kind(t, p, TokenKind::Semi) {
                p + 1
            } else {
                p
            };
            if q >= t.len() {
                Ok(st)
            } else {
                Err(ParseErr::Extra { at: q as usize })
            }
        },
    }
}

/// A token covers a nonempty range of the input; a string token holds its two
/// quotes; an identifier is ASCII; an integer is an optional `-` and digits.
pub open spec fn token_wf(b: Seq<u8>, tk: Token) -> bool {
    &&& tk.start < tk.end <= b.len()
    &&& tk.kind == TokenKind::Str ==> tk.start + 2 <= tk.end
    &&& tk.kind == TokenKind::Ident ==> forall|i: int|
        tk.start <= i < tk.end ==> #[trigger] b[i] < 0x80
    &&& tk.kind == TokenKind::Int ==> {
        &&& (b[tk.start as int] == 45 ==> tk.start + 1 < tk.end)
        &&& (b[tk.start as int] == 45 || is_digit(b[tk.start as int]))
        &&& forall|i: int| tk.start < i < tk.end ==> is_digit(#[trigger] b[i])
    }
}

/// Every token is well formed.
pub open spec fn tokens_wf(b: Seq<u8>, t: Seq<Token>) -> bool {
    forall|i: int| 0 <= i < t.len() ==> token_wf(b, #[trigger] t[i])
}

/// The bytes that an identifier scan passes over can continue an identifier.
proof fn lemma_ident_end_chars(b: Seq<u8>, p: int)
    requires
        0 <= p <= b.len(),
    ensures
        forall|i: int| p <= i < ident_end(b, p) ==> is_ident_char(#[trigger] b[i]),
    decreases b.len() - p,
{
    if p < b.len() && is_ident_char(b[p]) {
        lemma_ident_end_chars(b, p + 1);
    }
}

/// The bytes that a digit scan passes over are digits.
proof fn lemma_digits_end_digits(b: Seq<u8>, p: int)
    requires
        0 <= p <= b.len(),
    ensures
        forall|i: int| p <= i < digits_end(b, p) ==> is_digit(#[trigger] b[i]),
    decreases b.len() - p,
{
    if p < b.len() && is_digit(b[p]) {
        lemma_digits_end_digits(b, p + 1);
    }
}

/// A token read at `q` is well formed.
proof fn lemma_next_token_wf(b: Seq<u8>, q: int)
    requires
        0 <= q < b.len(),
        b.len() <= usize::MAX,
    ensures
        next_token(b, q) matches Some(tk) ==> token_wf(b, tk),
{
    lemma_next_token_bounds(b, q);
    lemma_scan_bounds(b, q + 1);
    lemma_ident_end_chars(b, q + 1);
    lemma_digits_end_digits(b, q + 1);
    if q + 2 <= b.len() {
        lemma_scan_bounds(b, q + 2);
        lemma_digits_end_digits(b, q + 2);
    }
}

/// The tokens read from `p` on are well formed.
proof fn lemma_lex_from_wf(b: Seq<u8>, p: int)
    requires
        0 <= p <= b.len(),
        b.len() <= usize::MAX,
    ensures
        tokens_wf(b, lex_from(b, p).0),
    decreases b.len() - p,
{
    lemma_scan_bounds(b, p);
    let q = skip_ws(b, p);
    if q < b.len() {
        lemma_next_token_wf(b, q);
        if let Some(tk) = next_token(b, q) {
            if p < tk.end && tk.end <= b.len() {
                lemma_lex_from_wf(b, tk.end as int);
                let rest = lex_from(b, tk.end as int).0;
                assert forall|i: int| 0 <= i < (seq![tk] + rest).len() implies token_wf(
                    b,
                    #[trigger] (seq![tk] + rest)[i],
                ) by {
                    if i > 0 {
                        assert((seq![tk] + rest)[i] == rest[i - 1]);
                    }
                }
            }
        }
    }
}

/// Every token that the tokenizer reads is well formed.
pub proof fn lemma_lex_wf(b: Seq<u8>)
    requires
        b.len() <= usize::MAX,
    ensures
        tokens_wf(b, lex(b).0),
{
    lemma_lex_from_wf(b, 0);
}

/// `b1` and `b2` hold the same bytes under token `tk`.
pub open spec fn token_bytes_agree(b1: Seq<u8>, b2: Seq<u8>, tk: Token) -> bool {
    b1.subrange(tk.start as int, tk.end as int) == b2.subrange(tk.start as int, tk.end as int)
}

/// Whether tokens of kind `k` carry a text that the grammar reads.
pub open spec fn has_text(k: TokenKind) -> bool {
    k == TokenKind::Ident || k == TokenKind::Int || k == TokenKind::Str
}

/// `b1` and `b2` hold the same bytes under every identifier, integer and string
/// token of `t`.
pub open spec fn texts_agree(b1: Seq<u8>, b2: Seq<u8>, t: Seq<Token>) -> bool {
    forall|j: int| 0 <= j < t.len() && has_text(t[j].kind) ==> token_bytes_agree(b1, b2, #[trigger] t[j])
}

/// The tokens `t1` of `b1` and `t2` of `b2` have the same kinds, one by one,
/// and their identifiers, integers and strings have the same texts.
pub open spec fn same_tokens(b1: Seq<u8>, t1: Seq<Token>, b2: Seq<u8>, t2: Seq<Token>) -> bool {
    &&& t1.len() == t2.len()
    &&& forall|j: int|
        0 <= j < t1.len() ==> (#[trigger] t1[j]).kind == t2[j].kind && (has_text(t1[j].kind)
            ==> b1.subrange(t1[j].start as int, t1[j].end as int) == b2.subrange(
            t2[j].start as int,
            t2[j].end as int,
        ))
}

/// Equal runs of digits have equal values, wherever they stand.
proof fn lemma_digits_value_same(b1: Seq<u8>, s1: int, b2: Seq<u8>, s2: int, n: int)
    requires
        0 <= n,
        forall|i: int| 0 <= i < n ==> #[trigger] b1[s1 + i] == b2[s2 + i],
    ensures
        digits_value(b1, s1, s1 + n) == digits_value(b2, s2, s2 + n),
    decreases n,
{
    if n > 0 {
        assert(b1[s1 + (n - 1)] == b2[s2 + (n - 1)]);
        lemma_digits_value_same(b1, s1, b2, s2, n - 1);
    }
}

/// The grammar reads the same values from tokens of the same kinds and texts.
proof fn lemma_token_reads_same(b1: Seq<u8>, t1: Seq<Token>, b2: Seq<u8>, t2: Seq<Token>, pos: int)
    requires
        tokens_wf(b1, t1),
        tokens_wf(b2, t2),
        same_tokens(b1, t1, b2, t2),
    ensures
        p_literal(b1, t1, pos) == p_literal(b2, t2, pos),
        p_ident(b1, t1, pos) == p_ident(b2, t2, pos),
        kind_at(t1, pos) == kind_at(t2, pos),
{
    if 0 <= pos < t1.len() {
        let k1 = t1[pos];
        let k2 = t2[pos];
        assert(k1.kind == k2.kind);
        if has_text(k1.kind) {
            assert(token_wf(b1, k1));
            assert(token_wf(b2, k2));
            let s1 = b1.subrange(k1.start as int, k1.end as int);
            let s2 = b2.subrange(k2.start as int, k2.end as int);
            assert(s1 == s2);
            assert forall|i: int| 0 <= i < k1.end - k1.start implies #[trigger] b1[k1.start + i]
                == b2[k2.start + i] by {
                assert(s1[i] == s2[i]);
            }
            if k1.kind == TokenKind::Int {
                assert(b1[k1.start as int] == b2[k2.start as int]) by {
                    assert(s1[0] == s2[0]);
                }
                lemma_digits_value_same(b1, k1.start as int, b2, k2.start as int, k1.end - k1.start);
                assert forall|i: int| 0 <= i < k1.end - k1.start - 1 implies #[trigger] b1[k1.start + 1
                    + i] == b2[k2.start + 1 + i] by {
                    assert(s1[i + 1] == s2[i + 1]);
                }
                lemma_digits_value_same(b1, k1.start + 1, b2, k2.start + 1, k1.end - k1.start - 1);
            }
            if k1.kind == TokenKind::Str {
                assert(string_raw(b1, k1) =~= s1.subrange(1, s1.len() - 1));
                assert(string_raw(b2, k2) =~= s2.subrange(1, s2.len() - 1));
            }
            if k1.kind == TokenKind::Ident {
                assert(ident_chars(b1, k1) == ident_chars(b2, k2));
            }
        }
    }
}

/// Expressions parse the same from tokens of the same kinds and texts.
proof fn lemma_operand_same(b1: Seq<u8>, t1: Seq<Token>, b2: Seq<u8>, t2: Seq<Token>, pos: int)
    requires
        tokens_wf(b1, t1),
        tokens_wf(b2, t2),
        same_tokens(b1, t1, b2, t2),
        0 <= pos <= t1.len(),
    ensures
        p_operand(b1, t1, pos) == p_operand(b2, t2, pos),
    decreases t1.len() - pos, 0int,
{
    lemma_token_reads_same(b1, t1, b2, t2, pos);
    if at_kind(t1, pos, TokenKind::LParen) {
        lemma_or_same(b1, t1, b2, t2, pos + 1);
    }
}

proof fn lemma_comparison_same(b1: Seq<u8>, t1: Seq<Token>, b2: Seq<u8>, t2: Seq<Token>, pos: int)
    requires
        tokens_wf(b1, t1),
        tokens_wf(b2, t2),
        same_tokens(b1, t1, b2, t2),
        0 <= pos <= t1.len(),
    ensures
        p_comparison(b1, t1, pos) == p_comparison(b2, t2, pos),
    decreases t1.len() - pos, 1int,
{
    lemma_operand_same(b1, t1, b2, t2, pos);
    lemma_operand_advances(b1, t1, pos);
    if let Ok((_, p1)) = p_operand(b1, t1, pos) {
        if p1 < t1.len() {
            lemma_operand_same(b1, t1, b2, t2, p1 + 1);
        }
    }
}

proof fn lemma_not_same(b1: Seq<u8>, t1: Seq<Token>, b2: Seq<u8>, t2: Seq<Token>, pos: int)
    requires
        tokens_wf(b1, t1),
        tokens_wf(b2, t2),
        same_tokens(b1, t1, b2, t2),
        0 <= pos <= t1.len(),
    ensures
        p_not(b1, t1, pos) == p_not(b2, t2, pos),
    decreases t1.len() - pos, 2int,
{
    if at_kw(t1, pos, Keyword::Not) {
        lemma_not_same(b1, t1, b2, t2, pos + 1);
    } else {
        lemma_comparison_same(b1, t1, b2, t2, pos);
    }
}

proof fn lemma_and_rest_same(b1: Seq<u8>, t1: Seq<Token>, b2: Seq<u8>, t2: Seq<Token>, l: ExprV, pos: int)
    requires
        tokens_wf(b1, t1),
        tokens_wf(b2, t2),
        same_tokens(b1, t1, b2, t2),
        0 <= pos <= t1.len(),
    ensures
        p_and_rest(b1, t1, l, pos) == p_and_rest(b2, t2, l, pos),
    decreases t1.len() - pos, 3int,
{
    if at_kw(t1, pos, Keyword::And) {
        lemma_not_same(b1, t1, b2, t2, pos + 1);
        lemma_not_advances(b1, t1, pos + 1);
        if let Ok((r, p)) = p_not(b1, t1, pos + 1) {
            lemma_and_rest_same(b1, t1, b2, t2, bin(BinaryOp::And, l, r), p);
        }
    }
}

proof fn lemma_and_same(b1: Seq<u8>, t1: Seq<Token>, b2: Seq<u8>, t2: Seq<Token>, pos: int)
    requires
        tokens_wf(b1, t1),
        tokens_wf(b2, t2),
        same_tokens(b1, t1, b2, t2),
        0 <= pos <= t1.len(),
    ensures
        p_and(b1, t1, pos) == p_and(b2, t2, pos),
    decreases t1.len() - pos, 4int,
{
    lemma_not_same(b1, t1, b2, t2, pos);
    lemma_not_advances(b1, t1, pos);
    if let Ok((l, p)) = p_not(b1, t1, pos) {
        lemma_and_rest_same(b1, t1, b2, t2, l, p);
    }
}

proof fn lemma_or_rest_same(b1: Seq<u8>, t1: Seq<Token>, b2: Seq<u8>, t2: Seq<Token>, l: ExprV, pos: int)
    requires
        tokens_wf(b1, t1),
        tokens_wf(b2, t2),
        same_tokens(b1, t1, b2, t2),
        0 <= pos <= t1.len(),
    ensures
        p_or_rest(b1, t1, l, pos) == p_or_rest(b2, t2, l, pos),
    decreases t1.len() - pos, 5int,
{
    if at_kw(t1, pos, Keyword::Or) {
        lemma_and_same(b1, t1, b2, t2, pos + 1);
        lemma_and_advances(b1, t1, pos + 1);
        if let Ok((r, p)) = p_and(b1, t1, pos + 1) {
            lemma_or_rest_same(b1, t1, b2, t2, bin(BinaryOp::Or, l, r), p);
        }
    }
}

proof fn lemma_or_same(b1: Seq<u8>, t1: Seq<Token>, b2: Seq<u8>, t2: Seq<Token>, pos: int)
    requires
        tokens_wf(b1, t1),
        tokens_wf(b2, t2),
        same_tokens(b1, t1, b2, t2),
        0 <= pos <= t1.len(),
    ensures
        p_or(b1, t1, pos) == p_or(b2, t2, pos),
    decreases t1.len() - pos, 6int,
{
    lemma_and_same(b1, t1, b2, t2, pos);
    lemma_and_advances(b1, t1, pos);
    if let Ok((l, p)) = p_and(b1, t1, pos) {
        lemma_or_rest_same(b1, t1, b2, t2, l, p);
    }
}

/// The grammar reads the same values from tokens of the same kinds and texts,
/// and expressions parse the same from every position.
proof fn lemma_reads_same_all(b1: Seq<u8>, t1: Seq<Token>, b2: Seq<u8>, t2: Seq<Token>)
    requires
        tokens_wf(b1, t1),
        tokens_wf(b2, t2),
        same_tokens(b1, t1, b2, t2),
    ensures
        forall|pos: int|
            #![trigger p_literal(b1, t1, pos)]
            #![trigger p_literal(b2, t2, pos)]
            p_literal(b1, t1, pos) == p_literal(b2, t2, pos),
        forall|pos: int|
            #![trigger p_ident(b1, t1, pos)]
            #![trigger p_ident(b2, t2, pos)]
            p_ident(b1, t1, pos) == p_ident(b2, t2, pos),
        forall|pos: int|
            #![trigger kind_at(t1, pos)]
            #![trigger kind_at(t2, pos)]
            kind_at(t1, pos) == kind_at(t2, pos),
        forall|pos: int|
            #![trigger p_or(b1, t1, pos)]
            #![trigger p_or(b2, t2, pos)]
            p_or(b1, t1, pos) == p_or(b2, t2, pos),
{
    assert forall|pos: int| p_literal(b1, t1, pos) == p_literal(b2, t2, pos) && p_ident(b1, t1, pos)
        == p_ident(b2, t2, pos) && kind_at(t1, pos) == kind_at(t2, pos) by {
        lemma_token_reads_same(b1, t1, b2, t2, pos);
    }
    assert forall|pos: int| p_or(b1, t1, pos) == p_or(b2, t2, pos) by {
        if 0 <= pos <= t1.len() {
            lemma_or_same(b1, t1, b2, t2, pos);
        } else {
            assert(p_operand(b1, t1, pos) == p_operand(b2, t2, pos));
            assert(p_comparison(b1, t1, pos) == p_comparison(b2, t2, pos));
            assert(p_not(b1, t1, pos) == p_not(b2, t2, pos));
            assert(p_and(b1, t1, pos) == p_and(b2, t2, pos));
        }
    }
}

proof fn lemma_column_defs_rest_same(b1: Seq<u8>, t1: Seq<Token>, b2: Seq<u8>, t2: Seq<Token>, acc: Seq<ColumnDefV>, pos: int)
    requires
        tokens_wf(b1, t1),
        tokens_wf(b2, t2),
        same_tokens(b1, t1, b2, t2),
    ensures
        p_column_defs_rest(b1, t1, acc, pos) == p_column_defs_rest(b2, t2, acc, pos),
    decreases t1.len() - pos,
{
    lemma_reads_same_all(b1, t1, b2, t2);
    if at_kind(t1, pos, TokenKind::Comma) {
        assert(p_column_def(b1, t1, pos + 1) == p_column_def(b2, t2, pos + 1));
        if let Ok((c, p)) = p_column_def(b1, t1, pos + 1) {
            if pos < p <= t1.len() {
                lemma_column_defs_rest_same(b1, t1, b2, t2, acc.push(c), p);
            }
        }
    }
}

proof fn lemma_idents_rest_same(b1: Seq<u8>, t1: Seq<Token>, b2: Seq<u8>, t2: Seq<Token>, acc: Seq<Seq<char>>, pos: int)
    requires
        tokens_wf(b1, t1),
        tokens_wf(b2, t2),
        same_tokens(b1, t1, b2, t2),
    ensures
        p_idents_rest(b1, t1, acc, pos) == p_idents_rest(b2, t2, acc, pos),
    decreases t1.len() - pos,
{
    lemma_reads_same_all(b1, t1, b2, t2);
    if at_kind(t1, pos, TokenKind::Comma) {
        assert(p_ident(b1, t1, pos + 1) == p_ident(b2, t2, pos + 1));
        if let Ok((c, p)) = p_ident(b1, t1, pos + 1) {
            if pos < p <= t1.len() {
                lemma_idents_rest_same(b1, t1, b2, t2, acc.push(c), p);
            }
        }
    }
}

proof fn lemma_literals_rest_same(b1: Seq<u8>, t1: Seq<Token>, b2: Seq<u8>, t2: Seq<Token>, acc: Seq<LiteralV>, pos: int)
    requires
        tokens_wf(b1, t1),
        tokens_wf(b2, t2),
        same_tokens(b1, t1, b2, t2),
    ensures
        p_literals_rest(b1, t1, acc, pos) == p_literals_rest(b2, t2, acc, pos),
    decreases t1.len() - pos,
{
    lemma_reads_same_all(b1, t1, b2, t2);
    if at_kind(t1, pos, TokenKind::Comma) {
        assert(p_literal(b1, t1, pos + 1) == p_literal(b2, t2, pos + 1));
        if let Ok((l, p)) = p_literal(b1, t1, pos + 1) {
            if pos < p <= t1.len() {
                lemma_literals_rest_same(b1, t1, b2, t2, acc.push(l), p);
            }
        }
    }
}

proof fn lemma_tuple_same(b1: Seq<u8>, t1: Seq<Token>, b2: Seq<u8>, t2: Seq<Token>, pos: int)
    requires
        tokens_wf(b1, t1),
        tokens_wf(b2, t2),
        same_tokens(b1, t1, b2, t2),
    ensures
        p_tuple(b1, t1, pos) == p_tuple(b2, t2, pos),
{
    lemma_reads_same_all(b1, t1, b2, t2);
    if let Ok(p1) = p_expect(t1, pos, TokenKind::LParen, T_LPAREN) {
        assert(p_literal(b1, t1, p1) == p_literal(b2, t2, p1));
        if let Ok((l, p2)) = p_literal(b1, t1, p1) {
            lemma_literals_rest_same(b1, t1, b2, t2, seq![l], p2);
        }
    }
}

proof fn lemma_tuples_rest_same(b1: Seq<u8>, t1: Seq<Token>, b2: Seq<u8>, t2: Seq<Token>, acc: Seq<Seq<LiteralV>>, pos: int)
    requires
        tokens_wf(b1, t1),
        tokens_wf(b2, t2),
        same_tokens(b1, t1, b2, t2),
    ensures
        p_tuples_rest(b1, t1, acc, pos) == p_tuples_rest(b2, t2, acc, pos),
    decreases t1.len() - pos,
{
    if at_kind(t1, pos, TokenKind::Comma) {
        lemma_tuple_same(b1, t1, b2, t2, pos + 1);
        if let Ok((tp, p)) = p_tuple(b1, t1, pos + 1) {
            if pos < p <= t1.len() {
                lemma_tuples_rest_same(b1, t1, b2, t2, acc.push(tp), p);
            }
        }
    }
}

proof fn lemma_select_rest_same(b1: Seq<u8>, t1: Seq<Token>, b2: Seq<u8>, t2: Seq<Token>, acc: Seq<SelectItemV>, pos: int)
    requires
        tokens_wf(b1, t1),
        tokens_wf(b2, t2),
        same_tokens(b1, t1, b2, t2),
    ensures
        p_select_rest(b1, t1, acc, pos) == p_select_rest(b2, t2, acc, pos),
    decreases t1.len() - pos,
{
    lemma_reads_same_all(b1, t1, b2, t2);
    if at_kind(t1, pos, TokenKind::Comma) {
        assert(p_or(b1, t1, pos + 1) == p_or(b2, t2, pos + 1));
        if let Ok((e, p)) = p_or(b1, t1, pos + 1) {
            if pos < p <= t1.len() {
                lemma_select_rest_same(b1, t1, b2, t2, acc.push(SelectItemV::Expr(e)), p);
            }
        }
    }
}

proof fn lemma_assignments_rest_same(
    b1: Seq<u8>,
    t1: Seq<Token>,
    b2: Seq<u8>,
    t2: Seq<Token>,
    acc: Seq<(Seq<char>, ExprV)>,
    pos: int,
)
    requires
        tokens_wf(b1, t1),
        tokens_wf(b2, t2),
        same_tokens(b1, t1, b2, t2),
    ensures
        p_assignments_rest(b1, t1, acc, pos) == p_assignments_rest(b2, t2, acc, pos),
    decreases t1.len() - pos,
{
    lemma_reads_same_all(b1, t1, b2, t2);
    if at_kind(t1, pos, TokenKind::Comma) {
        assert(p_ident(b1, t1, pos + 1) == p_ident(b2, t2, pos + 1));
        if let Ok((_, p1)) = p_ident(b1, t1, pos + 1) {
            if let Ok(p2) = p_expect(t1, p1, TokenKind::Eq, T_EQ) {
                assert(p_or(b1, t1, p2) == p_or(b2, t2, p2));
            }
        }
        assert(p_assignment(b1, t1, pos + 1) == p_assignment(b2, t2, pos + 1));
        if let Ok((a, p)) = p_assignment(b1, t1, pos + 1) {
            if pos < p <= t1.len() {
                lemma_assignments_rest_same(b1, t1, b2, t2, acc.push(a), p);
            }
        }
    }
}

#[verifier::spinoff_prover]
proof fn lemma_create_same(b1: Seq<u8>, t1: Seq<Token>, b2: Seq<u8>, t2: Seq<Token>)
    requires
        tokens_wf(b1, t1),
        tokens_wf(b2, t2),
        same_tokens(b1, t1, b2, t2),
    ensures
        p_create(b1, t1, 0) == p_create(b2, t2, 0),
{
    lemma_reads_same_all(b1, t1, b2, t2);
    if let Ok(p1) = p_expect(t1, 1, TokenKind::Keyword(Keyword::Table), T_TABLE) {
        assert(p_ident(b1, t1, p1) == p_ident(b2, t2, p1));
        if let Ok((_, p2)) = p_ident(b1, t1, p1) {
            if let Ok(p3) = p_expect(t1, p2, TokenKind::LParen, T_LPAREN) {
                assert(p_ident(b1, t1, p3) == p_ident(b2, t2, p3));
                assert(p_column_def(b1, t1, p3) == p_column_def(b2, t2, p3));
                if let Ok((c, p4)) = p_column_def(b1, t1, p3) {
                    lemma_column_defs_rest_same(b1, t1, b2, t2, seq![c], p4);
                }
            }
        }
    }
    assert(p_create(b1, t1, 0) == p_create(b2, t2, 0));
}

#[verifier::spinoff_prover]
proof fn lemma_insert_same(b1: Seq<u8>, t1: Seq<Token>, b2: Seq<u8>, t2: Seq<Token>)
    requires
        tokens_wf(b1, t1),
        tokens_wf(b2, t2),
        same_tokens(b1, t1, b2, t2),
    ensures
        p_insert(b1, t1, 0) == p_insert(b2, t2, 0),
{
    lemma_reads_same_all(b1, t1, b2, t2);
    if let Ok(p1) = p_expect(t1, 1, TokenKind::Keyword(Keyword::Into), T_INTO) {
        assert(p_ident(b1, t1, p1) == p_ident(b2, t2, p1));
        if let Ok((_, p2)) = p_ident(b1, t1, p1) {
            if at_kind(t1, p2, TokenKind::LParen) {
                assert(p_ident(b1, t1, p2 + 1) == p_ident(b2, t2, p2 + 1));
                if let Ok((c, q)) = p_ident(b1, t1, p2 + 1) {
                    lemma_idents_rest_same(b1, t1, b2, t2, seq![c], q);
                }
            }
            assert(p_insert_columns(b1, t1, p2) == p_insert_columns(b2, t2, p2));
            if let Ok((cols, p3)) = p_insert_columns(b1, t1, p2) {
                let expected = if cols is None {
                    T_VALUES | T_LPAREN
                } else {
                    T_VALUES
                };
                if let Ok(p4) = p_expect(t1, p3, TokenKind::Keyword(Keyword::Values), expected) {
                    lemma_tuple_same(b1, t1, b2, t2, p4);
                    if let Ok((tp, p5)) = p_tuple(b1, t1, p4) {
                        lemma_tuples_rest_same(b1, t1, b2, t2, seq![tp], p5);
                    }
                }
            }
        }
    }
    assert(p_insert(b1, t1, 0) == p_insert(b2, t2, 0));
}

#[verifier::spinoff_prover]
proof fn lemma_select_same(b1: Seq<u8>, t1: Seq<Token>, b2: Seq<u8>, t2: Seq<Token>)
    requires
        tokens_wf(b1, t1),
        tokens_wf(b2, t2),
        same_tokens(b1, t1, b2, t2),
    ensures
        p_select(b1, t1, 0) == p_select(b2, t2, 0),
{
    lemma_reads_same_all(b1, t1, b2, t2);
    assert(p_or(b1, t1, 1) == p_or(b2, t2, 1));
    if let Ok((e, p)) = p_or(b1, t1, 1) {
        lemma_select_rest_same(b1, t1, b2, t2, seq![SelectItemV::Expr(e)], p);
    }
    assert(p_select_list(b1, t1, 1) == p_select_list(b2, t2, 1));
    if let Ok((_, p1)) = p_select_list(b1, t1, 1) {
        if let Ok(p2) = p_expect(t1, p1, TokenKind::Keyword(Keyword::From), T_FROM | T_COMMA) {
            assert(p_ident(b1, t1, p2) == p_ident(b2, t2, p2));
            if let Ok((_, p3)) = p_ident(b1, t1, p2) {
                assert(p_or(b1, t1, p3 + 1) == p_or(b2, t2, p3 + 1));
                assert(p_where(b1, t1, p3) == p_where(b2, t2, p3));
            }
        }
    }
    assert(p_select(b1, t1, 0) == p_select(b2, t2, 0));
}

#[verifier::spinoff_prover]
proof fn lemma_update_same(b1: Seq<u8>, t1: Seq<Token>, b2: Seq<u8>, t2: Seq<Token>)
    requires
        tokens_wf(b1, t1),
        tokens_wf(b2, t2),
        same_tokens(b1, t1, b2, t2),
    ensures
        p_update(b1, t1, 0) == p_update(b2, t2, 0),
{
    lemma_reads_same_all(b1, t1, b2, t2);
    assert(p_ident(b1, t1, 1) == p_ident(b2, t2, 1));
    if let Ok((_, p1)) = p_ident(b1, t1, 1) {
        if let Ok(p2) = p_expect(t1, p1, TokenKind::Keyword(Keyword::SetKw), T_SET) {
            assert(p_ident(b1, t1, p2) == p_ident(b2, t2, p2));
            if let Ok((_, q1)) = p_ident(b1, t1, p2) {
                if let Ok(q2) = p_expect(t1, q1, TokenKind::Eq, T_EQ) {
                    assert(p_or(b1, t1, q2) == p_or(b2, t2, q2));
                }
            }
            assert(p_assignment(b1, t1, p2) == p_assignment(b2, t2, p2));
            if let Ok((a, p3)) = p_assignment(b1, t1, p2) {
                lemma_assignments_rest_same(b1, t1, b2, t2, seq![a], p3);
                if let Ok((_, p4)) = p_assignments_rest(b1, t1, seq![a], p3) {
                    assert(p_or(b1, t1, p4 + 1) == p_or(b2, t2, p4 + 1));
                    assert(p_where(b1, t1, p4) == p_where(b2, t2, p4));
                }
            }
        }
    }
    assert(p_update(b1, t1, 0) == p_update(b2, t2, 0));
}

#[verifier::spinoff_prover]
proof fn lemma_delete_same(b1: Seq<u8>, t1: Seq<Token>, b2: Seq<u8>, t2: Seq<Token>)
    requires
        tokens_wf(b1, t1),
        tokens_wf(b2, t2),
        same_tokens(b1, t1, b2, t2),
    ensures
        p_delete(b1, t1, 0) == p_delete(b2, t2, 0),
{
    lemma_reads_same_all(b1, t1, b2, t2);
    if let Ok(p1) = p_expect(t1, 1, TokenKind::Keyword(Keyword::From), T_FROM) {
        assert(p_ident(b1, t1, p1) == p_ident(b2, t2, p1));
        if let Ok((_, p2)) = p_ident(b1, t1, p1) {
            assert(p_or(b1, t1, p2 + 1) == p_or(b2, t2, p2 + 1));
            assert(p_where(b1, t1, p2) == p_where(b2, t2, p2));
        }
    }
    assert(p_delete(b1, t1, 0) == p_delete(b2, t2, 0));
}

/// A statement parses the same from tokens of the same kinds and texts.
proof fn lemma_statement_same(b1: Seq<u8>, t1: Seq<Token>, b2: Seq<u8>, t2: Seq<Token>)
    requires
        tokens_wf(b1, t1),
        tokens_wf(b2, t2),
        same_tokens(b1, t1, b2, t2),
    ensures
        p_statement(b1, t1) == p_statement(b2, t2),
{
    reveal(p_statement);
    lemma_token_reads_same(b1, t1, b2, t2, 0);
    lemma_create_same(b1, t1, b2, t2);
    lemma_insert_same(b1, t1, b2, t2);
    lemma_select_same(b1, t1, b2, t2);
    lemma_update_same(b1, t1, b2, t2);
    lemma_delete_same(b1, t1, b2, t2);
}

/// `t2` is `t1` followed by one `;` token.
pub open spec fn ends_with_semi(t1: Seq<Token>, t2: Seq<Token>) -> bool {
    &&& t2.len() == t1.len() + 1
    &&& t2[t1.len() as int].kind == TokenKind::Semi
    &&& forall|i: int| 0 <= i < t1.len() ==> #[trigger] t2[i] == t1[i]
}

/// The grammar reads the same values at each position of `t1` and of `t1`
/// followed by `;`.
proof fn lemma_token_reads_stable(b: Seq<u8>, t1: Seq<Token>, t2: Seq<Token>, pos: int)
    requires
        tokens_wf(b, t1),
        ends_with_semi(t1, t2),
    ensures
        p_literal(b, t1, pos) == p_literal(b, t2, pos),
        p_ident(b, t1, pos) == p_ident(b, t2, pos),
        kind_at(t1, pos) is Some ==> t2[pos] == t1[pos],
        kind_at(t2, pos) == if pos == t1.len() {
            Some(TokenKind::Semi)
        } else {
            kind_at(t1, pos)
        },
{
    if 0 <= pos < t1.len() {
        assert(t2[pos] == t1[pos]);
    }
}

/// Expressions parse the same from `t1` and from `t1` followed by `;`.
proof fn lemma_operand_stable(b: Seq<u8>, t1: Seq<Token>, t2: Seq<Token>, pos: int)
    requires
        tokens_wf(b, t1),
        ends_with_semi(t1, t2),
        0 <= pos <= t1.len(),
    ensures
        p_operand(b, t1, pos) == p_operand(b, t2, pos),
    decreases t1.len() - pos, 0int,
{
    lemma_token_reads_stable(b, t1, t2, pos);
    if at_kind(t1, pos, TokenKind::LParen) {
        lemma_or_stable(b, t1, t2, pos + 1);
    }
}

proof fn lemma_comparison_stable(b: Seq<u8>, t1: Seq<Token>, t2: Seq<Token>, pos: int)
    requires
        tokens_wf(b, t1),
        ends_with_semi(t1, t2),
        0 <= pos <= t1.len(),
    ensures
        p_comparison(b, t1, pos) == p_comparison(b, t2, pos),
    decreases t1.len() - pos, 1int,
{
    lemma_operand_stable(b, t1, t2, pos);
    lemma_operand_advances(b, t1, pos);
    if let Ok((_, p1)) = p_operand(b, t1, pos) {
        if p1 < t1.len() {
            lemma_operand_stable(b, t1, t2, p1 + 1);
        }
    }
}

proof fn lemma_not_stable(b: Seq<u8>, t1: Seq<Token>, t2: Seq<Token>, pos: int)
    requires
        tokens_wf(b, t1),
        ends_with_semi(t1, t2),
        0 <= pos <= t1.len(),
    ensures
        p_not(b, t1, pos) == p_not(b, t2, pos),
    decreases t1.len() - pos, 2int,
{
    if at_kw(t1, pos, Keyword::Not) {
        lemma_not_stable(b, t1, t2, pos + 1);
    } else {
        lemma_comparison_stable(b, t1, t2, pos);
    }
}

proof fn lemma_and_rest_stable(b: Seq<u8>, t1: Seq<Token>, t2: Seq<Token>, l: ExprV, pos: int)
    requires
        tokens_wf(b, t1),
        ends_with_semi(t1, t2),
        0 <= pos <= t1.len(),
    ensures
        p_and_rest(b, t1, l, pos) == p_and_rest(b, t2, l, pos),
    decreases t1.len() - pos, 3int,
{
    if at_kw(t1, pos, Keyword::And) {
        lemma_not_stable(b, t1, t2, pos + 1);
        lemma_not_advances(b, t1, pos + 1);
        if let Ok((r, p)) = p_not(b, t1, pos + 1) {
            lemma_and_rest_stable(b, t1, t2, bin(BinaryOp::And, l, r), p);
        }
    }
}

proof fn lemma_and_stable(b: Seq<u8>, t1: Seq<Token>, t2: Seq<Token>, pos: int)
    requires
        tokens_wf(b, t1),
        ends_with_semi(t1, t2),
        0 <= pos <= t1.len(),
    ensures
        p_and(b, t1, pos) == p_and(b, t2, pos),
    decreases t1.len() - pos, 4int,
{
    lemma_not_stable(b, t1, t2, pos);
    lemma_not_advances(b, t1, pos);
    if let Ok((l, p)) = p_not(b, t1, pos) {
        lemma_and_rest_stable(b, t1, t2, l, p);
    }
}

proof fn lemma_or_rest_stable(b: Seq<u8>, t1: Seq<Token>, t2: Seq<Token>, l: ExprV, pos: int)
    requires
        tokens_wf(b, t1),
        ends_with_semi(t1, t2),
        0 <= pos <= t1.len(),
    ensures
        p_or_rest(b, t1, l, pos) == p_or_rest(b, t2, l, pos),
    decreases t1.len() - pos, 5int,
{
    if at_kw(t1, pos, Keyword::Or) {
        lemma_and_stable(b, t1, t2, pos + 1);
        lemma_and_advances(b, t1, pos + 1);
        if let Ok((r, p)) = p_and(b, t1, pos + 1) {
            lemma_or_rest_stable(b, t1, t2, bin(BinaryOp::Or, l, r), p);
        }
    }
}

proof fn lemma_or_stable(b: Seq<u8>, t1: Seq<Token>, t2: Seq<Token>, pos: int)
    requires
        tokens_wf(b, t1),
        ends_with_semi(t1, t2),
        0 <= pos <= t1.len(),
    ensures
        p_or(b, t1, pos) == p_or(b, t2, pos),
    decreases t1.len() - pos, 6int,
{
    lemma_and_stable(b, t1, t2, pos);
    lemma_and_advances(b, t1, pos);
    if let Ok((l, p)) = p_and(b, t1, pos) {
        lemma_or_rest_stable(b, t1, t2, l, p);
    }
}

/// The grammar reads the same values at every position of `t1` and of `t1`
/// followed by `;`, and expressions parse the same from every position.
proof fn lemma_reads_stable_all(b: Seq<u8>, t1: Seq<Token>, t2: Seq<Token>)
    requires
        tokens_wf(b, t1),
        ends_with_semi(t1, t2),
    ensures
        forall|pos: int|
            #![trigger p_literal(b, t1, pos)]
            #![trigger p_literal(b, t2, pos)]
            p_literal(b, t1, pos) == p_literal(b, t2, pos),
        forall|pos: int|
            #![trigger p_ident(b, t1, pos)]
            #![trigger p_ident(b, t2, pos)]
            p_ident(b, t1, pos) == p_ident(b, t2, pos),
        forall|pos: int|
            #![trigger p_or(b, t1, pos)]
            #![trigger p_or(b, t2, pos)]
            p_or(b, t1, pos) == p_or(b, t2, pos),
{
    assert forall|pos: int| p_literal(b, t1, pos) == p_literal(b, t2, pos) && p_ident(b, t1, pos)
        == p_ident(b, t2, pos) by {
        lemma_token_reads_stable(b, t1, t2, pos);
    }
    assert forall|pos: int| p_or(b, t1, pos) == p_or(b, t2, pos) by {
        if 0 <= pos <= t1.len() {
            lemma_or_stable(b, t1, t2, pos);
        } else {
            assert(p_operand(b, t1, pos) == p_operand(b, t2, pos));
            assert(p_comparison(b, t1, pos) == p_comparison(b, t2, pos));
            assert(p_not(b, t1, pos) == p_not(b, t2, pos));
            assert(p_and(b, t1, pos) == p_and(b, t2, pos));
        }
    }
}

proof fn lemma_column_defs_rest_stable(b: Seq<u8>, t1: Seq<Token>, t2: Seq<Token>, acc: Seq<ColumnDefV>, pos: int)
    requires
        tokens_wf(b, t1),
        ends_with_semi(t1, t2),
    ensures
        p_column_defs_rest(b, t1, acc, pos) == p_column_defs_rest(b, t2, acc, pos),
    decreases t1.len() - pos,
{
    lemma_reads_stable_all(b, t1, t2);
    if at_kind(t1, pos, TokenKind::Comma) {
        assert(p_column_def(b, t1, pos + 1) == p_column_def(b, t2, pos + 1));
        if let Ok((c, p)) = p_column_def(b, t1, pos + 1) {
            if pos < p <= t1.len() {
                lemma_column_defs_rest_stable(b, t1, t2, acc.push(c), p);
            }
        }
    }
}

proof fn lemma_idents_rest_stable(b: Seq<u8>, t1: Seq<Token>, t2: Seq<Token>, acc: Seq<Seq<char>>, pos: int)
    requires
        tokens_wf(b, t1),
        ends_with_semi(t1, t2),
    ensures
        p_idents_rest(b, t1, acc, pos) == p_idents_rest(b, t2, acc, pos),
    decreases t1.len() - pos,
{
    lemma_reads_stable_all(b, t1, t2);
    if at_kind(t1, pos, TokenKind::Comma) {
        assert(p_ident(b, t1, pos + 1) == p_ident(b, t2, pos + 1));
        if let Ok((c, p)) = p_ident(b, t1, pos + 1) {
            if pos < p <= t1.len() {
                lemma_idents_rest_stable(b, t1, t2, acc.push(c), p);
            }
        }
    }
}

proof fn lemma_literals_rest_stable(b: Seq<u8>, t1: Seq<Token>, t2: Seq<Token>, acc: Seq<LiteralV>, pos: int)
    requires
        tokens_wf(b, t1),
        ends_with_semi(t1, t2),
    ensures
        p_literals_rest(b, t1, acc, pos) == p_literals_rest(b, t2, acc, pos),
    decreases t1.len() - pos,
{
    lemma_reads_stable_all(b, t1, t2);
    if at_kind(t1, pos, TokenKind::Comma) {
        assert(p_literal(b, t1, pos + 1) == p_literal(b, t2, pos + 1));
        if let Ok((l, p)) = p_literal(b, t1, pos + 1) {
            if pos < p <= t1.len() {
                lemma_literals_rest_stable(b, t1, t2, acc.push(l), p);
            }
        }
    }
}

proof fn lemma_tuple_stable(b: Seq<u8>, t1: Seq<Token>, t2: Seq<Token>, pos: int)
    requires
        tokens_wf(b, t1),
        ends_with_semi(t1, t2),
    ensures
        p_tuple(b, t1, pos) == p_tuple(b, t2, pos),
{
    lemma_reads_stable_all(b, t1, t2);
    if let Ok(p1) = p_expect(t1, pos, TokenKind::LParen, T_LPAREN) {
        assert(p_literal(b, t1, p1) == p_literal(b, t2, p1));
        if let Ok((l, p2)) = p_literal(b, t1, p1) {
            lemma_literals_rest_stable(b, t1, t2, seq![l], p2);
        }
    }
}

proof fn lemma_tuples_rest_stable(b: Seq<u8>, t1: Seq<Token>, t2: Seq<Token>, acc: Seq<Seq<LiteralV>>, pos: int)
    requires
        tokens_wf(b, t1),
        ends_with_semi(t1, t2),
    ensures
        p_tuples_rest(b, t1, acc, pos) == p_tuples_rest(b, t2, acc, pos),
    decreases t1.len() - pos,
{
    if at_kind(t1, pos, TokenKind::Comma) {
        lemma_tuple_stable(b, t1, t2, pos + 1);
        if let Ok((tp, p)) = p_tuple(b, t1, pos + 1) {
            if pos < p <= t1.len() {
                lemma_tuples_rest_stable(b, t1, t2, acc.push(tp), p);
            }
        }
    }
}

proof fn lemma_select_rest_stable(b: Seq<u8>, t1: Seq<Token>, t2: Seq<Token>, acc: Seq<SelectItemV>, pos: int)
    requires
        tokens_wf(b, t1),
        ends_with_semi(t1, t2),
    ensures
        p_select_rest(b, t1, acc, pos) == p_select_rest(b, t2, acc, pos),
    decreases t1.len() - pos,
{
    lemma_reads_stable_all(b, t1, t2);
    if at_kind(t1, pos, TokenKind::Comma) {
        lemma_or_advances(b, t1, pos + 1);
        assert(p_or(b, t1, pos + 1) == p_or(b, t2, pos + 1));
        if let Ok((e, p)) = p_or(b, t1, pos + 1) {
            if pos < p <= t1.len() {
                lemma_select_rest_stable(b, t1, t2, acc.push(SelectItemV::Expr(e)), p);
            }
        }
    }
}

proof fn lemma_assignments_rest_stable(
    b: Seq<u8>,
    t1: Seq<Token>,
    t2: Seq<Token>,
    acc: Seq<(Seq<char>, ExprV)>,
    pos: int,
)
    requires
        tokens_wf(b, t1),
        ends_with_semi(t1, t2),
    ensures
        p_assignments_rest(b, t1, acc, pos) == p_assignments_rest(b, t2, acc, pos),
    decreases t1.len() - pos,
{
    lemma_reads_stable_all(b, t1, t2);
    if at_kind(t1, pos, TokenKind::Comma) {
        lemma_assignment_advances(b, t1, pos + 1);
        assert(p_ident(b, t1, pos + 1) == p_ident(b, t2, pos + 1));
        if let Ok((_, p1)) = p_ident(b, t1, pos + 1) {
            if let Ok(p2) = p_expect(t1, p1, TokenKind::Eq, T_EQ) {
                assert(p_or(b, t1, p2) == p_or(b, t2, p2));
            }
        }
        assert(p_assignment(b, t1, pos + 1) == p_assignment(b, t2, pos + 1));
        if let Ok((a, p)) = p_assignment(b, t1, pos + 1) {
            if pos < p <= t1.len() {
                lemma_assignments_rest_stable(b, t1, t2, acc.push(a), p);
            }
        }
    }
}

/// `t2` is `t1` followed by `;`: a prefix of `t2`, so it is well formed with it.
pub(crate) proof fn lemma_ends_with_semi_wf(b: Seq<u8>, t1: Seq<Token>, t2: Seq<Token>)
    requires
        tokens_wf(b, t2),
        ends_with_semi(t1, t2),
    ensures
        tokens_wf(b, t1),
{
    assert forall|i: int| 0 <= i < t1.len() implies token_wf(b, #[trigger] t1[i]) by {
        assert(t2[i] == t1[i]);
    }
}

/// An assignment consumes at least one token.
proof fn lemma_assignment_advances(b: Seq<u8>, t: Seq<Token>, pos: int)
    requires
        0 <= pos,
    ensures
        p_assignment(b, t, pos) matches Ok((_, p)) ==> pos < p <= t.len(),
{
    if let Ok((_, p1)) = p_ident(b, t, pos) {
        if let Ok(p2) = p_expect(t, p1, TokenKind::Eq, T_EQ) {
            lemma_or_advances(b, t, p2);
        }
    }
}

#[verifier::spinoff_prover]
proof fn lemma_create_stable(b: Seq<u8>, t1: Seq<Token>, t2: Seq<Token>)
    requires
        tokens_wf(b, t1),
        ends_with_semi(t1, t2),
    ensures
        p_create(b, t1, 0) == p_create(b, t2, 0),
{
    lemma_reads_stable_all(b, t1, t2);
    if let Ok(p1) = p_expect(t1, 1, TokenKind::Keyword(Keyword::Table), T_TABLE) {
        assert(p_ident(b, t1, p1) == p_ident(b, t2, p1));
        if let Ok((_, p2)) = p_ident(b, t1, p1) {
            if let Ok(p3) = p_expect(t1, p2, TokenKind::LParen, T_LPAREN) {
                assert(p_ident(b, t1, p3) == p_ident(b, t2, p3));
                assert(p_column_def(b, t1, p3) == p_column_def(b, t2, p3));
                if let Ok((c, p4)) = p_column_def(b, t1, p3) {
                    lemma_column_defs_rest_stable(b, t1, t2, seq![c], p4);
                }
            }
        }
    }
    assert(p_create(b, t1, 0) == p_create(b, t2, 0));
}

#[verifier::spinoff_prover]
proof fn lemma_insert_stable(b: Seq<u8>, t1: Seq<Token>, t2: Seq<Token>)
    requires
        tokens_wf(b, t1),
        ends_with_semi(t1, t2),
    ensures
        p_insert(b, t1, 0) == p_insert(b, t2, 0),
{
    lemma_reads_stable_all(b, t1, t2);
    if let Ok(p1) = p_expect(t1, 1, TokenKind::Keyword(Keyword::Into), T_INTO) {
        assert(p_ident(b, t1, p1) == p_ident(b, t2, p1));
        if let Ok((_, p2)) = p_ident(b, t1, p1) {
            if at_kind(t1, p2, TokenKind::LParen) {
                assert(p_ident(b, t1, p2 + 1) == p_ident(b, t2, p2 + 1));
                if let Ok((c, q)) = p_ident(b, t1, p2 + 1) {
                    lemma_idents_rest_stable(b, t1, t2, seq![c], q);
                }
            }
            assert(p_insert_columns(b, t1, p2) == p_insert_columns(b, t2, p2));
            if let Ok((cols, p3)) = p_insert_columns(b, t1, p2) {
                let expected = if cols is None {
                    T_VALUES | T_LPAREN
                } else {
                    T_VALUES
                };
                if let Ok(p4) = p_expect(t1, p3, TokenKind::Keyword(Keyword::Values), expected) {
                    lemma_tuple_stable(b, t1, t2, p4);
                    if let Ok((tp, p5)) = p_tuple(b, t1, p4) {
                        lemma_tuples_rest_stable(b, t1, t2, seq![tp], p5);
                    }
                }
            }
        }
    }
    assert(p_insert(b, t1, 0) == p_insert(b, t2, 0));
}

#[verifier::spinoff_prover]
proof fn lemma_select_stable(b: Seq<u8>, t1: Seq<Token>, t2: Seq<Token>)
    requires
        tokens_wf(b, t1),
        ends_with_semi(t1, t2),
    ensures
        p_select(b, t1, 0) == p_select(b, t2, 0),
{
    lemma_reads_stable_all(b, t1, t2);
    assert(p_or(b, t1, 1) == p_or(b, t2, 1));
    if let Ok((e, p)) = p_or(b, t1, 1) {
        lemma_select_rest_stable(b, t1, t2, seq![SelectItemV::Expr(e)], p);
    }
    assert(p_select_list(b, t1, 1) == p_select_list(b, t2, 1));
    if let Ok((_, p1)) = p_select_list(b, t1, 1) {
        if let Ok(p2) = p_expect(t1, p1, TokenKind::Keyword(Keyword::From), T_FROM | T_COMMA) {
            assert(p_ident(b, t1, p2) == p_ident(b, t2, p2));
            if let Ok((_, p3)) = p_ident(b, t1, p2) {
                assert(p_or(b, t1, p3 + 1) == p_or(b, t2, p3 + 1));
                assert(p_where(b, t1, p3) == p_where(b, t2, p3));
            }
        }
    }
    assert(p_select(b, t1, 0) == p_select(b, t2, 0));
}

#[verifier::spinoff_prover]
proof fn lemma_update_stable(b: Seq<u8>, t1: Seq<Token>, t2: Seq<Token>)
    requires
        tokens_wf(b, t1),
        ends_with_semi(t1, t2),
    ensures
        p_update(b, t1, 0) == p_update(b, t2, 0),
{
    lemma_reads_stable_all(b, t1, t2);
    assert(p_ident(b, t1, 1) == p_ident(b, t2, 1));
    if let Ok((_, p1)) = p_ident(b, t1, 1) {
        if let Ok(p2) = p_expect(t1, p1, TokenKind::Keyword(Keyword::SetKw), T_SET) {
            assert(p_ident(b, t1, p2) == p_ident(b, t2, p2));
            if let Ok((_, q1)) = p_ident(b, t1, p2) {
                if let Ok(q2) = p_expect(t1, q1, TokenKind::Eq, T_EQ) {
                    assert(p_or(b, t1, q2) == p_or(b, t2, q2));
                }
            }
            assert(p_assignment(b, t1, p2) == p_assignment(b, t2, p2));
            if let Ok((a, p3)) = p_assignment(b, t1, p2) {
                lemma_assignments_rest_stable(b, t1, t2, seq![a], p3);
                if let Ok((_, p4)) = p_assignments_rest(b, t1, seq![a], p3) {
                    assert(p_or(b, t1, p4 + 1) == p_or(b, t2, p4 + 1));
                    assert(p_where(b, t1, p4) == p_where(b, t2, p4));
                }
            }
        }
    }
    assert(p_update(b, t1, 0) == p_update(b, t2, 0));
}

#[verifier::spinoff_prover]
proof fn lemma_delete_stable(b: Seq<u8>, t1: Seq<Token>, t2: Seq<Token>)
    requires
        tokens_wf(b, t1),
        ends_with_semi(t1, t2),
    ensures
        p_delete(b, t1, 0) == p_delete(b, t2, 0),
{
    lemma_reads_stable_all(b, t1, t2);
    if let Ok(p1) = p_expect(t1, 1, TokenKind::Keyword(Keyword::From), T_FROM) {
        assert(p_ident(b, t1, p1) == p_ident(b, t2, p1));
        if let Ok((_, p2)) = p_ident(b, t1, p1) {
            assert(p_or(b, t1, p2 + 1) == p_or(b, t2, p2 + 1));
            assert(p_where(b, t1, p2) == p_where(b, t2, p2));
        }
    }
    assert(p_delete(b, t1, 0) == p_delete(b, t2, 0));
}

/// A statement parses the same from `t1` and from `t1` followed by `;`: no rule
/// inside a statement accepts `;`, so it acts as the end of the tokens.
proof fn lemma_statement_stable(b: Seq<u8>, t1: Seq<Token>, t2: Seq<Token>)
    requires
        tokens_wf(b, t1),
        ends_with_semi(t1, t2),
    ensures
        p_statement(b, t1) == p_statement(b, t2),
{
    reveal(p_statement);
    lemma_token_reads_stable(b, t1, t2, 0);
    lemma_create_stable(b, t1, t2);
    lemma_insert_stable(b, t1, t2);
    lemma_select_stable(b, t1, t2);
    lemma_update_stable(b, t1, t2);
    lemma_delete_stable(b, t1, t2);
}

/// The grammar reads the input only through the kinds of its tokens and the
/// texts of its identifiers, integers and strings: tokens of the same kinds and
/// texts give the same statement, or fail at the same token.
pub proof fn lemma_parse_reads_only_token_texts(
    b1: Seq<u8>,
    t1: Seq<Token>,
    b2: Seq<u8>,
    t2: Seq<Token>,
)
    requires
        tokens_wf(b1, t1),
        tokens_wf(b2, t2),
        same_tokens(b1, t1, b2, t2),
    ensures
        parse_tokens(b1, t1) == parse_tokens(b2, t2),
{
    lemma_statement_same(b1, t1, b2, t2);
    lemma_token_reads_same(b1, t1, b2, t2, 0);
    if let Ok((_, p)) = p_statement(b1, t1) {
        lemma_token_reads_same(b1, t1, b2, t2, p);
    }
}

/// Two inputs that agree under the text tokens of `t` hold those tokens with
/// the same texts.
pub proof fn lemma_texts_agree_same(b1: Seq<u8>, b2: Seq<u8>, t: Seq<Token>)
    requires
        texts_agree(b1, b2, t),
    ensures
        same_tokens(b1, t, b2, t),
{
}

/// A `;` may end a statement or not: tokens that form a statement and do not
/// already end with `;` form the same statement when one `;` follows them.
pub proof fn lemma_trailing_semicolon(b: Seq<u8>, t1: Seq<Token>, t2: Seq<Token>)
    requires
        tokens_wf(b, t1),
        ends_with_semi(t1, t2),
        parse_tokens(b, t1) is Ok,
        t1.len() == 0 || t1.last().kind != TokenKind::Semi,
    ensures
        parse_tokens(b, t2) == parse_tokens(b, t1),
{
    lemma_statement_stable(b, t1, t2);
    if let Ok((_, p)) = p_statement(b, t1) {
        if at_kind(t1, p, TokenKind::Semi) {
            assert(t1.last() == t1[p]);
        }
    }
}


/// The expressions `es` joined by `op`, grouped from the left:
/// `((es[0] op es[1]) op es[2]) ...`.
pub open spec fn joined_from_left(op: BinaryOp, es: Seq<ExprV>) -> ExprV
    decreases es.len(),
{
    if es.len() <= 1 {
        es[0]
    } else {
        bin(op, joined_from_left(op, es.drop_last()), es.last())
    }
}

/// `n` operands read one after another, each parsed by `part` from its start
/// to its end, separated by keyword `sep`, with no `sep` after the last.
pub open spec fn chain_of(
    t: Seq<Token>,
    sep: Keyword,
    starts: Seq<int>,
    ends: Seq<int>,
    n: int,
) -> bool {
    &&& n >= 1
    &&& starts.len() == n
    &&& ends.len() == n
    &&& forall|i: int| 0 <= i < n - 1 ==> #[trigger] at_kw(t, ends[i], sep) && starts[i + 1]
        == ends[i] + 1
    &&& !at_kw(t, ends[n - 1], sep)
}

/// The rest of an OR chain, from operand `k` on, folds onto what was read.
proof fn lemma_or_chain_rest(
    b: Seq<u8>,
    t: Seq<Token>,
    starts: Seq<int>,
    ends: Seq<int>,
    es: Seq<ExprV>,
    k: int,
)
    requires
        chain_of(t, Keyword::Or, starts, ends, es.len() as int),
        0 <= starts[0],
        forall|i: int|
            0 <= i < es.len() ==> #[trigger] p_and(b, t, starts[i]) == Ok::<_, ParseErr>(
                (es[i], ends[i]),
            ),
        1 <= k <= es.len(),
    ensures
        p_or_rest(b, t, joined_from_left(BinaryOp::Or, es.take(k)), ends[k - 1]) == Ok::<
            _,
            ParseErr,
        >((joined_from_left(BinaryOp::Or, es), ends[es.len() - 1])),
    decreases es.len() - k,
{
    let n = es.len() as int;
    if k == n {
        assert(es.take(k) =~= es);
    } else {
        assert(at_kw(t, ends[k - 1], Keyword::Or) && starts[k] == ends[k - 1] + 1);
        lemma_chain_in_range(b, t, Keyword::Or, starts, ends, es, k, true);
        assert(p_and(b, t, starts[k]) == Ok::<_, ParseErr>((es[k], ends[k])));
        assert(es.take(k + 1).drop_last() =~= es.take(k));
        assert(es.take(k + 1).last() == es[k]);
        assert(joined_from_left(BinaryOp::Or, es.take(k + 1)) == bin(
            BinaryOp::Or,
            joined_from_left(BinaryOp::Or, es.take(k)),
            es[k],
        ));
        lemma_or_chain_rest(b, t, starts, ends, es, k + 1);
    }
}

/// The operands of a chain start within the tokens, and each ends after it
/// starts.
proof fn lemma_chain_in_range(
    b: Seq<u8>,
    t: Seq<Token>,
    sep: Keyword,
    starts: Seq<int>,
    ends: Seq<int>,
    es: Seq<ExprV>,
    k: int,
    ors: bool,
)
    requires
        chain_of(t, sep, starts, ends, es.len() as int),
        0 <= starts[0],
        ors ==> forall|i: int|
            0 <= i < es.len() ==> #[trigger] p_and(b, t, starts[i]) == Ok::<_, ParseErr>(
                (es[i], ends[i]),
            ),
        !ors ==> forall|i: int|
            0 <= i < es.len() ==> #[trigger] p_not(b, t, starts[i]) == Ok::<_, ParseErr>(
                (es[i], ends[i]),
            ),
        0 <= k < es.len(),
    ensures
        0 <= starts[k] < ends[k] <= t.len(),
    decreases k,
{
    if k > 0 {
        lemma_chain_in_range(b, t, sep, starts, ends, es, k - 1, ors);
        assert(at_kw(t, ends[k - 1], sep));
    }
    if ors {
        lemma_and_advances(b, t, starts[k]);
        assert(p_and(b, t, starts[k]) == Ok::<_, ParseErr>((es[k], ends[k])));
    } else {
        lemma_not_advances(b, t, starts[k]);
        assert(p_not(b, t, starts[k]) == Ok::<_, ParseErr>((es[k], ends[k])));
    }
}

/// OR groups from the left: and-expressions `es[0] OR es[1] OR ... OR es[n-1]`,
/// with no OR after the last, are read as `((es[0] OR es[1]) OR ...) OR es[n-1]`,
/// ending where the last one ends.
pub proof fn lemma_or_groups_from_left(
    b: Seq<u8>,
    t: Seq<Token>,
    starts: Seq<int>,
    ends: Seq<int>,
    es: Seq<ExprV>,
)
    requires
        chain_of(t, Keyword::Or, starts, ends, es.len() as int),
        0 <= starts[0],
        forall|i: int|
            0 <= i < es.len() ==> #[trigger] p_and(b, t, starts[i]) == Ok::<_, ParseErr>(
                (es[i], ends[i]),
            ),
    ensures
        p_or(b, t, starts[0]) == Ok::<_, ParseErr>(
            (joined_from_left(BinaryOp::Or, es), ends[es.len() - 1]),
        ),
{
    lemma_chain_in_range(b, t, Keyword::Or, starts, ends, es, 0, true);
    assert(p_and(b, t, starts[0]) == Ok::<_, ParseErr>((es[0], ends[0])));
    assert(es.take(1).len() == 1);
    assert(joined_from_left(BinaryOp::Or, es.take(1)) == es[0]);
    lemma_or_chain_rest(b, t, starts, ends, es, 1);
}

/// The rest of an AND chain, from operand `k` on, folds onto what was read.
proof fn lemma_and_chain_rest(
    b: Seq<u8>,
    t: Seq<Token>,
    starts: Seq<int>,
    ends: Seq<int>,
    es: Seq<ExprV>,
    k: int,
)
    requires
        chain_of(t, Keyword::And, starts, ends, es.len() as int),
        0 <= starts[0],
        forall|i: int|
            0 <= i < es.len() ==> #[trigger] p_not(b, t, starts[i]) == Ok::<_, ParseErr>(
                (es[i], ends[i]),
            ),
        1 <= k <= es.len(),
    ensures
        p_and_rest(b, t, joined_from_left(BinaryOp::And, es.take(k)), ends[k - 1]) == Ok::<
            _,
            ParseErr,
        >((joined_from_left(BinaryOp::And, es), ends[es.len() - 1])),
    decreases es.len() - k,
{
    let n = es.len() as int;
    if k == n {
        assert(es.take(k) =~= es);
    } else {
        assert(at_kw(t, ends[k - 1], Keyword::And) && starts[k] == ends[k - 1] + 1);
        lemma_chain_in_range(b, t, Keyword::And, starts, ends, es, k, false);
        assert(p_not(b, t, starts[k]) == Ok::<_, ParseErr>((es[k], ends[k])));
        assert(es.take(k + 1).drop_last() =~= es.take(k));
        assert(es.take(k + 1).last() == es[k]);
        assert(joined_from_left(BinaryOp::And, es.take(k + 1)) == bin(
            BinaryOp::And,
            joined_from_left(BinaryOp::And, es.take(k)),
            es[k],
        ));
        lemma_and_chain_rest(b, t, starts, ends, es, k + 1);
    }
}

/// AND groups from the left: not-expressions `es[0] AND es[1] AND ... AND
/// es[n-1]`, with no AND after the last, are read as
/// `((es[0] AND es[1]) AND ...) AND es[n-1]`, ending where the last one ends.
pub proof fn lemma_and_groups_from_left(
    b: Seq<u8>,
    t: Seq<Token>,
    starts: Seq<int>,
    ends: Seq<int>,
    es: Seq<ExprV>,
)
    requires
        chain_of(t, Keyword::And, starts, ends, es.len() as int),
        0 <= starts[0],
        forall|i: int|
            0 <= i < es.len() ==> #[trigger] p_not(b, t, starts[i]) == Ok::<_, ParseErr>(
                (es[i], ends[i]),
            ),
    ensures
        p_and(b, t, starts[0]) == Ok::<_, ParseErr>(
            (joined_from_left(BinaryOp::And, es), ends[es.len() - 1]),
        ),
{
    lemma_chain_in_range(b, t, Keyword::And, starts, ends, es, 0, false);
    assert(p_not(b, t, starts[0]) == Ok::<_, ParseErr>((es[0], ends[0])));
    assert(es.take(1).len() == 1);
    assert(joined_from_left(BinaryOp::And, es.take(1)) == es[0]);
    lemma_and_chain_rest(b, t, starts, ends, es, 1);
}

/// A NOT negates the not-expression after it, wherever it stands: whatever
/// comes before, `NOT` at `pos` followed by a not-expression read as `e`
/// (or failing) is read as `NOT e` ending at the same place (or fails the
/// same way).
pub proof fn lemma_not_negates(b: Seq<u8>, t: Seq<Token>, pos: int)
    requires
        at_kw(t, pos, Keyword::Not),
    ensures
        p_not(b, t, pos + 1) matches Ok((e, p)) ==> p_not(b, t, pos) == Ok::<_, ParseErr>(
            (ExprV::Not(Box::new(e)), p),
        ),
        p_not(b, t, pos + 1) matches Err(e) ==> p_not(b, t, pos) == Err::<(ExprV, int), _>(e),
{
}

/// A NOT may follow an AND: `x AND NOT y`, with no AND after `y`, is read as
/// `x AND (NOT y)`.
pub proof fn lemma_and_not(
    b: Seq<u8>,
    t: Seq<Token>,
    pos: int,
    x: ExprV,
    p1: int,
    y: ExprV,
    p2: int,
)
    requires
        0 <= pos,
        p_not(b, t, pos) == Ok::<_, ParseErr>((x, p1)),
        at_kw(t, p1, Keyword::And),
        at_kw(t, p1 + 1, Keyword::Not),
        p_not(b, t, p1 + 2) == Ok::<_, ParseErr>((y, p2)),
        !at_kw(t, p2, Keyword::And),
    ensures
        p_and(b, t, pos) == Ok::<_, ParseErr>((bin(BinaryOp::And, x, ExprV::Not(Box::new(y))), p2)),
{
    lemma_not_advances(b, t, pos);
    lemma_not_advances(b, t, p1 + 2);
    lemma_not_negates(b, t, p1 + 1);
}


/// Without a NOT in front, a not-expression is a comparison: NOT binds looser
/// than the comparison operators.
pub proof fn lemma_no_not_is_comparison(b: Seq<u8>, t: Seq<Token>, pos: int)
    requires
        !at_kw(t, pos, Keyword::Not),
    ensures
        p_not(b, t, pos) == p_comparison(b, t, pos),
{
}

/// A comparison applies the operator written between its operands: `=`, `<`,
/// `>`, `<=`, `>=` and `<>` give `Eq`, `Lt`, `Gt`, `Le`, `Ge` and `Ne` over the two
/// operands, ending after the second; any other token after the first operand
/// leaves it alone.
pub proof fn lemma_comparison_applies_operator(
    b: Seq<u8>,
    t: Seq<Token>,
    pos: int,
    l: ExprV,
    p1: int,
    r: ExprV,
    p2: int,
)
    requires
        0 <= pos,
        p_operand(b, t, pos) == Ok::<_, ParseErr>((l, p1)),
        p1 < t.len(),
        p_operand(b, t, p1 + 1) == Ok::<_, ParseErr>((r, p2)),
    ensures
        t[p1].kind == TokenKind::Eq ==> p_comparison(b, t, pos) == Ok::<_, ParseErr>(
            (bin(BinaryOp::Eq, l, r), p2),
        ),
        t[p1].kind == TokenKind::Lt ==> p_comparison(b, t, pos) == Ok::<_, ParseErr>(
            (bin(BinaryOp::Lt, l, r), p2),
        ),
        t[p1].kind == TokenKind::Gt ==> p_comparison(b, t, pos) == Ok::<_, ParseErr>(
            (bin(BinaryOp::Gt, l, r), p2),
        ),
        t[p1].kind == TokenKind::Le ==> p_comparison(b, t, pos) == Ok::<_, ParseErr>(
            (bin(BinaryOp::Le, l, r), p2),
        ),
        t[p1].kind == TokenKind::Ge ==> p_comparison(b, t, pos) == Ok::<_, ParseErr>(
            (bin(BinaryOp::Ge, l, r), p2),
        ),
        t[p1].kind == TokenKind::Ne ==> p_comparison(b, t, pos) == Ok::<_, ParseErr>(
            (bin(BinaryOp::Ne, l, r), p2),
        ),
        !(t[p1].kind == TokenKind::Eq || t[p1].kind == TokenKind::Lt || t[p1].kind == TokenKind::Gt
            || t[p1].kind == TokenKind::Le || t[p1].kind == TokenKind::Ge || t[p1].kind
            == TokenKind::Ne) ==> p_comparison(b, t, pos) == Ok::<_, ParseErr>((l, p1)),
{
    if pos <= t.len() {
        lemma_operand_advances(b, t, pos);
    }
}

/// A parenthesized expression is an operand: `(` followed by an expression
/// read as `e` and a `)` is read as `e`, ending after the `)`.
pub proof fn lemma_parenthesized_operand(b: Seq<u8>, t: Seq<Token>, pos: int, e: ExprV, p: int)
    requires
        at_kind(t, pos, TokenKind::LParen),
        p_or(b, t, pos + 1) == Ok::<_, ParseErr>((e, p)),
        at_kind(t, p, TokenKind::RParen),
    ensures
        p_operand(b, t, pos) == Ok::<_, ParseErr>((e, p + 1)),
{
}

/// A column definition keeps its name and type and is nullable unless it says
/// `NOT NULL`: after the name `name` and the type `dt`, `NOT NULL` gives a
/// column that is not nullable, `NULL` or nothing gives a nullable one.
pub proof fn lemma_column_def_nullability(
    b: Seq<u8>,
    t: Seq<Token>,
    pos: int,
    name: Seq<char>,
    p1: int,
    dt: DataType,
    p2: int,
)
    requires
        p_ident(b, t, pos) == Ok::<_, ParseErr>((name, p1)),
        p_data_type(t, p1) == Ok::<_, ParseErr>((dt, p2)),
    ensures
        at_kw(t, p2, Keyword::Not) && at_kw(t, p2 + 1, Keyword::Null) ==> p_column_def(b, t, pos)
            == Ok::<_, ParseErr>((ColumnDefV { name, data_type: dt, nullable: false }, p2 + 2)),
        at_kw(t, p2, Keyword::Null) ==> p_column_def(b, t, pos) == Ok::<_, ParseErr>(
            (ColumnDefV { name, data_type: dt, nullable: true }, p2 + 1),
        ),
        !at_kw(t, p2, Keyword::Not) && !at_kw(t, p2, Keyword::Null) ==> p_column_def(b, t, pos)
            == Ok::<_, ParseErr>((ColumnDefV { name, data_type: dt, nullable: true }, p2)),
{
}
} // verus!
