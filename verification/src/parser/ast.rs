//! Abstract syntax tree of the SQL subset.
//!
//! These types mirror nothing from `storage`; a later planning phase converts
//! them into storage-level types.
use vstd::prelude::*;

verus! {

/// A complete SQL statement (exactly one per `parse` call).
#[derive(Debug, Clone, PartialEq)]
pub enum Statement {
    CreateTable(CreateTableStatement),
    Insert(InsertStatement),
    Select(SelectStatement),
    Update(UpdateStatement),
    Delete(DeleteStatement),
}

#[derive(Debug, Clone, PartialEq)]
pub struct CreateTableStatement {
    pub table_name: String,
    pub columns: Vec<ColumnDef>,
}

#[derive(Debug, Clone, PartialEq)]
pub struct ColumnDef {
    pub name: String,
    pub data_type: DataType,
    /// `true` for `NULL` or when omitted; `false` for `NOT NULL`.
    pub nullable: bool,
}

/// Column types (they mirror the storage column types).
#[derive(Debug, Clone, Copy, PartialEq, Eq, Structural)]
pub enum DataType {
    Integer,
    Varchar,
    Boolean,
}

#[derive(Debug, Clone, PartialEq)]
pub struct InsertStatement {
    pub table_name: String,
    /// `None` when the statement has no column list.
    pub columns: Option<Vec<String>>,
    /// One list of literals per tuple.
    pub values: Vec<Vec<Literal>>,
}

#[derive(Debug, Clone, PartialEq)]
pub struct SelectStatement {
    pub columns: Vec<SelectItem>,
    pub table: String,
    pub predicate: Option<Expr>,
}

#[derive(Debug, Clone, PartialEq)]
pub enum SelectItem {
    Wildcard,
    Expr(Expr),
}

#[derive(Debug, Clone, PartialEq)]
pub struct UpdateStatement {
    pub table: String,
    pub assignments: Vec<(String, Expr)>,
    pub predicate: Option<Expr>,
}

#[derive(Debug, Clone, PartialEq)]
pub struct DeleteStatement {
    pub table: String,
    pub predicate: Option<Expr>,
}

#[derive(Debug, PartialEq)]
pub enum Literal {
    Integer(i64),
    String(String),
    Boolean(bool),
    Null,
}

#[derive(Debug, PartialEq)]
pub enum Expr {
    Literal(Literal),
    Column(String),
    Binary { op: BinaryOp, left: Box<Expr>, right: Box<Expr> },
    Not(Box<Expr>),
}

#[derive(Debug, Clone, Copy, PartialEq, Eq, Structural)]
pub enum BinaryOp {
    Eq,
    Lt,
    Gt,
    Le,
    Ge,
    Ne,
    And,
    Or,
}

/// The mathematical value of a [`Literal`]: text is its sequence of characters.
pub enum LiteralV {
    Integer(i64),
    String(Seq<char>),
    Boolean(bool),
    Null,
}

/// The mathematical value of an [`Expr`].
pub enum ExprV {
    Literal(LiteralV),
    Column(Seq<char>),
    Binary(BinaryOp, Box<ExprV>, Box<ExprV>),
    Not(Box<ExprV>),
}

/// The mathematical value of a [`SelectItem`].
pub enum SelectItemV {
    Wildcard,
    Expr(ExprV),
}

/// The mathematical value of a [`ColumnDef`].
pub struct ColumnDefV {
    pub name: Seq<char>,
    pub data_type: DataType,
    pub nullable: bool,
}

/// The mathematical value of a [`Statement`].
pub enum StatementV {
    CreateTable { table_name: Seq<char>, columns: Seq<ColumnDefV> },
    Insert {
        table_name: Seq<char>,
        columns: Option<Seq<Seq<char>>>,
        values: Seq<Seq<LiteralV>>,
    },
    Select { columns: Seq<SelectItemV>, table: Seq<char>, predicate: Option<ExprV> },
    Update { table: Seq<char>, assignments: Seq<(Seq<char>, ExprV)>, predicate: Option<ExprV> },
    Delete { table: Seq<char>, predicate: Option<ExprV> },
}

impl View for Literal {
    type V = LiteralV;

    open spec fn view(&self) -> LiteralV {
        match self {
            Literal::Integer(n) => LiteralV::Integer(*n),
            Literal::String(s) => LiteralV::String(s@),
            Literal::Boolean(b) => LiteralV::Boolean(*b),
            Literal::Null => LiteralV::Null,
        }
    }
}

/// The mathematical value of an expression.
pub open spec fn expr_view(e: Expr) -> ExprV
    decreases e,
{
    match e {
        Expr::Literal(l) => ExprV::Literal(l@),
        Expr::Column(c) => ExprV::Column(c@),
        Expr::Binary { op, left, right } => ExprV::Binary(
            op,
            Box::new(expr_view(*left)),
            Box::new(expr_view(*right)),
        ),
        Expr::Not(inner) => ExprV::Not(Box::new(expr_view(*inner))),
    }
}

impl View for Expr {
    type V = ExprV;

    open spec fn view(&self) -> ExprV {
        expr_view(*self)
    }
}

impl Clone for Literal {
    fn clone(&self) -> (r: Self)
        ensures
            r@ == self@,
    {
        match self {
            Literal::Integer(n) => Literal::Integer(*n),
            Literal::String(s) => Literal::String(s.clone()),
            Literal::Boolean(b) => Literal::Boolean(*b),
            Literal::Null => Literal::Null,
        }
    }
}

impl Clone for Expr {
    fn clone(&self) -> (r: Self)
        ensures
            r@ == self@,
        decreases self,
    {
        match self {
            Expr::Literal(l) => Expr::Literal(l.clone()),
            Expr::Column(c) => Expr::Column(c.clone()),
            Expr::Binary { op, left, right } => {
                let l = (**left).clone();
                let r = (**right).clone();
                Expr::Binary { op: *op, left: Box::new(l), right: Box::new(r) }
            },
            Expr::Not(inner) => Expr::Not(Box::new((**inner).clone())),
        }
    }
}

impl View for SelectItem {
    type V = SelectItemV;

    open spec fn view(&self) -> SelectItemV {
        match self {
            SelectItem::Wildcard => SelectItemV::Wildcard,
            SelectItem::Expr(e) => SelectItemV::Expr(e@),
        }
    }
}

impl View for ColumnDef {
    type V = ColumnDefV;

    open spec fn view(&self) -> ColumnDefV {
        ColumnDefV { name: self.name@, data_type: self.data_type, nullable: self.nullable }
    }
}

/// The value of an optional expression.
pub open spec fn opt_expr_view(e: Option<Expr>) -> Option<ExprV> {
    match e {
        Some(x) => Some(x@),
        None => None,
    }
}

/// The values of a list of literals.
pub open spec fn literals_view(ls: Seq<Literal>) -> Seq<LiteralV> {
    Seq::new(ls.len(), |i: int| ls[i]@)
}

/// The values of a list of tuples.
pub open spec fn tuples_view(ts: Seq<Vec<Literal>>) -> Seq<Seq<LiteralV>> {
    Seq::new(ts.len(), |i: int| literals_view(ts[i]@))
}

/// The texts of a list of names.
pub open spec fn names_view(ns: Seq<String>) -> Seq<Seq<char>> {
    Seq::new(ns.len(), |i: int| ns[i]@)
}

/// The values of a list of column definitions.
pub open spec fn defs_view(ds: Seq<ColumnDef>) -> Seq<ColumnDefV> {
    Seq::new(ds.len(), |i: int| ds[i]@)
}

/// The values of a select list.
pub open spec fn items_view(xs: Seq<SelectItem>) -> Seq<SelectItemV> {
    Seq::new(xs.len(), |i: int| xs[i]@)
}

/// The values of a list of assignments.
pub open spec fn assignments_view(xs: Seq<(String, Expr)>) -> Seq<(Seq<char>, ExprV)> {
    Seq::new(xs.len(), |i: int| (xs[i].0@, xs[i].1@))
}

impl View for Statement {
    type V = StatementV;

    open spec fn view(&self) -> StatementV {
        match self {
            Statement::CreateTable(c) => StatementV::CreateTable {
                table_name: c.table_name@,
                columns: defs_view(c.columns@),
            },
            Statement::Insert(i) => StatementV::Insert {
                table_name: i.table_name@,
                columns: match i.columns {
                    Some(cs) => Some(names_view(cs@)),
                    None => None,
                },
                values: tuples_view(i.values@),
            },
            Statement::Select(s) => StatementV::Select {
                columns: items_view(s.columns@),
                table: s.table@,
                predicate: opt_expr_view(s.predicate),
            },
            Statement::Update(u) => StatementV::Update {
                table: u.table@,
                assignments: assignments_view(u.assignments@),
                predicate: opt_expr_view(u.predicate),
            },
            Statement::Delete(d) => StatementV::Delete {
                table: d.table@,
                predicate: opt_expr_view(d.predicate),
            },
        }
    }
}

} // verus!
