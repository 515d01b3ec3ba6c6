//! The abstract syntax tree the parser produces: statements over expression
//! trees, together with their spec-level views.

use crate::token::{DataTypes, Keyword, Operator, Symbol, TokenView, ValueView};
use vstd::prelude::*;

verus! {

/// An expression: a tree owned exclusively by its root.
#[derive(Debug)]
pub enum Expr {
    /// A left- and right-operand application of a binary operator.
    Binary { left: Box<Expr>, op: Operator, right: Box<Expr> },
    /// A literal value.
    Literal(DataTypes),
    /// A reference to a name.
    Identifier(String),
    /// A parenthesized sub-expression, kept as its own node so that the
    /// original grouping can be reproduced.
    Grouping(Box<Expr>),
}

/// A statement: a declaration or a bare expression.
///
/// In a `Let`, `var_type` is a type tag: a default-valued literal of the
/// declared kind (`Integer(0)` means "declared as int"), not a value.
#[derive(Debug)]
pub enum Statement {
    Let { name: String, var_type: DataTypes, value: Expr },
    Expr(Expr),
}

/// The mathematical value of an [`Expr`].
pub enum ExprView {
    Binary { left: Box<ExprView>, op: Operator, right: Box<ExprView> },
    Literal(ValueView),
    Identifier(Seq<char>),
    Grouping(Box<ExprView>),
}

/// The mathematical value of a [`Statement`].
pub enum StatementView {
    Let { name: Seq<char>, var_type: ValueView, value: ExprView },
    Expr(ExprView),
}

/// The view of an expression tree.
pub open spec fn spec_expr_view(e: Expr) -> ExprView
    decreases e,
{
    match e {
        Expr::Binary { left, op, right } => ExprView::Binary {
            left: Box::new(spec_expr_view(*left)),
            op,
            right: Box::new(spec_expr_view(*right)),
        },
        Expr::Literal(d) => ExprView::Literal(d@),
        Expr::Identifier(n) => ExprView::Identifier(n@),
        Expr::Grouping(inner) => ExprView::Grouping(Box::new(spec_expr_view(*inner))),
    }
}

impl DeepView for Expr {
    type V = ExprView;

    open spec fn deep_view(&self) -> ExprView {
        spec_expr_view(*self)
    }
}

impl DeepView for Statement {
    type V = StatementView;

    open spec fn deep_view(&self) -> StatementView {
        match self {
            Statement::Let { name, var_type, value } => StatementView::Let {
                name: name@,
                var_type: var_type@,
                value: value.deep_view(),
            },
            Statement::Expr(e) => StatementView::Expr(e.deep_view()),
        }
    }
}

/// The primitive type keyword that a declaration's type tag was written
/// with.
pub open spec fn spec_type_keyword(v: ValueView) -> Keyword {
    match v {
        ValueView::Integer(_) => Keyword::Int,
        ValueView::Float(_) => Keyword::Float,
        ValueView::Boolean(_) => Keyword::Bool,
        ValueView::Char(_) => Keyword::Char,
        ValueView::String(_) => Keyword::String,
    }
}

/// The token sequence an expression prints back to: its leaves, operators
/// and grouping parentheses, in source order.
pub open spec fn spec_expr_tokens(e: ExprView) -> Seq<TokenView>
    decreases e,
{
    match e {
        ExprView::Binary { left, op, right } => spec_expr_tokens(*left) + seq![
            TokenView::Operator(op),
        ] + spec_expr_tokens(*right),
        ExprView::Literal(v) => seq![TokenView::DataTypes(v)],
        ExprView::Identifier(n) => seq![TokenView::Identifiers(n)],
        ExprView::Grouping(inner) => seq![TokenView::Symbol(Symbol::LParen)] + spec_expr_tokens(
            *inner,
        ) + seq![TokenView::Symbol(Symbol::RParen)],
    }
}

/// The token sequence a statement prints back to, including its terminating
/// semicolon.
pub open spec fn spec_stmt_tokens(st: StatementView) -> Seq<TokenView> {
    match st {
        StatementView::Let { name, var_type, value } => seq![
            TokenView::Keyword(Keyword::Let),
            TokenView::Identifiers(name),
            TokenView::Symbol(Symbol::Colon),
            TokenView::Keyword(spec_type_keyword(var_type)),
            TokenView::Operator(Operator::Equal),
        ] + spec_expr_tokens(value) + seq![TokenView::Symbol(Symbol::Semicolon)],
        StatementView::Expr(e) => spec_expr_tokens(e) + seq![TokenView::Symbol(Symbol::Semicolon)],
    }
}

/// The token sequence a statement list prints back to.
pub open spec fn spec_stmts_tokens(ss: Seq<StatementView>) -> Seq<TokenView>
    decreases ss.len(),
{
    if ss.len() == 0 {
        Seq::empty()
    } else {
        spec_stmt_tokens(ss[0]) + spec_stmts_tokens(ss.subrange(1, ss.len() as int))
    }
}

} // verus!
