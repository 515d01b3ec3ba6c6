//! The parser: turns the token list into statements by recursive descent
//! with one token of lookahead, left-associative precedence climbing for
//! expressions, and no backtracking.
//!
//! The grammar is written down as a reference interpretation over
//! `Seq<TokenView>` ([`spec_parse`] and the functions under it); the
//! executable [`Parser`] is proved to compute exactly that interpretation.

use crate::ast::{
    spec_expr_tokens, spec_stmt_tokens, spec_stmts_tokens, spec_type_keyword, Expr, ExprView,
    Statement, StatementView,
};
use crate::token::{DataTypes, Keyword, Operator, Symbol, Token, TokenView, ValueView};
use vstd::prelude::*;

verus! {

/// The kind of a token: its variant, and for symbols, operators, keywords
/// and unknown characters also their payload. Parse errors report kinds, so
/// that an error names the offending token without owning its text.
#[derive(Clone, Copy, Debug, PartialEq, Eq, Structural)]
pub enum TokenKind {
    Symbol(Symbol),
    Operator(Operator),
    Keyword(Keyword),
    Identifiers,
    DataTypes,
    Unknown(char),
    EOF,
}

/// The kind of a token value.
pub open spec fn spec_kind(t: TokenView) -> TokenKind {
    match t {
        TokenView::Symbol(s) => TokenKind::Symbol(s),
        TokenView::Operator(o) => TokenKind::Operator(o),
        TokenView::Keyword(k) => TokenKind::Keyword(k),
        TokenView::Identifiers(_) => TokenKind::Identifiers,
        TokenView::DataTypes(_) => TokenKind::DataTypes,
        TokenView::Unknown(c) => TokenKind::Unknown(c),
        TokenView::EOF => TokenKind::EOF,
    }
}

fn token_kind(t: &Token) -> (r: TokenKind)
    ensures
        r == spec_kind(t@),
{
    match t {
        Token::Symbol(s) => TokenKind::Symbol(*s),
        Token::Operator(o) => TokenKind::Operator(*o),
        Token::Keyword(k) => TokenKind::Keyword(*k),
        Token::Identifiers(_) => TokenKind::Identifiers,
        Token::DataTypes(_) => TokenKind::DataTypes,
        Token::Unknown(c) => TokenKind::Unknown(*c),
        Token::EOF => TokenKind::EOF,
    }
}

/// Why parsing failed. Every error is fatal: the parser stops at the first
/// one and returns no statement list.
#[derive(Clone, Copy, Debug, PartialEq, Eq, Structural)]
pub enum ParseError {
    /// `let` was not followed by an identifier; the kind found instead.
    ExpectedIdentifier(TokenKind),
    /// The `:` of a declaration was not followed by a primitive type
    /// keyword; the kind found instead.
    ExpectedType(TokenKind),
    /// A required symbol (`;`, `:`, `(` or `)`) is missing; the expected
    /// symbol and the kind found instead.
    ExpectedSymbol(Symbol, TokenKind),
    /// A required operator (`=` in a declaration) is missing; the expected
    /// operator and the kind found instead.
    ExpectedOperator(Operator, TokenKind),
    /// A token that cannot start a factor stood where a factor was
    /// required.
    UnexpectedToken(TokenKind),
}

/// The token at position `p`, or the end-of-input sentinel past the end.
pub open spec fn tok_at(t: Seq<TokenView>, p: int) -> TokenView {
    if 0 <= p < t.len() {
        t[p]
    } else {
        TokenView::EOF
    }
}

/// The position after the token at `p`: one step forward, except that the
/// end-of-input sentinel is never stepped over.
pub open spec fn spec_advance(t: Seq<TokenView>, p: int) -> int {
    if tok_at(t, p) is EOF {
        p
    } else {
        p + 1
    }
}

/// The type tag a declaration gets from the given token: a default-valued
/// literal of the declared kind, or `None` if the token is not a primitive
/// type keyword.
pub open spec fn spec_type_tag(t: TokenView) -> Option<ValueView> {
    match t {
        TokenView::Keyword(Keyword::Int) => Some(ValueView::Integer(0)),
        TokenView::Keyword(Keyword::Float) => Some(ValueView::Float(Seq::empty())),
        TokenView::Keyword(Keyword::Bool) => Some(ValueView::Boolean(false)),
        TokenView::Keyword(Keyword::Char) => Some(ValueView::Char('\0')),
        TokenView::Keyword(Keyword::String) => Some(ValueView::String(Seq::empty())),
        _ => None,
    }
}

/// The reference interpretation of parsing a factor at `pos`: a literal, an
/// identifier, or a parenthesized expression kept as a `Grouping` node. A
/// stray `Unknown(' ')` token is skipped. Anything else is fatal.
pub open spec fn spec_parse_factor(t: Seq<TokenView>, pos: int) -> Result<
    (ExprView, int),
    ParseError,
>
    decreases t.len() - pos, 0int,
{
    match tok_at(t, pos) {
        TokenView::DataTypes(v) => Ok((ExprView::Literal(v), pos + 1)),
        TokenView::Identifiers(n) => Ok((ExprView::Identifier(n), pos + 1)),
        TokenView::Symbol(Symbol::LParen) => match spec_parse_expr(t, pos + 1) {
            Err(e) => Err(e),
            Ok(step) => if tok_at(t, step.1) == TokenView::Symbol(Symbol::RParen) {
                Ok((ExprView::Grouping(Box::new(step.0)), step.1 + 1))
            } else {
                Err(ParseError::ExpectedSymbol(Symbol::RParen, spec_kind(tok_at(t, step.1))))
            },
        },
        TokenView::Unknown(c) => if c == ' ' {
            spec_parse_factor(t, pos + 1)
        } else {
            Err(ParseError::UnexpectedToken(TokenKind::Unknown(c)))
        },
        other => Err(ParseError::UnexpectedToken(spec_kind(other))),
    }
}

/// The reference interpretation of folding `*` and `/` applications onto an
/// already-parsed left operand, left-associatively.
pub open spec fn spec_parse_term_chain(t: Seq<TokenView>, pos: int, acc: ExprView) -> Result<
    (ExprView, int),
    ParseError,
>
    decreases t.len() - pos, 1int,
{
    match tok_at(t, pos) {
        TokenView::Operator(op) => if op == Operator::Multiply || op == Operator::Divide {
            match spec_parse_factor(t, pos + 1) {
                Err(e) => Err(e),
                Ok(step) => {
                    let folded = ExprView::Binary {
                        left: Box::new(acc),
                        op,
                        right: Box::new(step.0),
                    };
                    if pos + 1 < step.1 && step.1 <= t.len() {
                        spec_parse_term_chain(t, step.1, folded)
                    } else {
                        // never reached: a factor consumes at least one token
                        // (lemma_factor_progress)
                        Ok((folded, step.1))
                    }
                },
            }
        } else {
            Ok((acc, pos))
        },
        _ => Ok((acc, pos)),
    }
}

/// The reference interpretation of parsing a term at `pos`: a factor
/// followed by any number of `*` or `/` applications.
pub open spec fn spec_parse_term(t: Seq<TokenView>, pos: int) -> Result<(ExprView, int), ParseError>
    decreases t.len() - pos, 2int,
{
    match spec_parse_factor(t, pos) {
        Err(e) => Err(e),
        Ok(step) => if pos < step.1 && step.1 <= t.len() {
            spec_parse_term_chain(t, step.1, step.0)
        } else {
            // never reached: a factor consumes at least one token
            Ok(step)
        },
    }
}

/// The reference interpretation of folding `+` and `-` applications onto an
/// already-parsed left operand, left-associatively.
pub open spec fn spec_parse_expr_chain(t: Seq<TokenView>, pos: int, acc: ExprView) -> Result<
    (ExprView, int),
    ParseError,
>
    decreases t.len() - pos, 3int,
{
    match tok_at(t, pos) {
        TokenView::Operator(op) => if op == Operator::Plus || op == Operator::Minus {
            match spec_parse_term(t, pos + 1) {
                Err(e) => Err(e),
                Ok(step) => {
                    let folded = ExprView::Binary {
                        left: Box::new(acc),
                        op,
                        right: Box::new(step.0),
                    };
                    if pos + 1 < step.1 && step.1 <= t.len() {
                        spec_parse_expr_chain(t, step.1, folded)
                    } else {
                        // never reached: a term consumes at least one token
                        // (lemma_term_progress)
                        Ok((folded, step.1))
                    }
                },
            }
        } else {
            Ok((acc, pos))
        },
        _ => Ok((acc, pos)),
    }
}

/// The reference interpretation of parsing an expression at `pos`: a term
/// followed by any number of `+` or `-` applications. Multiplication and
/// division bind tighter than addition and subtraction, and operators of
/// equal precedence associate to the left.
pub open spec fn spec_parse_expr(t: Seq<TokenView>, pos: int) -> Result<(ExprView, int), ParseError>
    decreases t.len() - pos, 4int,
{
    match spec_parse_term(t, pos) {
        Err(e) => Err(e),
        Ok(step) => if pos < step.1 && step.1 <= t.len() {
            spec_parse_expr_chain(t, step.1, step.0)
        } else {
            // never reached: a term consumes at least one token
            Ok(step)
        },
    }
}

/// The reference interpretation of parsing a declaration whose `let`
/// keyword stands at `pos`: in strict order an identifier, a colon, a
/// primitive type keyword, `=`, an expression, and a terminating semicolon.
pub open spec fn spec_parse_let(t: Seq<TokenView>, pos: int) -> Result<
    (StatementView, int),
    ParseError,
>
    decreases t.len() - pos, 5int,
{
    match tok_at(t, pos + 1) {
        TokenView::Identifiers(name) => if tok_at(t, pos + 2) == TokenView::Symbol(Symbol::Colon) {
            match spec_type_tag(tok_at(t, pos + 3)) {
                Some(var_type) => if tok_at(t, pos + 4) == TokenView::Operator(Operator::Equal) {
                    match spec_parse_expr(t, pos + 5) {
                        Err(e) => Err(e),
                        Ok(step) => if tok_at(t, step.1) == TokenView::Symbol(Symbol::Semicolon) {
                            Ok((StatementView::Let { name, var_type, value: step.0 }, step.1 + 1))
                        } else {
                            Err(
                                ParseError::ExpectedSymbol(
                                    Symbol::Semicolon,
                                    spec_kind(tok_at(t, step.1)),
                                ),
                            )
                        },
                    }
                } else {
                    Err(ParseError::ExpectedOperator(Operator::Equal, spec_kind(tok_at(t, pos + 4))))
                },
                None => Err(ParseError::ExpectedType(spec_kind(tok_at(t, pos + 3)))),
            }
        } else {
            Err(ParseError::ExpectedSymbol(Symbol::Colon, spec_kind(tok_at(t, pos + 2))))
        },
        other => Err(ParseError::ExpectedIdentifier(spec_kind(other))),
    }
}

/// The reference interpretation of parsing a bare expression statement at
/// `pos`: an expression followed by a mandatory semicolon.
pub open spec fn spec_parse_expr_stmt(t: Seq<TokenView>, pos: int) -> Result<
    (StatementView, int),
    ParseError,
>
    decreases t.len() - pos, 5int,
{
    match spec_parse_expr(t, pos) {
        Err(e) => Err(e),
        Ok(step) => if tok_at(t, step.1) == TokenView::Symbol(Symbol::Semicolon) {
            Ok((StatementView::Expr(step.0), step.1 + 1))
        } else {
            Err(ParseError::ExpectedSymbol(Symbol::Semicolon, spec_kind(tok_at(t, step.1))))
        },
    }
}

/// The reference interpretation of parsing one statement at `pos`: a
/// declaration if the next token is the `let` keyword, otherwise an
/// expression statement.
pub open spec fn spec_parse_stmt(t: Seq<TokenView>, pos: int) -> Result<
    (StatementView, int),
    ParseError,
>
    decreases t.len() - pos, 6int,
{
    if tok_at(t, pos) == TokenView::Keyword(Keyword::Let) {
        spec_parse_let(t, pos)
    } else {
        spec_parse_expr_stmt(t, pos)
    }
}

/// The reference interpretation of parsing everything from `pos`: one
/// statement after another until the end-of-input sentinel, or the first
/// error. All or nothing: an error anywhere yields no statement list.
pub open spec fn spec_parse(t: Seq<TokenView>, pos: int) -> Result<Seq<StatementView>, ParseError>
    decreases t.len() - pos, 7int,
{
    if tok_at(t, pos) is EOF {
        Ok(Seq::empty())
    } else {
        match spec_parse_stmt(t, pos) {
            Err(e) => Err(e),
            Ok(step) => if pos < step.1 && step.1 <= t.len() {
                match spec_parse(t, step.1) {
                    Err(e) => Err(e),
                    Ok(rest) => Ok(seq![step.0] + rest),
                }
            } else {
                // never reached: a statement consumes at least one token
                // (lemma_stmt_progress)
                Ok(seq![step.0])
            },
        }
    }
}

/// A successful factor parse consumes at least one token and never runs
/// past the end of the input.
pub proof fn lemma_factor_progress(t: Seq<TokenView>, pos: int)
    ensures
        spec_parse_factor(t, pos) matches Ok(step) ==> pos < step.1 <= t.len(),
    decreases t.len() - pos, 0int,
{
    match tok_at(t, pos) {
        TokenView::Symbol(Symbol::LParen) => {
            lemma_expr_progress(t, pos + 1);
        },
        TokenView::Unknown(c) => {
            if c == ' ' {
                lemma_factor_progress(t, pos + 1);
            }
        },
        _ => {},
    }
}

proof fn lemma_term_chain_progress(t: Seq<TokenView>, pos: int, acc: ExprView)
    requires
        pos <= t.len(),
    ensures
        spec_parse_term_chain(t, pos, acc) matches Ok(step) ==> pos <= step.1 <= t.len(),
    decreases t.len() - pos, 1int,
{
    match tok_at(t, pos) {
        TokenView::Operator(op) => {
            if op == Operator::Multiply || op == Operator::Divide {
                lemma_factor_progress(t, pos + 1);
                match spec_parse_factor(t, pos + 1) {
                    Ok(step) => {
                        let folded = ExprView::Binary {
                            left: Box::new(acc),
                            op,
                            right: Box::new(step.0),
                        };
                        lemma_term_chain_progress(t, step.1, folded);
                    },
                    Err(_) => {},
                }
            }
        },
        _ => {},
    }
}

/// A successful term parse consumes at least one token and never runs past
/// the end of the input.
pub proof fn lemma_term_progress(t: Seq<TokenView>, pos: int)
    ensures
        spec_parse_term(t, pos) matches Ok(step) ==> pos < step.1 <= t.len(),
    decreases t.len() - pos, 2int,
{
    lemma_factor_progress(t, pos);
    match spec_parse_factor(t, pos) {
        Ok(step) => {
            lemma_term_chain_progress(t, step.1, step.0);
        },
        Err(_) => {},
    }
}

proof fn lemma_expr_chain_progress(t: Seq<TokenView>, pos: int, acc: ExprView)
    requires
        pos <= t.len(),
    ensures
        spec_parse_expr_chain(t, pos, acc) matches Ok(step) ==> pos <= step.1 <= t.len(),
    decreases t.len() - pos, 3int,
{
    match tok_at(t, pos) {
        TokenView::Operator(op) => {
            if op == Operator::Plus || op == Operator::Minus {
                lemma_term_progress(t, pos + 1);
                match spec_parse_term(t, pos + 1) {
                    Ok(step) => {
                        let folded = ExprView::Binary {
                            left: Box::new(acc),
                            op,
                            right: Box::new(step.0),
                        };
                        lemma_expr_chain_progress(t, step.1, folded);
                    },
                    Err(_) => {},
                }
            }
        },
        _ => {},
    }
}

/// A successful expression parse consumes at least one token and never runs
/// past the end of the input.
pub proof fn lemma_expr_progress(t: Seq<TokenView>, pos: int)
    ensures
        spec_parse_expr(t, pos) matches Ok(step) ==> pos < step.1 <= t.len(),
    decreases t.len() - pos, 4int,
{
    lemma_term_progress(t, pos);
    match spec_parse_term(t, pos) {
        Ok(step) => {
            lemma_expr_chain_progress(t, step.1, step.0);
        },
        Err(_) => {},
    }
}

/// A successful statement parse consumes at least one token, never runs
/// past the end of the input, and the last token it consumes is the
/// terminating semicolon.
pub proof fn lemma_stmt_progress(t: Seq<TokenView>, pos: int)
    ensures
        spec_parse_stmt(t, pos) matches Ok(step) ==> pos < step.1 <= t.len() && t[step.1 - 1]
            == TokenView::Symbol(Symbol::Semicolon),
{
    if tok_at(t, pos) == TokenView::Keyword(Keyword::Let) {
        lemma_expr_progress(t, pos + 5);
    } else {
        lemma_expr_progress(t, pos);
    }
}

/// Law: a parse that must end in a semicolon and has none never yields a
/// statement list — on any nonempty token list that contains no semicolon
/// and does not begin with the end-of-input sentinel, parsing fails.
pub proof fn lemma_no_semicolon_never_parses(t: Seq<TokenView>)
    requires
        t.len() > 0,
        !(t[0] is EOF),
        forall|i: int| 0 <= i < t.len() ==> t[i] != TokenView::Symbol(Symbol::Semicolon),
    ensures
        spec_parse(t, 0) is Err,
{
    lemma_stmt_progress(t, 0);
}

/// A token list as the scanner produces it: it carries no stray
/// `Unknown(' ')` token (the scanner skips whitespace) and no embedded
/// end-of-input sentinel (draining stops at the sentinel).
pub open spec fn clean_token_list(t: Seq<TokenView>) -> bool {
    forall|i: int|
        0 <= i < t.len() ==> t[i] != TokenView::Unknown(' ') && !(#[trigger] t[i] is EOF)
}

proof fn lemma_factor_tokens(t: Seq<TokenView>, pos: int)
    requires
        clean_token_list(t),
    ensures
        spec_parse_factor(t, pos) matches Ok(step) ==> spec_expr_tokens(step.0) == t.subrange(
            pos,
            step.1,
        ),
    decreases t.len() - pos, 0int,
{
    lemma_factor_progress(t, pos);
    match tok_at(t, pos) {
        TokenView::DataTypes(v) => {
            assert(spec_expr_tokens(ExprView::Literal(v)) =~= t.subrange(pos, pos + 1));
        },
        TokenView::Identifiers(n) => {
            assert(spec_expr_tokens(ExprView::Identifier(n)) =~= t.subrange(pos, pos + 1));
        },
        TokenView::Symbol(Symbol::LParen) => {
            lemma_expr_progress(t, pos + 1);
            lemma_expr_tokens(t, pos + 1);
            match spec_parse_expr(t, pos + 1) {
                Ok(step) => {
                    if tok_at(t, step.1) == TokenView::Symbol(Symbol::RParen) {
                        assert(spec_expr_tokens(ExprView::Grouping(Box::new(step.0)))
                            =~= t.subrange(pos, step.1 + 1));
                    }
                },
                Err(_) => {},
            }
        },
        TokenView::Unknown(c) => {
            if c == ' ' {
                assert(false);
            }
        },
        _ => {},
    }
}

proof fn lemma_term_chain_tokens(t: Seq<TokenView>, pos: int, acc: ExprView)
    requires
        clean_token_list(t),
        0 <= pos <= t.len(),
    ensures
        spec_parse_term_chain(t, pos, acc) matches Ok(step) ==> spec_expr_tokens(step.0)
            == spec_expr_tokens(acc) + t.subrange(pos, step.1),
    decreases t.len() - pos, 1int,
{
    match tok_at(t, pos) {
        TokenView::Operator(op) => {
            if op == Operator::Multiply || op == Operator::Divide {
                lemma_factor_progress(t, pos + 1);
                lemma_factor_tokens(t, pos + 1);
                match spec_parse_factor(t, pos + 1) {
                    Ok(fstep) => {
                        let folded = ExprView::Binary {
                            left: Box::new(acc),
                            op,
                            right: Box::new(fstep.0),
                        };
                        assert(spec_expr_tokens(folded) =~= spec_expr_tokens(acc) + t.subrange(
                            pos,
                            fstep.1,
                        ));
                        lemma_term_chain_progress(t, fstep.1, folded);
                        lemma_term_chain_tokens(t, fstep.1, folded);
                        match spec_parse_term_chain(t, fstep.1, folded) {
                            Ok(step) => {
                                assert(spec_expr_tokens(step.0) =~= spec_expr_tokens(acc)
                                    + t.subrange(pos, step.1));
                            },
                            Err(_) => {},
                        }
                    },
                    Err(_) => {},
                }
            } else {
                assert(spec_expr_tokens(acc) + t.subrange(pos, pos) =~= spec_expr_tokens(acc));
            }
        },
        _ => {
            assert(spec_expr_tokens(acc) + t.subrange(pos, pos) =~= spec_expr_tokens(acc));
        },
    }
}

proof fn lemma_term_tokens(t: Seq<TokenView>, pos: int)
    requires
        clean_token_list(t),
    ensures
        spec_parse_term(t, pos) matches Ok(step) ==> spec_expr_tokens(step.0) == t.subrange(
            pos,
            step.1,
        ),
    decreases t.len() - pos, 2int,
{
    lemma_factor_progress(t, pos);
    lemma_factor_tokens(t, pos);
    match spec_parse_factor(t, pos) {
        Ok(fstep) => {
            lemma_term_chain_progress(t, fstep.1, fstep.0);
            lemma_term_chain_tokens(t, fstep.1, fstep.0);
            match spec_parse_term_chain(t, fstep.1, fstep.0) {
                Ok(step) => {
                    assert(spec_expr_tokens(step.0) =~= t.subrange(pos, step.1));
                },
                Err(_) => {},
            }
        },
        Err(_) => {},
    }
}

proof fn lemma_expr_chain_tokens(t: Seq<TokenView>, pos: int, acc: ExprView)
    requires
        clean_token_list(t),
        0 <= pos <= t.len(),
    ensures
        spec_parse_expr_chain(t, pos, acc) matches Ok(step) ==> spec_expr_tokens(step.0)
            == spec_expr_tokens(acc) + t.subrange(pos, step.1),
    decreases t.len() - pos, 3int,
{
    match tok_at(t, pos) {
        TokenView::Operator(op) => {
            if op == Operator::Plus || op == Operator::Minus {
                lemma_term_progress(t, pos + 1);
                lemma_term_tokens(t, pos + 1);
                match spec_parse_term(t, pos + 1) {
                    Ok(tstep) => {
                        let folded = ExprView::Binary {
                            left: Box::new(acc),
                            op,
                            right: Box::new(tstep.0),
                        };
                        assert(spec_expr_tokens(folded) =~= spec_expr_tokens(acc) + t.subrange(
                            pos,
                            tstep.1,
                        ));
                        lemma_expr_chain_progress(t, tstep.1, folded);
                        lemma_expr_chain_tokens(t, tstep.1, folded);
                        match spec_parse_expr_chain(t, tstep.1, folded) {
                            Ok(step) => {
                                assert(spec_expr_tokens(step.0) =~= spec_expr_tokens(acc)
                                    + t.subrange(pos, step.1));
                            },
                            Err(_) => {},
                        }
                    },
                    Err(_) => {},
                }
            } else {
                assert(spec_expr_tokens(acc) + t.subrange(pos, pos) =~= spec_expr_tokens(acc));
            }
        },
        _ => {
            assert(spec_expr_tokens(acc) + t.subrange(pos, pos) =~= spec_expr_tokens(acc));
        },
    }
}

proof fn lemma_expr_tokens(t: Seq<TokenView>, pos: int)
    requires
        clean_token_list(t),
    ensures
        spec_parse_expr(t, pos) matches Ok(step) ==> spec_expr_tokens(step.0) == t.subrange(
            pos,
            step.1,
        ),
    decreases t.len() - pos, 4int,
{
    lemma_term_progress(t, pos);
    lemma_term_tokens(t, pos);
    match spec_parse_term(t, pos) {
        Ok(tstep) => {
            lemma_expr_chain_progress(t, tstep.1, tstep.0);
            lemma_expr_chain_tokens(t, tstep.1, tstep.0);
            match spec_parse_expr_chain(t, tstep.1, tstep.0) {
                Ok(step) => {
                    assert(spec_expr_tokens(step.0) =~= t.subrange(pos, step.1));
                },
                Err(_) => {},
            }
        },
        Err(_) => {},
    }
}

proof fn lemma_stmt_tokens(t: Seq<TokenView>, pos: int)
    requires
        clean_token_list(t),
    ensures
        spec_parse_stmt(t, pos) matches Ok(step) ==> spec_stmt_tokens(step.0) == t.subrange(
            pos,
            step.1,
        ),
{
    if tok_at(t, pos) == TokenView::Keyword(Keyword::Let) {
        lemma_expr_progress(t, pos + 5);
        lemma_expr_tokens(t, pos + 5);
        match spec_parse_let(t, pos) {
            Ok(step) => {
                assert(spec_stmt_tokens(step.0) =~= t.subrange(pos, step.1));
            },
            Err(_) => {},
        }
    } else {
        lemma_expr_progress(t, pos);
        lemma_expr_tokens(t, pos);
        match spec_parse_expr_stmt(t, pos) {
            Ok(step) => {
                assert(spec_stmt_tokens(step.0) =~= t.subrange(pos, step.1));
            },
            Err(_) => {},
        }
    }
}

/// Law: the parser is sound with respect to printing — whenever parsing a
/// suffix of a token list (as the scanner produces it) succeeds, the
/// statements it returns print back to exactly the tokens it consumed,
/// which is the whole suffix.
pub proof fn lemma_parse_tokens(t: Seq<TokenView>, pos: int)
    requires
        clean_token_list(t),
        0 <= pos <= t.len(),
    ensures
        spec_parse(t, pos) matches Ok(ss) ==> spec_stmts_tokens(ss) == t.subrange(
            pos,
            t.len() as int,
        ),
    decreases t.len() - pos,
{
    if tok_at(t, pos) is EOF {
        assert(pos == t.len());
        assert(t.subrange(pos, pos) =~= Seq::<TokenView>::empty());
    } else {
        lemma_stmt_progress(t, pos);
        lemma_stmt_tokens(t, pos);
        match spec_parse_stmt(t, pos) {
            Ok(step) => {
                lemma_parse_tokens(t, step.1);
                match spec_parse(t, step.1) {
                    Ok(rest) => {
                        assert((seq![step.0] + rest)[0] == step.0);
                        assert((seq![step.0] + rest).subrange(1, (seq![step.0] + rest).len() as int)
                            =~= rest);
                        assert(spec_stmts_tokens(seq![step.0] + rest) =~= t.subrange(
                            pos,
                            t.len() as int,
                        ));
                    },
                    Err(_) => {},
                }
            },
            Err(_) => {},
        }
    }
}

/// Law: the whole-input round trip — on a token list as the scanner
/// produces it, a successful parse yields statements that print back to
/// exactly the input token list.
pub proof fn lemma_parse_round_trip(t: Seq<TokenView>)
    requires
        clean_token_list(t),
    ensures
        spec_parse(t, 0) matches Ok(ss) ==> spec_stmts_tokens(ss) == t,
{
    lemma_parse_tokens(t, 0);
    assert(t.subrange(0, t.len() as int) =~= t);
}

/// How many times the given symbol occurs in a token sequence.
pub open spec fn symbol_count(ts: Seq<TokenView>, sym: Symbol) -> int
    decreases ts.len(),
{
    if ts.len() == 0 {
        0
    } else {
        symbol_count(ts.drop_last(), sym) + if ts.last() == TokenView::Symbol(sym) {
            1int
        } else {
            0int
        }
    }
}

proof fn lemma_symbol_count_add(a: Seq<TokenView>, b: Seq<TokenView>, sym: Symbol)
    ensures
        symbol_count(a + b, sym) == symbol_count(a, sym) + symbol_count(b, sym),
    decreases b.len(),
{
    if b.len() == 0 {
        assert(a + b =~= a);
    } else {
        assert((a + b).drop_last() =~= a + b.drop_last());
        assert((a + b).last() == b.last());
        lemma_symbol_count_add(a, b.drop_last(), sym);
    }
}

proof fn lemma_symbol_count_zero(ts: Seq<TokenView>, sym: Symbol)
    requires
        forall|i: int| 0 <= i < ts.len() ==> ts[i] != TokenView::Symbol(sym),
    ensures
        symbol_count(ts, sym) == 0,
    decreases ts.len(),
{
    if ts.len() > 0 {
        lemma_symbol_count_zero(ts.drop_last(), sym);
    }
}

proof fn lemma_symbol_count_singleton(tv: TokenView, sym: Symbol)
    ensures
        symbol_count(seq![tv], sym) == if tv == TokenView::Symbol(sym) {
            1int
        } else {
            0int
        },
{
    assert(seq![tv].drop_last() =~= Seq::<TokenView>::empty());
    assert(seq![tv].last() == tv);
    assert(symbol_count(Seq::<TokenView>::empty(), sym) == 0);
}

proof fn lemma_expr_tokens_balanced(e: ExprView)
    ensures
        symbol_count(spec_expr_tokens(e), Symbol::LParen) == symbol_count(
            spec_expr_tokens(e),
            Symbol::RParen,
        ),
    decreases e,
{
    match e {
        ExprView::Binary { left, op, right } => {
            lemma_expr_tokens_balanced(*left);
            lemma_expr_tokens_balanced(*right);
            let mid = seq![TokenView::Operator(op)];
            lemma_symbol_count_zero(mid, Symbol::LParen);
            lemma_symbol_count_zero(mid, Symbol::RParen);
            lemma_symbol_count_add(spec_expr_tokens(*left), mid, Symbol::LParen);
            lemma_symbol_count_add(spec_expr_tokens(*left), mid, Symbol::RParen);
            lemma_symbol_count_add(spec_expr_tokens(*left) + mid, spec_expr_tokens(*right), Symbol::LParen);
            lemma_symbol_count_add(spec_expr_tokens(*left) + mid, spec_expr_tokens(*right), Symbol::RParen);
        },
        ExprView::Literal(v) => {
            lemma_symbol_count_zero(spec_expr_tokens(e), Symbol::LParen);
            lemma_symbol_count_zero(spec_expr_tokens(e), Symbol::RParen);
        },
        ExprView::Identifier(n) => {
            lemma_symbol_count_zero(spec_expr_tokens(e), Symbol::LParen);
            lemma_symbol_count_zero(spec_expr_tokens(e), Symbol::RParen);
        },
        ExprView::Grouping(inner) => {
            lemma_expr_tokens_balanced(*inner);
            let open = seq![TokenView::Symbol(Symbol::LParen)];
            let close = seq![TokenView::Symbol(Symbol::RParen)];
            lemma_symbol_count_add(open, spec_expr_tokens(*inner), Symbol::LParen);
            lemma_symbol_count_add(open, spec_expr_tokens(*inner), Symbol::RParen);
            lemma_symbol_count_add(open + spec_expr_tokens(*inner), close, Symbol::LParen);
            lemma_symbol_count_add(open + spec_expr_tokens(*inner), close, Symbol::RParen);
            lemma_symbol_count_singleton(TokenView::Symbol(Symbol::LParen), Symbol::LParen);
            lemma_symbol_count_singleton(TokenView::Symbol(Symbol::LParen), Symbol::RParen);
            lemma_symbol_count_singleton(TokenView::Symbol(Symbol::RParen), Symbol::LParen);
            lemma_symbol_count_singleton(TokenView::Symbol(Symbol::RParen), Symbol::RParen);
        },
    }
}

proof fn lemma_stmt_tokens_balanced(st: StatementView)
    ensures
        symbol_count(spec_stmt_tokens(st), Symbol::LParen) == symbol_count(
            spec_stmt_tokens(st),
            Symbol::RParen,
        ),
{
    match st {
        StatementView::Let { name, var_type, value } => {
            lemma_expr_tokens_balanced(value);
            let head = seq![
                TokenView::Keyword(Keyword::Let),
                TokenView::Identifiers(name),
                TokenView::Symbol(Symbol::Colon),
                TokenView::Keyword(spec_type_keyword(var_type)),
                TokenView::Operator(Operator::Equal),
            ];
            let tail = seq![TokenView::Symbol(Symbol::Semicolon)];
            lemma_symbol_count_zero(head, Symbol::LParen);
            lemma_symbol_count_zero(head, Symbol::RParen);
            lemma_symbol_count_zero(tail, Symbol::LParen);
            lemma_symbol_count_zero(tail, Symbol::RParen);
            lemma_symbol_count_add(head, spec_expr_tokens(value), Symbol::LParen);
            lemma_symbol_count_add(head, spec_expr_tokens(value), Symbol::RParen);
            lemma_symbol_count_add(head + spec_expr_tokens(value), tail, Symbol::LParen);
            lemma_symbol_count_add(head + spec_expr_tokens(value), tail, Symbol::RParen);
        },
        StatementView::Expr(e) => {
            lemma_expr_tokens_balanced(e);
            let tail = seq![TokenView::Symbol(Symbol::Semicolon)];
            lemma_symbol_count_zero(tail, Symbol::LParen);
            lemma_symbol_count_zero(tail, Symbol::RParen);
            lemma_symbol_count_add(spec_expr_tokens(e), tail, Symbol::LParen);
            lemma_symbol_count_add(spec_expr_tokens(e), tail, Symbol::RParen);
        },
    }
}

proof fn lemma_stmts_tokens_balanced(ss: Seq<StatementView>)
    ensures
        symbol_count(spec_stmts_tokens(ss), Symbol::LParen) == symbol_count(
            spec_stmts_tokens(ss),
            Symbol::RParen,
        ),
    decreases ss.len(),
{
    if ss.len() > 0 {
        let rest = ss.subrange(1, ss.len() as int);
        lemma_stmt_tokens_balanced(ss[0]);
        lemma_stmts_tokens_balanced(rest);
        lemma_symbol_count_add(spec_stmt_tokens(ss[0]), spec_stmts_tokens(rest), Symbol::LParen);
        lemma_symbol_count_add(spec_stmt_tokens(ss[0]), spec_stmts_tokens(rest), Symbol::RParen);
    }
}

/// Law: an unbalanced parenthesis is fatal — parsing never succeeds on a
/// token list (as the scanner produces it) whose `(` and `)` counts differ.
pub proof fn lemma_unbalanced_parens_never_parse(t: Seq<TokenView>)
    requires
        clean_token_list(t),
        symbol_count(t, Symbol::LParen) != symbol_count(t, Symbol::RParen),
    ensures
        spec_parse(t, 0) is Err,
{
    match spec_parse(t, 0) {
        Ok(ss) => {
            lemma_parse_round_trip(t);
            lemma_stmts_tokens_balanced(ss);
            assert(false);
        },
        Err(_) => {},
    }
}

/// The mathematical state of a [`Parser`]: the token list as a sequence of
/// token values, and the read position within it.
pub struct ParserView {
    pub tokens: Seq<TokenView>,
    pub current: int,
}

/// The parser. It owns the token list and consumes it strictly left to
/// right with one token of lookahead; [`Parser::parse`] turns the whole
/// list into statements.
pub struct Parser {
    tokens: Vec<Token>,
    current: usize,
}

impl View for Parser {
    type V = ParserView;

    closed spec fn view(&self) -> ParserView {
        ParserView { tokens: self.tokens.deep_view(), current: self.current as int }
    }
}

impl Parser {
    /// The read position never lies past the end of the token list.
    pub open spec fn wf(self) -> bool {
        0 <= self@.current <= self@.tokens.len()
    }

    /// A parser over the given token list, positioned at its start.
    pub fn new(tokens: Vec<Token>) -> (p: Parser)
        ensures
            p@.tokens == tokens.deep_view(),
            p@.current == 0,
            p.wf(),
    {
        Parser { tokens, current: 0 }
    }

    fn peek(&self) -> (t: &Token)
        ensures
            t@ == tok_at(self@.tokens, self@.current),
    {
        if self.current < self.tokens.len() {
            &self.tokens[self.current]
        } else {
            &Token::EOF
        }
    }

    fn is_at_end(&self) -> (r: bool)
        ensures
            r == (tok_at(self@.tokens, self@.current) is EOF),
    {
        let r = matches!(self.peek(), Token::EOF);
        proof {
            let tv = tok_at(self@.tokens, self@.current);
            assert(r == (tv is EOF));
        }
        r
    }

    fn advance(&mut self) -> (tok: Token)
        requires
            old(self).wf(),
        ensures
            final(self).wf(),
            final(self)@.tokens == old(self)@.tokens,
            tok@ == tok_at(old(self)@.tokens, old(self)@.current),
            final(self)@.current == spec_advance(old(self)@.tokens, old(self)@.current),
    {
        let tok = if self.current < self.tokens.len() {
            self.tokens[self.current].clone()
        } else {
            Token::EOF
        };
        if !matches!(tok, Token::EOF) {
            self.current = self.current + 1;
        }
        tok
    }

    fn match_operator(&mut self, a: Operator, b: Operator) -> (r: Option<Operator>)
        requires
            old(self).wf(),
        ensures
            final(self).wf(),
            final(self)@.tokens == old(self)@.tokens,
            match tok_at(old(self)@.tokens, old(self)@.current) {
                TokenView::Operator(op) => if op == a || op == b {
                    r == Some(op) && final(self)@.current == old(self)@.current + 1
                } else {
                    r is None && final(self)@.current == old(self)@.current
                },
                _ => r is None && final(self)@.current == old(self)@.current,
            },
    {
        let matched = match self.peek() {
            Token::Operator(op) => *op == a || *op == b,
            _ => false,
        };
        if matched {
            match self.advance() {
                Token::Operator(op) => Some(op),
                _ => None,
            }
        } else {
            None
        }
    }

    fn consume_symbol(&mut self, expected: Symbol) -> (r: Result<(), ParseError>)
        requires
            old(self).wf(),
        ensures
            final(self).wf(),
            final(self)@.tokens == old(self)@.tokens,
            final(self)@.current == spec_advance(old(self)@.tokens, old(self)@.current),
            if tok_at(old(self)@.tokens, old(self)@.current) == TokenView::Symbol(expected) {
                r is Ok
            } else {
                r == Err::<(), ParseError>(
                    ParseError::ExpectedSymbol(
                        expected,
                        spec_kind(tok_at(old(self)@.tokens, old(self)@.current)),
                    ),
                )
            },
    {
        match self.advance() {
            Token::Symbol(sym) => if sym == expected {
                Ok(())
            } else {
                Err(ParseError::ExpectedSymbol(expected, TokenKind::Symbol(sym)))
            },
            other => Err(ParseError::ExpectedSymbol(expected, token_kind(&other))),
        }
    }

    fn consume_operator(&mut self, expected: Operator) -> (r: Result<(), ParseError>)
        requires
            old(self).wf(),
        ensures
            final(self).wf(),
            final(self)@.tokens == old(self)@.tokens,
            final(self)@.current == spec_advance(old(self)@.tokens, old(self)@.current),
            if tok_at(old(self)@.tokens, old(self)@.current) == TokenView::Operator(expected) {
                r is Ok
            } else {
                r == Err::<(), ParseError>(
                    ParseError::ExpectedOperator(
                        expected,
                        spec_kind(tok_at(old(self)@.tokens, old(self)@.current)),
                    ),
                )
            },
    {
        match self.advance() {
            Token::Operator(op) => if op == expected {
                Ok(())
            } else {
                Err(ParseError::ExpectedOperator(expected, TokenKind::Operator(op)))
            },
            other => Err(ParseError::ExpectedOperator(expected, token_kind(&other))),
        }
    }

    fn parse_factor(&mut self) -> (r: Result<Expr, ParseError>)
        requires
            old(self).wf(),
        ensures
            final(self).wf(),
            final(self)@.tokens == old(self)@.tokens,
            old(self)@.current <= final(self)@.current,
            match spec_parse_factor(old(self)@.tokens, old(self)@.current) {
                Ok(step) => r matches Ok(e) && e.deep_view() == step.0 && final(self)@.current
                    == step.1,
                Err(err) => r matches Err(e2) && e2 == err,
            },
        decreases self@.tokens.len() - self@.current, 0int,
    {
        match self.advance() {
            Token::DataTypes(d) => Ok(Expr::Literal(d)),
            Token::Identifiers(name) => Ok(Expr::Identifier(name)),
            Token::Symbol(sym) => {
                if matches!(sym, Symbol::LParen) {
                    let e = match self.parse_expr() {
                        Ok(e) => e,
                        Err(err) => {
                            return Err(err);
                        },
                    };
                    match self.consume_symbol(Symbol::RParen) {
                        Ok(_) => Ok(Expr::Grouping(Box::new(e))),
                        Err(err) => Err(err),
                    }
                } else {
                    Err(ParseError::UnexpectedToken(TokenKind::Symbol(sym)))
                }
            },
            Token::Unknown(c) => {
                if c == ' ' {
                    self.parse_factor()
                } else {
                    Err(ParseError::UnexpectedToken(TokenKind::Unknown(c)))
                }
            },
            other => Err(ParseError::UnexpectedToken(token_kind(&other))),
        }
    }

    fn parse_term(&mut self) -> (r: Result<Expr, ParseError>)
        requires
            old(self).wf(),
        ensures
            final(self).wf(),
            final(self)@.tokens == old(self)@.tokens,
            old(self)@.current <= final(self)@.current,
            match spec_parse_term(old(self)@.tokens, old(self)@.current) {
                Ok(step) => r matches Ok(e) && e.deep_view() == step.0 && final(self)@.current
                    == step.1,
                Err(err) => r matches Err(e2) && e2 == err,
            },
        decreases self@.tokens.len() - self@.current, 1int,
    {
        let ghost t = self@.tokens;
        let ghost pos0 = self@.current;
        let mut expr = match self.parse_factor() {
            Ok(e) => e,
            Err(err) => {
                return Err(err);
            },
        };
        proof {
            lemma_factor_progress(t, pos0);
        }
        loop
            invariant
                self.wf(),
                self@.tokens == t,
                t == old(self)@.tokens,
                pos0 == old(self)@.current,
                pos0 < self@.current <= t.len(),
                spec_parse_term_chain(t, self@.current, expr.deep_view()) == spec_parse_term(
                    t,
                    pos0,
                ),
            decreases t.len() - self@.current,
        {
            let ghost cur = self@.current;
            match self.match_operator(Operator::Multiply, Operator::Divide) {
                None => {
                    return Ok(expr);
                },
                Some(op) => {
                    proof {
                        lemma_factor_progress(t, cur + 1);
                    }
                    let right = match self.parse_factor() {
                        Ok(e) => e,
                        Err(err) => {
                            return Err(err);
                        },
                    };
                    expr = Expr::Binary { left: Box::new(expr), op, right: Box::new(right) };
                },
            }
        }
    }

    fn parse_expr(&mut self) -> (r: Result<Expr, ParseError>)
        requires
            old(self).wf(),
        ensures
            final(self).wf(),
            final(self)@.tokens == old(self)@.tokens,
            old(self)@.current <= final(self)@.current,
            match spec_parse_expr(old(self)@.tokens, old(self)@.current) {
                Ok(step) => r matches Ok(e) && e.deep_view() == step.0 && final(self)@.current
                    == step.1,
                Err(err) => r matches Err(e2) && e2 == err,
            },
        decreases self@.tokens.len() - self@.current, 2int,
    {
        let ghost t = self@.tokens;
        let ghost pos0 = self@.current;
        let mut expr = match self.parse_term() {
            Ok(e) => e,
            Err(err) => {
                return Err(err);
            },
        };
        proof {
            lemma_term_progress(t, pos0);
        }
        loop
            invariant
                self.wf(),
                self@.tokens == t,
                t == old(self)@.tokens,
                pos0 == old(self)@.current,
                pos0 < self@.current <= t.len(),
                spec_parse_expr_chain(t, self@.current, expr.deep_view()) == spec_parse_expr(
                    t,
                    pos0,
                ),
            decreases t.len() - self@.current,
        {
            let ghost cur = self@.current;
            match self.match_operator(Operator::Plus, Operator::Minus) {
                None => {
                    return Ok(expr);
                },
                Some(op) => {
                    proof {
                        lemma_term_progress(t, cur + 1);
                    }
                    let right = match self.parse_term() {
                        Ok(e) => e,
                        Err(err) => {
                            return Err(err);
                        },
                    };
                    expr = Expr::Binary { left: Box::new(expr), op, right: Box::new(right) };
                },
            }
        }
    }

    fn parse_expr_stmt(&mut self) -> (r: Result<Statement, ParseError>)
        requires
            old(self).wf(),
        ensures
            final(self).wf(),
            final(self)@.tokens == old(self)@.tokens,
            old(self)@.current <= final(self)@.current,
            match spec_parse_expr_stmt(old(self)@.tokens, old(self)@.current) {
                Ok(step) => r matches Ok(st) && st.deep_view() == step.0 && final(self)@.current
                    == step.1,
                Err(err) => r matches Err(e2) && e2 == err,
            },
    {
        let expr = match self.parse_expr() {
            Ok(e) => e,
            Err(err) => {
                return Err(err);
            },
        };
        match self.consume_symbol(Symbol::Semicolon) {
            Ok(_) => Ok(Statement::Expr(expr)),
            Err(err) => Err(err),
        }
    }

    fn parse_let_stmt(&mut self) -> (r: Result<Statement, ParseError>)
        requires
            old(self).wf(),
            tok_at(old(self)@.tokens, old(self)@.current) == TokenView::Keyword(Keyword::Let),
        ensures
            final(self).wf(),
            final(self)@.tokens == old(self)@.tokens,
            old(self)@.current <= final(self)@.current,
            match spec_parse_let(old(self)@.tokens, old(self)@.current) {
                Ok(step) => r matches Ok(st) && st.deep_view() == step.0 && final(self)@.current
                    == step.1,
                Err(err) => r matches Err(e2) && e2 == err,
            },
    {
        let _ = self.advance();
        let name = match self.advance() {
            Token::Identifiers(n) => n,
            other => {
                return Err(ParseError::ExpectedIdentifier(token_kind(&other)));
            },
        };
        match self.consume_symbol(Symbol::Colon) {
            Ok(_) => (),
            Err(err) => {
                return Err(err);
            },
        }
        let var_type = match self.advance() {
            Token::Keyword(Keyword::Int) => DataTypes::Integer(0),
            Token::Keyword(Keyword::Float) => DataTypes::Float(String::new()),
            Token::Keyword(Keyword::Bool) => DataTypes::Boolean(false),
            Token::Keyword(Keyword::Char) => DataTypes::Char('\0'),
            Token::Keyword(Keyword::String) => DataTypes::String(String::new()),
            other => {
                return Err(ParseError::ExpectedType(token_kind(&other)));
            },
        };
        match self.consume_operator(Operator::Equal) {
            Ok(_) => (),
            Err(err) => {
                return Err(err);
            },
        }
        let value = match self.parse_expr() {
            Ok(e) => e,
            Err(err) => {
                return Err(err);
            },
        };
        match self.consume_symbol(Symbol::Semicolon) {
            Ok(_) => Ok(Statement::Let { name, var_type, value }),
            Err(err) => Err(err),
        }
    }

    fn parse_stmt(&mut self) -> (r: Result<Statement, ParseError>)
        requires
            old(self).wf(),
        ensures
            final(self).wf(),
            final(self)@.tokens == old(self)@.tokens,
            old(self)@.current <= final(self)@.current,
            match spec_parse_stmt(old(self)@.tokens, old(self)@.current) {
                Ok(step) => r matches Ok(st) && st.deep_view() == step.0 && final(self)@.current
                    == step.1,
                Err(err) => r matches Err(e2) && e2 == err,
            },
    {
        let is_let = match self.peek() {
            Token::Keyword(Keyword::Let) => true,
            _ => false,
        };
        if is_let {
            self.parse_let_stmt()
        } else {
            self.parse_expr_stmt()
        }
    }

    /// Parses every statement up to the end-of-input sentinel, exactly as
    /// the reference interpretation [`spec_parse`] describes: the statement
    /// list on success, and the first error otherwise, with no partial
    /// result.
    pub fn parse(&mut self) -> (r: Result<Vec<Statement>, ParseError>)
        requires
            old(self).wf(),
        ensures
            final(self).wf(),
            final(self)@.tokens == old(self)@.tokens,
            match spec_parse(old(self)@.tokens, old(self)@.current) {
                Ok(ss) => r matches Ok(v) && v.deep_view() == ss,
                Err(e) => r matches Err(e2) && e2 == e,
            },
    {
        let ghost t = self@.tokens;
        let ghost pos0 = self@.current;
        let mut statements: Vec<Statement> = Vec::new();
        proof {
            assert(statements.deep_view() =~= Seq::<StatementView>::empty());
            assert forall|r2: Seq<StatementView>| #[trigger]
                (Seq::<StatementView>::empty() + r2) =~= r2 by {}
        }
        loop
            invariant
                self.wf(),
                self@.tokens == t,
                t == old(self)@.tokens,
                pos0 == old(self)@.current,
                pos0 <= self@.current <= t.len(),
                match spec_parse(t, self@.current) {
                    Ok(rest) => spec_parse(t, pos0) matches Ok(all) && all == statements.deep_view()
                        + rest,
                    Err(e) => spec_parse(t, pos0) == Err::<Seq<StatementView>, ParseError>(e),
                },
            decreases t.len() - self@.current,
        {
            if self.is_at_end() {
                proof {
                    assert(statements.deep_view() + Seq::<StatementView>::empty()
                        =~= statements.deep_view());
                }
                return Ok(statements);
            }
            proof {
                lemma_stmt_progress(t, self@.current);
            }
            let stmt = match self.parse_stmt() {
                Ok(s) => s,
                Err(err) => {
                    return Err(err);
                },
            };
            let ghost prev = statements.deep_view();
            statements.push(stmt);
            proof {
                assert(statements.deep_view() =~= prev.push(stmt.deep_view()));
                match spec_parse(t, self@.current) {
                    Ok(rest2) => {
                        assert(prev + (seq![stmt.deep_view()] + rest2) =~= statements.deep_view()
                            + rest2);
                    },
                    Err(_) => {},
                }
            }
        }
    }
}

} // verus!
