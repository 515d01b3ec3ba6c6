//! The lexical vocabulary: tokens, literal values, and the fixed sets of
//! symbols, operators and keywords, together with their spec-level views.

use crate::scanner::{lemma_scan_advances, spec_tokenize, spec_tokenize_from, ScanError, Scanner};
use vstd::prelude::*;

verus! {

/// Punctuation symbols.
#[derive(Clone, Copy, Debug, PartialEq, Eq, Structural)]
pub enum Symbol {
    Semicolon,
    LParen,
    RParen,
    Colon,
}

/// Arithmetic, comparison, increment and decrement operators.
#[derive(Clone, Copy, Debug, PartialEq, Eq, Structural)]
pub enum Operator {
    Plus,
    Minus,
    Multiply,
    Divide,
    Equal,
    DoubleEqual,
    NotEqual,
    Greater,
    Less,
    GreaterEqual,
    LessEqual,
    Increment,
    Decrement,
}

/// Reserved words: `let` and the five primitive type names.
#[derive(Clone, Copy, Debug, PartialEq, Eq, Structural)]
pub enum Keyword {
    Let,
    Int,
    Float,
    Bool,
    Char,
    String,
}

/// A literal value of one of the five primitive kinds.
///
/// A float literal is kept as its source text (the digits and the decimal
/// point, e.g. `"3.14"`): the scanner and parser never compute with the
/// numeric value, so the lexeme is the faithful representation; a caller
/// that needs the number converts the text outside this library.
#[derive(Debug)]
pub enum DataTypes {
    Integer(i64),
    Float(String),
    Boolean(bool),
    Char(char),
    String(String),
}

/// One lexical unit of source text.
#[derive(Debug)]
pub enum Token {
    Symbol(Symbol),
    Operator(Operator),
    Keyword(Keyword),
    Identifiers(String),
    DataTypes(DataTypes),
    Unknown(char),
    EOF,
}

/// The mathematical value of a [`DataTypes`]: strings become sequences of
/// characters and the integer becomes an unbounded `int`.
pub enum ValueView {
    Integer(int),
    Float(Seq<char>),
    Boolean(bool),
    Char(char),
    String(Seq<char>),
}

/// The mathematical value of a [`Token`].
pub enum TokenView {
    Symbol(Symbol),
    Operator(Operator),
    Keyword(Keyword),
    Identifiers(Seq<char>),
    DataTypes(ValueView),
    Unknown(char),
    EOF,
}

impl View for DataTypes {
    type V = ValueView;

    open spec fn view(&self) -> ValueView {
        match self {
            DataTypes::Integer(i) => ValueView::Integer(*i as int),
            DataTypes::Float(s) => ValueView::Float(s@),
            DataTypes::Boolean(b) => ValueView::Boolean(*b),
            DataTypes::Char(c) => ValueView::Char(*c),
            DataTypes::String(s) => ValueView::String(s@),
        }
    }
}

impl DeepView for DataTypes {
    type V = ValueView;

    open spec fn deep_view(&self) -> ValueView {
        self.view()
    }
}

impl View for Token {
    type V = TokenView;

    open spec fn view(&self) -> TokenView {
        match self {
            Token::Symbol(s) => TokenView::Symbol(*s),
            Token::Operator(o) => TokenView::Operator(*o),
            Token::Keyword(k) => TokenView::Keyword(*k),
            Token::Identifiers(n) => TokenView::Identifiers(n@),
            Token::DataTypes(d) => TokenView::DataTypes(d@),
            Token::Unknown(c) => TokenView::Unknown(*c),
            Token::EOF => TokenView::EOF,
        }
    }
}

impl DeepView for Token {
    type V = TokenView;

    open spec fn deep_view(&self) -> TokenView {
        self.view()
    }
}

impl Clone for DataTypes {
    fn clone(&self) -> (r: DataTypes)
        ensures
            r@ == self@,
    {
        match self {
            DataTypes::Integer(i) => DataTypes::Integer(*i),
            DataTypes::Float(s) => DataTypes::Float(s.clone()),
            DataTypes::Boolean(b) => DataTypes::Boolean(*b),
            DataTypes::Char(c) => DataTypes::Char(*c),
            DataTypes::String(s) => DataTypes::String(s.clone()),
        }
    }
}

impl Clone for Token {
    fn clone(&self) -> (r: Token)
        ensures
            r@ == self@,
    {
        match self {
            Token::Symbol(s) => Token::Symbol(*s),
            Token::Operator(o) => Token::Operator(*o),
            Token::Keyword(k) => Token::Keyword(*k),
            Token::Identifiers(n) => Token::Identifiers(n.clone()),
            Token::DataTypes(d) => Token::DataTypes(d.clone()),
            Token::Unknown(c) => Token::Unknown(*c),
            Token::EOF => Token::EOF,
        }
    }
}

/// Drains a fresh scanner over the whole input: every token up to (and not
/// including) the end-of-input sentinel, in order, or the first scan error.
pub fn tokenize(input: &str) -> (r: Result<Vec<Token>, ScanError>)
    ensures
        match spec_tokenize(input@) {
            Ok(ts) => r matches Ok(v) && v.deep_view() == ts,
            Err(e) => r matches Err(e2) && e2 == e,
        },
{
    let ghost s = input@;
    let mut scanner = Scanner::new(input);
    let mut tokens: Vec<Token> = Vec::new();
    proof {
        assert(tokens.deep_view() =~= Seq::<TokenView>::empty());
        assert forall|r2: Seq<TokenView>| #[trigger] (Seq::<TokenView>::empty() + r2) =~= r2 by {}
    }
    loop
        invariant
            scanner@.text == s,
            s == input@,
            0 <= scanner@.pos <= s.len(),
            match spec_tokenize_from(s, scanner@.pos) {
                Ok(rest) => spec_tokenize(s) matches Ok(all) && all == tokens.deep_view() + rest,
                Err(e) => spec_tokenize(s) == Err::<Seq<TokenView>, ScanError>(e),
            },
        decreases s.len() - scanner@.pos,
    {
        let ghost pos = scanner@.pos;
        proof {
            lemma_scan_advances(s, pos);
        }
        let tok = match scanner.scan() {
            Ok(t) => t,
            Err(e) => {
                return Err(e);
            },
        };
        if matches!(tok, Token::EOF) {
            proof {
                assert(tokens.deep_view() + Seq::<TokenView>::empty() =~= tokens.deep_view());
            }
            return Ok(tokens);
        }
        let ghost prev = tokens.deep_view();
        tokens.push(tok);
        proof {
            assert(tokens.deep_view() =~= prev.push(tok@));
            match spec_tokenize_from(s, scanner@.pos) {
                Ok(rest2) => {
                    assert(prev + (seq![tok@] + rest2) =~= tokens.deep_view() + rest2);
                },
                Err(_) => {},
            }
        }
    }
}

} // verus!
