//! A lexical scanner and recursive-descent parser for a minimal expression
//! language: variable declarations with explicit primitive types
//! (`let x: int = 5 + 3 * 2;`) and arithmetic expressions over integer,
//! float, boolean, character and string literals.
//!
//! Source text is turned into a sequence of [`token::Token`]s by the
//! [`scanner::Scanner`] (or all at once by [`token::tokenize`]), and the
//! token list is turned into a list of [`ast::Statement`]s by the
//! [`parser::Parser`]. Both passes are specified against reference
//! interpretations over mathematical sequences and proved to match them.

pub mod ast;
pub mod parser;
pub mod scanner;
pub mod token;
