//! The scanner: turns source text into tokens, one per call.
//!
//! The intended behaviour is written down as a reference interpretation over
//! `Seq<char>` ([`spec_scan`]); the executable [`Scanner`] is proved to
//! compute exactly that interpretation. Unicode character classes come from
//! the standard library behind named, trusted predicates.

use crate::token::{DataTypes, Keyword, Operator, Symbol, Token, TokenView, ValueView};
use vstd::prelude::*;
use vstd::string::StrSliceExecFns;
use vstd::string::StringExecFns;

verus! {

/// Why a call to [`Scanner::scan`] failed.
#[derive(Clone, Copy, Debug, PartialEq, Eq, Structural)]
pub enum ScanError {
    /// An integer literal does not fit in 64 signed bits.
    MalformedNumber,
    /// The input ended before the closing `"` of a string literal.
    UnterminatedString,
    /// The input ended inside a character literal.
    UnterminatedChar,
    /// The character after a character literal's value is not `'`.
    UnclosedChar,
}

/// Whether the character has the Unicode White_Space property.
pub uninterp spec fn whitespace_char(c: char) -> bool;

/// Whether the character has the Unicode Alphabetic property.
pub uninterp spec fn alphabetic_char(c: char) -> bool;

/// Whether the character is Unicode alphanumeric.
pub uninterp spec fn alphanumeric_char(c: char) -> bool;

/// Relies on char::is_whitespace: whether the character has the Unicode
/// White_Space property, a fixed function of the character alone.
#[verifier::external_body]
fn is_whitespace_char(c: char) -> (r: bool)
    ensures
        r == whitespace_char(c),
{
    c.is_whitespace()
}

/// Relies on char::is_alphabetic: whether the character has the Unicode
/// Alphabetic property, a fixed function of the character alone.
#[verifier::external_body]
fn is_alphabetic_char(c: char) -> (r: bool)
    ensures
        r == alphabetic_char(c),
{
    c.is_alphabetic()
}

/// Relies on char::is_alphanumeric: whether the character is Unicode
/// alphanumeric, a fixed function of the character alone.
#[verifier::external_body]
fn is_alphanumeric_char(c: char) -> (r: bool)
    ensures
        r == alphanumeric_char(c),
{
    c.is_alphanumeric()
}

/// Relies on String::push: appends exactly the given character at the end.
#[verifier::external_body]
fn push_char(s: &mut String, c: char)
    ensures
        final(s)@ == old(s)@.push(c),
{
    s.push(c);
}

/// A decimal digit `'0'..='9'`.
pub open spec fn digit_char(c: char) -> bool {
    48 <= c as u32 && c as u32 <= 57
}

fn is_digit_char(c: char) -> (r: bool)
    ensures
        r == digit_char(c),
{
    (c as u32) >= 48 && (c as u32) <= 57
}

/// A character that may start an identifier: alphabetic or `'_'`.
pub open spec fn ident_start_char(c: char) -> bool {
    alphabetic_char(c) || c == '_'
}

/// A character that may continue an identifier: alphanumeric or `'_'`.
pub open spec fn ident_continue_char(c: char) -> bool {
    alphanumeric_char(c) || c == '_'
}

/// The keyword spelled by the given name, if any.
pub open spec fn spec_keyword(name: Seq<char>) -> Option<Keyword> {
    if name == "let"@ {
        Some(Keyword::Let)
    } else if name == "int"@ {
        Some(Keyword::Int)
    } else if name == "float"@ {
        Some(Keyword::Float)
    } else if name == "bool"@ {
        Some(Keyword::Bool)
    } else if name == "char"@ {
        Some(Keyword::Char)
    } else if name == "string"@ {
        Some(Keyword::String)
    } else {
        None
    }
}

fn keyword_lookup(name: &String) -> (r: Option<Keyword>)
    ensures
        r == spec_keyword(name@),
{
    if name.eq(&String::from_str("let")) {
        Some(Keyword::Let)
    } else if name.eq(&String::from_str("int")) {
        Some(Keyword::Int)
    } else if name.eq(&String::from_str("float")) {
        Some(Keyword::Float)
    } else if name.eq(&String::from_str("bool")) {
        Some(Keyword::Bool)
    } else if name.eq(&String::from_str("char")) {
        Some(Keyword::Char)
    } else if name.eq(&String::from_str("string")) {
        Some(Keyword::String)
    } else {
        None
    }
}

/// The two-character operator spelled by the pair, if any.
pub open spec fn spec_two_char_operator(a: char, b: char) -> Option<Operator> {
    if a == '=' && b == '=' {
        Some(Operator::DoubleEqual)
    } else if a == '!' && b == '=' {
        Some(Operator::NotEqual)
    } else if a == '>' && b == '=' {
        Some(Operator::GreaterEqual)
    } else if a == '<' && b == '=' {
        Some(Operator::LessEqual)
    } else if a == '+' && b == '+' {
        Some(Operator::Increment)
    } else if a == '-' && b == '-' {
        Some(Operator::Decrement)
    } else {
        None
    }
}

fn two_char_operator(a: char, b: char) -> (r: Option<Operator>)
    ensures
        r == spec_two_char_operator(a, b),
{
    if a == '=' && b == '=' {
        Some(Operator::DoubleEqual)
    } else if a == '!' && b == '=' {
        Some(Operator::NotEqual)
    } else if a == '>' && b == '=' {
        Some(Operator::GreaterEqual)
    } else if a == '<' && b == '=' {
        Some(Operator::LessEqual)
    } else if a == '+' && b == '+' {
        Some(Operator::Increment)
    } else if a == '-' && b == '-' {
        Some(Operator::Decrement)
    } else {
        None
    }
}

/// The single-character operator spelled by the character, if any.
pub open spec fn spec_single_char_operator(c: char) -> Option<Operator> {
    if c == '+' {
        Some(Operator::Plus)
    } else if c == '-' {
        Some(Operator::Minus)
    } else if c == '*' {
        Some(Operator::Multiply)
    } else if c == '/' {
        Some(Operator::Divide)
    } else if c == '=' {
        Some(Operator::Equal)
    } else if c == '>' {
        Some(Operator::Greater)
    } else if c == '<' {
        Some(Operator::Less)
    } else {
        None
    }
}

fn single_char_operator(c: char) -> (r: Option<Operator>)
    ensures
        r == spec_single_char_operator(c),
{
    if c == '+' {
        Some(Operator::Plus)
    } else if c == '-' {
        Some(Operator::Minus)
    } else if c == '*' {
        Some(Operator::Multiply)
    } else if c == '/' {
        Some(Operator::Divide)
    } else if c == '=' {
        Some(Operator::Equal)
    } else if c == '>' {
        Some(Operator::Greater)
    } else if c == '<' {
        Some(Operator::Less)
    } else {
        None
    }
}

/// The punctuation symbol spelled by the character, if any.
pub open spec fn spec_symbol(c: char) -> Option<Symbol> {
    if c == ';' {
        Some(Symbol::Semicolon)
    } else if c == ':' {
        Some(Symbol::Colon)
    } else if c == '(' {
        Some(Symbol::LParen)
    } else if c == ')' {
        Some(Symbol::RParen)
    } else {
        None
    }
}

fn symbol_for(c: char) -> (r: Option<Symbol>)
    ensures
        r == spec_symbol(c),
{
    if c == ';' {
        Some(Symbol::Semicolon)
    } else if c == ':' {
        Some(Symbol::Colon)
    } else if c == '(' {
        Some(Symbol::LParen)
    } else if c == ')' {
        Some(Symbol::RParen)
    } else {
        None
    }
}

/// The first position at or after `p` whose character is not whitespace.
pub open spec fn spec_skip_ws(s: Seq<char>, p: int) -> int
    decreases s.len() - p,
{
    if 0 <= p < s.len() && whitespace_char(s[p]) {
        spec_skip_ws(s, p + 1)
    } else {
        p
    }
}

/// The first position at or after `p` whose character cannot continue an
/// identifier.
pub open spec fn spec_ident_end(s: Seq<char>, p: int) -> int
    decreases s.len() - p,
{
    if 0 <= p < s.len() && ident_continue_char(s[p]) {
        spec_ident_end(s, p + 1)
    } else {
        p
    }
}

/// The first position at or after `p` whose character is not a decimal
/// digit.
pub open spec fn spec_digits_end(s: Seq<char>, p: int) -> int
    decreases s.len() - p,
{
    if 0 <= p < s.len() && digit_char(s[p]) {
        spec_digits_end(s, p + 1)
    } else {
        p
    }
}

/// The position of the first `'"'` at or after `p`, or the length of the
/// input if there is none.
pub open spec fn spec_find_quote(s: Seq<char>, p: int) -> int
    decreases s.len() - p,
{
    if 0 <= p < s.len() {
        if s[p] == '"' {
            p
        } else {
            spec_find_quote(s, p + 1)
        }
    } else {
        s.len() as int
    }
}

/// The numeric value of a run of decimal digits.
pub open spec fn digits_value(digits: Seq<char>) -> int
    decreases digits.len(),
{
    if digits.len() == 0 {
        0
    } else {
        digits_value(digits.drop_last()) * 10 + (digits.last() as u32 - 48)
    }
}

/// The reference interpretation of one scanning step: the next token of `s`
/// starting at position `pos`, together with the position just after it, or
/// the error the scanner reports. Classification is first-match-wins, in
/// this order: identifier or keyword, numeric literal, string literal,
/// character literal, two-character operator, single-character operator,
/// symbol, and finally a pass-through `Unknown` character.
pub open spec fn spec_scan(s: Seq<char>, pos: int) -> Result<(TokenView, int), ScanError> {
    let p = spec_skip_ws(s, pos);
    if p >= s.len() {
        Ok((TokenView::EOF, p))
    } else {
        let c = s[p];
        if ident_start_char(c) {
            let e = spec_ident_end(s, p + 1);
            let name = s.subrange(p, e);
            match spec_keyword(name) {
                Some(k) => Ok((TokenView::Keyword(k), e)),
                None => Ok((TokenView::Identifiers(name), e)),
            }
        } else if digit_char(c) {
            let d = spec_digits_end(s, p + 1);
            if d < s.len() && s[d] == '.' {
                let e = spec_digits_end(s, d + 1);
                Ok((TokenView::DataTypes(ValueView::Float(s.subrange(p, e))), e))
            } else {
                let v = digits_value(s.subrange(p, d));
                if v > i64::MAX as int {
                    Err(ScanError::MalformedNumber)
                } else {
                    Ok((TokenView::DataTypes(ValueView::Integer(v)), d))
                }
            }
        } else if c == '"' {
            let q = spec_find_quote(s, p + 1);
            if q < s.len() {
                Ok((TokenView::DataTypes(ValueView::String(s.subrange(p + 1, q))), q + 1))
            } else {
                Err(ScanError::UnterminatedString)
            }
        } else if c == '\'' {
            if p + 2 >= s.len() {
                Err(ScanError::UnterminatedChar)
            } else if s[p + 2] != '\'' {
                Err(ScanError::UnclosedChar)
            } else {
                Ok((TokenView::DataTypes(ValueView::Char(s[p + 1])), p + 3))
            }
        } else {
            let two = if p + 1 < s.len() {
                spec_two_char_operator(c, s[p + 1])
            } else {
                Option::<Operator>::None
            };
            match two {
                Some(op) => Ok((TokenView::Operator(op), p + 2)),
                None => match spec_single_char_operator(c) {
                    Some(op) => Ok((TokenView::Operator(op), p + 1)),
                    None => match spec_symbol(c) {
                        Some(sym) => Ok((TokenView::Symbol(sym), p + 1)),
                        None => Ok((TokenView::Unknown(c), p + 1)),
                    },
                },
            }
        }
    }
}

/// The reference interpretation of draining the scanner from `pos`: every
/// token before the end-of-input sentinel, or the first scan error.
pub open spec fn spec_tokenize_from(s: Seq<char>, pos: int) -> Result<Seq<TokenView>, ScanError>
    decreases s.len() - pos,
{
    match spec_scan(s, pos) {
        Err(e) => Err(e),
        Ok(step) => if step.0 is EOF {
            Ok(Seq::empty())
        } else if pos < step.1 && step.1 <= s.len() {
            match spec_tokenize_from(s, step.1) {
                Err(e) => Err(e),
                Ok(rest) => Ok(seq![step.0] + rest),
            }
        } else {
            // never reached: a real token advances the cursor (lemma_scan_advances)
            Ok(seq![step.0])
        },
    }
}

/// The reference interpretation of draining the scanner over a whole input.
pub open spec fn spec_tokenize(s: Seq<char>) -> Result<Seq<TokenView>, ScanError> {
    spec_tokenize_from(s, 0)
}

proof fn lemma_skip_ws_bounds(s: Seq<char>, p: int)
    requires
        0 <= p <= s.len(),
    ensures
        p <= spec_skip_ws(s, p) <= s.len(),
    decreases s.len() - p,
{
    if p < s.len() && whitespace_char(s[p]) {
        lemma_skip_ws_bounds(s, p + 1);
    }
}

proof fn lemma_ident_end_bounds(s: Seq<char>, p: int)
    requires
        0 <= p <= s.len(),
    ensures
        p <= spec_ident_end(s, p) <= s.len(),
    decreases s.len() - p,
{
    if p < s.len() && ident_continue_char(s[p]) {
        lemma_ident_end_bounds(s, p + 1);
    }
}

proof fn lemma_digits_end_bounds(s: Seq<char>, p: int)
    requires
        0 <= p <= s.len(),
    ensures
        p <= spec_digits_end(s, p) <= s.len(),
    decreases s.len() - p,
{
    if p < s.len() && digit_char(s[p]) {
        lemma_digits_end_bounds(s, p + 1);
    }
}

proof fn lemma_find_quote_bounds(s: Seq<char>, p: int)
    requires
        0 <= p <= s.len(),
    ensures
        p <= spec_find_quote(s, p) <= s.len(),
    decreases s.len() - p,
{
    if p < s.len() && s[p] != '"' {
        lemma_find_quote_bounds(s, p + 1);
    }
}

/// A successful scanning step never moves the cursor backwards or past the
/// end of the input, and every token other than the end-of-input sentinel
/// moves it strictly forward.
pub proof fn lemma_scan_advances(s: Seq<char>, pos: int)
    requires
        0 <= pos <= s.len(),
    ensures
        match spec_scan(s, pos) {
            Ok(step) => pos <= step.1 <= s.len() && (!(step.0 is EOF) ==> pos < step.1),
            Err(_) => true,
        },
{
    lemma_skip_ws_bounds(s, pos);
    let p = spec_skip_ws(s, pos);
    if p < s.len() {
        let c = s[p];
        if ident_start_char(c) {
            lemma_ident_end_bounds(s, p + 1);
        } else if digit_char(c) {
            lemma_digits_end_bounds(s, p + 1);
            let d = spec_digits_end(s, p + 1);
            if d < s.len() && s[d] == '.' {
                lemma_digits_end_bounds(s, d + 1);
            }
        } else if c == '"' {
            lemma_find_quote_bounds(s, p + 1);
        }
    }
}

/// Law: once the scanner reports end of input it does so forever — scanning
/// again from the position the sentinel left returns the sentinel at the
/// same position.
pub proof fn lemma_scan_eof_stable(s: Seq<char>, pos: int)
    requires
        0 <= pos,
    ensures
        match spec_scan(s, pos) {
            Ok(step) => step.0 is EOF ==> spec_scan(s, step.1) == Ok::<(TokenView, int), ScanError>(
                (TokenView::EOF, step.1),
            ),
            Err(_) => true,
        },
{
}

proof fn lemma_skip_ws_all(s: Seq<char>, p: int)
    requires
        0 <= p <= s.len(),
        forall|i: int| 0 <= i < s.len() ==> whitespace_char(s[i]),
    ensures
        spec_skip_ws(s, p) == s.len(),
    decreases s.len() - p,
{
    if p < s.len() {
        lemma_skip_ws_all(s, p + 1);
    }
}

/// Law: an input consisting only of whitespace scans to the empty token
/// list.
pub proof fn lemma_whitespace_only_scans_empty(s: Seq<char>)
    requires
        forall|i: int| 0 <= i < s.len() ==> whitespace_char(s[i]),
    ensures
        spec_tokenize(s) == Ok::<Seq<TokenView>, ScanError>(Seq::<TokenView>::empty()),
{
    lemma_skip_ws_all(s, 0);
}

proof fn lemma_skip_ws_fixpoint(s: Seq<char>, pos: int)
    ensures
        !(0 <= spec_skip_ws(s, pos) < s.len() && whitespace_char(s[spec_skip_ws(s, pos)])),
    decreases s.len() - pos,
{
    if 0 <= pos < s.len() && whitespace_char(s[pos]) {
        lemma_skip_ws_fixpoint(s, pos + 1);
    }
}

/// Law: the token list the scanner drains never holds the end-of-input
/// sentinel, and every `Unknown` token in it carries a character that is
/// not whitespace — the scanner skips whitespace instead of emitting it.
pub proof fn lemma_tokenize_emits_no_whitespace(s: Seq<char>, pos: int)
    requires
        0 <= pos <= s.len(),
    ensures
        match spec_tokenize_from(s, pos) {
            Ok(ts) => forall|i: int|
                0 <= i < ts.len() ==> !(#[trigger] ts[i] is EOF) && (ts[i] matches
                TokenView::Unknown(c) ==> !whitespace_char(c)),
            Err(_) => true,
        },
    decreases s.len() - pos,
{
    lemma_scan_advances(s, pos);
    lemma_skip_ws_fixpoint(s, pos);
    match spec_scan(s, pos) {
        Ok(step) => {
            if !(step.0 is EOF) {
                lemma_tokenize_emits_no_whitespace(s, step.1);
                match spec_tokenize_from(s, step.1) {
                    Ok(rest) => {
                        let ts = seq![step.0] + rest;
                        assert forall|i: int| 0 <= i < ts.len() implies !(#[trigger] ts[i] is EOF)
                            && (ts[i] matches TokenView::Unknown(c) ==> !whitespace_char(c)) by {
                            if i == 0 {
                                assert(ts[0] == step.0);
                            } else {
                                assert(ts[i] == rest[i - 1]);
                            }
                        }
                    },
                    Err(_) => {},
                }
            }
        },
        Err(_) => {},
    }
}

proof fn lemma_digits_value_push(digits: Seq<char>, c: char)
    ensures
        digits_value(digits.push(c)) == digits_value(digits) * 10 + (c as u32 - 48),
{
    assert(digits.push(c).drop_last() =~= digits);
    assert(digits.push(c).last() == c);
}

proof fn lemma_digits_value_nonneg(digits: Seq<char>)
    requires
        forall|i: int| 0 <= i < digits.len() ==> digit_char(digits[i]),
    ensures
        digits_value(digits) >= 0,
    decreases digits.len(),
{
    if digits.len() > 0 {
        assert(digit_char(digits.last()));
        lemma_digits_value_nonneg(digits.drop_last());
    }
}

/// The mathematical state of a [`Scanner`]: the scanned text as a sequence
/// of characters, and the cursor as a character offset into it.
pub struct ScannerView {
    pub text: Seq<char>,
    pub pos: int,
}

/// The scanner. It holds the text it scans and a cursor that only ever
/// moves forward; each call to [`Scanner::scan`] yields the next token.
pub struct Scanner<'a> {
    input: &'a str,
    pos: usize,
}

impl<'a> View for Scanner<'a> {
    type V = ScannerView;

    closed spec fn view(&self) -> ScannerView {
        ScannerView { text: self.input@, pos: self.pos as int }
    }
}

impl<'a> Scanner<'a> {
    /// A scanner over the given text, with the cursor at the start.
    pub fn new(input: &'a str) -> (sc: Scanner<'a>)
        ensures
            sc@.text == input@,
            sc@.pos == 0,
    {
        Scanner { input, pos: 0 }
    }

    /// Scans the next token, advancing the cursor past it, exactly as the
    /// reference interpretation [`spec_scan`] describes. At the end of the
    /// input it returns `Token::EOF` and leaves the cursor where it is, so
    /// every later call returns `Token::EOF` again.
    pub fn scan(&mut self) -> (r: Result<Token, ScanError>)
        ensures
            final(self)@.text == old(self)@.text,
            old(self)@.pos <= final(self)@.pos,
            match spec_scan(old(self)@.text, old(self)@.pos) {
                Ok(step) => r matches Ok(t) && t@ == step.0 && final(self)@.pos == step.1,
                Err(e) => r matches Err(e2) && e2 == e,
            },
    {
        let ghost s = self.input@;
        let ghost pos0 = self.pos as int;
        let len = self.input.unicode_len();

        // skip any run of whitespace before classification
        loop
            invariant
                self.input@ == s,
                len as int == s.len(),
                0 <= pos0 <= self.pos as int,
                spec_skip_ws(s, pos0) == spec_skip_ws(s, self.pos as int),
            ensures
                self.input@ == s,
                len as int == s.len(),
                0 <= pos0 <= self.pos as int,
                spec_skip_ws(s, pos0) == self.pos as int,
            decreases s.len() - self.pos as int,
        {
            if self.pos >= len {
                break ;
            }
            let c = self.input.get_char(self.pos);
            if is_whitespace_char(c) {
                self.pos = self.pos + 1;
            } else {
                break ;
            }
        }

        if self.pos >= len {
            return Ok(Token::EOF);
        }
        let ghost p = self.pos as int;
        let c = self.input.get_char(self.pos);
        self.pos = self.pos + 1;

        if is_alphabetic_char(c) || c == '_' {
            // identifier or keyword: greedily take name characters
            let mut name = String::new();
            push_char(&mut name, c);
            proof {
                assert(s.subrange(p, p + 1) =~= Seq::<char>::empty().push(s[p]));
            }
            loop
                invariant
                    self.input@ == s,
                    len as int == s.len(),
                    0 <= pos0 <= p < s.len(),
                    spec_skip_ws(s, pos0) == p,
                    ident_start_char(s[p]),
                    p + 1 <= self.pos as int <= s.len(),
                    name@ == s.subrange(p, self.pos as int),
                    spec_ident_end(s, p + 1) == spec_ident_end(s, self.pos as int),
                ensures
                    self.input@ == s,
                    len as int == s.len(),
                    0 <= pos0 <= p < s.len(),
                    spec_skip_ws(s, pos0) == p,
                    ident_start_char(s[p]),
                    p + 1 <= self.pos as int <= s.len(),
                    name@ == s.subrange(p, self.pos as int),
                    self.pos as int == spec_ident_end(s, p + 1),
                decreases s.len() - self.pos as int,
            {
                if self.pos >= len {
                    break ;
                }
                let c2 = self.input.get_char(self.pos);
                if is_alphanumeric_char(c2) || c2 == '_' {
                    push_char(&mut name, c2);
                    proof {
                        assert(s.subrange(p, self.pos as int + 1) =~= s.subrange(
                            p,
                            self.pos as int,
                        ).push(s[self.pos as int]));
                    }
                    self.pos = self.pos + 1;
                } else {
                    break ;
                }
            }
            if let Some(kw) = keyword_lookup(&name) {
                return Ok(Token::Keyword(kw));
            }
            return Ok(Token::Identifiers(name));
        } else if is_digit_char(c) {
            // numeric literal: digits, then at most one '.' and more digits
            let mut num_str = String::new();
            push_char(&mut num_str, c);
            let mut value: i64 = ((c as u32) - 48) as i64;
            let mut overflow = false;
            proof {
                assert(s.subrange(p, p + 1) =~= Seq::<char>::empty().push(s[p]));
                lemma_digits_value_push(Seq::<char>::empty(), s[p]);
            }
            loop
                invariant
                    self.input@ == s,
                    len as int == s.len(),
                    0 <= pos0 <= p < s.len(),
                    spec_skip_ws(s, pos0) == p,
                    !ident_start_char(s[p]),
                    digit_char(s[p]),
                    p + 1 <= self.pos as int <= s.len(),
                    num_str@ == s.subrange(p, self.pos as int),
                    spec_digits_end(s, p + 1) == spec_digits_end(s, self.pos as int),
                    forall|i: int| p <= i < self.pos as int ==> digit_char(s[i]),
                    overflow == (digits_value(s.subrange(p, self.pos as int)) > i64::MAX as int),
                    !overflow ==> value >= 0 && value as int == digits_value(
                        s.subrange(p, self.pos as int),
                    ),
                ensures
                    self.input@ == s,
                    len as int == s.len(),
                    0 <= pos0 <= p < s.len(),
                    spec_skip_ws(s, pos0) == p,
                    !ident_start_char(s[p]),
                    digit_char(s[p]),
                    p + 1 <= self.pos as int <= s.len(),
                    num_str@ == s.subrange(p, self.pos as int),
                    self.pos as int == spec_digits_end(s, p + 1),
                    overflow == (digits_value(s.subrange(p, self.pos as int)) > i64::MAX as int),
                    !overflow ==> value >= 0 && value as int == digits_value(
                        s.subrange(p, self.pos as int),
                    ),
                decreases s.len() - self.pos as int,
            {
                if self.pos >= len {
                    break ;
                }
                let c2 = self.input.get_char(self.pos);
                if !is_digit_char(c2) {
                    break ;
                }
                let d2: i64 = ((c2 as u32) - 48) as i64;
                proof {
                    assert(s.subrange(p, self.pos as int + 1) =~= s.subrange(
                        p,
                        self.pos as int,
                    ).push(s[self.pos as int]));
                    lemma_digits_value_push(s.subrange(p, self.pos as int), s[self.pos as int]);
                    lemma_digits_value_nonneg(s.subrange(p, self.pos as int));
                }
                if overflow || value > 922337203685477580 || (value == 922337203685477580 && d2
                    > 7) {
                    overflow = true;
                } else {
                    value = value * 10 + d2;
                }
                push_char(&mut num_str, c2);
                self.pos = self.pos + 1;
            }
            if self.pos < len && self.input.get_char(self.pos) == '.' {
                let ghost d = self.pos as int;
                push_char(&mut num_str, '.');
                proof {
                    assert(s.subrange(p, d + 1) =~= s.subrange(p, d).push(s[d]));
                }
                self.pos = self.pos + 1;
                loop
                    invariant
                        self.input@ == s,
                        len as int == s.len(),
                        0 <= pos0 <= p < s.len(),
                        spec_skip_ws(s, pos0) == p,
                        !ident_start_char(s[p]),
                        digit_char(s[p]),
                        p < d < s.len(),
                        s[d] == '.',
                        d == spec_digits_end(s, p + 1),
                        d + 1 <= self.pos as int <= s.len(),
                        num_str@ == s.subrange(p, self.pos as int),
                        spec_digits_end(s, d + 1) == spec_digits_end(s, self.pos as int),
                    ensures
                        self.input@ == s,
                        0 <= pos0 <= p < s.len(),
                        spec_skip_ws(s, pos0) == p,
                        !ident_start_char(s[p]),
                        digit_char(s[p]),
                        p < d < s.len(),
                        s[d] == '.',
                        d == spec_digits_end(s, p + 1),
                        d + 1 <= self.pos as int <= s.len(),
                        num_str@ == s.subrange(p, self.pos as int),
                        self.pos as int == spec_digits_end(s, d + 1),
                    decreases s.len() - self.pos as int,
                {
                    if self.pos >= len {
                        break ;
                    }
                    let c2 = self.input.get_char(self.pos);
                    if !is_digit_char(c2) {
                        break ;
                    }
                    push_char(&mut num_str, c2);
                    proof {
                        assert(s.subrange(p, self.pos as int + 1) =~= s.subrange(
                            p,
                            self.pos as int,
                        ).push(s[self.pos as int]));
                    }
                    self.pos = self.pos + 1;
                }
                return Ok(Token::DataTypes(DataTypes::Float(num_str)));
            }
            if overflow {
                return Err(ScanError::MalformedNumber);
            }
            return Ok(Token::DataTypes(DataTypes::Integer(value)));
        } else if c == '"' {
            // string literal: everything up to the closing quote
            let mut str_val = String::new();
            proof {
                assert(s.subrange(p + 1, p + 1) =~= Seq::<char>::empty());
            }
            loop
                invariant
                    self.input@ == s,
                    s == old(self)@.text,
                    pos0 == old(self)@.pos,
                    len as int == s.len(),
                    0 <= pos0 <= p < s.len(),
                    spec_skip_ws(s, pos0) == p,
                    !ident_start_char(s[p]),
                    !digit_char(s[p]),
                    s[p] == '"',
                    p + 1 <= self.pos as int <= s.len(),
                    str_val@ == s.subrange(p + 1, self.pos as int),
                    spec_find_quote(s, p + 1) == spec_find_quote(s, self.pos as int),
                decreases s.len() - self.pos as int,
            {
                if self.pos >= len {
                    return Err(ScanError::UnterminatedString);
                }
                let c2 = self.input.get_char(self.pos);
                if c2 == '"' {
                    self.pos = self.pos + 1;
                    return Ok(Token::DataTypes(DataTypes::String(str_val)));
                }
                push_char(&mut str_val, c2);
                proof {
                    assert(s.subrange(p + 1, self.pos as int + 1) =~= s.subrange(
                        p + 1,
                        self.pos as int,
                    ).push(s[self.pos as int]));
                }
                self.pos = self.pos + 1;
            }
        } else if c == '\'' {
            // character literal: one value character, then the closing quote
            if self.pos >= len {
                return Err(ScanError::UnterminatedChar);
            }
            let v = self.input.get_char(self.pos);
            self.pos = self.pos + 1;
            if self.pos >= len {
                return Err(ScanError::UnterminatedChar);
            }
            let q = self.input.get_char(self.pos);
            self.pos = self.pos + 1;
            if q == '\'' {
                return Ok(Token::DataTypes(DataTypes::Char(v)));
            }
            return Err(ScanError::UnclosedChar);
        } else {
            if self.pos < len {
                let c2 = self.input.get_char(self.pos);
                if let Some(op) = two_char_operator(c, c2) {
                    self.pos = self.pos + 1;
                    return Ok(Token::Operator(op));
                }
            }
            if let Some(op) = single_char_operator(c) {
                return Ok(Token::Operator(op));
            }
            if let Some(sym) = symbol_for(c) {
                return Ok(Token::Symbol(sym));
            }
            return Ok(Token::Unknown(c));
        }
    }
}

} // verus!
