use minilang::scanner::{ScanError, Scanner};
use minilang::token::{tokenize, DataTypes, Keyword, Operator, Symbol, Token};

#[test]
fn whitespace_only_input_yields_no_tokens() {
    let tokens = tokenize("   \t  \n\n  \r\n ").unwrap();
    assert!(tokens.is_empty());
}

#[test]
fn empty_input_yields_no_tokens() {
    let tokens = tokenize("").unwrap();
    assert!(tokens.is_empty());
}

#[test]
fn single_identifier_token() {
    let tokens = tokenize("abc").unwrap();
    assert_eq!(tokens.len(), 1);
    assert!(matches!(&tokens[0], Token::Identifiers(n) if n == "abc"));
}

#[test]
fn single_integer_literal_token() {
    let tokens = tokenize("42").unwrap();
    assert_eq!(tokens.len(), 1);
    assert!(matches!(&tokens[0], Token::DataTypes(DataTypes::Integer(42))));
}

#[test]
fn single_float_literal_token() {
    let tokens = tokenize("3.14").unwrap();
    assert_eq!(tokens.len(), 1);
    match &tokens[0] {
        Token::DataTypes(DataTypes::Float(lexeme)) => {
            assert_eq!(lexeme, "3.14");
            assert_eq!(lexeme.parse::<f64>().unwrap(), 3.14);
        }
        other => panic!("expected a float literal, got {:?}", other),
    }
}

#[test]
fn single_string_literal_token() {
    let tokens = tokenize("\"hi there\"").unwrap();
    assert_eq!(tokens.len(), 1);
    assert!(matches!(&tokens[0], Token::DataTypes(DataTypes::String(s)) if s == "hi there"));
}

#[test]
fn single_char_literal_token() {
    let tokens = tokenize("'x'").unwrap();
    assert_eq!(tokens.len(), 1);
    assert!(matches!(&tokens[0], Token::DataTypes(DataTypes::Char('x'))));
}

#[test]
fn single_operator_token() {
    let tokens = tokenize("+").unwrap();
    assert_eq!(tokens.len(), 1);
    assert!(matches!(&tokens[0], Token::Operator(Operator::Plus)));
}

#[test]
fn single_symbol_token() {
    let tokens = tokenize(";").unwrap();
    assert_eq!(tokens.len(), 1);
    assert!(matches!(&tokens[0], Token::Symbol(Symbol::Semicolon)));
}

#[test]
fn scanner_repeats_end_of_input_forever() {
    let mut scanner = Scanner::new("x");
    assert!(matches!(scanner.scan().unwrap(), Token::Identifiers(_)));
    assert!(matches!(scanner.scan().unwrap(), Token::EOF));
    assert!(matches!(scanner.scan().unwrap(), Token::EOF));
    assert!(matches!(scanner.scan().unwrap(), Token::EOF));
}

#[test]
fn double_equal_beats_two_single_equals() {
    let tokens = tokenize("==").unwrap();
    assert_eq!(tokens.len(), 1);
    assert!(matches!(&tokens[0], Token::Operator(Operator::DoubleEqual)));
}

#[test]
fn all_two_char_operators() {
    let cases = [
        ("==", Operator::DoubleEqual),
        ("!=", Operator::NotEqual),
        (">=", Operator::GreaterEqual),
        ("<=", Operator::LessEqual),
        ("++", Operator::Increment),
        ("--", Operator::Decrement),
    ];
    for (text, expected) in cases {
        let tokens = tokenize(text).unwrap();
        assert_eq!(tokens.len(), 1);
        assert!(matches!(&tokens[0], Token::Operator(op) if *op == expected));
    }
}

#[test]
fn all_single_char_operators() {
    let cases = [
        ("+", Operator::Plus),
        ("-", Operator::Minus),
        ("*", Operator::Multiply),
        ("/", Operator::Divide),
        ("=", Operator::Equal),
        (">", Operator::Greater),
        ("<", Operator::Less),
    ];
    for (text, expected) in cases {
        let tokens = tokenize(text).unwrap();
        assert_eq!(tokens.len(), 1);
        assert!(matches!(&tokens[0], Token::Operator(op) if *op == expected));
    }
}

#[test]
fn all_symbols() {
    let cases = [
        (";", Symbol::Semicolon),
        (":", Symbol::Colon),
        ("(", Symbol::LParen),
        (")", Symbol::RParen),
    ];
    for (text, expected) in cases {
        let tokens = tokenize(text).unwrap();
        assert_eq!(tokens.len(), 1);
        assert!(matches!(&tokens[0], Token::Symbol(sym) if *sym == expected));
    }
}

#[test]
fn all_keywords() {
    let cases = [
        ("let", Keyword::Let),
        ("int", Keyword::Int),
        ("float", Keyword::Float),
        ("bool", Keyword::Bool),
        ("char", Keyword::Char),
        ("string", Keyword::String),
    ];
    for (text, expected) in cases {
        let tokens = tokenize(text).unwrap();
        assert_eq!(tokens.len(), 1);
        assert!(matches!(&tokens[0], Token::Keyword(k) if *k == expected));
    }
}

#[test]
fn keyword_prefix_scans_as_identifier() {
    let tokens = tokenize("let").unwrap();
    assert_eq!(tokens.len(), 1);
    assert!(matches!(&tokens[0], Token::Keyword(Keyword::Let)));

    let tokens = tokenize("letx").unwrap();
    assert_eq!(tokens.len(), 1);
    assert!(matches!(&tokens[0], Token::Identifiers(n) if n == "letx"));
}

#[test]
fn underscore_and_digits_in_identifiers() {
    let tokens = tokenize("_a1_b2").unwrap();
    assert_eq!(tokens.len(), 1);
    assert!(matches!(&tokens[0], Token::Identifiers(n) if n == "_a1_b2"));
}

#[test]
fn second_dot_ends_a_float_literal() {
    let tokens = tokenize("3.14.5").unwrap();
    assert_eq!(tokens.len(), 3);
    assert!(matches!(&tokens[0], Token::DataTypes(DataTypes::Float(s)) if s == "3.14"));
    assert!(matches!(&tokens[1], Token::Unknown('.')));
    assert!(matches!(&tokens[2], Token::DataTypes(DataTypes::Integer(5))));
}

#[test]
fn trailing_dot_stays_in_the_float_lexeme() {
    let tokens = tokenize("7.").unwrap();
    assert_eq!(tokens.len(), 1);
    assert!(matches!(&tokens[0], Token::DataTypes(DataTypes::Float(s)) if s == "7."));
}

#[test]
fn largest_integer_literal_scans() {
    let tokens = tokenize("9223372036854775807").unwrap();
    assert_eq!(tokens.len(), 1);
    assert!(matches!(
        &tokens[0],
        Token::DataTypes(DataTypes::Integer(9223372036854775807))
    ));
}

#[test]
fn too_large_integer_literal_is_malformed() {
    assert_eq!(tokenize("9223372036854775808").unwrap_err(), ScanError::MalformedNumber);
    assert_eq!(tokenize("99999999999999999999").unwrap_err(), ScanError::MalformedNumber);
}

#[test]
fn unterminated_string_literal_is_an_error() {
    assert_eq!(tokenize("\"abc").unwrap_err(), ScanError::UnterminatedString);
}

#[test]
fn unterminated_char_literal_is_an_error() {
    assert_eq!(tokenize("'").unwrap_err(), ScanError::UnterminatedChar);
    assert_eq!(tokenize("'a").unwrap_err(), ScanError::UnterminatedChar);
}

#[test]
fn wrongly_closed_char_literal_is_an_error() {
    assert_eq!(tokenize("'ab").unwrap_err(), ScanError::UnclosedChar);
    assert_eq!(tokenize("'ab'").unwrap_err(), ScanError::UnclosedChar);
}

#[test]
fn unknown_character_is_passed_through() {
    let tokens = tokenize("@").unwrap();
    assert_eq!(tokens.len(), 1);
    assert!(matches!(&tokens[0], Token::Unknown('@')));
}

#[test]
fn whitespace_between_tokens_is_skipped() {
    let tokens = tokenize("  a   b\n\tc ").unwrap();
    assert_eq!(tokens.len(), 3);
    assert!(matches!(&tokens[0], Token::Identifiers(n) if n == "a"));
    assert!(matches!(&tokens[1], Token::Identifiers(n) if n == "b"));
    assert!(matches!(&tokens[2], Token::Identifiers(n) if n == "c"));
}

#[test]
fn declaration_scans_to_expected_token_sequence() {
    let tokens = tokenize("let x: int = 5 + 3 * 2;").unwrap();
    assert_eq!(tokens.len(), 11);
    assert!(matches!(&tokens[0], Token::Keyword(Keyword::Let)));
    assert!(matches!(&tokens[1], Token::Identifiers(n) if n == "x"));
    assert!(matches!(&tokens[2], Token::Symbol(Symbol::Colon)));
    assert!(matches!(&tokens[3], Token::Keyword(Keyword::Int)));
    assert!(matches!(&tokens[4], Token::Operator(Operator::Equal)));
    assert!(matches!(&tokens[5], Token::DataTypes(DataTypes::Integer(5))));
    assert!(matches!(&tokens[6], Token::Operator(Operator::Plus)));
    assert!(matches!(&tokens[7], Token::DataTypes(DataTypes::Integer(3))));
    assert!(matches!(&tokens[8], Token::Operator(Operator::Multiply)));
    assert!(matches!(&tokens[9], Token::DataTypes(DataTypes::Integer(2))));
    assert!(matches!(&tokens[10], Token::Symbol(Symbol::Semicolon)));
}

#[test]
fn empty_string_literal_scans_to_empty_text() {
    let tokens = tokenize("\"\"").unwrap();
    assert_eq!(tokens.len(), 1);
    assert!(matches!(&tokens[0], Token::DataTypes(DataTypes::String(s)) if s.is_empty()));
}
