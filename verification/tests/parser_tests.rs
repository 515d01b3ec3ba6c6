use minilang::ast::{Expr, Statement};
use minilang::parser::{ParseError, Parser, TokenKind};
use minilang::token::{tokenize, DataTypes, Operator, Symbol, Token};

fn parse_source(source: &str) -> Result<Vec<Statement>, ParseError> {
    let tokens = tokenize(source).unwrap();
    let mut parser = Parser::new(tokens);
    parser.parse()
}

fn as_integer_literal(e: &Expr) -> i64 {
    match e {
        Expr::Literal(DataTypes::Integer(i)) => *i,
        other => panic!("expected an integer literal, got {:?}", other),
    }
}

#[test]
fn multiplication_binds_tighter_than_addition() {
    let stmts = parse_source("1 + 2 * 3;").unwrap();
    assert_eq!(stmts.len(), 1);
    match &stmts[0] {
        Statement::Expr(Expr::Binary { left, op, right }) => {
            assert_eq!(*op, Operator::Plus);
            assert_eq!(as_integer_literal(left), 1);
            match right.as_ref() {
                Expr::Binary { left, op, right } => {
                    assert_eq!(*op, Operator::Multiply);
                    assert_eq!(as_integer_literal(left), 2);
                    assert_eq!(as_integer_literal(right), 3);
                }
                other => panic!("expected a product on the right, got {:?}", other),
            }
        }
        other => panic!("expected a binary expression statement, got {:?}", other),
    }
}

#[test]
fn subtraction_associates_to_the_left() {
    let stmts = parse_source("1 - 2 - 3;").unwrap();
    assert_eq!(stmts.len(), 1);
    match &stmts[0] {
        Statement::Expr(Expr::Binary { left, op, right }) => {
            assert_eq!(*op, Operator::Minus);
            assert_eq!(as_integer_literal(right), 3);
            match left.as_ref() {
                Expr::Binary { left, op, right } => {
                    assert_eq!(*op, Operator::Minus);
                    assert_eq!(as_integer_literal(left), 1);
                    assert_eq!(as_integer_literal(right), 2);
                }
                other => panic!("expected a difference on the left, got {:?}", other),
            }
        }
        other => panic!("expected a binary expression statement, got {:?}", other),
    }
}

#[test]
fn division_associates_to_the_left() {
    let stmts = parse_source("8 / 4 / 2;").unwrap();
    assert_eq!(stmts.len(), 1);
    match &stmts[0] {
        Statement::Expr(Expr::Binary { left, op, right }) => {
            assert_eq!(*op, Operator::Divide);
            assert_eq!(as_integer_literal(right), 2);
            match left.as_ref() {
                Expr::Binary { left, op, right } => {
                    assert_eq!(*op, Operator::Divide);
                    assert_eq!(as_integer_literal(left), 8);
                    assert_eq!(as_integer_literal(right), 4);
                }
                other => panic!("expected a quotient on the left, got {:?}", other),
            }
        }
        other => panic!("expected a binary expression statement, got {:?}", other),
    }
}

#[test]
fn grouping_is_preserved_as_a_node() {
    let stmts = parse_source("(1 + 2) * 3;").unwrap();
    assert_eq!(stmts.len(), 1);
    match &stmts[0] {
        Statement::Expr(Expr::Binary { left, op, right }) => {
            assert_eq!(*op, Operator::Multiply);
            assert_eq!(as_integer_literal(right), 3);
            match left.as_ref() {
                Expr::Grouping(inner) => match inner.as_ref() {
                    Expr::Binary { left, op, right } => {
                        assert_eq!(*op, Operator::Plus);
                        assert_eq!(as_integer_literal(left), 1);
                        assert_eq!(as_integer_literal(right), 2);
                    }
                    other => panic!("expected a sum inside the grouping, got {:?}", other),
                },
                other => panic!("expected a grouping on the left, got {:?}", other),
            }
        }
        other => panic!("expected a binary expression statement, got {:?}", other),
    }
}

#[test]
fn declaration_parses_name_type_and_value() {
    let stmts = parse_source("let x: int = 5 + 3 * 2;").unwrap();
    assert_eq!(stmts.len(), 1);
    match &stmts[0] {
        Statement::Let { name, var_type, value } => {
            assert_eq!(name, "x");
            assert!(matches!(var_type, DataTypes::Integer(0)));
            match value {
                Expr::Binary { left, op, right } => {
                    assert_eq!(*op, Operator::Plus);
                    assert_eq!(as_integer_literal(left), 5);
                    match right.as_ref() {
                        Expr::Binary { left, op, right } => {
                            assert_eq!(*op, Operator::Multiply);
                            assert_eq!(as_integer_literal(left), 3);
                            assert_eq!(as_integer_literal(right), 2);
                        }
                        other => panic!("expected a product on the right, got {:?}", other),
                    }
                }
                other => panic!("expected a sum as the value, got {:?}", other),
            }
        }
        other => panic!("expected a let statement, got {:?}", other),
    }
}

#[test]
fn identifier_expression_statement() {
    let stmts = parse_source("x;").unwrap();
    assert_eq!(stmts.len(), 1);
    assert!(matches!(&stmts[0], Statement::Expr(Expr::Identifier(n)) if n == "x"));
}

#[test]
fn several_statements_in_order() {
    let stmts = parse_source("let a: int = 1; a + 2;").unwrap();
    assert_eq!(stmts.len(), 2);
    assert!(matches!(&stmts[0], Statement::Let { name, .. } if name == "a"));
    assert!(matches!(&stmts[1], Statement::Expr(Expr::Binary { .. })));
}

#[test]
fn empty_token_list_parses_to_no_statements() {
    let stmts = parse_source("   ").unwrap();
    assert!(stmts.is_empty());
}

#[test]
fn missing_semicolon_is_fatal() {
    assert_eq!(
        parse_source("1 + 2").unwrap_err(),
        ParseError::ExpectedSymbol(Symbol::Semicolon, TokenKind::EOF)
    );
}

#[test]
fn unbalanced_open_paren_is_fatal() {
    assert_eq!(
        parse_source("(1 + 2;").unwrap_err(),
        ParseError::ExpectedSymbol(Symbol::RParen, TokenKind::Symbol(Symbol::Semicolon))
    );
}

#[test]
fn unbalanced_close_paren_is_fatal() {
    assert_eq!(
        parse_source(") 1;").unwrap_err(),
        ParseError::UnexpectedToken(TokenKind::Symbol(Symbol::RParen))
    );
}

#[test]
fn missing_colon_in_declaration_is_fatal() {
    assert_eq!(
        parse_source("let x int = 5;").unwrap_err(),
        ParseError::ExpectedSymbol(Symbol::Colon, TokenKind::Keyword(minilang::token::Keyword::Int))
    );
}

#[test]
fn missing_identifier_in_declaration_is_fatal() {
    assert_eq!(
        parse_source("let 5: int = 5;").unwrap_err(),
        ParseError::ExpectedIdentifier(TokenKind::DataTypes)
    );
}

#[test]
fn missing_type_in_declaration_is_fatal() {
    assert_eq!(
        parse_source("let x: y = 5;").unwrap_err(),
        ParseError::ExpectedType(TokenKind::Identifiers)
    );
}

#[test]
fn missing_equal_in_declaration_is_fatal() {
    assert_eq!(
        parse_source("let x: int 5;").unwrap_err(),
        ParseError::ExpectedOperator(Operator::Equal, TokenKind::DataTypes)
    );
}

#[test]
fn operator_at_factor_position_is_fatal() {
    assert_eq!(
        parse_source("1 + * 2;").unwrap_err(),
        ParseError::UnexpectedToken(TokenKind::Operator(Operator::Multiply))
    );
}

#[test]
fn stray_space_token_at_factor_position_is_skipped() {
    let tokens = vec![
        Token::Unknown(' '),
        Token::DataTypes(DataTypes::Integer(1)),
        Token::Symbol(Symbol::Semicolon),
    ];
    let mut parser = Parser::new(tokens);
    let stmts = parser.parse().unwrap();
    assert_eq!(stmts.len(), 1);
    assert!(matches!(
        &stmts[0],
        Statement::Expr(Expr::Literal(DataTypes::Integer(1)))
    ));
}

#[test]
fn other_unknown_token_at_factor_position_is_fatal() {
    let tokens = vec![
        Token::Unknown('@'),
        Token::DataTypes(DataTypes::Integer(1)),
        Token::Symbol(Symbol::Semicolon),
    ];
    let mut parser = Parser::new(tokens);
    assert_eq!(
        parser.parse().unwrap_err(),
        ParseError::UnexpectedToken(TokenKind::Unknown('@'))
    );
}

#[test]
fn literal_kinds_parse_as_literal_factors() {
    let stmts = parse_source("\"hello\";").unwrap();
    assert!(matches!(&stmts[0], Statement::Expr(Expr::Literal(DataTypes::String(s))) if s == "hello"));

    let stmts = parse_source("'c';").unwrap();
    assert!(matches!(&stmts[0], Statement::Expr(Expr::Literal(DataTypes::Char('c')))));

    let stmts = parse_source("2.5;").unwrap();
    assert!(matches!(&stmts[0], Statement::Expr(Expr::Literal(DataTypes::Float(s))) if s == "2.5"));
}

#[test]
fn declarations_of_every_primitive_type() {
    let stmts = parse_source(
        "let a: int = 1; let b: float = 2.5; let c: bool = x; let d: char = 'y'; let e: string = \"z\";",
    )
    .unwrap();
    assert_eq!(stmts.len(), 5);
    assert!(matches!(&stmts[0], Statement::Let { var_type: DataTypes::Integer(0), .. }));
    assert!(matches!(&stmts[1], Statement::Let { var_type: DataTypes::Float(s), .. } if s.is_empty()));
    assert!(matches!(&stmts[2], Statement::Let { var_type: DataTypes::Boolean(false), .. }));
    assert!(matches!(&stmts[3], Statement::Let { var_type: DataTypes::Char('\0'), .. }));
    assert!(matches!(&stmts[4], Statement::Let { var_type: DataTypes::String(s), .. } if s.is_empty()));
}
