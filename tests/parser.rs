use std::ops::Deref;

use monkey::ast::{Expression, Statement};
use monkey::lexer::Lexer;
use monkey::parser::{ParseError, Parser, Precedence};
use monkey::token::Token;

fn parse_ok(input: &str) -> monkey::ast::Program {
    let lexer = Lexer::new(input);
    let mut parser = Parser::new(lexer);
    parser.parse_program().unwrap()
}

fn parse_errors(input: &str) -> Vec<ParseError> {
    let lexer = Lexer::new(input);
    let mut parser = Parser::new(lexer);
    match parser.parse_program() {
        Ok(_) => panic!("expected a parse error"),
        Err(e) => e.errors,
    }
}

#[test]
fn test_print_program() {
    let input = "let x = 5; let y = 10; let foobar = 838383;";
    let lexer = Lexer::new(input);
    let mut parser = Parser::new(lexer);
    let program = parser.parse_program().unwrap();

    println!("{}", program.to_string());
}

#[test]
fn test_let_statements() {
    let input = "let x = 5; let y = 10; let foobar = 838383;";
    let lexer = Lexer::new(input);
    let mut parser = Parser::new(lexer);
    let program = parser.parse_program().unwrap();

    assert_eq!(program.statements.len(), 3);

    let expected = ["x", "y", "foobar"];
    for (i, name) in expected.iter().enumerate() {
        check_let_statement(program.statements[i].clone(), name);
    }
}

fn check_let_statement(statement: Statement, name: &str) {
    match statement {
        Statement::Let { ident, value: _ } => assert_eq!(ident.value, name),
        _ => panic!("Expected Let statement"),
    }
}

#[test]
fn test_return_statements() {
    let input = "return 5; return 10; return 993322;";
    let lexer = Lexer::new(input);
    let mut parser = Parser::new(lexer);
    let program = parser.parse_program().unwrap();

    assert_eq!(program.statements.len(), 3);

    for statement in program.statements {
        match statement {
            Statement::Return { value: _ } => (),
            _ => panic!("Expected Return statement"),
        }
    }
}

#[test]
fn test_identifier_expression() {
    let input = "foobar;";
    let lexer = Lexer::new(input);
    let mut parser = Parser::new(lexer);
    let program = parser.parse_program().unwrap();

    assert_eq!(program.statements.len(), 1);

    match program.statements[0].clone() {
        Statement::Expression { value } => match value {
            Expression::Identifier(ident) => assert_eq!(ident.value, "foobar"),
            _ => panic!("Expected Identifier expression"),
        },
        _ => panic!("Expected Expression statement"),
    }
}

#[test]
fn test_integer_expression() {
    let input = "5;";
    let lexer = Lexer::new(input);
    let mut parser = Parser::new(lexer);
    let program = parser.parse_program().unwrap();

    assert_eq!(program.statements.len(), 1);

    match program.statements[0].clone() {
        Statement::Expression { value } => match value {
            Expression::IntegerLiteral(int) => assert_eq!(int, 5),
            _ => panic!("Expected IntegerLiteral expression"),
        },
        _ => panic!("Expected Expression statement"),
    }
}

#[test]
fn test_prefix_expression() {
    let test_cases = vec![("!5;", "!", 5), ("-15;", "-", 15)];
    for (input, operator, right_val) in test_cases {
        let lexer = Lexer::new(input);
        let mut parser = Parser::new(lexer);
        let program = parser.parse_program().unwrap();

        assert_eq!(program.statements.len(), 1);

        match program.statements[0].clone() {
            Statement::Expression { value } => match value {
                Expression::Prefix { operator: op, right } => {
                    assert_eq!(op.to_string(), operator);
                    assert_eq!(right.deref(), &Expression::IntegerLiteral(right_val));
                }
                _ => panic!("Expected Prefix expression"),
            },
            _ => panic!("Expected Expression statement"),
        }
    }
}

#[test]
fn test_infix_expression() {
    let test_cases = vec![
        ("5 + 5;", 5, "+", 5),
        ("5 - 5;", 5, "-", 5),
        ("5 * 5;", 5, "*", 5),
        ("5 / 5;", 5, "/", 5),
        ("5 > 5;", 5, ">", 5),
        ("5 < 5;", 5, "<", 5),
        ("5 == 5;", 5, "==", 5),
        ("5 != 5;", 5, "!=", 5),
    ];
    for (input, left_val, operator, right_val) in test_cases {
        let lexer = Lexer::new(input);
        let mut parser = Parser::new(lexer);
        let program = parser.parse_program().unwrap();

        assert_eq!(program.statements.len(), 1);

        match program.statements[0].clone() {
            Statement::Expression { value } => match value {
                Expression::Infix { left, operator: op, right } => {
                    assert_eq!(left.deref(), &Expression::IntegerLiteral(left_val));
                    assert_eq!(op.to_string(), operator);
                    assert_eq!(right.deref(), &Expression::IntegerLiteral(right_val));
                }
                _ => panic!("Expected Infix expression"),
            },
            _ => panic!("Expected Expression statement"),
        }
    }
}

#[test]
fn test_operator_precedence_parsing() {
    let test_cases = vec![
        ("-a * b;", "((-a) * b)"),
        ("!-a;", "(!(-a))"),
        ("a + b + c;", "((a + b) + c)"),
        ("a + b - c;", "((a + b) - c)"),
        ("a * b * c;", "((a * b) * c)"),
        ("a * b / c;", "((a * b) / c)"),
        ("a + b / c;", "(a + (b / c))"),
        ("a + b * c + d / e - f;", "(((a + (b * c)) + (d / e)) - f)"),
        ("3 + 4; -5 * 5;", "(3 + 4)((-5) * 5)"),
        ("5 > 4 == 3 < 4;", "((5 > 4) == (3 < 4))"),
        ("5 < 4 != 3 > 4;", "((5 < 4) != (3 > 4))"),
        ("3 + 4 * 5 == 3 * 1 + 4 * 5;", "((3 + (4 * 5)) == ((3 * 1) + (4 * 5)))"),
        ("!true", "(!true)"),
        ("!false", "(!false)"),
        ("(5 + 5) * 2", "((5 + 5) * 2)"),
    ];
    for (input, expected) in test_cases {
        let lexer = Lexer::new(input);
        let mut parser = Parser::new(lexer);
        let program = parser.parse_program().unwrap();

        assert_eq!(program.to_string(), expected);
    }
}

#[test]
fn test_boolean_literal() {
    let test_cases = vec![("true;", true), ("false;", false)];
    for (input, expected) in test_cases {
        let lexer = Lexer::new(input);
        let mut parser = Parser::new(lexer);
        let program = parser.parse_program().unwrap();

        assert_eq!(program.statements.len(), 1);

        match program.statements[0].clone() {
            Statement::Expression { value } => match value {
                Expression::Boolean(boolean) => assert_eq!(boolean, expected),
                _ => panic!("Expected Boolean expression"),
            },
            _ => panic!("Expected Expression statement"),
        }
    }
}

#[test]
fn let_and_return_carry_their_expressions() {
    let program = parse_ok("let x = 1 + 2 * 3; return -x;");
    assert_eq!(program.to_string(), "let x = (1 + (2 * 3));return (-x);");
    match &program.statements[0] {
        Statement::Let { ident, value } => {
            assert_eq!(ident.value, "x");
            assert_eq!(value.to_string(), "(1 + (2 * 3))");
        }
        _ => panic!("Expected Let statement"),
    }
}

#[test]
fn conditional_has_printed_condition() {
    let program = parse_ok("if (5 < 10) { x }");
    assert_eq!(program.statements.len(), 1);
    match &program.statements[0] {
        Statement::Expression { value: Expression::If { condition, consequence, alternative } } => {
            assert_eq!(condition.to_string(), "(5 < 10)");
            assert_eq!(consequence.to_string(), "{x}");
            assert!(alternative.is_none());
        }
        _ => panic!("Expected a conditional expression statement"),
    }
    assert_eq!(program.to_string(), "if (5 < 10) {x}");
}

#[test]
fn conditional_with_else_and_statement_blocks() {
    let program = parse_ok("if (x > y) { let z = x; return z; } else { y; 1 }");
    assert_eq!(
        program.to_string(),
        "if (x > y) {let z = x;return z;} else {y1}"
    );
    match &program.statements[0] {
        Statement::Expression { value: Expression::If { alternative: Some(alt), .. } } => {
            match alt.deref() {
                Statement::Block { statements } => assert_eq!(statements.len(), 2),
                _ => panic!("Expected a block"),
            }
        }
        _ => panic!("Expected a conditional with an alternative"),
    }
}

#[test]
fn single_expression_needs_no_semicolon() {
    let program = parse_ok("5");
    assert_eq!(program.statements.len(), 1);
    match &program.statements[0] {
        Statement::Expression { value } => assert_eq!(value.to_string(), "5"),
        _ => panic!("Expected Expression statement"),
    }
    assert_eq!(program.to_string(), "5");
}

#[test]
fn empty_input_is_an_empty_program() {
    let program = parse_ok("   ");
    assert_eq!(program.statements.len(), 0);
    assert_eq!(program.to_string(), "");
}

#[test]
fn unmatched_parenthesis_is_reported() {
    let errors = parse_errors("(1 + 2");
    assert_eq!(
        errors,
        vec![ParseError::ExpectedToken { expected: Token::RParen, found: None }]
    );
    assert_eq!(errors[0].message(), "expected ), got end of input");
}

#[test]
fn missing_identifier_is_reported() {
    let errors = parse_errors("let 5 = 3;");
    assert_eq!(errors[0], ParseError::ExpectedIdentifier { found: Some(Token::Int(5)) });
    assert_eq!(errors[0].message(), "expected an identifier, got 5");
}

#[test]
fn unexpected_token_and_eof_are_reported() {
    let errors = parse_errors("let x = ;");
    assert_eq!(errors[0], ParseError::UnexpectedToken { found: Token::Semicolon });
    assert_eq!(errors[0].message(), "unexpected token ;");
    let errors = parse_errors("return");
    assert_eq!(errors, vec![ParseError::UnexpectedEof]);
    assert_eq!(errors[0].message(), "unexpected end of input");
}

#[test]
fn missing_semicolon_after_let_is_reported() {
    let errors = parse_errors("let x = 5 let");
    assert_eq!(
        errors[0],
        ParseError::ExpectedToken { expected: Token::Semicolon, found: Some(Token::Let) }
    );
    assert_eq!(errors[0].message(), "expected ;, got let");
}

#[test]
fn all_failing_statements_are_collected() {
    let lexer = Lexer::new(") 1; ]");
    let mut parser = Parser::new(lexer);
    let err = parser.parse_program().unwrap_err();
    assert_eq!(
        err.errors,
        vec![
            ParseError::UnexpectedToken { found: Token::RParen },
            ParseError::UnexpectedToken { found: Token::Illegal },
        ]
    );
    assert_eq!(
        err.messages(),
        vec!["unexpected token )".to_string(), "unexpected token ILLEGAL".to_string()]
    );
}

#[test]
fn precedence_levels() {
    assert_eq!(Precedence::from_token(&Token::Plus), Precedence::Sum);
    assert_eq!(Precedence::from_token(&Token::Asterisk), Precedence::Product);
    assert_eq!(Precedence::from_token(&Token::Lt), Precedence::LessGreater);
    assert_eq!(Precedence::from_token(&Token::NotEq), Precedence::Equals);
    assert_eq!(Precedence::from_token(&Token::Semicolon), Precedence::Lowest);
    assert!(Precedence::Sum.rank() < Precedence::Product.rank());
    assert!(Precedence::Prefix.rank() < Precedence::Call.rank());
}

#[test]
fn text_after_nul_is_still_parsed() {
    let errors = parse_errors("1;\0 2;");
    assert_eq!(errors, vec![ParseError::UnexpectedToken { found: Token::Illegal }]);
}

#[test]
fn every_operator_pair_groups_by_precedence() {
    let ops = [
        (Token::Plus, "+"),
        (Token::Minus, "-"),
        (Token::Asterisk, "*"),
        (Token::Slash, "/"),
        (Token::Lt, "<"),
        (Token::Gt, ">"),
        (Token::Eq, "=="),
        (Token::NotEq, "!="),
    ];
    for (t1, o1) in ops.iter() {
        for (t2, o2) in ops.iter() {
            let input = format!("a {} b {} c", o1, o2);
            let program = parse_ok(&input);
            assert_eq!(program.statements.len(), 1);
            let p1 = Precedence::from_token(t1).rank();
            let p2 = Precedence::from_token(t2).rank();
            let expected = if p2 <= p1 {
                format!("((a {} b) {} c)", o1, o2)
            } else {
                format!("(a {} (b {} c))", o1, o2)
            };
            assert_eq!(program.to_string(), expected);
            let prefixed = parse_ok(&format!("-a {} b", o2));
            assert_eq!(prefixed.to_string(), format!("((-a) {} b)", o2));
            let negated = parse_ok(&format!("!a {} b", o2));
            assert_eq!(negated.to_string(), format!("((!a) {} b)", o2));
        }
    }
}
