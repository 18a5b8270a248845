use monkey::ast::{Expression, Identifier, Program, Statement};
use monkey::token::Token;

#[test]
fn test_display_program() {
    let program = Program {
        statements: vec![
            Statement::Let {
                ident: Identifier { value: "myVar".to_string() },
                value: Expression::IntegerLiteral(5),
            },
            Statement::Let {
                ident: Identifier { value: "anotherVar".to_string() },
                value: Expression::Identifier(Identifier { value: "myVar".to_string() }),
            },
            Statement::Return {
                value: Expression::Identifier(Identifier { value: "anotherVar".to_string() }),
            },
        ],
    };
    assert_eq!(program.to_string(), "let myVar = 5;let anotherVar = myVar;return anotherVar;");
}

#[test]
fn program_grows_by_add_statement() {
    let mut program = Program::new();
    assert_eq!(program.to_string(), "");
    program.add_statement(Statement::Expression { value: Expression::Boolean(true) });
    program.add_statement(Statement::Block {
        statements: vec![Statement::Expression { value: Expression::IntegerLiteral(7) }],
    });
    assert_eq!(program.statements.len(), 2);
    assert_eq!(program.to_string(), "true{7}");
}

#[test]
fn identifier_only_from_ident_tokens() {
    assert_eq!(
        Identifier::try_from_token(&Token::Ident("abc".to_string())),
        Some(Identifier { value: "abc".to_string() })
    );
    assert_eq!(Identifier::try_from_token(&Token::Let), None);
    assert_eq!(Identifier::try_from_token(&Token::Int(3)), None);
}

#[test]
fn nested_expressions_print_and_clone() {
    let e = Expression::Infix {
        left: Box::new(Expression::Prefix {
            operator: Token::Minus,
            right: Box::new(Expression::IntegerLiteral(3)),
        }),
        operator: Token::NotEq,
        right: Box::new(Expression::If {
            condition: Box::new(Expression::Boolean(false)),
            consequence: Box::new(Statement::Block { statements: vec![] }),
            alternative: Some(Box::new(Statement::Block {
                statements: vec![Statement::Return { value: Expression::IntegerLiteral(-1) }],
            })),
        }),
    };
    let text = "((-3) != if false {} else {return -1;})";
    assert_eq!(e.to_string(), text);
    let copy = e.clone();
    assert_eq!(copy, e);
    assert_eq!(copy.to_string(), text);
}
