use monkey::lexer::Lexer;
use monkey::parser::{Parser, Precedence};
use monkey::token::Token;

#[test]
fn test_next_token() {
    let input = "=+(){},;";
    let tests = vec![
        Token::Assign,
        Token::Plus,
        Token::LParen,
        Token::RParen,
        Token::LBrace,
        Token::RBrace,
        Token::Comma,
        Token::Semicolon,
        Token::EOF,
    ];
    let mut lexer = Lexer::new(input);

    for tt in tests {
        let tok = lexer.next_token();
        assert_eq!(tok, tt);
    }
}

#[test]
fn test_next_token_monkey_code() {
    let input = r#"let five = 5;
        let ten = 10;
        
        let add = fn(x, y) {
            x + y;
        };
        
        let result = add(five, ten);
        !-/*5;
        5 < 10 > 5;

        if (5 < 10) {
            return true;
        } else {
            return false;
        }
        
        10 == 10;
        10 != 9;
        "#;

    let tests = vec![
        Token::Let,
        Token::Ident("five".to_string()),
        Token::Assign,
        Token::Int(5),
        Token::Semicolon,
        Token::Let,
        Token::Ident("ten".to_string()),
        Token::Assign,
        Token::Int(10),
        Token::Semicolon,
        Token::Let,
        Token::Ident("add".to_string()),
        Token::Assign,
        Token::Function,
        Token::LParen,
        Token::Ident("x".to_string()),
        Token::Comma,
        Token::Ident("y".to_string()),
        Token::RParen,
        Token::LBrace,
        Token::Ident("x".to_string()),
        Token::Plus,
        Token::Ident("y".to_string()),
        Token::Semicolon,
        Token::RBrace,
        Token::Semicolon,
        Token::Let,
        Token::Ident("result".to_string()),
        Token::Assign,
        Token::Ident("add".to_string()),
        Token::LParen,
        Token::Ident("five".to_string()),
        Token::Comma,
        Token::Ident("ten".to_string()),
        Token::RParen,
        Token::Semicolon,
        Token::Bang,
        Token::Minus,
        Token::Slash,
        Token::Asterisk,
        Token::Int(5),
        Token::Semicolon,
        Token::Int(5),
        Token::Lt,
        Token::Int(10),
        Token::Gt,
        Token::Int(5),
        Token::Semicolon,
        Token::If,
        Token::LParen,
        Token::Int(5),
        Token::Lt,
        Token::Int(10),
        Token::RParen,
        Token::LBrace,
        Token::Return,
        Token::Bool(true),
        Token::Semicolon,
        Token::RBrace,
        Token::Else,
        Token::LBrace,
        Token::Return,
        Token::Bool(false),
        Token::Semicolon,
        Token::RBrace,
        Token::Int(10),
        Token::Eq,
        Token::Int(10),
        Token::Semicolon,
        Token::Int(10),
        Token::NotEq,
        Token::Int(9),
        Token::Semicolon,
        Token::EOF,
    ];
    let mut lexer = Lexer::new(input);

    for tt in tests {
        let tok = lexer.next_token();
        assert_eq!(tok, tt);
    }
}

#[test]
fn keywords_and_booleans_classify() {
    assert_eq!(Token::from_ident("fn".to_string()), Token::Function);
    assert_eq!(Token::from_ident("let".to_string()), Token::Let);
    assert_eq!(Token::from_ident("true".to_string()), Token::Bool(true));
    assert_eq!(Token::from_ident("false".to_string()), Token::Bool(false));
    assert_eq!(Token::from_ident("if".to_string()), Token::If);
    assert_eq!(Token::from_ident("else".to_string()), Token::Else);
    assert_eq!(Token::from_ident("return".to_string()), Token::Return);
    assert_eq!(Token::from_ident("foobar".to_string()), Token::Ident("foobar".to_string()));
    assert_eq!(Token::from_ident("lets".to_string()), Token::Ident("lets".to_string()));
    assert_eq!(Token::from_ident("Fn".to_string()), Token::Ident("Fn".to_string()));
}

#[test]
fn lexer_yields_eof_forever_at_the_end() {
    let mut lexer = Lexer::new("a  ");
    assert_eq!(lexer.next_token(), Token::Ident("a".to_string()));
    for _ in 0..3 {
        assert_eq!(lexer.next_token(), Token::EOF);
    }
    let mut empty = Lexer::new("");
    assert_eq!(empty.next_token(), Token::EOF);
    assert_eq!(empty.next_token(), Token::EOF);
}

#[test]
fn number_overflow_is_illegal() {
    let mut lexer = Lexer::new("9223372036854775807 9223372036854775808 1");
    assert_eq!(lexer.next_token(), Token::Int(9223372036854775807));
    assert_eq!(lexer.next_token(), Token::Illegal);
    assert_eq!(lexer.next_token(), Token::Int(1));
    assert_eq!(lexer.next_token(), Token::EOF);
}

#[test]
fn unknown_characters_are_illegal() {
    let mut lexer = Lexer::new("a@b #");
    assert_eq!(lexer.next_token(), Token::Ident("a".to_string()));
    assert_eq!(lexer.next_token(), Token::Illegal);
    assert_eq!(lexer.next_token(), Token::Ident("b".to_string()));
    assert_eq!(lexer.next_token(), Token::Illegal);
    assert_eq!(lexer.next_token(), Token::EOF);
}

#[test]
fn identifiers_stop_at_digits() {
    let mut lexer = Lexer::new("foo_bar12 x\u{3000}y\t\n");
    assert_eq!(lexer.next_token(), Token::Ident("foo_bar".to_string()));
    assert_eq!(lexer.next_token(), Token::Int(12));
    assert_eq!(lexer.next_token(), Token::Ident("x".to_string()));
    assert_eq!(lexer.next_token(), Token::Ident("y".to_string()));
    assert_eq!(lexer.next_token(), Token::EOF);
}

#[test]
fn two_character_operators() {
    let mut lexer = Lexer::new("== = != ! =!");
    assert_eq!(lexer.next_token(), Token::Eq);
    assert_eq!(lexer.next_token(), Token::Assign);
    assert_eq!(lexer.next_token(), Token::NotEq);
    assert_eq!(lexer.next_token(), Token::Bang);
    assert_eq!(lexer.next_token(), Token::Assign);
    assert_eq!(lexer.next_token(), Token::Bang);
    assert_eq!(lexer.next_token(), Token::EOF);
}

#[test]
fn tokens_stop_before_eof() {
    let mut lexer = Lexer::new("let x = 5;");
    let toks = lexer.tokens();
    assert_eq!(
        toks,
        vec![
            Token::Let,
            Token::Ident("x".to_string()),
            Token::Assign,
            Token::Int(5),
            Token::Semicolon
        ]
    );
    let mut lexer = Lexer::new("1 2");
    assert_eq!(lexer.next(), Some(Token::Int(1)));
    assert_eq!(lexer.next(), Some(Token::Int(2)));
    assert_eq!(lexer.next(), None);
}

#[test]
fn token_lexemes() {
    assert_eq!(Token::Eq.to_string(), "==");
    assert_eq!(Token::NotEq.to_string(), "!=");
    assert_eq!(Token::Function.to_string(), "fn");
    assert_eq!(Token::LBrace.to_string(), "{");
    assert_eq!(Token::Int(838383).to_string(), "838383");
    assert_eq!(Token::Int(-42).to_string(), "-42");
    assert_eq!(Token::Int(0).to_string(), "0");
    assert_eq!(Token::Int(i64::MIN).to_string(), "-9223372036854775808");
    assert_eq!(Token::Bool(false).to_string(), "false");
    assert_eq!(Token::Ident("abc".to_string()).to_string(), "abc");
    assert_eq!(Token::Illegal.to_string(), "ILLEGAL");
}

#[test]
fn nul_character_is_illegal() {
    let mut lexer = Lexer::new("\0a");
    assert_eq!(lexer.next_token(), Token::Illegal);
    assert_eq!(lexer.next_token(), Token::Ident("a".to_string()));
    assert_eq!(lexer.next_token(), Token::EOF);
    assert_eq!(lexer.next_token(), Token::EOF);
    let mut lexer = Lexer::new("x\0");
    assert_eq!(lexer.tokens(), vec![Token::Ident("x".to_string()), Token::Illegal]);
}

#[test]
fn eof_within_length_plus_one_calls() {
    let input = "let x = 10 != 9;";
    let n = input.chars().count();
    let mut lexer = Lexer::new(input);
    let mut seen_eof = false;
    for _ in 0..(n + 1) {
        let tok = lexer.next_token();
        if seen_eof {
            assert_eq!(tok, Token::EOF);
        }
        if tok == Token::EOF {
            seen_eof = true;
        }
    }
    assert!(seen_eof);
    let mut lexer = Lexer::new("a b");
    assert_eq!(lexer.next(), Some(Token::Ident("a".to_string())));
    assert_eq!(lexer.next(), Some(Token::Ident("b".to_string())));
    assert_eq!(lexer.next(), None);
    assert_eq!(lexer.next(), None);
}

#[test]
fn read_identifier_starts_with_the_given_letter() {
    let mut lexer = Lexer::new("et x");
    assert_eq!(lexer.read_identifier('l'), Some(Token::Let));
    assert_eq!(lexer.next_token(), Token::Ident("x".to_string()));
    let mut lexer = Lexer::new("oo;");
    assert_eq!(lexer.read_identifier('f'), Some(Token::Ident("foo".to_string())));
    assert_eq!(lexer.next_token(), Token::Semicolon);
    let mut lexer = Lexer::new("");
    assert_eq!(lexer.read_identifier('z'), Some(Token::Ident("z".to_string())));
}

#[test]
fn read_number_starts_with_the_given_digit() {
    let mut lexer = Lexer::new("23;");
    assert_eq!(lexer.read_number('1'), Some(Token::Int(123)));
    assert_eq!(lexer.next_token(), Token::Semicolon);
    let mut lexer = Lexer::new("");
    assert_eq!(lexer.read_number('7'), Some(Token::Int(7)));
    let mut lexer = Lexer::new("223372036854775808");
    assert_eq!(lexer.read_number('9'), None);
    assert_eq!(lexer.next_token(), Token::EOF);
}

#[test]
fn prefix_binds_before_infix_in_expression_parse() {
    for o2 in ["+", "-", "*", "/", "<", ">", "==", "!="] {
        for op in ["-", "!"] {
            let input = format!("{}a {} b", op, o2);
            let mut parser = Parser::new(Lexer::new(&input));
            let e = parser.parse_expression(Precedence::Lowest).unwrap();
            assert_eq!(e.to_string(), format!("(({}a) {} b)", op, o2));
        }
    }
}
