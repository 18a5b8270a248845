use vstd::prelude::*;

use crate::ast::{
    ExprV, Expression, Identifier, Program, Statement, StmtV, expr_text, expr_view, stmt_text,
    stmt_view, stmts_text, stmts_view,
};
use crate::lexer::{
    Lexer, is_letter_char, lexed, run_end, skip_space, token_at, token_end,
    lemma_lexing_ends,
};
use crate::token::{Token, keyword_of, render};

verus! {

/// Binding strength of operators, weakest first.
#[derive(Debug, PartialEq, Eq, PartialOrd, Clone, Copy)]
pub enum Precedence {
    Lowest,
    Equals,
    LessGreater,
    Sum,
    Product,
    Prefix,
    Call,
}

/// The place of a precedence level in the order, weakest first.
pub open spec fn rank(p: Precedence) -> nat {
    match p {
        Precedence::Lowest => 0,
        Precedence::Equals => 1,
        Precedence::LessGreater => 2,
        Precedence::Sum => 3,
        Precedence::Product => 4,
        Precedence::Prefix => 5,
        Precedence::Call => 6,
    }
}

/// The binding strength of a token in infix position.
pub open spec fn precedence_of(t: Token) -> Precedence {
    match t {
        Token::Eq | Token::NotEq => Precedence::Equals,
        Token::Lt | Token::Gt => Precedence::LessGreater,
        Token::Plus | Token::Minus => Precedence::Sum,
        Token::Asterisk | Token::Slash => Precedence::Product,
        _ => Precedence::Lowest,
    }
}

/// Why a statement could not be parsed.
#[derive(Debug, PartialEq)]
pub enum ParseError {
    /// A given token was required; `found` is what stood there, `None` at the
    /// end of the input.
    ExpectedToken { expected: Token, found: Option<Token> },
    /// A name was required after `let`.
    ExpectedIdentifier { found: Option<Token> },
    /// The token cannot start an expression.
    UnexpectedToken { found: Token },
    /// The input ended where an expression should start.
    UnexpectedEof,
}

/// The errors of every statement that failed, in order.
#[derive(Debug)]
pub struct ProgramError {
    pub errors: Vec<ParseError>,
}

/// Tokens equal up to the characters of the names they carry.
pub open spec fn same_token(a: Token, b: Token) -> bool {
    match a {
        Token::Ident(x) => b is Ident && b->Ident_0@ == x@,
        _ => a == b,
    }
}

/// The token at `i`, if there is one.
pub open spec fn token_at_index(ts: Seq<Token>, i: int) -> Option<Token> {
    if 0 <= i < ts.len() {
        Some(ts[i])
    } else {
        None
    }
}

/// Requires the token `t` at `i`: the position after it, or the error.
pub open spec fn expect(ts: Seq<Token>, i: int, t: Token) -> Result<int, ParseError> {
    if 0 <= i < ts.len() && same_token(ts[i], t) {
        Ok(i + 1)
    } else {
        Err(ParseError::ExpectedToken { expected: t, found: token_at_index(ts, i) })
    }
}

/// `i < j <= ts.len()`: a step that moved forward and stayed in the input.
pub open spec fn advances(ts: Seq<Token>, i: int, j: int) -> bool {
    i < j <= ts.len()
}

/// Parses an expression from `i` whose infix operators bind more strongly
/// than `prec`: the expression or the error, and the position reached.
pub open spec fn parse_expr(ts: Seq<Token>, i: int, prec: Precedence) -> (
    Result<ExprV, ParseError>,
    int,
)
    decreases ts.len() - i, 1nat,
{
    if i < 0 || i >= ts.len() {
        (Err(ParseError::UnexpectedEof), i)
    } else {
        let (prim, j) = parse_primary(ts, i);
        match prim {
            Err(e) => (Err(e), j),
            Ok(left) => if advances(ts, i, j) {
                infix_loop(ts, j, prec, left)
            } else {
                (Ok(left), j)
            },
        }
    }
}

/// Folds infix operators that bind more strongly than `prec` onto `left`,
/// from `i` on.
pub open spec fn infix_loop(ts: Seq<Token>, i: int, prec: Precedence, left: ExprV) -> (
    Result<ExprV, ParseError>,
    int,
)
    decreases ts.len() - i, 0nat,
{
    if 0 <= i < ts.len() && !(ts[i] is Semicolon) && rank(prec) < rank(precedence_of(ts[i])) {
        let op = ts[i];
        let (r, k) = parse_expr(ts, i + 1, precedence_of(op));
        match r {
            Err(e) => (Err(e), k),
            Ok(right) => {
                let e = ExprV::Infix(Box::new(left), op, Box::new(right));
                if advances(ts, i, k) {
                    infix_loop(ts, k, prec, e)
                } else {
                    (Ok(e), k)
                }
            },
        }
    } else {
        (Ok(left), i)
    }
}

/// Parses the term that starts at `i`: a name, a literal, a prefix form, a
/// parenthesised expression or a conditional.
pub open spec fn parse_primary(ts: Seq<Token>, i: int) -> (Result<ExprV, ParseError>, int)
    decreases ts.len() - i, 0nat,
{
    if i < 0 || i >= ts.len() {
        (Err(ParseError::UnexpectedEof), i)
    } else {
        let t = ts[i];
        match t {
            Token::Ident(x) => (Ok(ExprV::Ident(x@)), i + 1),
            Token::Int(v) => (Ok(ExprV::Int(v)), i + 1),
            Token::Bool(b) => (Ok(ExprV::Bool(b)), i + 1),
            Token::Bang | Token::Minus => {
                let (r, k) = parse_expr(ts, i + 1, Precedence::Prefix);
                match r {
                    Err(e) => (Err(e), k),
                    Ok(right) => (Ok(ExprV::Prefix(t, Box::new(right))), k),
                }
            },
            Token::LParen => {
                let (r, k) = parse_expr(ts, i + 1, Precedence::Lowest);
                match r {
                    Err(e) => (Err(e), k),
                    Ok(inner) => match expect(ts, k, Token::RParen) {
                        Ok(k2) => (Ok(inner), k2),
                        Err(e) => (Err(e), k),
                    },
                }
            },
            Token::If => parse_conditional(ts, i + 1),
            _ => (Err(ParseError::UnexpectedToken { found: t }), i + 1),
        }
    }
}

/// Parses the rest of a conditional, from just after `if`.
pub open spec fn parse_conditional(ts: Seq<Token>, i: int) -> (Result<ExprV, ParseError>, int)
    decreases ts.len() - i, 5nat,
{
    match expect(ts, i, Token::LParen) {
        Err(e) => (Err(e), i),
        Ok(a) => if !advances(ts, i, a) {
            (Err(ParseError::UnexpectedEof), a)
        } else {
            let (c, b) = parse_expr(ts, a, Precedence::Lowest);
            match c {
                Err(e) => (Err(e), b),
                Ok(cond) => match expect(ts, b, Token::RParen) {
                    Err(e) => (Err(e), b),
                    Ok(b2) => match expect(ts, b2, Token::LBrace) {
                        Err(e) => (Err(e), b2),
                        Ok(b3) => if !advances(ts, i, b3) {
                            (Err(ParseError::UnexpectedEof), b3)
                        } else {
                            let (cons, d) = parse_block(ts, b3, Seq::empty());
                            match cons {
                                Err(e) => (Err(e), d),
                                Ok(cs) => if token_at_index(ts, d) == Some(Token::Else) {
                                    match expect(ts, d + 1, Token::LBrace) {
                                        Err(e) => (Err(e), d + 1),
                                        Ok(d2) => if !advances(ts, i, d2) {
                                            (Err(ParseError::UnexpectedEof), d2)
                                        } else {
                                            let (alt, f) = parse_block(ts, d2, Seq::empty());
                                            match alt {
                                                Err(e) => (Err(e), f),
                                                Ok(al) => (
                                                    Ok(ExprV::If(
                                                        Box::new(cond),
                                                        Box::new(cs),
                                                        Some(Box::new(al)),
                                                    )),
                                                    f,
                                                ),
                                            }
                                        },
                                    }
                                } else {
                                    (Ok(ExprV::If(Box::new(cond), Box::new(cs), None)), d)
                                },
                            }
                        },
                    },
                },
            }
        },
    }
}

/// Parses the statements of a block from `i`, after those in `acc`, up to
/// and including its closing brace.
pub open spec fn parse_block(ts: Seq<Token>, i: int, acc: Seq<StmtV>) -> (
    Result<StmtV, ParseError>,
    int,
)
    decreases ts.len() - i, 4nat,
{
    if i < 0 || i >= ts.len() {
        (Err(ParseError::ExpectedToken { expected: Token::RBrace, found: None }), i)
    } else if ts[i] is RBrace {
        (Ok(StmtV::Block(acc)), i + 1)
    } else {
        let (r, k) = parse_stmt(ts, i);
        match r {
            Err(e) => (Err(e), k),
            Ok(st) => if advances(ts, i, k) {
                parse_block(ts, k, acc.push(st))
            } else {
                (Ok(StmtV::Block(acc.push(st))), k)
            },
        }
    }
}

/// Parses the statement that starts at `i`.
pub open spec fn parse_stmt(ts: Seq<Token>, i: int) -> (Result<StmtV, ParseError>, int)
    decreases ts.len() - i, 3nat,
{
    if 0 <= i < ts.len() && ts[i] is Let {
        parse_let(ts, i + 1)
    } else if 0 <= i < ts.len() && ts[i] is Return {
        parse_return(ts, i + 1)
    } else {
        parse_expr_stmt(ts, i)
    }
}

/// Parses the rest of a `let` binding, from just after `let`.
pub open spec fn parse_let(ts: Seq<Token>, i: int) -> (Result<StmtV, ParseError>, int)
    decreases ts.len() - i, 2nat,
{
    if 0 <= i < ts.len() && ts[i] is Ident {
        let name = ts[i]->Ident_0@;
        match expect(ts, i + 1, Token::Assign) {
            Err(e) => (Err(e), i + 1),
            Ok(a) => {
                let (r, k) = parse_expr(ts, a, Precedence::Lowest);
                match r {
                    Err(e) => (Err(e), k),
                    Ok(v) => match expect(ts, k, Token::Semicolon) {
                        Ok(k2) => (Ok(StmtV::Let(name, v)), k2),
                        Err(e) => (Err(e), k),
                    },
                }
            },
        }
    } else {
        (Err(ParseError::ExpectedIdentifier { found: token_at_index(ts, i) }), i)
    }
}

/// Parses the rest of a `return` statement, from just after `return`.
pub open spec fn parse_return(ts: Seq<Token>, i: int) -> (Result<StmtV, ParseError>, int)
    decreases ts.len() - i, 2nat,
{
    let (r, k) = parse_expr(ts, i, Precedence::Lowest);
    match r {
        Err(e) => (Err(e), k),
        Ok(v) => match expect(ts, k, Token::Semicolon) {
            Ok(k2) => (Ok(StmtV::Return(v)), k2),
            Err(e) => (Err(e), k),
        },
    }
}

/// Parses an expression statement from `i`; a `;` after it is taken if
/// present.
pub open spec fn parse_expr_stmt(ts: Seq<Token>, i: int) -> (Result<StmtV, ParseError>, int)
    decreases ts.len() - i, 2nat,
{
    let (r, k) = parse_expr(ts, i, Precedence::Lowest);
    match r {
        Err(e) => (Err(e), k),
        Ok(v) => if token_at_index(ts, k) == Some(Token::Semicolon) {
            (Ok(StmtV::Expr(v)), k + 1)
        } else {
            (Ok(StmtV::Expr(v)), k)
        },
    }
}

/// Parses statements from `i` to the end, after the statements `done` and
/// the errors `errs` gathered so far: the statements if no statement failed,
/// else the errors of all that failed.
pub open spec fn parse_statements(
    ts: Seq<Token>,
    i: int,
    done: Seq<StmtV>,
    errs: Seq<ParseError>,
) -> Result<Seq<StmtV>, Seq<ParseError>>
    decreases ts.len() - i,
{
    if i < 0 || i >= ts.len() {
        if errs.len() == 0 {
            Ok(done)
        } else {
            Err(errs)
        }
    } else {
        let (r, k) = parse_stmt(ts, i);
        let done2 = match r {
            Ok(st) => done.push(st),
            Err(_) => done,
        };
        let errs2 = match r {
            Ok(_) => errs,
            Err(e) => errs.push(e),
        };
        if advances(ts, i, k) {
            parse_statements(ts, k, done2, errs2)
        } else if errs2.len() == 0 {
            Ok(done2)
        } else {
            Err(errs2)
        }
    }
}

/// The outcome of parsing a whole token sequence.
pub open spec fn parse_tokens(ts: Seq<Token>) -> Result<Seq<StmtV>, Seq<ParseError>> {
    parse_statements(ts, 0, Seq::empty(), Seq::empty())
}


/// The view of an expression result.
pub open spec fn expr_result(r: Result<Expression, ParseError>) -> Result<ExprV, ParseError> {
    match r {
        Ok(e) => Ok(expr_view(e)),
        Err(e) => Err(e),
    }
}

/// The view of a statement result.
pub open spec fn stmt_result(r: Result<Statement, ParseError>) -> Result<StmtV, ParseError> {
    match r {
        Ok(s) => Ok(stmt_view(s)),
        Err(e) => Err(e),
    }
}

/// Whether two tokens are equal up to the characters of the names they carry.
pub fn tokens_match(a: &Token, b: &Token) -> (r: bool)
    ensures
        r == same_token(*a, *b),
{
    match a {
        Token::Ident(x) => match b {
            Token::Ident(y) => crate::token::equals_text(x.as_str(), y.as_str()),
            _ => false,
        },
        Token::Int(v) => match b {
            Token::Int(w) => *v == *w,
            _ => false,
        },
        Token::Bool(v) => match b {
            Token::Bool(w) => *v == *w,
            _ => false,
        },
        Token::Illegal => matches!(b, Token::Illegal),
        Token::EOF => matches!(b, Token::EOF),
        Token::Assign => matches!(b, Token::Assign),
        Token::Plus => matches!(b, Token::Plus),
        Token::Comma => matches!(b, Token::Comma),
        Token::Semicolon => matches!(b, Token::Semicolon),
        Token::LParen => matches!(b, Token::LParen),
        Token::RParen => matches!(b, Token::RParen),
        Token::LBrace => matches!(b, Token::LBrace),
        Token::RBrace => matches!(b, Token::RBrace),
        Token::Bang => matches!(b, Token::Bang),
        Token::Minus => matches!(b, Token::Minus),
        Token::Slash => matches!(b, Token::Slash),
        Token::Asterisk => matches!(b, Token::Asterisk),
        Token::Lt => matches!(b, Token::Lt),
        Token::Gt => matches!(b, Token::Gt),
        Token::Eq => matches!(b, Token::Eq),
        Token::NotEq => matches!(b, Token::NotEq),
        Token::Function => matches!(b, Token::Function),
        Token::Let => matches!(b, Token::Let),
        Token::If => matches!(b, Token::If),
        Token::Else => matches!(b, Token::Else),
        Token::Return => matches!(b, Token::Return),
    }
}

impl Precedence {
    /// The place of this level in the order, weakest first.
    pub fn rank(&self) -> (r: u8)
        ensures
            r as nat == rank(*self),
    {
        match self {
            Precedence::Lowest => 0,
            Precedence::Equals => 1,
            Precedence::LessGreater => 2,
            Precedence::Sum => 3,
            Precedence::Product => 4,
            Precedence::Prefix => 5,
            Precedence::Call => 6,
        }
    }

    /// The binding strength of `tok` in infix position.
    pub fn from_token(tok: &Token) -> (r: Self)
        ensures
            r == precedence_of(*tok),
    {
        match tok {
            Token::Eq | Token::NotEq => Precedence::Equals,
            Token::Lt | Token::Gt => Precedence::LessGreater,
            Token::Plus | Token::Minus => Precedence::Sum,
            Token::Asterisk | Token::Slash => Precedence::Product,
            _ => Precedence::Lowest,
        }
    }
}

/// Builds a syntax tree from the tokens of a lexer, with one token of
/// lookahead.
pub struct Parser {
    tokens: Vec<Token>,
    pos: usize,
}

impl Parser {
    /// The tokens being parsed.
    pub closed spec fn tokens(&self) -> Seq<Token> {
        self.tokens@
    }

    /// How many tokens have been consumed.
    pub closed spec fn position(&self) -> int {
        self.pos as int
    }

    /// Well-formed: the position lies within the tokens.
    pub open spec fn wf(&self) -> bool {
        0 <= self.position() <= self.tokens().len()
    }

    /// A parser over the tokens that `lexer` yields from its position on.
    pub fn new(lexer: Lexer) -> (r: Self)
        requires
            lexer.wf(),
        ensures
            r.wf(),
            r.position() == 0,
            lexed(lexer.text(), lexer.position(), r.tokens()),
    {
        let mut lexer = lexer;
        let tokens = lexer.tokens();
        Parser { tokens, pos: 0 }
    }

    /// Consumes the next token if it is `tok`; else fails and consumes
    /// nothing.
    pub fn try_consume_token(&mut self, tok: Token) -> (r: Result<Token, ParseError>)
        requires
            old(self).wf(),
        ensures
            final(self).wf(),
            final(self).tokens() == old(self).tokens(),
            match expect(old(self).tokens(), old(self).position(), tok) {
                Ok(j) => r == Ok::<Token, ParseError>(tok) && final(self).position() == j,
                Err(e) => r == Err::<Token, ParseError>(e) && final(self).position() == old(self).position(),
            },
    {
        if self.pos < self.tokens.len() {
            if tokens_match(&self.tokens[self.pos], &tok) {
                self.pos = self.pos + 1;
                Ok(tok)
            } else {
                let found = self.tokens[self.pos].duplicate();
                Err(ParseError::ExpectedToken { expected: tok, found: Some(found) })
            }
        } else {
            Err(ParseError::ExpectedToken { expected: tok, found: None })
        }
    }

    /// Consumes the next token if it is an identifier; else fails and
    /// consumes nothing.
    pub fn try_consume_ident(&mut self) -> (r: Result<Identifier, ParseError>)
        requires
            old(self).wf(),
        ensures
            final(self).wf(),
            final(self).tokens() == old(self).tokens(),
            ({
                let ts = old(self).tokens();
                let i = old(self).position();
                if 0 <= i < ts.len() && ts[i] is Ident {
                    r == Ok::<Identifier, ParseError>(Identifier { value: ts[i]->Ident_0 })
                        && final(self).position() == i + 1
                } else {
                    r == Err::<Identifier, ParseError>(
                        ParseError::ExpectedIdentifier { found: token_at_index(ts, i) },
                    ) && final(self).position() == i
                }
            }),
    {
        if self.pos < self.tokens.len() {
            match Identifier::try_from_token(&self.tokens[self.pos]) {
                Some(ident) => {
                    self.pos = self.pos + 1;
                    Ok(ident)
                },
                None => {
                    let found = self.tokens[self.pos].duplicate();
                    Err(ParseError::ExpectedIdentifier { found: Some(found) })
                },
            }
        } else {
            Err(ParseError::ExpectedIdentifier { found: None })
        }
    }
}


impl Parser {
    /// Parses an expression whose infix operators bind more strongly than
    /// `precedence`: a term, then each such operator with its right operand,
    /// folded to the left.
    pub fn parse_expression(&mut self, precedence: Precedence) -> (r: Result<
        Expression,
        ParseError,
    >)
        requires
            old(self).wf(),
        ensures
            final(self).wf(),
            final(self).tokens() == old(self).tokens(),
            old(self).position() <= final(self).position() <= old(self).tokens().len(),
            old(self).position() < old(self).tokens().len() ==> old(self).position() < final(self).position(),
            (expr_result(r), final(self).position()) == parse_expr(
                old(self).tokens(),
                old(self).position(),
                precedence,
            ),
        decreases old(self).tokens().len() - old(self).position(), 1nat,
    {
        let ghost ts = self.tokens@;
        let ghost i = self.pos as int;
        if self.pos >= self.tokens.len() {
            return Err(ParseError::UnexpectedEof);
        }
        let tok = self.tokens[self.pos].duplicate();
        self.pos = self.pos + 1;
        let left = match tok {
            Token::Ident(name) => Expression::Identifier(Identifier { value: name }),
            Token::Int(v) => Expression::IntegerLiteral(v),
            Token::Bool(b) => Expression::Boolean(b),
            Token::Bang | Token::Minus => {
                match self.parse_expression(Precedence::Prefix) {
                    Ok(right) => Expression::Prefix { operator: tok, right: Box::new(right) },
                    Err(e) => {
                        return Err(e);
                    },
                }
            },
            Token::LParen => {
                let inner = match self.parse_expression(Precedence::Lowest) {
                    Ok(inner) => inner,
                    Err(e) => {
                        return Err(e);
                    },
                };
                match self.try_consume_token(Token::RParen) {
                    Ok(_) => inner,
                    Err(e) => {
                        return Err(e);
                    },
                }
            },
            Token::If => {
                match self.parse_conditional() {
                    Ok(e) => e,
                    Err(e) => {
                        return Err(e);
                    },
                }
            },
            _ => {
                return Err(ParseError::UnexpectedToken { found: tok });
            },
        };
        assert(parse_primary(ts, i) == (Ok::<ExprV, ParseError>(expr_view(left)), self.pos as int));
        let mut expr = left;
        while self.pos < self.tokens.len() && !matches!(self.tokens[self.pos], Token::Semicolon)
            && precedence.rank() < Precedence::from_token(&self.tokens[self.pos]).rank()
            invariant
                self.wf(),
                self.tokens@ == ts,
                ts == old(self).tokens(),
                i == old(self).position(),
                i < self.pos <= ts.len(),
                infix_loop(ts, self.pos as int, precedence, expr_view(expr)) == parse_expr(
                    ts,
                    i,
                    precedence,
                ),
            decreases ts.len() - self.pos,
        {
            match self.parse_infix_expression(expr) {
                Ok(e) => {
                    expr = e;
                },
                Err(e) => {
                    return Err(e);
                },
            }
        }
        Ok(expr)
    }

    /// Consumes the infix operator at the current position and parses its
    /// right operand at the operator's own precedence.
    pub fn parse_infix_expression(&mut self, left: Expression) -> (r: Result<
        Expression,
        ParseError,
    >)
        requires
            old(self).wf(),
            old(self).position() < old(self).tokens().len(),
        ensures
            final(self).wf(),
            final(self).tokens() == old(self).tokens(),
            old(self).position() < final(self).position() <= old(self).tokens().len(),
            ({
                let ts = old(self).tokens();
                let i = old(self).position();
                let op = ts[i];
                let (rr, k) = parse_expr(ts, i + 1, precedence_of(op));
                &&& final(self).position() == k
                &&& match rr {
                    Err(e) => r == Err::<Expression, ParseError>(e),
                    Ok(right) => r is Ok && expr_view(r->Ok_0) == ExprV::Infix(
                        Box::new(expr_view(left)),
                        op,
                        Box::new(right),
                    ),
                }
            }),
        decreases old(self).tokens().len() - old(self).position(), 0nat,
    {
        assert(self.pos < self.tokens.len());
        let operator = self.tokens[self.pos].duplicate();
        self.pos = self.pos + 1;
        let precedence = Precedence::from_token(&operator);
        match self.parse_expression(precedence) {
            Ok(right) => Ok(
                Expression::Infix { left: Box::new(left), operator, right: Box::new(right) },
            ),
            Err(e) => Err(e),
        }
    }

    /// Parses the rest of a conditional, just after `if`: a parenthesised
    /// condition, a block, and, after `else`, another block.
    fn parse_conditional(&mut self) -> (r: Result<Expression, ParseError>)
        requires
            old(self).wf(),
        ensures
            final(self).wf(),
            final(self).tokens() == old(self).tokens(),
            old(self).position() <= final(self).position() <= old(self).tokens().len(),
            (expr_result(r), final(self).position()) == parse_conditional(
                old(self).tokens(),
                old(self).position(),
            ),
        decreases old(self).tokens().len() - old(self).position(), 5nat,
    {
        let ghost ts = self.tokens@;
        let ghost i = self.pos as int;
        if let Err(e) = self.try_consume_token(Token::LParen) {
            return Err(e);
        }
        let condition = match self.parse_expression(Precedence::Lowest) {
            Ok(c) => c,
            Err(e) => {
                return Err(e);
            },
        };
        if let Err(e) = self.try_consume_token(Token::RParen) {
            return Err(e);
        }
        if let Err(e) = self.try_consume_token(Token::LBrace) {
            return Err(e);
        }
        let consequence = match self.parse_block_statement() {
            Ok(c) => c,
            Err(e) => {
                return Err(e);
            },
        };
        let has_else = self.pos < self.tokens.len() && matches!(self.tokens[self.pos], Token::Else);
        if has_else {
            self.pos = self.pos + 1;
            if let Err(e) = self.try_consume_token(Token::LBrace) {
                return Err(e);
            }
            let alternative = match self.parse_block_statement() {
                Ok(a) => a,
                Err(e) => {
                    return Err(e);
                },
            };
            Ok(
                Expression::If {
                    condition: Box::new(condition),
                    consequence: Box::new(consequence),
                    alternative: Some(Box::new(alternative)),
                },
            )
        } else {
            Ok(
                Expression::If {
                    condition: Box::new(condition),
                    consequence: Box::new(consequence),
                    alternative: None,
                },
            )
        }
    }

    /// Parses the statements of a block, just after its opening brace, up to
    /// and including the closing brace.
    pub fn parse_block_statement(&mut self) -> (r: Result<Statement, ParseError>)
        requires
            old(self).wf(),
        ensures
            final(self).wf(),
            final(self).tokens() == old(self).tokens(),
            old(self).position() <= final(self).position() <= old(self).tokens().len(),
            (stmt_result(r), final(self).position()) == parse_block(
                old(self).tokens(),
                old(self).position(),
                Seq::empty(),
            ),
        decreases old(self).tokens().len() - old(self).position(), 4nat,
    {
        let ghost ts = self.tokens@;
        let ghost i = self.pos as int;
        let mut statements: Vec<Statement> = Vec::new();
        while self.pos < self.tokens.len() && !matches!(self.tokens[self.pos], Token::RBrace)
            invariant
                self.wf(),
                self.tokens@ == ts,
                ts == old(self).tokens(),
                i == old(self).position(),
                i <= self.pos <= ts.len(),
                parse_block(ts, self.pos as int, stmts_view(statements@)) == parse_block(
                    ts,
                    i,
                    Seq::empty(),
                ),
            decreases ts.len() - self.pos,
        {
            match self.parse_statement() {
                Ok(st) => {
                    proof {
                        crate::ast::lemma_stmts_view_push(statements@, st);
                    }
                    statements.push(st);
                },
                Err(e) => {
                    return Err(e);
                },
            }
        }
        if self.pos >= self.tokens.len() {
            return Err(ParseError::ExpectedToken { expected: Token::RBrace, found: None });
        }
        self.pos = self.pos + 1;
        Ok(Statement::Block { statements })
    }

    /// Parses one statement: a `let` binding, a `return`, or an expression.
    pub fn parse_statement(&mut self) -> (r: Result<Statement, ParseError>)
        requires
            old(self).wf(),
        ensures
            final(self).wf(),
            final(self).tokens() == old(self).tokens(),
            old(self).position() <= final(self).position() <= old(self).tokens().len(),
            old(self).position() < old(self).tokens().len() ==> old(self).position() < final(self).position(),
            (stmt_result(r), final(self).position()) == parse_stmt(
                old(self).tokens(),
                old(self).position(),
            ),
        decreases old(self).tokens().len() - old(self).position(), 3nat,
    {
        if self.pos < self.tokens.len() && matches!(self.tokens[self.pos], Token::Let) {
            self.pos = self.pos + 1;
            self.parse_let_statement()
        } else if self.pos < self.tokens.len() && matches!(self.tokens[self.pos], Token::Return) {
            self.pos = self.pos + 1;
            self.parse_return_statement()
        } else {
            self.parse_expression_statement()
        }
    }

    /// Parses the rest of a `let` binding, just after `let`: a name, `=`, an
    /// expression and `;`.
    pub fn parse_let_statement(&mut self) -> (r: Result<Statement, ParseError>)
        requires
            old(self).wf(),
        ensures
            final(self).wf(),
            final(self).tokens() == old(self).tokens(),
            old(self).position() <= final(self).position() <= old(self).tokens().len(),
            (stmt_result(r), final(self).position()) == parse_let(
                old(self).tokens(),
                old(self).position(),
            ),
        decreases old(self).tokens().len() - old(self).position(), 2nat,
    {
        let ident = match self.try_consume_ident() {
            Ok(ident) => ident,
            Err(e) => {
                return Err(e);
            },
        };
        if let Err(e) = self.try_consume_token(Token::Assign) {
            return Err(e);
        }
        let value = match self.parse_expression(Precedence::Lowest) {
            Ok(v) => v,
            Err(e) => {
                return Err(e);
            },
        };
        if let Err(e) = self.try_consume_token(Token::Semicolon) {
            return Err(e);
        }
        Ok(Statement::Let { ident, value })
    }

    /// Parses the rest of a `return` statement, just after `return`: an
    /// expression and `;`.
    pub fn parse_return_statement(&mut self) -> (r: Result<Statement, ParseError>)
        requires
            old(self).wf(),
        ensures
            final(self).wf(),
            final(self).tokens() == old(self).tokens(),
            old(self).position() <= final(self).position() <= old(self).tokens().len(),
            (stmt_result(r), final(self).position()) == parse_return(
                old(self).tokens(),
                old(self).position(),
            ),
        decreases old(self).tokens().len() - old(self).position(), 2nat,
    {
        let value = match self.parse_expression(Precedence::Lowest) {
            Ok(v) => v,
            Err(e) => {
                return Err(e);
            },
        };
        if let Err(e) = self.try_consume_token(Token::Semicolon) {
            return Err(e);
        }
        Ok(Statement::Return { value })
    }

    /// Parses an expression statement; a `;` after it is taken if present.
    pub fn parse_expression_statement(&mut self) -> (r: Result<Statement, ParseError>)
        requires
            old(self).wf(),
        ensures
            final(self).wf(),
            final(self).tokens() == old(self).tokens(),
            old(self).position() <= final(self).position() <= old(self).tokens().len(),
            old(self).position() < old(self).tokens().len() ==> old(self).position() < final(self).position(),
            (stmt_result(r), final(self).position()) == parse_expr_stmt(
                old(self).tokens(),
                old(self).position(),
            ),
        decreases old(self).tokens().len() - old(self).position(), 2nat,
    {
        let value = match self.parse_expression(Precedence::Lowest) {
            Ok(v) => v,
            Err(e) => {
                return Err(e);
            },
        };
        if self.pos < self.tokens.len() && matches!(self.tokens[self.pos], Token::Semicolon) {
            self.pos = self.pos + 1;
        }
        Ok(Statement::Expression { value })
    }
}


impl Parser {
    /// Parses statements up to the end of the tokens. A failing statement
    /// is recorded and parsing goes on from where it stopped; the result is
    /// the program when no statement failed, else the errors of all that did.
    pub fn parse_program(&mut self) -> (r: Result<Program, ProgramError>)
        requires
            old(self).wf(),
        ensures
            final(self).wf(),
            final(self).tokens() == old(self).tokens(),
            final(self).position() == final(self).tokens().len(),
            match r {
                Ok(p) => parse_statements(
                    old(self).tokens(),
                    old(self).position(),
                    Seq::empty(),
                    Seq::empty(),
                ) == Ok::<Seq<StmtV>, Seq<ParseError>>(p@),
                Err(e) => parse_statements(
                    old(self).tokens(),
                    old(self).position(),
                    Seq::empty(),
                    Seq::empty(),
                ) == Err::<Seq<StmtV>, Seq<ParseError>>(e.errors@),
            },
    {
        let ghost ts = self.tokens@;
        let ghost i = self.pos as int;
        let mut program = Program::new();
        let mut errors: Vec<ParseError> = Vec::new();
        while self.pos < self.tokens.len()
            invariant
                self.wf(),
                self.tokens@ == ts,
                i <= self.pos <= ts.len(),
                parse_statements(ts, self.pos as int, program@, errors@) == parse_statements(
                    ts,
                    i,
                    Seq::empty(),
                    Seq::empty(),
                ),
            decreases ts.len() - self.pos,
        {
            match self.parse_statement() {
                Ok(statement) => program.add_statement(statement),
                Err(e) => errors.push(e),
            }
        }
        if errors.len() > 0 {
            Err(ProgramError { errors })
        } else {
            Ok(program)
        }
    }
}


/// The text of `t` in an error message, or of the end of the input.
pub open spec fn found_text(t: Option<Token>) -> Seq<char> {
    match t {
        Some(t) => render(t),
        None => "end of input"@,
    }
}

/// The message that describes an error.
pub open spec fn error_text(e: ParseError) -> Seq<char> {
    match e {
        ParseError::ExpectedToken { expected, found } => "expected "@ + render(expected) + ", got "@
            + found_text(found),
        ParseError::ExpectedIdentifier { found } => "expected an identifier, got "@ + found_text(
            found,
        ),
        ParseError::UnexpectedToken { found } => "unexpected token "@ + render(found),
        ParseError::UnexpectedEof => "unexpected end of input"@,
    }
}

fn write_found(found: &Option<Token>, out: &mut String)
    ensures
        final(out)@ == old(out)@ + found_text(*found),
{
    match found {
        Some(t) => t.write_to(out),
        None => out.append("end of input"),
    }
}

impl ParseError {
    /// A message that describes the error.
    pub fn message(&self) -> (r: String)
        ensures
            r@ == error_text(*self),
    {
        let mut out = String::new();
        match self {
            ParseError::ExpectedToken { expected, found } => {
                out.append("expected ");
                expected.write_to(&mut out);
                out.append(", got ");
                write_found(found, &mut out);
            },
            ParseError::ExpectedIdentifier { found } => {
                out.append("expected an identifier, got ");
                write_found(found, &mut out);
            },
            ParseError::UnexpectedToken { found } => {
                out.append("unexpected token ");
                found.write_to(&mut out);
            },
            ParseError::UnexpectedEof => out.append("unexpected end of input"),
        }
        assert(out@ =~= error_text(*self));
        out
    }
}

impl ProgramError {
    /// The message of each error, in order.
    pub fn messages(&self) -> (r: Vec<String>)
        ensures
            r@.len() == self.errors@.len(),
            forall|k: int| 0 <= k < r@.len() ==> #[trigger] r@[k]@ == error_text(self.errors@[k]),
    {
        let mut out: Vec<String> = Vec::new();
        let mut k: usize = 0;
        while k < self.errors.len()
            invariant
                0 <= k <= self.errors@.len(),
                out@.len() == k,
                forall|j: int| 0 <= j < k ==> #[trigger] out@[j]@ == error_text(self.errors@[j]),
            decreases self.errors.len() - k,
        {
            out.push(self.errors[k].message());
            k = k + 1;
        }
        out
    }
}


/// The expression that a lone literal or name token stands for.
pub open spec fn atom(t: Token) -> Option<ExprV> {
    match t {
        Token::Ident(x) => Some(ExprV::Ident(x@)),
        Token::Int(v) => Some(ExprV::Int(v)),
        Token::Bool(b) => Some(ExprV::Bool(b)),
        _ => None,
    }
}

/// Tokens that act as binary operators.
pub open spec fn is_infix(t: Token) -> bool {
    rank(precedence_of(t)) > 0
}

proof fn lemma_atom_text(t: Token)
    requires
        atom(t) is Some,
    ensures
        expr_text(atom(t)->0) == render(t),
{
}

/// Operators of equal strength group to the left and a stronger operator
/// takes its operands first: in `a op1 b op2 c`, where `a`, `b` and `c` are
/// names or literals, the first pair groups first unless `op2` binds more
/// strongly than `op1`; the printed form shows that grouping with
/// parentheses.
pub proof fn lemma_binary_grouping(a: Token, op1: Token, b: Token, op2: Token, c: Token)
    requires
        atom(a) is Some,
        atom(b) is Some,
        atom(c) is Some,
        is_infix(op1),
        is_infix(op2),
    ensures
        ({
            let ts = seq![a, op1, b, op2, c];
            let (x, y, z) = (atom(a)->0, atom(b)->0, atom(c)->0);
            parse_expr(ts, 0, Precedence::Lowest) == if rank(precedence_of(op2)) <= rank(
                precedence_of(op1),
            ) {
                (
                    Ok::<ExprV, ParseError>(
                        ExprV::Infix(
                            Box::new(ExprV::Infix(Box::new(x), op1, Box::new(y))),
                            op2,
                            Box::new(z),
                        ),
                    ),
                    5int,
                )
            } else {
                (
                    Ok::<ExprV, ParseError>(
                        ExprV::Infix(
                            Box::new(x),
                            op1,
                            Box::new(ExprV::Infix(Box::new(y), op2, Box::new(z))),
                        ),
                    ),
                    5int,
                )
            }
        }),
        ({
            let ts = seq![a, op1, b, op2, c];
            let (ta, t1, tb, t2, tc) = (render(a), render(op1), render(b), render(op2), render(c));
            expr_text(parse_expr(ts, 0, Precedence::Lowest).0->Ok_0) == if rank(
                precedence_of(op2),
            ) <= rank(precedence_of(op1)) {
                "("@ + ("("@ + ta + " "@ + t1 + " "@ + tb + ")"@) + " "@ + t2 + " "@ + tc + ")"@
            } else {
                "("@ + ta + " "@ + t1 + " "@ + ("("@ + tb + " "@ + t2 + " "@ + tc + ")"@) + ")"@
            }
        }),
{
    lemma_atom_text(a);
    lemma_atom_text(b);
    lemma_atom_text(c);
    let ts = seq![a, op1, b, op2, c];
    let (x, y, z) = (atom(a)->0, atom(b)->0, atom(c)->0);
    let (p1, p2) = (precedence_of(op1), precedence_of(op2));
    assert(parse_primary(ts, 0) == (Ok::<ExprV, ParseError>(x), 1int));
    assert(parse_primary(ts, 2) == (Ok::<ExprV, ParseError>(y), 3int));
    assert(parse_primary(ts, 4) == (Ok::<ExprV, ParseError>(z), 5int));
    assert(infix_loop(ts, 5, p2, z) == (Ok::<ExprV, ParseError>(z), 5int));
    assert(parse_expr(ts, 4, p2) == (Ok::<ExprV, ParseError>(z), 5int));
    if rank(p2) <= rank(p1) {
        assert(infix_loop(ts, 3, p1, y) == (Ok::<ExprV, ParseError>(y), 3int));
        assert(parse_expr(ts, 2, p1) == (Ok::<ExprV, ParseError>(y), 3int));
        let e = ExprV::Infix(Box::new(x), op1, Box::new(y));
        let e2 = ExprV::Infix(Box::new(e), op2, Box::new(z));
        assert(infix_loop(ts, 5, Precedence::Lowest, e2) == (Ok::<ExprV, ParseError>(e2), 5int));
        assert(infix_loop(ts, 3, Precedence::Lowest, e) == (Ok::<ExprV, ParseError>(e2), 5int));
        assert(infix_loop(ts, 1, Precedence::Lowest, x) == (Ok::<ExprV, ParseError>(e2), 5int));
        assert(expr_text(e) == "("@ + render(a) + " "@ + render(op1) + " "@ + render(b) + ")"@);
        assert(expr_text(e2) == "("@ + expr_text(e) + " "@ + render(op2) + " "@ + render(c) + ")"@);
    } else {
        let r = ExprV::Infix(Box::new(y), op2, Box::new(z));
        let e = ExprV::Infix(Box::new(x), op1, Box::new(r));
        assert(infix_loop(ts, 5, p1, r) == (Ok::<ExprV, ParseError>(r), 5int));
        assert(infix_loop(ts, 3, p1, y) == (Ok::<ExprV, ParseError>(r), 5int));
        assert(parse_expr(ts, 2, p1) == (Ok::<ExprV, ParseError>(r), 5int));
        assert(infix_loop(ts, 5, Precedence::Lowest, e) == (Ok::<ExprV, ParseError>(e), 5int));
        assert(infix_loop(ts, 1, Precedence::Lowest, x) == (Ok::<ExprV, ParseError>(e), 5int));
        assert(expr_text(r) == "("@ + render(b) + " "@ + render(op2) + " "@ + render(c) + ")"@);
        assert(expr_text(e) == "("@ + render(a) + " "@ + render(op1) + " "@ + expr_text(r) + ")"@);
    }
}


/// A prefix operator binds more strongly than any infix operator: in
/// `op a op2 b`, where `op` is `!` or `-` and `a`, `b` are names or
/// literals, the prefix form is the left operand of `op2`.
pub proof fn lemma_prefix_grouping(op: Token, a: Token, op2: Token, b: Token)
    requires
        op is Bang || op is Minus,
        atom(a) is Some,
        atom(b) is Some,
        is_infix(op2),
    ensures
        ({
            let ts = seq![op, a, op2, b];
            let (x, y) = (atom(a)->0, atom(b)->0);
            let e = ExprV::Infix(Box::new(ExprV::Prefix(op, Box::new(x))), op2, Box::new(y));
            &&& parse_expr(ts, 0, Precedence::Lowest) == (Ok::<ExprV, ParseError>(e), 4int)
            &&& expr_text(e) == "("@ + ("("@ + render(op) + render(a) + ")"@) + " "@ + render(op2)
                + " "@ + render(b) + ")"@
        }),
{
    lemma_atom_text(a);
    lemma_atom_text(b);
    let ts = seq![op, a, op2, b];
    let (x, y) = (atom(a)->0, atom(b)->0);
    let p2 = precedence_of(op2);
    let pre = ExprV::Prefix(op, Box::new(x));
    let e = ExprV::Infix(Box::new(pre), op2, Box::new(y));
    assert(parse_primary(ts, 1) == (Ok::<ExprV, ParseError>(x), 2int));
    assert(infix_loop(ts, 2, Precedence::Prefix, x) == (Ok::<ExprV, ParseError>(x), 2int));
    assert(parse_expr(ts, 1, Precedence::Prefix) == (Ok::<ExprV, ParseError>(x), 2int));
    assert(parse_primary(ts, 0) == (Ok::<ExprV, ParseError>(pre), 2int));
    assert(parse_primary(ts, 3) == (Ok::<ExprV, ParseError>(y), 4int));
    assert(infix_loop(ts, 4, p2, y) == (Ok::<ExprV, ParseError>(y), 4int));
    assert(parse_expr(ts, 3, p2) == (Ok::<ExprV, ParseError>(y), 4int));
    assert(infix_loop(ts, 4, Precedence::Lowest, e) == (Ok::<ExprV, ParseError>(e), 4int));
    assert(infix_loop(ts, 2, Precedence::Lowest, pre) == (Ok::<ExprV, ParseError>(e), 4int));
    assert(expr_text(pre) == "("@ + render(op) + render(a) + ")"@);
}


/// The source text `x o1 y o2 z`, with single spaces, for one-letter names.
pub open spec fn binary_text(x: char, o1: Token, y: char, o2: Token, z: char) -> Seq<char> {
    seq![x, ' '] + render(o1) + seq![' ', y, ' '] + render(o2) + seq![' ', z]
}

proof fn lemma_lex_name(s: Seq<char>, p: int, i: int, t: Token)
    requires
        0 <= p <= i < s.len(),
        skip_space(s, p) == i,
        is_letter_char(s[i]),
        i + 1 == s.len() || s[i + 1] == ' ',
    ensures
        token_end(s, p) == i + 1,
        token_at(s, p, t) <==> (t is Ident && t->Ident_0@ == seq![s[i]]),
{
    reveal_strlit("fn");
    reveal_strlit("let");
    reveal_strlit("true");
    reveal_strlit("false");
    reveal_strlit("if");
    reveal_strlit("else");
    reveal_strlit("return");
    assert(run_end(s, i + 1, false) == i + 1);
    assert(s.subrange(i, i + 1) =~= seq![s[i]]);
    assert(keyword_of(seq![s[i]]) is None);
}

proof fn lemma_lex_operator(s: Seq<char>, p: int, i: int, o: Token, t: Token)
    requires
        0 <= p <= i,
        skip_space(s, p) == i,
        is_infix(o),
        i + render(o).len() < s.len(),
        s.subrange(i, i + render(o).len()) == render(o),
        s[i + render(o).len()] == ' ',
    ensures
        token_end(s, p) == i + render(o).len(),
        token_at(s, p, t) <==> t == o,
{
    reveal_strlit("+");
    reveal_strlit("-");
    reveal_strlit("*");
    reveal_strlit("/");
    reveal_strlit("<");
    reveal_strlit(">");
    reveal_strlit("==");
    reveal_strlit("!=");
    let n = render(o).len();
    assert(s[i] == s.subrange(i, i + n)[0]);
    if n == 2 {
        assert(s[i + 1] == s.subrange(i, i + n)[1]);
    }
}

/// Grouping as seen from source text: `x o1 y o2 z`, for one-letter names
/// and any two infix operators, lexes to exactly those five tokens and
/// parses to one expression statement, which prints as `((x o1 y) o2 z)`
/// unless `o2` binds more strongly than `o1`, and else as `(x o1 (y o2 z))`.
#[verifier::rlimit(40)]
pub proof fn lemma_text_grouping(x: char, o1: Token, y: char, o2: Token, z: char, ts: Seq<Token>)
    requires
        is_letter_char(x),
        is_letter_char(y),
        is_letter_char(z),
        is_infix(o1),
        is_infix(o2),
        lexed(binary_text(x, o1, y, o2, z), 0, ts),
    ensures
        ts.len() == 5,
        atom(ts[0]) == Some(ExprV::Ident(seq![x])),
        ts[1] == o1,
        atom(ts[2]) == Some(ExprV::Ident(seq![y])),
        ts[3] == o2,
        atom(ts[4]) == Some(ExprV::Ident(seq![z])),
        parse_tokens(ts) is Ok,
        parse_tokens(ts)->Ok_0.len() == 1,
        parse_tokens(ts)->Ok_0[0] is Expr,
        ({
            let (tx, t1, ty, t2, tz) = (seq![x], render(o1), seq![y], render(o2), seq![z]);
            stmts_text(parse_tokens(ts)->Ok_0) == if rank(precedence_of(o2)) <= rank(
                precedence_of(o1),
            ) {
                "("@ + ("("@ + tx + " "@ + t1 + " "@ + ty + ")"@) + " "@ + t2 + " "@ + tz + ")"@
            } else {
                "("@ + tx + " "@ + t1 + " "@ + ("("@ + ty + " "@ + t2 + " "@ + tz + ")"@) + ")"@
            }
        }),
{
    let s = binary_text(x, o1, y, o2, z);
    let n1 = render(o1).len() as int;
    let n2 = render(o2).len() as int;
    reveal_strlit("+");
    reveal_strlit("-");
    reveal_strlit("*");
    reveal_strlit("/");
    reveal_strlit("<");
    reveal_strlit(">");
    reveal_strlit("==");
    reveal_strlit("!=");
    assert(1 <= n1 <= 2 && 1 <= n2 <= 2);
    assert(s.len() == 7 + n1 + n2);
    assert(s[0] == x && s[1] == ' ');
    assert(s.subrange(2, 2 + n1) =~= render(o1));
    assert(s[2 + n1] == ' ' && s[3 + n1] == y && s[4 + n1] == ' ');
    assert(s.subrange(5 + n1, 5 + n1 + n2) =~= render(o2));
    assert(s[5 + n1 + n2] == ' ' && s[6 + n1 + n2] == z);
    // where each token starts
    assert(skip_space(s, 0) == 0);
    assert(skip_space(s, 2) == 2);
    assert(skip_space(s, 1) == 2);
    assert(skip_space(s, 3 + n1) == 3 + n1);
    assert(skip_space(s, 2 + n1) == 3 + n1);
    assert(skip_space(s, 5 + n1) == 5 + n1);
    assert(skip_space(s, 4 + n1) == 5 + n1);
    assert(skip_space(s, 6 + n1 + n2) == 6 + n1 + n2);
    assert(skip_space(s, 5 + n1 + n2) == 6 + n1 + n2);
    lemma_lexing_ends(s, s.len() as int, Token::EOF);
    // the five tokens
    let r1 = ts.drop_first();
    let r2 = r1.drop_first();
    let r3 = r2.drop_first();
    let r4 = r3.drop_first();
    let r5 = r4.drop_first();
    assert(!token_at(s, 0, Token::EOF));
    lemma_lex_name(s, 0, 0, ts[0]);
    assert(ts.len() > 0 && lexed(s, 1, r1));
    lemma_lex_operator(s, 1, 2, o1, Token::EOF);
    assert(r1.len() > 0);
    lemma_lex_operator(s, 1, 2, o1, r1[0]);
    assert(lexed(s, 2 + n1, r2));
    lemma_lex_name(s, 2 + n1, 3 + n1, Token::EOF);
    assert(r2.len() > 0);
    lemma_lex_name(s, 2 + n1, 3 + n1, r2[0]);
    assert(lexed(s, 4 + n1, r3));
    lemma_lex_operator(s, 4 + n1, 5 + n1, o2, Token::EOF);
    assert(r3.len() > 0);
    lemma_lex_operator(s, 4 + n1, 5 + n1, o2, r3[0]);
    assert(lexed(s, 5 + n1 + n2, r4));
    lemma_lex_name(s, 5 + n1 + n2, 6 + n1 + n2, Token::EOF);
    assert(r4.len() > 0);
    lemma_lex_name(s, 5 + n1 + n2, 6 + n1 + n2, r4[0]);
    assert(lexed(s, s.len() as int, r5));
    assert(r5.len() == 0);
    assert(ts.len() == 5);
    assert(ts[1] == r1[0] && ts[2] == r2[0] && ts[3] == r3[0] && ts[4] == r4[0]);
    assert(ts =~= seq![ts[0], o1, ts[2], o2, ts[4]]);
    // parsing
    lemma_binary_grouping(ts[0], o1, ts[2], o2, ts[4]);
    let (e, k) = parse_expr(ts, 0, Precedence::Lowest);
    assert(k == 5);
    assert(parse_expr_stmt(ts, 0) == (Ok::<StmtV, ParseError>(StmtV::Expr(e->Ok_0)), 5int));
    assert(parse_stmt(ts, 0) == parse_expr_stmt(ts, 0));
    let one = Seq::<StmtV>::empty().push(StmtV::Expr(e->Ok_0));
    assert(parse_statements(ts, 5, one, Seq::empty()) == Ok::<Seq<StmtV>, Seq<ParseError>>(one));
    assert(parse_tokens(ts) == Ok::<Seq<StmtV>, Seq<ParseError>>(one));
    assert(one.drop_last() =~= Seq::<StmtV>::empty());
    assert(stmts_text(one) == stmts_text(Seq::empty()) + stmt_text(StmtV::Expr(e->Ok_0)));
    assert(stmts_text(one) =~= expr_text(e->Ok_0));
}


/// The source text `op x o2 y`, with no space after the prefix operator.
pub open spec fn prefix_text(op: Token, x: char, o2: Token, y: char) -> Seq<char> {
    render(op) + seq![x, ' '] + render(o2) + seq![' ', y]
}

/// Prefix binding as seen from source text: `-x o2 y` and `!x o2 y`, for
/// one-letter names and any infix operator, lex to exactly those four
/// tokens and parse to one expression statement that prints as
/// `((op x) o2 y)`.
#[verifier::rlimit(40)]
pub proof fn lemma_text_prefix_grouping(op: Token, x: char, o2: Token, y: char, ts: Seq<Token>)
    requires
        op is Bang || op is Minus,
        is_letter_char(x),
        is_letter_char(y),
        is_infix(o2),
        lexed(prefix_text(op, x, o2, y), 0, ts),
    ensures
        ts.len() == 4,
        ts[0] == op,
        atom(ts[1]) == Some(ExprV::Ident(seq![x])),
        ts[2] == o2,
        atom(ts[3]) == Some(ExprV::Ident(seq![y])),
        parse_tokens(ts) is Ok,
        parse_tokens(ts)->Ok_0.len() == 1,
        parse_tokens(ts)->Ok_0[0] is Expr,
        stmts_text(parse_tokens(ts)->Ok_0) == "("@ + ("("@ + render(op) + seq![x] + ")"@) + " "@
            + render(o2) + " "@ + seq![y] + ")"@,
{
    let s = prefix_text(op, x, o2, y);
    let n2 = render(o2).len() as int;
    reveal_strlit("+");
    reveal_strlit("-");
    reveal_strlit("*");
    reveal_strlit("/");
    reveal_strlit("<");
    reveal_strlit(">");
    reveal_strlit("==");
    reveal_strlit("!=");
    reveal_strlit("!");
    assert(render(op).len() == 1);
    assert(1 <= n2 <= 2);
    assert(s.len() == 5 + n2);
    assert(s[0] == render(op)[0] && s[1] == x && s[2] == ' ');
    assert(s.subrange(3, 3 + n2) =~= render(o2));
    assert(s[3 + n2] == ' ' && s[4 + n2] == y);
    assert(skip_space(s, 0) == 0);
    assert(skip_space(s, 1) == 1);
    assert(skip_space(s, 3) == 3);
    assert(skip_space(s, 2) == 3);
    assert(skip_space(s, 4 + n2) == 4 + n2);
    assert(skip_space(s, 3 + n2) == 4 + n2);
    lemma_lexing_ends(s, s.len() as int, Token::EOF);
    let r1 = ts.drop_first();
    let r2 = r1.drop_first();
    let r3 = r2.drop_first();
    let r4 = r3.drop_first();
    assert(token_end(s, 0) == 1);
    assert(!token_at(s, 0, Token::EOF));
    assert(ts.len() > 0 && token_at(s, 0, ts[0]) && lexed(s, 1, r1));
    assert(ts[0] == op);
    lemma_lex_name(s, 1, 1, Token::EOF);
    assert(r1.len() > 0);
    lemma_lex_name(s, 1, 1, r1[0]);
    assert(lexed(s, 2, r2));
    lemma_lex_operator(s, 2, 3, o2, Token::EOF);
    assert(r2.len() > 0);
    lemma_lex_operator(s, 2, 3, o2, r2[0]);
    assert(lexed(s, 3 + n2, r3));
    lemma_lex_name(s, 3 + n2, 4 + n2, Token::EOF);
    assert(r3.len() > 0);
    lemma_lex_name(s, 3 + n2, 4 + n2, r3[0]);
    assert(lexed(s, s.len() as int, r4));
    assert(r4.len() == 0);
    assert(ts.len() == 4);
    assert(ts[1] == r1[0] && ts[2] == r2[0] && ts[3] == r3[0]);
    assert(ts =~= seq![op, ts[1], o2, ts[3]]);
    lemma_prefix_grouping(op, ts[1], o2, ts[3]);
    let (e, k) = parse_expr(ts, 0, Precedence::Lowest);
    assert(k == 4);
    assert(parse_expr_stmt(ts, 0) == (Ok::<StmtV, ParseError>(StmtV::Expr(e->Ok_0)), 4int));
    assert(parse_stmt(ts, 0) == parse_expr_stmt(ts, 0));
    let one = Seq::<StmtV>::empty().push(StmtV::Expr(e->Ok_0));
    assert(parse_statements(ts, 4, one, Seq::empty()) == Ok::<Seq<StmtV>, Seq<ParseError>>(one));
    assert(parse_tokens(ts) == Ok::<Seq<StmtV>, Seq<ParseError>>(one));
    assert(one.drop_last() =~= Seq::<StmtV>::empty());
    assert(stmts_text(one) == stmts_text(Seq::empty()) + stmt_text(StmtV::Expr(e->Ok_0)));
    assert(stmts_text(one) =~= expr_text(e->Ok_0));
}

} // verus!
