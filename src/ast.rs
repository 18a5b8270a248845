use vstd::prelude::*;

use crate::token::{Token, int_text, push_int_text, render};

verus! {

/// A name, as it stands in a `let` binding or an expression.
#[derive(Debug, Clone, PartialEq)]
pub struct Identifier {
    pub value: String,
}

/// Statements: bindings, returns, bare expressions and blocks.
#[derive(Debug, PartialEq)]
pub enum Statement {
    Let { ident: Identifier, value: Expression },
    Return { value: Expression },
    Expression { value: Expression },
    Block { statements: Vec<Statement> },
}

/// Expressions. Each node owns its children.
#[derive(Debug, PartialEq)]
pub enum Expression {
    Identifier(Identifier),
    IntegerLiteral(i64),
    Boolean(bool),
    Prefix { operator: Token, right: Box<Expression> },
    Infix { left: Box<Expression>, operator: Token, right: Box<Expression> },
    If {
        condition: Box<Expression>,
        consequence: Box<Statement>,
        alternative: Option<Box<Statement>>,
    },
}

/// A parsed program: its top-level statements, in order.
#[derive(Debug)]
pub struct Program {
    pub statements: Vec<Statement>,
}

/// The mathematical shape of an expression: names as character sequences.
pub enum ExprV {
    Ident(Seq<char>),
    Int(i64),
    Bool(bool),
    Prefix(Token, Box<ExprV>),
    Infix(Box<ExprV>, Token, Box<ExprV>),
    If(Box<ExprV>, Box<StmtV>, Option<Box<StmtV>>),
}

/// The mathematical shape of a statement: blocks as sequences.
pub enum StmtV {
    Let(Seq<char>, ExprV),
    Return(ExprV),
    Expr(ExprV),
    Block(Seq<StmtV>),
}

pub open spec fn expr_view(e: Expression) -> ExprV
    decreases e,
{
    match e {
        Expression::Identifier(id) => ExprV::Ident(id.value@),
        Expression::IntegerLiteral(v) => ExprV::Int(v),
        Expression::Boolean(b) => ExprV::Bool(b),
        Expression::Prefix { operator, right } => ExprV::Prefix(operator, Box::new(expr_view(*right))),
        Expression::Infix { left, operator, right } => ExprV::Infix(
            Box::new(expr_view(*left)),
            operator,
            Box::new(expr_view(*right)),
        ),
        Expression::If { condition, consequence, alternative } => ExprV::If(
            Box::new(expr_view(*condition)),
            Box::new(stmt_view(*consequence)),
            match alternative {
                Some(a) => Some(Box::new(stmt_view(*a))),
                None => None,
            },
        ),
    }
}

pub open spec fn stmt_view(s: Statement) -> StmtV
    decreases s,
{
    match s {
        Statement::Let { ident, value } => StmtV::Let(ident.value@, expr_view(value)),
        Statement::Return { value } => StmtV::Return(expr_view(value)),
        Statement::Expression { value } => StmtV::Expr(expr_view(value)),
        Statement::Block { statements } => StmtV::Block(stmts_view(statements@)),
    }
}

pub open spec fn stmts_view(ss: Seq<Statement>) -> Seq<StmtV>
    decreases ss,
{
    if ss.len() == 0 {
        Seq::empty()
    } else {
        stmts_view(ss.drop_last()).push(stmt_view(ss.last()))
    }
}

pub(crate) proof fn lemma_stmts_view_push(ss: Seq<Statement>, x: Statement)
    ensures
        stmts_view(ss.push(x)) == stmts_view(ss).push(stmt_view(x)),
{
    assert(ss.push(x).drop_last() =~= ss);
}

/// A copy of `e`, of the same shape.
pub fn copy_expression(e: &Expression) -> (r: Expression)
    ensures
        expr_view(r) == expr_view(*e),
    decreases e,
{
    match e {
        Expression::Identifier(id) => Expression::Identifier(Identifier { value: id.value.clone() }),
        Expression::IntegerLiteral(v) => Expression::IntegerLiteral(*v),
        Expression::Boolean(b) => Expression::Boolean(*b),
        Expression::Prefix { operator, right } => Expression::Prefix {
            operator: operator.duplicate(),
            right: Box::new(copy_expression(right)),
        },
        Expression::Infix { left, operator, right } => Expression::Infix {
            left: Box::new(copy_expression(left)),
            operator: operator.duplicate(),
            right: Box::new(copy_expression(right)),
        },
        Expression::If { condition, consequence, alternative } => {
            let alt = match alternative {
                Some(a) => Some(Box::new(copy_statement(a))),
                None => None,
            };
            Expression::If {
                condition: Box::new(copy_expression(condition)),
                consequence: Box::new(copy_statement(consequence)),
                alternative: alt,
            }
        },
    }
}

/// A copy of `s`, of the same shape.
pub fn copy_statement(s: &Statement) -> (r: Statement)
    ensures
        stmt_view(r) == stmt_view(*s),
    decreases s,
{
    match s {
        Statement::Let { ident, value } => Statement::Let {
            ident: Identifier { value: ident.value.clone() },
            value: copy_expression(value),
        },
        Statement::Return { value } => Statement::Return { value: copy_expression(value) },
        Statement::Expression { value } => Statement::Expression { value: copy_expression(value) },
        Statement::Block { statements } => {
            let mut out: Vec<Statement> = Vec::new();
            let mut i: usize = 0;
            while i < statements.len()
                invariant
                    *s == (Statement::Block { statements: *statements }),
                    0 <= i <= statements.len(),
                    stmts_view(out@) == stmts_view(statements@.subrange(0, i as int)),
                decreases statements.len() - i,
            {
                proof {
                    let v: Vec<Statement> = *statements;
                    vstd::std_specs::vec::axiom_vec_index_decreases(v, i as int);
                    assert(v == s->Block_statements);
                    assert(decreases_to!(*s => s->Block_statements));
                    assert(decreases_to!(*s => v[i as int]));
                }
                let c = copy_statement(&statements[i]);
                proof {
                    lemma_stmts_view_push(out@, c);
                    lemma_stmts_view_push(statements@.subrange(0, i as int), statements@[i as int]);
                    assert(statements@.subrange(0, i as int).push(statements@[i as int])
                        =~= statements@.subrange(0, i + 1));
                }
                out.push(c);
                i = i + 1;
            }
            assert(statements@.subrange(0, i as int) =~= statements@);
            Statement::Block { statements: out }
        },
    }
}

impl Clone for Expression {
    fn clone(&self) -> Self {
        copy_expression(self)
    }
}

impl Clone for Statement {
    fn clone(&self) -> Self {
        copy_statement(self)
    }
}

/// Canonical text of an expression: prefix and infix forms fully
/// parenthesised.
pub open spec fn expr_text(e: ExprV) -> Seq<char>
    decreases e,
{
    match e {
        ExprV::Ident(x) => x,
        ExprV::Int(v) => int_text(v as int),
        ExprV::Bool(b) => if b { "true"@ } else { "false"@ },
        ExprV::Prefix(op, r) => "("@ + render(op) + expr_text(*r) + ")"@,
        ExprV::Infix(l, op, r) => "("@ + expr_text(*l) + " "@ + render(op) + " "@ + expr_text(*r) + ")"@,
        ExprV::If(c, cons, alt) => "if "@ + expr_text(*c) + " "@ + stmt_text(*cons) + match alt {
            Some(a) => " else "@ + stmt_text(*a),
            None => Seq::empty(),
        },
    }
}

/// Canonical text of a statement.
pub open spec fn stmt_text(s: StmtV) -> Seq<char>
    decreases s,
{
    match s {
        StmtV::Let(x, v) => "let "@ + x + " = "@ + expr_text(v) + ";"@,
        StmtV::Return(v) => "return "@ + expr_text(v) + ";"@,
        StmtV::Expr(v) => expr_text(v),
        StmtV::Block(ss) => "{"@ + stmts_text(ss) + "}"@,
    }
}

/// Canonical text of statements, one after another with no separator.
pub open spec fn stmts_text(ss: Seq<StmtV>) -> Seq<char>
    decreases ss,
{
    if ss.len() == 0 {
        Seq::empty()
    } else {
        stmts_text(ss.drop_last()) + stmt_text(ss.last())
    }
}

proof fn lemma_stmts_text_push(ss: Seq<StmtV>, x: StmtV)
    ensures
        stmts_text(ss.push(x)) == stmts_text(ss) + stmt_text(x),
{
    assert(ss.push(x).drop_last() =~= ss);
}

/// Appends the canonical text of `e` to `out`.
pub fn write_expression(e: &Expression, out: &mut String)
    ensures
        final(out)@ == old(out)@ + expr_text(expr_view(*e)),
    decreases e,
{
    let ghost start = out@;
    match e {
        Expression::Identifier(id) => out.append(id.value.as_str()),
        Expression::IntegerLiteral(v) => push_int_text(out, *v),
        Expression::Boolean(b) => if *b { out.append("true") } else { out.append("false") },
        Expression::Prefix { operator, right } => {
            out.append("(");
            operator.write_to(out);
            write_expression(right, out);
            out.append(")");
        },
        Expression::Infix { left, operator, right } => {
            out.append("(");
            write_expression(left, out);
            out.append(" ");
            operator.write_to(out);
            out.append(" ");
            write_expression(right, out);
            out.append(")");
        },
        Expression::If { condition, consequence, alternative } => {
            out.append("if ");
            write_expression(condition, out);
            out.append(" ");
            write_statement(consequence, out);
            let ghost mid = out@;
            match alternative {
                Some(a) => {
                    out.append(" else ");
                    write_statement(a, out);
                },
                None => {
                    assert(out@ =~= mid + Seq::<char>::empty());
                },
            }
        },
    }
    assert(out@ =~= start + expr_text(expr_view(*e)));
}

/// Appends the canonical text of `s` to `out`.
pub fn write_statement(s: &Statement, out: &mut String)
    ensures
        final(out)@ == old(out)@ + stmt_text(stmt_view(*s)),
    decreases s,
{
    let ghost start = out@;
    match s {
        Statement::Let { ident, value } => {
            out.append("let ");
            out.append(ident.value.as_str());
            out.append(" = ");
            write_expression(value, out);
            out.append(";");
        },
        Statement::Return { value } => {
            out.append("return ");
            write_expression(value, out);
            out.append(";");
        },
        Statement::Expression { value } => {
            write_expression(value, out);
        },
        Statement::Block { statements } => {
            out.append("{");
            let ghost open_text = out@;
            let mut i: usize = 0;
            while i < statements.len()
                invariant
                    *s == (Statement::Block { statements: *statements }),
                    0 <= i <= statements.len(),
                    out@ == open_text + stmts_text(stmts_view(statements@.subrange(0, i as int))),
                decreases statements.len() - i,
            {
                proof {
                    let v: Vec<Statement> = *statements;
                    vstd::std_specs::vec::axiom_vec_index_decreases(v, i as int);
                    assert(decreases_to!(*s => s->Block_statements));
                }
                write_statement(&statements[i], out);
                proof {
                    let pre = statements@.subrange(0, i as int);
                    lemma_stmts_view_push(pre, statements@[i as int]);
                    lemma_stmts_text_push(stmts_view(pre), stmt_view(statements@[i as int]));
                    assert(pre.push(statements@[i as int]) =~= statements@.subrange(0, i + 1));
                }
                i = i + 1;
            }
            assert(statements@.subrange(0, i as int) =~= statements@);
            out.append("}");
        },
    }
    assert(out@ =~= start + stmt_text(stmt_view(*s)));
}

impl Expression {
    /// The canonical text of this expression.
    pub fn to_string(&self) -> (r: String)
        ensures
            r@ == expr_text(expr_view(*self)),
    {
        let mut out = String::new();
        write_expression(self, &mut out);
        assert(out@ =~= expr_text(expr_view(*self)));
        out
    }
}

impl Statement {
    /// The canonical text of this statement.
    pub fn to_string(&self) -> (r: String)
        ensures
            r@ == stmt_text(stmt_view(*self)),
    {
        let mut out = String::new();
        write_statement(self, &mut out);
        assert(out@ =~= stmt_text(stmt_view(*self)));
        out
    }
}

impl Identifier {
    /// The identifier that an `Ident` token carries; `None` for any other
    /// token.
    pub fn try_from_token(value: &Token) -> (r: Option<Identifier>)
        ensures
            match *value {
                Token::Ident(name) => r == Some(Identifier { value: name }),
                _ => r is None,
            },
    {
        match value {
            Token::Ident(name) => Some(Identifier { value: name.clone() }),
            _ => None,
        }
    }
}

impl View for Program {
    type V = Seq<StmtV>;

    open spec fn view(&self) -> Seq<StmtV> {
        stmts_view(self.statements@)
    }
}

impl Program {
    /// A program with no statements.
    pub fn new() -> (r: Self)
        ensures
            r@ == Seq::<StmtV>::empty(),
    {
        Program { statements: Vec::new() }
    }

    /// Appends a statement at the end.
    pub fn add_statement(&mut self, statement: Statement)
        ensures
            final(self).statements@ == old(self).statements@.push(statement),
            final(self)@ == old(self)@.push(stmt_view(statement)),
    {
        proof {
            lemma_stmts_view_push(self.statements@, statement);
        }
        self.statements.push(statement);
    }

    /// The canonical text of the program: its statements one after another.
    pub fn to_string(&self) -> (r: String)
        ensures
            r@ == stmts_text(self@),
    {
        let mut out = String::new();
        let mut i: usize = 0;
        while i < self.statements.len()
            invariant
                0 <= i <= self.statements.len(),
                out@ == stmts_text(stmts_view(self.statements@.subrange(0, i as int))),
            decreases self.statements.len() - i,
        {
            write_statement(&self.statements[i], &mut out);
            proof {
                let pre = self.statements@.subrange(0, i as int);
                lemma_stmts_view_push(pre, self.statements@[i as int]);
                lemma_stmts_text_push(stmts_view(pre), stmt_view(self.statements@[i as int]));
                assert(pre.push(self.statements@[i as int]) =~= self.statements@.subrange(0, i + 1));
            }
            i = i + 1;
        }
        assert(self.statements@.subrange(0, i as int) =~= self.statements@);
        out
    }
}

} // verus!
