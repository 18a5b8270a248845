use vstd::prelude::*;

verus! {

/// The lexical units of the language.
#[derive(Debug, PartialEq, Clone, Hash, Eq)]
pub enum Token {
    Illegal,
    EOF,
    // identifiers and literals
    Ident(String),
    Int(i64),
    Bool(bool),
    // operators
    Assign,
    Plus,
    // delimiters
    Comma,
    Semicolon,
    LParen,
    RParen,
    LBrace,
    RBrace,
    // operators
    Bang,
    Minus,
    Slash,
    Asterisk,
    Lt,
    Gt,
    Eq,
    NotEq,
    // keywords
    Function,
    Let,
    If,
    Else,
    Return,
}

/// The keyword or boolean literal spelled by `word`, if it spells one.
pub open spec fn keyword_of(word: Seq<char>) -> Option<Token> {
    if word == "fn"@ {
        Some(Token::Function)
    } else if word == "let"@ {
        Some(Token::Let)
    } else if word == "true"@ {
        Some(Token::Bool(true))
    } else if word == "false"@ {
        Some(Token::Bool(false))
    } else if word == "if"@ {
        Some(Token::If)
    } else if word == "else"@ {
        Some(Token::Else)
    } else if word == "return"@ {
        Some(Token::Return)
    } else {
        None
    }
}

/// `t` is the token that the identifier-shaped `word` stands for: its keyword
/// or boolean literal, else an identifier carrying `word` itself.
pub open spec fn classifies_as(word: Seq<char>, t: Token) -> bool {
    match keyword_of(word) {
        Some(k) => t == k,
        None => t is Ident && t->Ident_0@ == word,
    }
}

/// The decimal digit for `d`.
pub open spec fn digit_char(d: nat) -> char {
    if d == 0 { '0' }
    else if d == 1 { '1' }
    else if d == 2 { '2' }
    else if d == 3 { '3' }
    else if d == 4 { '4' }
    else if d == 5 { '5' }
    else if d == 6 { '6' }
    else if d == 7 { '7' }
    else if d == 8 { '8' }
    else { '9' }
}

/// Decimal digits of `n`, without leading zeros.
pub open spec fn nat_text(n: nat) -> Seq<char>
    decreases n,
{
    if n < 10 {
        seq![digit_char(n)]
    } else {
        nat_text(n / 10).push(digit_char(n % 10))
    }
}

/// Decimal text of `i`, with a leading `-` when negative.
pub open spec fn int_text(i: int) -> Seq<char> {
    if i < 0 {
        seq!['-'] + nat_text((-i) as nat)
    } else {
        nat_text(i as nat)
    }
}

/// The lexeme of a token, as the printer writes it.
pub open spec fn render(t: Token) -> Seq<char> {
    match t {
        Token::Illegal => "ILLEGAL"@,
        Token::EOF => "EOF"@,
        Token::Ident(s) => s@,
        Token::Int(v) => int_text(v as int),
        Token::Bool(b) => if b { "true"@ } else { "false"@ },
        Token::Assign => "="@,
        Token::Plus => "+"@,
        Token::Comma => ","@,
        Token::Semicolon => ";"@,
        Token::LParen => "("@,
        Token::RParen => ")"@,
        Token::LBrace => "{"@,
        Token::RBrace => "}"@,
        Token::Bang => "!"@,
        Token::Minus => "-"@,
        Token::Slash => "/"@,
        Token::Asterisk => "*"@,
        Token::Lt => "<"@,
        Token::Gt => ">"@,
        Token::Eq => "=="@,
        Token::NotEq => "!="@,
        Token::Function => "fn"@,
        Token::Let => "let"@,
        Token::If => "if"@,
        Token::Else => "else"@,
        Token::Return => "return"@,
    }
}

fn digit_str(d: u64) -> (r: &'static str)
    requires
        d < 10,
    ensures
        r@ == seq![digit_char(d as nat)],
{
    let digits = "0123456789";
    proof {
        reveal_strlit("0123456789");
    }
    let r = digits.substring_char(d as usize, d as usize + 1);
    assert(r@ =~= seq![digit_char(d as nat)]);
    r
}

/// Appends the decimal digits of `n` to `out`.
pub fn push_nat_text(out: &mut String, n: u64)
    ensures
        final(out)@ == old(out)@ + nat_text(n as nat),
    decreases n,
{
    if n >= 10 {
        push_nat_text(out, n / 10);
    }
    out.append(digit_str(n % 10));
    proof {
        if n >= 10 {
            assert(nat_text(n as nat) == nat_text((n / 10) as nat).push(digit_char((n % 10) as nat)));
        }
    }
}

/// Appends the decimal text of `v` to `out`.
pub fn push_int_text(out: &mut String, v: i64)
    ensures
        final(out)@ == old(out)@ + int_text(v as int),
{
    if v < 0 {
        let ghost before = out@;
        out.append("-");
        proof {
            reveal_strlit("-");
        }
        let m: u64 = (-(v as i128)) as u64;
        push_nat_text(out, m);
        assert(out@ =~= before + int_text(v as int));
    } else {
        push_nat_text(out, v as u64);
    }
}

impl Token {
    /// A copy of this token, equal to it.
    pub fn duplicate(&self) -> (r: Token)
        ensures
            r == *self,
    {
        match self {
            Token::Illegal => Token::Illegal,
            Token::EOF => Token::EOF,
            Token::Ident(s) => Token::Ident(s.clone()),
            Token::Int(v) => Token::Int(*v),
            Token::Bool(b) => Token::Bool(*b),
            Token::Assign => Token::Assign,
            Token::Plus => Token::Plus,
            Token::Comma => Token::Comma,
            Token::Semicolon => Token::Semicolon,
            Token::LParen => Token::LParen,
            Token::RParen => Token::RParen,
            Token::LBrace => Token::LBrace,
            Token::RBrace => Token::RBrace,
            Token::Bang => Token::Bang,
            Token::Minus => Token::Minus,
            Token::Slash => Token::Slash,
            Token::Asterisk => Token::Asterisk,
            Token::Lt => Token::Lt,
            Token::Gt => Token::Gt,
            Token::Eq => Token::Eq,
            Token::NotEq => Token::NotEq,
            Token::Function => Token::Function,
            Token::Let => Token::Let,
            Token::If => Token::If,
            Token::Else => Token::Else,
            Token::Return => Token::Return,
        }
    }

    /// Appends the lexeme of this token to `out`.
    pub fn write_to(&self, out: &mut String)
        ensures
            final(out)@ == old(out)@ + render(*self),
    {
        match self {
            Token::Illegal => out.append("ILLEGAL"),
            Token::EOF => out.append("EOF"),
            Token::Ident(s) => out.append(s.as_str()),
            Token::Int(v) => push_int_text(out, *v),
            Token::Bool(b) => if *b { out.append("true") } else { out.append("false") },
            Token::Assign => out.append("="),
            Token::Plus => out.append("+"),
            Token::Comma => out.append(","),
            Token::Semicolon => out.append(";"),
            Token::LParen => out.append("("),
            Token::RParen => out.append(")"),
            Token::LBrace => out.append("{"),
            Token::RBrace => out.append("}"),
            Token::Bang => out.append("!"),
            Token::Minus => out.append("-"),
            Token::Slash => out.append("/"),
            Token::Asterisk => out.append("*"),
            Token::Lt => out.append("<"),
            Token::Gt => out.append(">"),
            Token::Eq => out.append("=="),
            Token::NotEq => out.append("!="),
            Token::Function => out.append("fn"),
            Token::Let => out.append("let"),
            Token::If => out.append("if"),
            Token::Else => out.append("else"),
            Token::Return => out.append("return"),
        }
    }

    /// The lexeme of this token.
    pub fn to_string(&self) -> (r: String)
        ensures
            r@ == render(*self),
    {
        let mut out = String::new();
        self.write_to(&mut out);
        assert(out@ =~= render(*self));
        out
    }

    /// Classifies an identifier-shaped word: a keyword or boolean literal
    /// when it spells one, else an identifier carrying the word.
    pub fn from_ident(ident: String) -> (r: Token)
        ensures
            classifies_as(ident@, r),
    {
        let s = ident.as_str();
        proof {
            reveal_strlit("fn");
            reveal_strlit("let");
            reveal_strlit("true");
            reveal_strlit("false");
            reveal_strlit("if");
            reveal_strlit("else");
            reveal_strlit("return");
        }
        if equals_text(s, "fn") {
            Token::Function
        } else if equals_text(s, "let") {
            Token::Let
        } else if equals_text(s, "true") {
            Token::Bool(true)
        } else if equals_text(s, "false") {
            Token::Bool(false)
        } else if equals_text(s, "if") {
            Token::If
        } else if equals_text(s, "else") {
            Token::Else
        } else if equals_text(s, "return") {
            Token::Return
        } else {
            Token::Ident(ident)
        }
    }
}

/// Whether two strings hold the same characters.
pub fn equals_text(a: &str, b: &str) -> (r: bool)
    ensures
        r == (a@ == b@),
{
    let n = a.unicode_len();
    if n != b.unicode_len() {
        return false;
    }
    let mut i: usize = 0;
    while i < n
        invariant
            n == a@.len(),
            n == b@.len(),
            0 <= i <= n,
            a@.subrange(0, i as int) == b@.subrange(0, i as int),
        decreases n - i,
    {
        if a.get_char(i) != b.get_char(i) {
            return false;
        }
        assert(a@.subrange(0, i + 1) =~= a@.subrange(0, i as int).push(a@[i as int]));
        assert(b@.subrange(0, i + 1) =~= b@.subrange(0, i as int).push(b@[i as int]));
        i = i + 1;
    }
    assert(a@ =~= a@.subrange(0, n as int));
    assert(b@ =~= b@.subrange(0, n as int));
    true
}

} // verus!
