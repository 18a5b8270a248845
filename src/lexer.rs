use vstd::prelude::*;

use crate::token::{Token, classifies_as};

verus! {

/// Unicode white space, as `char::is_whitespace` reads it.
pub open spec fn is_space(c: char) -> bool {
    c == ' ' || ('\t' <= c && c <= '\r') || c == '\u{85}' || c == '\u{a0}' || c == '\u{1680}'
        || ('\u{2000}' <= c && c <= '\u{200a}') || c == '\u{2028}' || c == '\u{2029}'
        || c == '\u{202f}' || c == '\u{205f}' || c == '\u{3000}'
}

/// Characters that make up identifiers and keywords.
pub open spec fn is_letter_char(c: char) -> bool {
    ('a' <= c && c <= 'z') || ('A' <= c && c <= 'Z') || c == '_'
}

/// Decimal digits.
pub open spec fn is_digit_char(c: char) -> bool {
    '0' <= c && c <= '9'
}

/// The first position at or after `pos` that does not hold white space.
pub open spec fn skip_space(s: Seq<char>, pos: int) -> int
    decreases s.len() - pos,
{
    if 0 <= pos < s.len() && is_space(s[pos]) {
        skip_space(s, pos + 1)
    } else {
        pos
    }
}

/// The end of the run of letters (or of digits) that starts at `pos`.
pub open spec fn run_end(s: Seq<char>, pos: int, digits: bool) -> int
    decreases s.len() - pos,
{
    if 0 <= pos < s.len() && (if digits { is_digit_char(s[pos]) } else { is_letter_char(s[pos]) }) {
        run_end(s, pos + 1, digits)
    } else {
        pos
    }
}

/// The value of a string of decimal digits.
pub open spec fn digits_value(d: Seq<char>) -> int
    decreases d.len(),
{
    if d.len() == 0 {
        0
    } else {
        digits_value(d.drop_last()) * 10 + ((d.last() as u32) as int - 48)
    }
}

/// The token of an operator or delimiter character; `eq_next` tells whether
/// an `=` follows it.
pub open spec fn symbol_token(c: char, eq_next: bool) -> Token {
    if c == '=' {
        if eq_next { Token::Eq } else { Token::Assign }
    } else if c == '!' {
        if eq_next { Token::NotEq } else { Token::Bang }
    } else if c == '+' {
        Token::Plus
    } else if c == ',' {
        Token::Comma
    } else if c == ';' {
        Token::Semicolon
    } else if c == '(' {
        Token::LParen
    } else if c == ')' {
        Token::RParen
    } else if c == '{' {
        Token::LBrace
    } else if c == '}' {
        Token::RBrace
    } else if c == '-' {
        Token::Minus
    } else if c == '/' {
        Token::Slash
    } else if c == '*' {
        Token::Asterisk
    } else if c == '<' {
        Token::Lt
    } else if c == '>' {
        Token::Gt
    } else {
        Token::Illegal
    }
}

/// Whether an `=` stands at `pos`.
pub open spec fn eq_at(s: Seq<char>, pos: int) -> bool {
    0 <= pos < s.len() && s[pos] == '='
}

/// Where the scan of the token that starts at or after `pos` ends.
pub open spec fn token_end(s: Seq<char>, pos: int) -> int {
    let st = skip_space(s, pos);
    if st >= s.len() {
        st
    } else if is_letter_char(s[st]) {
        run_end(s, st + 1, false)
    } else if is_digit_char(s[st]) {
        run_end(s, st + 1, true)
    } else if (s[st] == '=' || s[st] == '!') && eq_at(s, st + 1) {
        st + 2
    } else {
        st + 1
    }
}

/// `t` is the token scanned from `pos` on.
pub open spec fn token_at(s: Seq<char>, pos: int, t: Token) -> bool {
    let st = skip_space(s, pos);
    let end = token_end(s, pos);
    if st >= s.len() {
        t is EOF
    } else if is_letter_char(s[st]) {
        classifies_as(s.subrange(st, end), t)
    } else if is_digit_char(s[st]) {
        let v = digits_value(s.subrange(st, end));
        if v <= i64::MAX {
            t == Token::Int(v as i64)
        } else {
            t is Illegal
        }
    } else {
        t == symbol_token(s[st], eq_at(s, st + 1))
    }
}

/// `toks` are the tokens scanned from `pos` on, up to the first `EOF`, which
/// is not among them.
pub open spec fn lexed(s: Seq<char>, pos: int, toks: Seq<Token>) -> bool
    decreases s.len() - pos,
{
    let end = token_end(s, pos);
    if toks.len() == 0 {
        token_at(s, pos, Token::EOF)
    } else if pos < end <= s.len() {
        token_at(s, pos, toks[0]) && !(toks[0] is EOF) && lexed(s, end, toks.drop_first())
    } else {
        false
    }
}

proof fn lemma_skip_space(s: Seq<char>, pos: int)
    requires
        0 <= pos <= s.len(),
    ensures
        pos <= skip_space(s, pos) <= s.len(),
        skip_space(s, pos) < s.len() ==> !is_space(s[skip_space(s, pos)]),
    decreases s.len() - pos,
{
    if pos < s.len() && is_space(s[pos]) {
        lemma_skip_space(s, pos + 1);
    }
}

proof fn lemma_run_end(s: Seq<char>, pos: int, digits: bool)
    requires
        0 <= pos <= s.len(),
    ensures
        pos <= run_end(s, pos, digits) <= s.len(),
    decreases s.len() - pos,
{
    if pos < s.len() && (if digits { is_digit_char(s[pos]) } else { is_letter_char(s[pos]) }) {
        lemma_run_end(s, pos + 1, digits);
    }
}

/// One scanning step: from a position inside the input the next token ends
/// further on, and within the input; `EOF` comes exactly when only white
/// space is left, and then the position is the end of the input, where the
/// lexer yields `EOF` again and stays put.
pub proof fn lemma_lexing_ends(s: Seq<char>, pos: int, t: Token)
    requires
        0 <= pos <= s.len(),
    ensures
        pos <= token_end(s, pos) <= s.len(),
        pos < s.len() ==> pos < token_end(s, pos),
        pos == s.len() ==> token_end(s, pos) == pos && token_at(s, pos, Token::EOF),
        token_at(s, pos, t) && t is EOF ==> token_end(s, pos) == s.len(),
{
    lemma_skip_space(s, pos);
    let st = skip_space(s, pos);
    if st < s.len() {
        lemma_run_end(s, st + 1, false);
        lemma_run_end(s, st + 1, true);
    }
}

/// The position after `k` tokens have been scanned from `pos`.
pub open spec fn position_after(s: Seq<char>, pos: int, k: nat) -> int
    decreases k,
{
    if k == 0 {
        pos
    } else {
        token_end(s, position_after(s, pos, (k - 1) as nat))
    }
}

/// Scanning ends: from `pos`, after as many tokens as there are characters
/// left, the lexer stands at the end of the input and yields `EOF` there
/// for good; so on an input of `n` characters one of the first `n + 1`
/// tokens is `EOF`, and after an `EOF` only `EOF` comes.
pub proof fn lemma_lexing_terminates(s: Seq<char>, pos: int, k: nat)
    requires
        0 <= pos <= s.len(),
        k >= s.len() - pos,
    ensures
        position_after(s, pos, k) == s.len(),
        token_at(s, position_after(s, pos, k), Token::EOF),
        token_end(s, position_after(s, pos, k)) == s.len(),
{
    lemma_position_after_bounds(s, pos, k);
    lemma_lexing_ends(s, s.len() as int, Token::EOF);
}

proof fn lemma_position_after_bounds(s: Seq<char>, pos: int, k: nat)
    requires
        0 <= pos <= s.len(),
    ensures
        position_after(s, pos, k) <= s.len(),
        position_after(s, pos, k) >= pos + k || position_after(s, pos, k) == s.len(),
    decreases k,
{
    if k > 0 {
        let prev = position_after(s, pos, (k - 1) as nat);
        lemma_position_after_bounds(s, pos, (k - 1) as nat);
        lemma_lexing_ends(s, prev, Token::EOF);
    }
}

proof fn lemma_digits_value_nonneg(d: Seq<char>)
    requires
        forall|i: int| 0 <= i < d.len() ==> is_digit_char(#[trigger] d[i]),
    ensures
        digits_value(d) >= 0,
    decreases d.len(),
{
    if d.len() > 0 {
        lemma_digits_value_nonneg(d.drop_last());
        assert(is_digit_char(d[d.len() - 1]));
    }
}

/// Relies on `String::push`: appends `c` to the end of `s`.
#[verifier::external_body]
fn push_char(s: &mut String, c: char)
    ensures
        final(s)@ == old(s)@.push(c),
{
    s.push(c);
}

/// Reads source text into tokens, one at a time.
pub struct Lexer<'a> {
    input: &'a str,
    len: usize,
    pos: usize,
}

impl<'a> Lexer<'a> {
    /// The characters of the source text.
    pub closed spec fn text(&self) -> Seq<char> {
        self.input@
    }

    /// How many characters have been read.
    pub closed spec fn position(&self) -> int {
        self.pos as int
    }

    /// The cached length agrees with the text.
    pub closed spec fn length_known(&self) -> bool {
        self.len == self.input@.len()
    }

    /// Well-formed: the position lies within the text.
    pub open spec fn wf(&self) -> bool {
        &&& self.length_known()
        &&& 0 <= self.position() <= self.text().len()
    }

    /// A lexer at the start of `input`.
    pub fn new(input: &'a str) -> (r: Self)
        ensures
            r.wf(),
            r.text() == input@,
            r.position() == 0,
    {
        Lexer { input, len: input.unicode_len(), pos: 0 }
    }

    /// Reads the next character; NUL once the input is used up.
    pub fn read_char(&mut self) -> (c: char)
        requires
            old(self).wf(),
        ensures
            final(self).wf(),
            final(self).text() == old(self).text(),
            old(self).position() < old(self).text().len() ==> c == old(self).text()[old(self).position()]
                && final(self).position() == old(self).position() + 1,
            old(self).position() >= old(self).text().len() ==> c == '\0'
                && final(self).position() == old(self).position(),
    {
        if self.pos < self.len {
            let c = self.input.get_char(self.pos);
            self.pos = self.pos + 1;
            c
        } else {
            '\0'
        }
    }

    /// The next character, without reading it.
    pub fn peek_char(&self) -> (r: Option<char>)
        requires
            self.wf(),
        ensures
            self.position() < self.text().len() ==> r == Some(self.text()[self.position()]),
            self.position() >= self.text().len() ==> r is None,
    {
        if self.pos < self.len {
            Some(self.input.get_char(self.pos))
        } else {
            None
        }
    }

    /// Moves past the white space at the current position.
    pub fn skip_whitespace(&mut self)
        requires
            old(self).wf(),
        ensures
            final(self).wf(),
            final(self).text() == old(self).text(),
            final(self).position() == skip_space(old(self).text(), old(self).position()),
    {
        while self.pos < self.len && Self::is_whitespace(self.input.get_char(self.pos))
            invariant
                self.wf(),
                self.text() == old(self).text(),
                skip_space(self.text(), self.position()) == skip_space(
                    old(self).text(),
                    old(self).position(),
                ),
            decreases self.len - self.pos,
        {
            self.pos = self.pos + 1;
        }
    }

    /// Reads an identifier or keyword that starts with `c`, followed by the
    /// run of letters at the current position.
    pub fn read_identifier(&mut self, c: char) -> (r: Option<Token>)
        requires
            old(self).wf(),
        ensures
            final(self).wf(),
            final(self).text() == old(self).text(),
            final(self).position() == run_end(old(self).text(), old(self).position(), false),
            r is Some,
            classifies_as(
                seq![c] + old(self).text().subrange(old(self).position(), final(self).position()),
                r->0,
            ),
    {
        let start = self.pos;
        while self.pos < self.len && Self::is_letter(self.input.get_char(self.pos))
            invariant
                self.wf(),
                self.text() == old(self).text(),
                old(self).position() <= self.position(),
                run_end(self.text(), self.position(), false) == run_end(
                    old(self).text(),
                    old(self).position(),
                    false,
                ),
            decreases self.len - self.pos,
        {
            self.pos = self.pos + 1;
        }
        let mut word = String::new();
        push_char(&mut word, c);
        word.append(self.input.substring_char(start, self.pos));
        assert(word@ =~= seq![c] + old(self).text().subrange(start as int, self.pos as int));
        Some(Token::from_ident(word))
    }

    /// Reads a number whose first digit is `c`, followed by the run of
    /// digits at the current position: its value, or `None` where it does
    /// not fit in an `i64`.
    pub fn read_number(&mut self, c: char) -> (r: Option<Token>)
        requires
            old(self).wf(),
            is_digit_char(c),
        ensures
            final(self).wf(),
            final(self).text() == old(self).text(),
            final(self).position() == run_end(old(self).text(), old(self).position(), true),
            ({
                let v = digits_value(
                    seq![c] + old(self).text().subrange(
                        old(self).position(),
                        final(self).position(),
                    ),
                );
                if v <= i64::MAX {
                    r == Some(Token::Int(v as i64))
                } else {
                    r is None
                }
            }),
    {
        let ghost s = self.text();
        let ghost start: int = self.pos as int;
        let mut value: i64 = (c as u32 - '0' as u32) as i64;
        let mut fits = true;
        proof {
            let d = seq![c] + s.subrange(start, start);
            assert(d.drop_last() =~= Seq::<char>::empty());
            assert(d.last() == c);
            assert(digits_value(d.drop_last()) == 0);
            assert(digits_value(d) == (c as u32) as int - 48);
        }
        while self.pos < self.len && Self::is_digit(self.input.get_char(self.pos))
            invariant
                self.wf(),
                self.text() == s,
                s == old(self).text(),
                start == old(self).position(),
                is_digit_char(c),
                0 <= start <= self.position() <= s.len(),
                forall|i: int| start <= i < self.position() ==> is_digit_char(#[trigger] s[i]),
                run_end(s, self.position(), true) == run_end(s, start, true),
                fits ==> value as int == digits_value(
                    seq![c] + s.subrange(start, self.position()),
                ),
                !fits ==> digits_value(seq![c] + s.subrange(start, self.position())) > i64::MAX,
                0 <= value,
            decreases self.len - self.pos,
        {
            let d = self.input.get_char(self.pos);
            let ghost before = seq![c] + s.subrange(start, self.pos as int);
            let digit: i64 = (d as u32 - '0' as u32) as i64;
            self.pos = self.pos + 1;
            let ghost after = seq![c] + s.subrange(start, self.pos as int);
            assert(after.drop_last() =~= before);
            assert(after.last() == d);
            assert(digits_value(after) == digits_value(before) * 10 + digit);
            proof {
                assert forall|i: int| 0 <= i < before.len() implies is_digit_char(
                    #[trigger] before[i],
                ) by {
                    if i > 0 {
                        assert(before[i] == s[start + i - 1]);
                    }
                }
                lemma_digits_value_nonneg(before);
            }
            if fits {
                if value <= (i64::MAX - digit) / 10 {
                    value = value * 10 + digit;
                } else {
                    fits = false;
                }
            }
        }
        if fits {
            Some(Token::Int(value))
        } else {
            None
        }
    }

    /// Scans the next token: skips white space, then reads an identifier
    /// or keyword, a number, or an operator or delimiter. Never fails: what
    /// fits no token comes out as `Illegal`, and the end of the input as `EOF`.
    pub fn next_token(&mut self) -> (r: Token)
        requires
            old(self).wf(),
        ensures
            final(self).wf(),
            final(self).text() == old(self).text(),
            final(self).position() == token_end(old(self).text(), old(self).position()),
            token_at(old(self).text(), old(self).position(), r),
            r is EOF ==> final(self).position() == final(self).text().len(),
    {
        let ghost s = self.text();
        proof {
            lemma_skip_space(s, self.position());
            lemma_lexing_ends(s, self.position(), Token::EOF);
        }
        self.skip_whitespace();
        if self.pos >= self.len {
            return Token::EOF;
        }
        let ghost st = self.position();
        let c = self.read_char();
        assert(s.subrange(st, st + 1) + s.subrange(st + 1, run_end(s, st + 1, false))
            =~= s.subrange(st, run_end(s, st + 1, false))) by {
            lemma_run_end(s, st + 1, false);
        }
        assert(s.subrange(st, st + 1) + s.subrange(st + 1, run_end(s, st + 1, true))
            =~= s.subrange(st, run_end(s, st + 1, true))) by {
            lemma_run_end(s, st + 1, true);
        }
        assert(s.subrange(st, st + 1) =~= seq![c]);
        if Self::is_letter(c) {
            match self.read_identifier(c) {
                Some(t) => t,
                None => Token::Illegal,
            }
        } else if Self::is_digit(c) {
            match self.read_number(c) {
                Some(t) => t,
                None => Token::Illegal,
            }
        } else if c == '=' || c == '!' {
            let eq_next = match self.peek_char() {
                Some(n) => n == '=',
                None => false,
            };
            if eq_next {
                self.read_char();
                if c == '=' { Token::Eq } else { Token::NotEq }
            } else {
                if c == '=' { Token::Assign } else { Token::Bang }
            }
        } else {
            match c {
                '+' => Token::Plus,
                ',' => Token::Comma,
                ';' => Token::Semicolon,
                '(' => Token::LParen,
                ')' => Token::RParen,
                '{' => Token::LBrace,
                '}' => Token::RBrace,
                '-' => Token::Minus,
                '/' => Token::Slash,
                '*' => Token::Asterisk,
                '<' => Token::Lt,
                '>' => Token::Gt,
                _ => Token::Illegal,
            }
        }
    }

    /// The next token, or `None` once `EOF` comes.
    pub fn next(&mut self) -> (r: Option<Token>)
        requires
            old(self).wf(),
        ensures
            final(self).wf(),
            final(self).text() == old(self).text(),
            final(self).position() == token_end(old(self).text(), old(self).position()),
            match r {
                Some(t) => token_at(old(self).text(), old(self).position(), t) && !(t is EOF),
                None => token_at(old(self).text(), old(self).position(), Token::EOF),
            },
            r is None ==> final(self).position() == final(self).text().len(),
    {
        let t = self.next_token();
        match t {
            Token::EOF => None,
            _ => Some(t),
        }
    }

    /// All tokens from the current position up to the first `EOF`, which is
    /// not among them.
    pub fn tokens(&mut self) -> (r: Vec<Token>)
        requires
            old(self).wf(),
        ensures
            final(self).wf(),
            final(self).text() == old(self).text(),
            lexed(old(self).text(), old(self).position(), r@),
    {
        let ghost s = self.text();
        let ghost start = self.position();
        let mut out: Vec<Token> = Vec::new();
        loop
            invariant
                self.wf(),
                self.text() == s,
                s == old(self).text(),
                start == old(self).position(),
                forall|rest: Seq<Token>|
                    lexed(s, self.position(), rest) ==> #[trigger] lexed(s, start, out@ + rest),
            decreases self.len - self.pos,
        {
            let ghost before = self.position();
            let ghost done = out@;
            proof {
                lemma_lexing_ends(s, before, Token::EOF);
            }
            match self.next() {
                Some(t) => {
                    out.push(t);
                    proof {
                        assert forall|rest: Seq<Token>|
                            lexed(s, self.position(), rest) implies #[trigger] lexed(
                                s,
                                start,
                                out@ + rest,
                            ) by {
                            let whole = seq![t] + rest;
                            assert(whole.drop_first() =~= rest);
                            assert(lexed(s, before, whole));
                            assert(done + whole =~= out@ + rest);
                        }
                    }
                },
                None => {
                    assert(lexed(s, before, Seq::<Token>::empty()));
                    assert(lexed(s, start, out@ + Seq::<Token>::empty()));
                    assert(out@ + Seq::<Token>::empty() =~= out@);
                    return out;
                },
            }
        }
    }

    /// Whether `c` may stand in an identifier.
    pub fn is_letter(c: char) -> (r: bool)
        ensures
            r == is_letter_char(c),
    {
        ('a' <= c && c <= 'z') || ('A' <= c && c <= 'Z') || c == '_'
    }

    /// Whether `c` is a decimal digit.
    pub fn is_digit(c: char) -> (r: bool)
        ensures
            r == is_digit_char(c),
    {
        '0' <= c && c <= '9'
    }

    /// Whether `c` is white space.
    pub fn is_whitespace(c: char) -> (r: bool)
        ensures
            r == is_space(c),
    {
        c == ' ' || ('\t' <= c && c <= '\r') || c == '\u{85}' || c == '\u{a0}' || c == '\u{1680}'
            || ('\u{2000}' <= c && c <= '\u{200a}') || c == '\u{2028}' || c == '\u{2029}'
            || c == '\u{202f}' || c == '\u{205f}' || c == '\u{3000}'
    }
}

} // verus!
