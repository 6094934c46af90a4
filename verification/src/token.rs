//! Tokens of the surface language, and the lexer that reads them.

use crate::names::number;
use vstd::prelude::*;
use vstd::string::StrSliceExecFns;

verus! {

/// Mathematical model of a token: names are sequences of characters.
pub ghost enum Tok {
    Lambda,
    Equals,
    Dot,
    LParen,
    RParen,
    LBrace,
    RBrace,
    LAngle,
    RAngle,
    Colon,
    DoubleColon,
    Semi,
    Comma,
    Arrow,
    FatArrow,
    Forall,
    Match,
    Let,
    LetRec,
    In,
    Type,
    Ident(Seq<char>),
    UpperIdent(Seq<char>),
    IntLiteral(i32),
    BooleanLiteral(bool),
}

/// A token.
#[derive(Debug, PartialEq, Eq)]
pub enum Token {
    Lambda,
    Equals,
    Dot,
    LParen,
    RParen,
    LBrace,
    RBrace,
    LAngle,
    RAngle,
    Colon,
    DoubleColon,
    Semi,
    Comma,
    Arrow,
    FatArrow,
    Forall,
    Match,
    Let,
    LetRec,
    In,
    Type,
    Ident(String),
    UpperIdent(String),
    IntLiteral(i32),
    BooleanLiteral(bool),
}

impl View for Token {
    type V = Tok;

    open spec fn view(&self) -> Tok {
        match self {
            Token::Lambda => Tok::Lambda,
            Token::Equals => Tok::Equals,
            Token::Dot => Tok::Dot,
            Token::LParen => Tok::LParen,
            Token::RParen => Tok::RParen,
            Token::LBrace => Tok::LBrace,
            Token::RBrace => Tok::RBrace,
            Token::LAngle => Tok::LAngle,
            Token::RAngle => Tok::RAngle,
            Token::Colon => Tok::Colon,
            Token::DoubleColon => Tok::DoubleColon,
            Token::Semi => Tok::Semi,
            Token::Comma => Tok::Comma,
            Token::Arrow => Tok::Arrow,
            Token::FatArrow => Tok::FatArrow,
            Token::Forall => Tok::Forall,
            Token::Match => Tok::Match,
            Token::Let => Tok::Let,
            Token::LetRec => Tok::LetRec,
            Token::In => Tok::In,
            Token::Type => Tok::Type,
            Token::Ident(s) => Tok::Ident(s@),
            Token::UpperIdent(s) => Tok::UpperIdent(s@),
            Token::IntLiteral(n) => Tok::IntLiteral(*n),
            Token::BooleanLiteral(b) => Tok::BooleanLiteral(*b),
        }
    }
}

impl Clone for Token {
    fn clone(&self) -> (r: Token)
        ensures
            r@ == self@,
    {
        match self {
            Token::Lambda => Token::Lambda,
            Token::Equals => Token::Equals,
            Token::Dot => Token::Dot,
            Token::LParen => Token::LParen,
            Token::RParen => Token::RParen,
            Token::LBrace => Token::LBrace,
            Token::RBrace => Token::RBrace,
            Token::LAngle => Token::LAngle,
            Token::RAngle => Token::RAngle,
            Token::Colon => Token::Colon,
            Token::DoubleColon => Token::DoubleColon,
            Token::Semi => Token::Semi,
            Token::Comma => Token::Comma,
            Token::Arrow => Token::Arrow,
            Token::FatArrow => Token::FatArrow,
            Token::Forall => Token::Forall,
            Token::Match => Token::Match,
            Token::Let => Token::Let,
            Token::LetRec => Token::LetRec,
            Token::In => Token::In,
            Token::Type => Token::Type,
            Token::Ident(s) => Token::Ident(s.clone()),
            Token::UpperIdent(s) => Token::UpperIdent(s.clone()),
            Token::IntLiteral(n) => Token::IntLiteral(*n),
            Token::BooleanLiteral(b) => Token::BooleanLiteral(*b),
        }
    }
}

/// The model of a token, where there is one.
pub open spec fn token_outcome(r: Option<Token>) -> Option<Tok> {
    match r {
        Some(t) => Some(t@),
        None => None,
    }
}

/// The models of a list of tokens.
pub open spec fn token_models(tokens: Seq<Token>) -> Seq<Tok> {
    Seq::new(tokens.len(), |i: int| tokens[i]@)
}

/// Whether a character is white space: the characters U+0009 to U+000D,
/// the blank, and the other characters that Unicode lists as white space.
pub open spec fn is_space(c: char) -> bool {
    let n = c as u32;
    ||| 0x09 <= n <= 0x0D
    ||| n == 0x20
    ||| n == 0x85
    ||| n == 0xA0
    ||| n == 0x1680
    ||| 0x2000 <= n <= 0x200A
    ||| n == 0x2028
    ||| n == 0x2029
    ||| n == 0x202F
    ||| n == 0x205F
    ||| n == 0x3000
}

/// Whether a character is a decimal digit.
pub open spec fn is_digit(c: char) -> bool {
    '0' <= c <= '9'
}

/// Whether a character may begin an identifier: a letter of the alphabet.
pub open spec fn ident_start(c: char) -> bool {
    ('a' <= c <= 'z') || ('A' <= c <= 'Z')
}

/// Whether a character may stand in an identifier: a letter, a digit or an
/// underscore.
pub open spec fn ident_member(c: char) -> bool {
    ('a' <= c <= 'z') || ('A' <= c <= 'Z') || ('0' <= c <= '9') || c == '_'
}

/// Where the white space that begins at `i` ends.
pub open spec fn skip_spaces(s: Seq<char>, i: int) -> int
    decreases s.len() - i,
{
    if 0 <= i < s.len() && is_space(s[i]) {
        skip_spaces(s, i + 1)
    } else {
        i
    }
}

/// Where the run of identifier characters that begins at `i` ends.
pub open spec fn ident_end(s: Seq<char>, i: int) -> int
    decreases s.len() - i,
{
    if 0 <= i < s.len() && ident_member(s[i]) {
        ident_end(s, i + 1)
    } else {
        i
    }
}

/// Where the run of digits that begins at `i` ends.
pub open spec fn digits_end(s: Seq<char>, i: int) -> int
    decreases s.len() - i,
{
    if 0 <= i < s.len() && is_digit(s[i]) {
        digits_end(s, i + 1)
    } else {
        i
    }
}

/// The token of a word: a keyword, or an identifier, which is an upper
/// identifier where it begins with a capital letter.
pub open spec fn word(w: Seq<char>) -> Tok {
    if w == "true"@ {
        Tok::BooleanLiteral(true)
    } else if w == "false"@ {
        Tok::BooleanLiteral(false)
    } else if w == "forall"@ {
        Tok::Forall
    } else if w == "let"@ {
        Tok::Let
    } else if w == "letrec"@ {
        Tok::LetRec
    } else if w == "in"@ {
        Tok::In
    } else if w == "match"@ {
        Tok::Match
    } else if w == "type"@ {
        Tok::Type
    } else if w.len() > 0 && 'A' <= w[0] <= 'Z' {
        Tok::UpperIdent(w)
    } else {
        Tok::Ident(w)
    }
}

/// The token of a character that is a token by itself.
pub open spec fn single(c: char) -> Option<Tok> {
    if c == '\\' {
        Some(Tok::Lambda)
    } else if c == '\u{2200}' {
        Some(Tok::Forall)
    } else if c == '.' {
        Some(Tok::Dot)
    } else if c == '(' {
        Some(Tok::LParen)
    } else if c == ')' {
        Some(Tok::RParen)
    } else if c == '{' {
        Some(Tok::LBrace)
    } else if c == '<' {
        Some(Tok::LAngle)
    } else if c == '>' {
        Some(Tok::RAngle)
    } else if c == '}' {
        Some(Tok::RBrace)
    } else if c == ';' {
        Some(Tok::Semi)
    } else if c == ',' {
        Some(Tok::Comma)
    } else {
        None
    }
}

/// Reading one token at `i`: the token, and where the next one begins, the
/// white space behind the token skipped.
///
/// A character that begins no token is passed over and gives no token; so
/// does a minus sign that no `>` follows, and a number that is larger than
/// the largest `i32`. The second character of `::`, `=>` and `->` is read as
/// a token of its own, which is thrown away.
pub open spec fn lexed(s: Seq<char>, i: int) -> (Option<Tok>, int)
    decreases s.len() - i,
{
    if !(0 <= i < s.len()) {
        (None, i)
    } else {
        let c = s[i];
        let followed = |d: char| i + 1 < s.len() && s[i + 1] == d;
        if single(c) is Some {
            (single(c), skip_spaces(s, i + 1))
        } else if c == ':' {
            if followed(':') {
                (Some(Tok::DoubleColon), skip_spaces(s, lexed(s, i + 1).1))
            } else {
                (Some(Tok::Colon), skip_spaces(s, i + 1))
            }
        } else if c == '=' {
            if followed('>') {
                (Some(Tok::FatArrow), skip_spaces(s, lexed(s, i + 1).1))
            } else {
                (Some(Tok::Equals), skip_spaces(s, i + 1))
            }
        } else if c == '-' {
            if followed('>') {
                (Some(Tok::Arrow), skip_spaces(s, lexed(s, i + 1).1))
            } else {
                (None, skip_spaces(s, i + 1))
            }
        } else if is_digit(c) {
            let end = digits_end(s, i + 1);
            let value = number(s.subrange(i, end));
            if value <= i32::MAX {
                (Some(Tok::IntLiteral(value as i32)), skip_spaces(s, end))
            } else {
                (None, skip_spaces(s, end))
            }
        } else if ident_start(c) {
            let end = ident_end(s, i + 1);
            (Some(word(s.subrange(i, end))), skip_spaces(s, end))
        } else {
            (None, skip_spaces(s, i + 1))
        }
    }
}

/// The tokens read from `i` on, up to the first place that gives none.
pub open spec fn all_tokens(s: Seq<char>, i: int) -> Seq<Tok>
    decreases s.len() - i,
{
    let (token, next) = lexed(s, i);
    match token {
        Some(t) => if i < next <= s.len() {
            seq![t] + all_tokens(s, next)
        } else {
            seq![t]
        },
        None => Seq::empty(),
    }
}

/// Where reading the tokens from `i` on stops: at the end of the text, or
/// behind the first place that gives no token.
pub open spec fn all_tokens_end(s: Seq<char>, i: int) -> int
    decreases s.len() - i,
{
    let (token, next) = lexed(s, i);
    if token is Some && i < next <= s.len() {
        all_tokens_end(s, next)
    } else {
        next
    }
}

/// The white space ends within the text.
pub proof fn lemma_skip_spaces_bounds(s: Seq<char>, i: int)
    requires
        0 <= i <= s.len(),
    ensures
        i <= skip_spaces(s, i) <= s.len(),
    decreases s.len() - i,
{
    if i < s.len() && is_space(s[i]) {
        lemma_skip_spaces_bounds(s, i + 1);
    }
}

/// The run of identifier characters ends within the text.
pub proof fn lemma_ident_end_bounds(s: Seq<char>, i: int)
    requires
        0 <= i <= s.len(),
    ensures
        i <= ident_end(s, i) <= s.len(),
    decreases s.len() - i,
{
    if i < s.len() && ident_member(s[i]) {
        lemma_ident_end_bounds(s, i + 1);
    }
}

/// The run of digits ends within the text.
pub proof fn lemma_digits_end_bounds(s: Seq<char>, i: int)
    requires
        0 <= i <= s.len(),
    ensures
        i <= digits_end(s, i) <= s.len(),
    decreases s.len() - i,
{
    if i < s.len() && is_digit(s[i]) {
        lemma_digits_end_bounds(s, i + 1);
    }
}

/// Reading a token moves on: within the text, what is read ends after
/// where it began, and within the text.
pub proof fn lemma_lexed_moves(s: Seq<char>, i: int)
    requires
        0 <= i < s.len(),
    ensures
        i < lexed(s, i).1 <= s.len(),
    decreases s.len() - i,
{
    let c = s[i];
    lemma_skip_spaces_bounds(s, i + 1);
    if single(c) is Some {
    } else if c == ':' || c == '=' || c == '-' {
        if i + 1 < s.len() {
            lemma_lexed_moves(s, i + 1);
            lemma_skip_spaces_bounds(s, lexed(s, i + 1).1);
        }
    } else if is_digit(c) {
        lemma_digits_end_bounds(s, i + 1);
        lemma_skip_spaces_bounds(s, digits_end(s, i + 1));
    } else if ident_start(c) {
        lemma_ident_end_bounds(s, i + 1);
        lemma_skip_spaces_bounds(s, ident_end(s, i + 1));
    }
}

/// Whether a character is white space.
pub fn is_whitespace(c: char) -> (r: bool)
    ensures
        r == is_space(c),
{
    let n = c as u32;
    (0x09 <= n && n <= 0x0D) || n == 0x20 || n == 0x85 || n == 0xA0 || n == 0x1680 || (0x2000 <= n
        && n <= 0x200A) || n == 0x2028 || n == 0x2029 || n == 0x202F || n == 0x205F || n == 0x3000
}

/// Whether a character may begin an identifier.
pub fn is_ident_start(c: char) -> (r: bool)
    ensures
        r == ident_start(c),
{
    (c >= 'a' && c <= 'z') || (c >= 'A' && c <= 'Z')
}

/// Whether a character may stand in an identifier.
pub fn is_ident_member(c: char) -> (r: bool)
    ensures
        r == ident_member(c),
{
    (c >= 'a' && c <= 'z') || (c >= 'A' && c <= 'Z') || (c >= '0' && c <= '9') || c == '_'
}

/// Whether the characters from `start` to `end` spell `text`.
fn spells(chars: &Vec<char>, start: usize, end: usize, text: &str) -> (r: bool)
    requires
        start <= end <= chars.len(),
    ensures
        r == (chars@.subrange(start as int, end as int) == text@),
{
    let n = text.unicode_len();
    if end - start != n {
        assert(chars@.subrange(start as int, end as int).len() != text@.len());
        return false;
    }
    let mut i: usize = 0;
    while i < n
        invariant
            i <= n,
            n == text@.len(),
            end - start == n,
            start <= end <= chars.len(),
            forall|j: int| 0 <= j < i ==> chars[start + j] == text@[j],
        decreases n - i,
    {
        if chars[start + i] != text.get_char(i) {
            assert(chars@.subrange(start as int, end as int)[i as int] != text@[i as int]);
            return false;
        }
        i = i + 1;
    }
    assert(chars@.subrange(start as int, end as int) =~= text@);
    true
}

/// A lexer: a text, and the place in it where the next token begins.
pub struct Lexer<'input> {
    input: &'input str,
    chars: Vec<char>,
    pos: usize,
}

impl<'input> Lexer<'input> {
    #[verifier::type_invariant]
    spec fn well_formed(self) -> bool {
        self.chars@ == self.input@ && self.pos <= self.chars.len()
    }

    /// The text that is read.
    pub closed spec fn text(&self) -> Seq<char> {
        self.chars@
    }

    /// The place where the next token begins.
    pub closed spec fn position(&self) -> int {
        self.pos as int
    }

    /// A lexer at the first token of `input`: the white space at the
    /// beginning is skipped.
    pub fn new(input: &'input str) -> (r: Lexer<'input>)
        ensures
            r.text() == input@,
            r.position() == skip_spaces(input@, 0),
            0 <= r.position() <= r.text().len(),
    {
        let n = input.unicode_len();
        let mut chars: Vec<char> = Vec::new();
        let mut i: usize = 0;
        while i < n
            invariant
                i <= n,
                n == input@.len(),
                chars@ == input@.take(i as int),
            decreases n - i,
        {
            chars.push(input.get_char(i));
            assert(chars@ =~= input@.take(i + 1));
            i = i + 1;
        }
        assert(input@.take(n as int) =~= input@);
        let mut lexer = Lexer { input, chars, pos: 0 };
        lexer.consume_whitespace();
        lexer
    }

    /// Takes the next character.
    fn next_char(&mut self) -> (r: Option<char>)
        ensures
            final(self).text() == old(self).text(),
            old(self).position() < old(self).text().len() ==> r == Some(
                old(self).text()[old(self).position()],
            ) && final(self).position() == old(self).position() + 1,
            old(self).position() >= old(self).text().len() ==> r is None && final(self).position()
                == old(self).position(),
    {
        proof {
            use_type_invariant(&*self);
        }
        if self.pos < self.chars.len() {
            let c = self.chars[self.pos];
            self.pos = self.pos + 1;
            Some(c)
        } else {
            None
        }
    }

    /// The next character, which is not taken.
    fn peek(&self) -> (r: Option<char>)
        ensures
            self.position() < self.text().len() ==> r == Some(self.text()[self.position()]),
            self.position() >= self.text().len() ==> r is None,
    {
        proof {
            use_type_invariant(self);
        }
        if self.pos < self.chars.len() {
            Some(self.chars[self.pos])
        } else {
            None
        }
    }

    /// Skips white space.
    fn consume_whitespace(&mut self)
        ensures
            final(self).text() == old(self).text(),
            final(self).position() == skip_spaces(old(self).text(), old(self).position()),
            final(self).position() <= final(self).text().len(),
    {
        proof {
            use_type_invariant(&*self);
        }
        while self.pos < self.chars.len() && is_whitespace(self.chars[self.pos])
            invariant
                self.pos <= self.chars.len(),
                self.chars@ == self.input@,
                self.chars == old(self).chars,
                skip_spaces(self.chars@, self.pos as int) == skip_spaces(
                    old(self).chars@,
                    old(self).pos as int,
                ),
            decreases self.chars.len() - self.pos,
        {
            self.pos = self.pos + 1;
        }
    }

    /// Whether the whole text is read.
    pub fn at_end(&self) -> (r: bool)
        ensures
            r == (self.position() >= self.text().len()),
    {
        proof {
            use_type_invariant(self);
        }
        self.pos >= self.chars.len()
    }

    /// Reads the next token.
    pub fn next_token(&mut self) -> (r: Option<Token>)
        ensures
            final(self).text() == old(self).text(),
            (token_outcome(r), final(self).position()) == lexed(old(self).text(), old(self).position()),
            old(self).position() < old(self).text().len() ==> old(self).position()
                < final(self).position(),
            0 <= final(self).position() <= final(self).text().len(),
        decreases old(self).text().len() - old(self).position(),
    {
        proof {
            use_type_invariant(&*self);
            if self.position() < self.text().len() {
                lemma_lexed_moves(self.text(), self.position());
            }
        }
        let start = self.pos;
        let token = match self.next_char() {
            None => {
                return None;
            },
            Some(c) => {
                if c == '\\' {
                    Some(Token::Lambda)
                } else if c == '\u{2200}' {
                    Some(Token::Forall)
                } else if c == '.' {
                    Some(Token::Dot)
                } else if c == '(' {
                    Some(Token::LParen)
                } else if c == ')' {
                    Some(Token::RParen)
                } else if c == '{' {
                    Some(Token::LBrace)
                } else if c == '<' {
                    Some(Token::LAngle)
                } else if c == '>' {
                    Some(Token::RAngle)
                } else if c == '}' {
                    Some(Token::RBrace)
                } else if c == ';' {
                    Some(Token::Semi)
                } else if c == ',' {
                    Some(Token::Comma)
                } else if c == ':' {
                    if self.peek() == Some(':') {
                        self.next_token();
                        Some(Token::DoubleColon)
                    } else {
                        Some(Token::Colon)
                    }
                } else if c == '=' {
                    if self.peek() == Some('>') {
                        self.next_token();
                        Some(Token::FatArrow)
                    } else {
                        Some(Token::Equals)
                    }
                } else if c == '-' {
                    if self.peek() == Some('>') {
                        self.next_token();
                        Some(Token::Arrow)
                    } else {
                        None
                    }
                } else if c >= '0' && c <= '9' {
                    self.read_number(start)
                } else if is_ident_start(c) {
                    Some(self.read_word(start))
                } else {
                    None
                }
            },
        };
        proof {
            lemma_skip_spaces_bounds(self.text(), self.position());
        }
        self.consume_whitespace();
        token
    }

    /// Reads the digits that follow the first digit of a number, which
    /// stands at `start`.
    fn read_number(&mut self, start: usize) -> (r: Option<Token>)
        requires
            start + 1 == old(self).position(),
            start < old(self).text().len(),
            is_digit(old(self).text()[start as int]),
        ensures
            final(self).text() == old(self).text(),
            final(self).position() == digits_end(old(self).text(), start + 1),
            final(self).position() <= final(self).text().len(),
            ({
                let value = number(old(self).text().subrange(start as int, final(self).position()));
                if value <= i32::MAX {
                    token_outcome(r) == Some(Tok::IntLiteral(value as i32))
                } else {
                    r is None
                }
            }),
    {
        proof {
            use_type_invariant(&*self);
        }
        let first = self.chars[start];
        let mut acc: u64 = (first as u32 - '0' as u32) as u64;
        let mut fits = true;
        proof {
            let one = self.chars@.subrange(start as int, start + 1);
            assert(one.drop_last() =~= Seq::<char>::empty());
            assert(number(one.drop_last()) == 0);
            assert(one.last() == first);
        }
        while self.pos < self.chars.len() && self.chars[self.pos] >= '0' && self.chars[self.pos] <= '9'
            invariant
                start < self.pos <= self.chars.len(),
                self.chars@ == self.input@,
                self.chars == old(self).chars,
                digits_end(self.chars@, self.pos as int) == digits_end(self.chars@, start + 1),
                fits ==> acc == number(self.chars@.subrange(start as int, self.pos as int)) && acc
                    <= i32::MAX,
                !fits ==> number(self.chars@.subrange(start as int, self.pos as int)) > i32::MAX,
            decreases self.chars.len() - self.pos,
        {
            let digit: u64 = (self.chars[self.pos] as u32 - '0' as u32) as u64;
            proof {
                let longer = self.chars@.subrange(start as int, self.pos + 1);
                assert(longer.drop_last() =~= self.chars@.subrange(start as int, self.pos as int));
                assert(longer.last() == self.chars[self.pos as int]);
            }
            if fits {
                acc = acc * 10 + digit;
                if acc > 2147483647 {
                    fits = false;
                }
            }
            self.pos = self.pos + 1;
        }
        if fits {
            Some(Token::IntLiteral(acc as i32))
        } else {
            None
        }
    }

    /// Reads the characters that follow the first character of a word,
    /// which stands at `start`.
    fn read_word(&mut self, start: usize) -> (r: Token)
        requires
            start + 1 == old(self).position(),
            start < old(self).text().len(),
        ensures
            final(self).text() == old(self).text(),
            final(self).position() == ident_end(old(self).text(), start + 1),
            final(self).position() <= final(self).text().len(),
            r@ == word(old(self).text().subrange(start as int, final(self).position())),
    {
        proof {
            use_type_invariant(&*self);
        }
        while self.pos < self.chars.len() && is_ident_member(self.chars[self.pos])
            invariant
                start < self.pos <= self.chars.len(),
                self.chars@ == self.input@,
                self.chars == old(self).chars,
                ident_end(self.chars@, self.pos as int) == ident_end(self.chars@, start + 1),
            decreases self.chars.len() - self.pos,
        {
            self.pos = self.pos + 1;
        }
        let end = self.pos;
        let ghost w = self.chars@.subrange(start as int, end as int);
        if spells(&self.chars, start, end, "true") {
            Token::BooleanLiteral(true)
        } else if spells(&self.chars, start, end, "false") {
            Token::BooleanLiteral(false)
        } else if spells(&self.chars, start, end, "forall") {
            Token::Forall
        } else if spells(&self.chars, start, end, "let") {
            Token::Let
        } else if spells(&self.chars, start, end, "letrec") {
            Token::LetRec
        } else if spells(&self.chars, start, end, "in") {
            Token::In
        } else if spells(&self.chars, start, end, "match") {
            Token::Match
        } else if spells(&self.chars, start, end, "type") {
            Token::Type
        } else {
            let text = self.input.substring_char(start, end).to_owned();
            assert(w[0] == self.chars[start as int]);
            if self.chars[start] >= 'A' && self.chars[start] <= 'Z' {
                Token::UpperIdent(text)
            } else {
                Token::Ident(text)
            }
        }
    }

    /// Reads the tokens that are left, up to the first place that gives
    /// none.
    pub fn tokens(&mut self) -> (r: Vec<Token>)
        ensures
            final(self).text() == old(self).text(),
            final(self).position() == all_tokens_end(old(self).text(), old(self).position()),
            token_models(r@) == all_tokens(old(self).text(), old(self).position()),
    {
        let mut out: Vec<Token> = Vec::new();
        let ghost s = self.text();
        let ghost begin = self.position();
        assert(token_models(out@) =~= Seq::empty());
        loop
            invariant
                s == old(self).text(),
                begin == old(self).position(),
                self.text() == s,
                self.position() >= 0,
                all_tokens(s, begin) == token_models(out@) + all_tokens(s, self.position()),
                all_tokens_end(s, begin) == all_tokens_end(s, self.position()),
            decreases s.len() - self.position(),
        {
            let ghost at = self.position();
            let ghost before = token_models(out@);
            match self.next_token() {
                Some(t) => {
                    out.push(t);
                    proof {
                        assert(token_models(out@) =~= before.push(t@));
                        if at < self.position() {
                            assert(all_tokens(s, at) == seq![t@] + all_tokens(s, self.position()));
                            assert(all_tokens(s, begin) =~= token_models(out@) + all_tokens(
                                s,
                                self.position(),
                            ));
                        } else {
                            assert(all_tokens(s, at) == seq![t@]);
                        }
                    }
                    if self.at_end() {
                        proof {
                            assert(all_tokens(s, self.position()) =~= Seq::empty());
                            assert(all_tokens(s, begin) =~= token_models(out@));
                            assert(lexed(s, self.position()).1 == self.position());
                            assert(all_tokens_end(s, self.position()) == self.position());
                            assert(all_tokens_end(s, at) == self.position());
                        }
                        return out;
                    }
                },
                None => {
                    assert(all_tokens_end(s, at) == self.position());
                    assert(all_tokens(s, at) =~= Seq::empty());
                    assert(all_tokens(s, begin) =~= token_models(out@));
                    return out;
                },
            }
        }
    }
}

} // verus!
