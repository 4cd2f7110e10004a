//! The SQL lexer: a character scanner that tracks line and column.
use vstd::prelude::*;
use crate::text::{ascii_upper, chars_of, string_of_chars, to_ascii_uppercase};

verus! {

#[derive(Debug, Clone, PartialEq, Eq)]
pub enum TokenKind {
    Select,
    Insert,
    Update,
    Delete,
    From,
    Where,
    And,
    Or,
    Create,
    Table,
    Into,
    Values,
    Identifier(String),
    IntLiteral(i64),
    StringLiteral(String),
    Eq,
    NotEq,
    Lt,
    LtEq,
    Gt,
    GtEq,
    Plus,
    Minus,
    Star,
    Slash,
    Comma,
    Semicolon,
    LParen,
    RParen,
    EOF,
}

/// What a token kind is, with the text of identifiers and strings as
/// characters.
pub enum Tok {
    Select,
    Insert,
    Update,
    Delete,
    From,
    Where,
    And,
    Or,
    Create,
    Table,
    Into,
    Values,
    Identifier(Seq<char>),
    IntLiteral(i64),
    StringLiteral(Seq<char>),
    Eq,
    NotEq,
    Lt,
    LtEq,
    Gt,
    GtEq,
    Plus,
    Minus,
    Star,
    Slash,
    Comma,
    Semicolon,
    LParen,
    RParen,
    EOF,
}

impl View for TokenKind {
    type V = Tok;

    open spec fn view(&self) -> Tok {
        match self {
            TokenKind::Select => Tok::Select,
            TokenKind::Insert => Tok::Insert,
            TokenKind::Update => Tok::Update,
            TokenKind::Delete => Tok::Delete,
            TokenKind::From => Tok::From,
            TokenKind::Where => Tok::Where,
            TokenKind::And => Tok::And,
            TokenKind::Or => Tok::Or,
            TokenKind::Create => Tok::Create,
            TokenKind::Table => Tok::Table,
            TokenKind::Into => Tok::Into,
            TokenKind::Values => Tok::Values,
            TokenKind::Identifier(s) => Tok::Identifier(s@),
            TokenKind::IntLiteral(v) => Tok::IntLiteral(*v),
            TokenKind::StringLiteral(s) => Tok::StringLiteral(s@),
            TokenKind::Eq => Tok::Eq,
            TokenKind::NotEq => Tok::NotEq,
            TokenKind::Lt => Tok::Lt,
            TokenKind::LtEq => Tok::LtEq,
            TokenKind::Gt => Tok::Gt,
            TokenKind::GtEq => Tok::GtEq,
            TokenKind::Plus => Tok::Plus,
            TokenKind::Minus => Tok::Minus,
            TokenKind::Star => Tok::Star,
            TokenKind::Slash => Tok::Slash,
            TokenKind::Comma => Tok::Comma,
            TokenKind::Semicolon => Tok::Semicolon,
            TokenKind::LParen => Tok::LParen,
            TokenKind::RParen => Tok::RParen,
            TokenKind::EOF => Tok::EOF,
        }
    }
}

#[derive(Debug, Clone, PartialEq, Eq)]
pub struct Token {
    pub kind: TokenKind,
    pub line: usize,
    pub col: usize,
}

/// A token as kind, line and column.
pub type TokenModel = (Tok, nat, nat);

pub open spec fn token_model(t: Token) -> TokenModel {
    (t.kind@, t.line as nat, t.col as nat)
}

#[derive(Debug, Clone)]
pub enum LexError {
    UnexpectedChar(char, usize, usize),
    UnterminatedString(usize, usize),
    InvalidNumber(String, usize, usize),
}

/// A lexing error with the text of a bad number as characters.
pub enum LexFailure {
    UnexpectedChar(char, nat, nat),
    UnterminatedString(nat, nat),
    InvalidNumber(Seq<char>, nat, nat),
}

impl View for LexError {
    type V = LexFailure;

    open spec fn view(&self) -> LexFailure {
        match self {
            LexError::UnexpectedChar(c, l, k) => LexFailure::UnexpectedChar(*c, *l as nat, *k as nat),
            LexError::UnterminatedString(l, k) => LexFailure::UnterminatedString(*l as nat, *k as nat),
            LexError::InvalidNumber(s, l, k) => LexFailure::InvalidNumber(s@, *l as nat, *k as nat),
        }
    }
}

/// Unicode's `White_Space` property (what `char::is_whitespace` tests):
/// U+0009..U+000D, U+0020, U+0085, U+00A0, U+1680, U+2000..U+200A, U+2028,
/// U+2029, U+202F, U+205F and U+3000.
pub open spec fn white_space(c: char) -> bool {
    ('\u{9}' <= c && c <= '\u{d}') || c == ' ' || c == '\u{85}' || c == '\u{a0}' || c == '\u{1680}'
        || ('\u{2000}' <= c && c <= '\u{200a}') || c == '\u{2028}' || c == '\u{2029}' || c
        == '\u{202f}' || c == '\u{205f}' || c == '\u{3000}'
}

fn is_whitespace(c: char) -> (r: bool)
    ensures
        r == white_space(c),
{
    ('\u{9}' <= c && c <= '\u{d}') || c == ' ' || c == '\u{85}' || c == '\u{a0}' || c == '\u{1680}'
        || ('\u{2000}' <= c && c <= '\u{200a}') || c == '\u{2028}' || c == '\u{2029}' || c
        == '\u{202f}' || c == '\u{205f}' || c == '\u{3000}'
}

pub open spec fn is_digit(c: char) -> bool {
    '0' <= c && c <= '9'
}

pub open spec fn is_alpha(c: char) -> bool {
    ('a' <= c && c <= 'z') || ('A' <= c && c <= 'Z')
}

pub open spec fn is_ident_char(c: char) -> bool {
    is_alpha(c) || is_digit(c) || c == '_'
}

/// Line and column (both from 1) of position `p`.
pub open spec fn line_col(cs: Seq<char>, p: int) -> (nat, nat)
    decreases p,
{
    if p <= 0 {
        (1, 1)
    } else {
        let (l, c) = line_col(cs, p - 1);
        if cs[p - 1] == '\n' {
            (l + 1, 1)
        } else {
            (l, c + 1)
        }
    }
}

/// The first newline at or after `p`, or the end.
pub open spec fn line_end(cs: Seq<char>, p: int) -> int
    decreases cs.len() - p,
{
    if p < 0 || p >= cs.len() || cs[p] == '\n' {
        if p < 0 { 0 } else { p }
    } else {
        line_end(cs, p + 1)
    }
}

/// The first position at or after `p` that starts neither white space nor a
/// `--` comment.
pub open spec fn skip_ws(cs: Seq<char>, p: int) -> int
    decreases cs.len() - p, 1int,
{
    if p < 0 {
        0
    } else if p >= cs.len() {
        p
    } else if white_space(cs[p]) {
        skip_ws(cs, p + 1)
    } else if cs[p] == '-' && p + 1 < cs.len() && cs[p + 1] == '-' {
        let e = line_end(cs, p + 2);
        if p < e <= cs.len() {
            skip_ws(cs, e)
        } else {
            p
        }
    } else {
        p
    }
}

/// The end of the run of identifier characters starting at `p`.
pub open spec fn ident_end(cs: Seq<char>, p: int) -> int
    decreases cs.len() - p,
{
    if 0 <= p < cs.len() && is_ident_char(cs[p]) {
        ident_end(cs, p + 1)
    } else {
        p
    }
}

/// The end of the run of digits starting at `p`.
pub open spec fn digits_end(cs: Seq<char>, p: int) -> int
    decreases cs.len() - p,
{
    if 0 <= p < cs.len() && is_digit(cs[p]) {
        digits_end(cs, p + 1)
    } else {
        p
    }
}

/// The first `'` at or after `p`.
pub open spec fn quote_at_or_after(cs: Seq<char>, p: int) -> Option<int>
    decreases cs.len() - p,
{
    if p < 0 || p >= cs.len() {
        None
    } else if cs[p] == '\'' {
        Some(p)
    } else {
        quote_at_or_after(cs, p + 1)
    }
}

/// The value of a run of decimal digits.
pub open spec fn decimal(ds: Seq<char>) -> int
    decreases ds.len(),
{
    if ds.len() == 0 {
        0
    } else {
        decimal(ds.drop_last()) * 10 + (ds.last() as int - '0' as int)
    }
}

/// The keyword spelled by an upper-case word, if any.
pub open spec fn keyword(w: Seq<char>) -> Option<Tok> {
    if w == "SELECT"@ {
        Some(Tok::Select)
    } else if w == "INSERT"@ {
        Some(Tok::Insert)
    } else if w == "UPDATE"@ {
        Some(Tok::Update)
    } else if w == "DELETE"@ {
        Some(Tok::Delete)
    } else if w == "FROM"@ {
        Some(Tok::From)
    } else if w == "WHERE"@ {
        Some(Tok::Where)
    } else if w == "AND"@ {
        Some(Tok::And)
    } else if w == "OR"@ {
        Some(Tok::Or)
    } else if w == "CREATE"@ {
        Some(Tok::Create)
    } else if w == "TABLE"@ {
        Some(Tok::Table)
    } else if w == "INTO"@ {
        Some(Tok::Into)
    } else if w == "VALUES"@ {
        Some(Tok::Values)
    } else {
        None
    }
}

/// The token of a single character, if it is one.
pub open spec fn single_char_token(c: char) -> Option<Tok> {
    if c == ',' {
        Some(Tok::Comma)
    } else if c == ';' {
        Some(Tok::Semicolon)
    } else if c == '(' {
        Some(Tok::LParen)
    } else if c == ')' {
        Some(Tok::RParen)
    } else if c == '+' {
        Some(Tok::Plus)
    } else if c == '-' {
        Some(Tok::Minus)
    } else if c == '*' {
        Some(Tok::Star)
    } else if c == '/' {
        Some(Tok::Slash)
    } else if c == '=' {
        Some(Tok::Eq)
    } else {
        None
    }
}

/// The token that starts at `p` (white space and comments already skipped)
/// and where it ends; or the error.
pub open spec fn token_at(cs: Seq<char>, p: int) -> Result<(TokenModel, int), LexFailure> {
    let (l, c) = line_col(cs, p);
    if p >= cs.len() {
        Ok(((Tok::EOF, l, c), p))
    } else {
        let ch = cs[p];
        let next = if p + 1 < cs.len() { Some(cs[p + 1]) } else { None };
        if single_char_token(ch) is Some {
            Ok(((single_char_token(ch).unwrap(), l, c), p + 1))
        } else if ch == '<' {
            if next == Some('=') {
                Ok(((Tok::LtEq, l, c), p + 2))
            } else if next == Some('>') {
                Ok(((Tok::NotEq, l, c), p + 2))
            } else {
                Ok(((Tok::Lt, l, c), p + 1))
            }
        } else if ch == '>' {
            if next == Some('=') {
                Ok(((Tok::GtEq, l, c), p + 2))
            } else {
                Ok(((Tok::Gt, l, c), p + 1))
            }
        } else if ch == '\'' {
            match quote_at_or_after(cs, p + 1) {
                Some(q) => Ok(((Tok::StringLiteral(cs.subrange(p + 1, q)), l, c), q + 1)),
                None => {
                    let (el, ec) = line_col(cs, cs.len() as int);
                    Err(LexFailure::UnterminatedString(el, ec))
                },
            }
        } else if is_digit(ch) {
            let e = digits_end(cs, p);
            let ds = cs.subrange(p, e);
            if decimal(ds) <= i64::MAX {
                Ok(((Tok::IntLiteral(decimal(ds) as i64), l, c), e))
            } else {
                Err(LexFailure::InvalidNumber(ds, l, c))
            }
        } else if is_alpha(ch) || ch == '_' {
            let e = ident_end(cs, p);
            let w = cs.subrange(p, e);
            match keyword(ascii_upper(w)) {
                Some(k) => Ok(((k, l, c), e)),
                None => Ok(((Tok::Identifier(w), l, c), e)),
            }
        } else {
            Err(LexFailure::UnexpectedChar(ch, l, c))
        }
    }
}

/// The next token from position `p`, and where scanning continues.
pub open spec fn next_token_from(cs: Seq<char>, p: int) -> Result<(TokenModel, int), LexFailure> {
    token_at(cs, skip_ws(cs, p))
}

/// All tokens from position `p` up to and including the end-of-input token.
pub open spec fn tokens_from(cs: Seq<char>, p: int) -> Result<Seq<TokenModel>, LexFailure>
    decreases cs.len() - p,
{
    match next_token_from(cs, p) {
        Ok((t, e)) => if t.0 is EOF || e <= p || e > cs.len() {
            Ok(seq![t])
        } else {
            match tokens_from(cs, e) {
                Ok(ts) => Ok(seq![t] + ts),
                Err(f) => Err(f),
            }
        },
        Err(f) => Err(f),
    }
}

proof fn lemma_skip_ws_bounds(cs: Seq<char>, p: int)
    requires
        0 <= p,
    ensures
        p <= skip_ws(cs, p),
        p <= cs.len() ==> skip_ws(cs, p) <= cs.len(),
    decreases cs.len() - p, 1int,
{
    if p < cs.len() {
        if white_space(cs[p]) {
            lemma_skip_ws_bounds(cs, p + 1);
        } else if cs[p] == '-' && p + 1 < cs.len() && cs[p + 1] == '-' {
            let e = line_end(cs, p + 2);
            lemma_line_end_bounds(cs, p + 2);
            if p < e <= cs.len() {
                lemma_skip_ws_bounds(cs, e);
            }
        }
    }
}

proof fn lemma_line_end_bounds(cs: Seq<char>, p: int)
    requires
        0 <= p <= cs.len(),
    ensures
        p <= line_end(cs, p) <= cs.len(),
    decreases cs.len() - p,
{
    if p < cs.len() && cs[p] != '\n' {
        lemma_line_end_bounds(cs, p + 1);
    }
}

proof fn lemma_run_ends(cs: Seq<char>, p: int)
    requires
        0 <= p <= cs.len(),
    ensures
        p <= ident_end(cs, p) <= cs.len(),
        p <= digits_end(cs, p) <= cs.len(),
    decreases cs.len() - p,
{
    if p < cs.len() {
        lemma_run_ends(cs, p + 1);
    }
}

proof fn lemma_quote_bounds(cs: Seq<char>, p: int)
    requires
        0 <= p,
    ensures
        quote_at_or_after(cs, p) matches Some(q) ==> p <= q < cs.len() && cs[q] == '\'',
    decreases cs.len() - p,
{
    if p < cs.len() && cs[p] != '\'' {
        lemma_quote_bounds(cs, p + 1);
    }
}

proof fn lemma_line_col_bound(cs: Seq<char>, p: int)
    requires
        0 <= p,
    ensures
        line_col(cs, p).0 <= p + 1,
        line_col(cs, p).1 <= p + 1,
    decreases p,
{
    if p > 0 {
        lemma_line_col_bound(cs, p - 1);
    }
}

pub struct Lexer {
    chars: Vec<char>,
    pos: usize,
    line: usize,
    col: usize,
}

impl Lexer {
    /// The input characters.
    pub closed spec fn input(&self) -> Seq<char> {
        self.chars@
    }

    /// Where scanning continues.
    pub closed spec fn position(&self) -> int {
        self.pos as int
    }

    pub closed spec fn wf(&self) -> bool {
        &&& self.pos <= self.chars@.len()
        &&& self.chars@.len() < usize::MAX
        &&& (self.line as nat, self.col as nat) == line_col(self.chars@, self.pos as int)
    }

    pub fn new(src: &str) -> (r: Lexer)
        requires
            src@.len() < usize::MAX,
        ensures
            r.wf(),
            r.input() == src@,
            r.position() == 0,
    {
        Lexer { chars: chars_of(src), pos: 0, line: 1, col: 1 }
    }

    fn peek_char(&self) -> (r: Option<char>)
        requires
            self.wf(),
        ensures
            self.pos < self.chars@.len() ==> r == Some(self.chars@[self.pos as int]),
            self.pos >= self.chars@.len() ==> r is None,
    {
        if self.pos < self.chars.len() {
            Some(self.chars[self.pos])
        } else {
            None
        }
    }

    fn peek_second(&self) -> (r: Option<char>)
        requires
            self.wf(),
        ensures
            self.pos + 1 < self.chars@.len() ==> r == Some(self.chars@[self.pos + 1]),
            self.pos + 1 >= self.chars@.len() ==> r is None,
    {
        if self.pos + 1 < self.chars.len() {
            Some(self.chars[self.pos + 1])
        } else {
            None
        }
    }

    fn next_char(&mut self) -> (r: Option<char>)
        requires
            old(self).wf(),
        ensures
            final(self).wf(),
            final(self).chars@ == old(self).chars@,
            old(self).pos < old(self).chars@.len() ==> r == Some(old(self).chars@[old(self).pos as int])
                && final(self).pos == old(self).pos + 1,
            old(self).pos >= old(self).chars@.len() ==> r is None && final(self).pos == old(self).pos,
    {
        if self.pos >= self.chars.len() {
            return None;
        }
        let c = self.chars[self.pos];
        proof {
            lemma_line_col_bound(self.chars@, self.pos as int);
        }
        self.pos = self.pos + 1;
        if c == '\n' {
            self.line = self.line + 1;
            self.col = 1;
        } else {
            self.col = self.col + 1;
        }
        Some(c)
    }

    fn skip_whitespace_and_comments(&mut self)
        requires
            old(self).wf(),
        ensures
            final(self).wf(),
            final(self).chars@ == old(self).chars@,
            final(self).pos == skip_ws(old(self).chars@, old(self).pos as int),
    {
        let ghost cs = self.chars@;
        loop
            invariant
                self.wf(),
                self.chars@ == cs,
                skip_ws(cs, old(self).pos as int) == skip_ws(cs, self.pos as int),
            ensures
                self.wf(),
                self.chars@ == cs,
                skip_ws(cs, old(self).pos as int) == self.pos,
            decreases cs.len() - self.pos,
        {
            match self.peek_char() {
                Some(c) => {
                    if is_whitespace(c) {
                        self.next_char();
                        continue;
                    }
                    let second = self.peek_second();
                    let is_comment = c == '-' && match second {
                        Some(d) => d == '-',
                        None => false,
                    };
                    if is_comment {
                        let ghost start = self.pos as int;
                        self.next_char();
                        self.next_char();
                        loop
                            invariant
                                self.wf(),
                                self.chars@ == cs,
                                start + 2 <= self.pos,
                                line_end(cs, start + 2) == line_end(cs, self.pos as int),
                            ensures
                                self.wf(),
                                self.chars@ == cs,
                                start + 2 <= self.pos,
                                line_end(cs, start + 2) == self.pos,
                            decreases cs.len() - self.pos,
                        {
                            match self.peek_char() {
                                Some(d) => {
                                    if d == '\n' {
                                        break;
                                    }
                                    self.next_char();
                                },
                                None => {
                                    break;
                                },
                            }
                        }
                        assert(skip_ws(cs, start) == skip_ws(cs, self.pos as int));
                        continue;
                    }
                    assert(skip_ws(cs, self.pos as int) == self.pos);
                    break;
                },
                None => {
                    break;
                },
            }
        }
    }

    /// Reads the identifier starting here, as written.
    fn read_identifier_or_keyword(&mut self) -> (r: String)
        requires
            old(self).wf(),
        ensures
            final(self).wf(),
            final(self).chars@ == old(self).chars@,
            final(self).pos == ident_end(old(self).chars@, old(self).pos as int),
            r@ == old(self).chars@.subrange(old(self).pos as int, final(self).pos as int),
    {
        let ghost cs = self.chars@;
        let start = self.pos;
        let mut word: Vec<char> = Vec::new();
        loop
            invariant
                self.wf(),
                self.chars@ == cs,
                start <= self.pos,
                ident_end(cs, start as int) == ident_end(cs, self.pos as int),
                word@ == cs.subrange(start as int, self.pos as int),
            ensures
                self.wf(),
                self.chars@ == cs,
                ident_end(cs, start as int) == self.pos,
                word@ == cs.subrange(start as int, self.pos as int),
            decreases cs.len() - self.pos,
        {
            match self.peek_char() {
                Some(c) => {
                    if ('a' <= c && c <= 'z') || ('A' <= c && c <= 'Z') || ('0' <= c && c <= '9')
                        || c == '_' {
                        word.push(c);
                        self.next_char();
                        assert(word@ =~= cs.subrange(start as int, self.pos as int));
                    } else {
                        break;
                    }
                },
                None => {
                    break;
                },
            }
        }
        string_of_chars(word.as_slice())
    }

    /// Reads the digits starting here and their value, if it fits in an
    /// `i64`.
    fn read_number(&mut self) -> (r: (Vec<char>, Option<i64>))
        requires
            old(self).wf(),
        ensures
            final(self).wf(),
            final(self).chars@ == old(self).chars@,
            final(self).pos == digits_end(old(self).chars@, old(self).pos as int),
            r.0@ == old(self).chars@.subrange(old(self).pos as int, final(self).pos as int),
            decimal(r.0@) <= i64::MAX ==> r.1 == Some(decimal(r.0@) as i64),
            decimal(r.0@) > i64::MAX ==> r.1 is None,
    {
        let ghost cs = self.chars@;
        let start = self.pos;
        let mut digits: Vec<char> = Vec::new();
        let mut value: Option<i64> = Some(0);
        loop
            invariant
                self.wf(),
                self.chars@ == cs,
                start <= self.pos,
                digits_end(cs, start as int) == digits_end(cs, self.pos as int),
                digits@ == cs.subrange(start as int, self.pos as int),
                forall|i: int| 0 <= i < digits@.len() ==> is_digit(#[trigger] digits@[i]),
                decimal(digits@) >= 0,
                decimal(digits@) <= i64::MAX ==> value == Some(decimal(digits@) as i64),
                decimal(digits@) > i64::MAX ==> value is None,
            ensures
                self.wf(),
                self.chars@ == cs,
                digits_end(cs, start as int) == self.pos,
                digits@ == cs.subrange(start as int, self.pos as int),
                decimal(digits@) <= i64::MAX ==> value == Some(decimal(digits@) as i64),
                decimal(digits@) > i64::MAX ==> value is None,
            decreases cs.len() - self.pos,
        {
            match self.peek_char() {
                Some(c) => {
                    if '0' <= c && c <= '9' {
                        let ghost before = digits@;
                        digits.push(c);
                        self.next_char();
                        assert(digits@ =~= cs.subrange(start as int, self.pos as int));
                        assert(digits@.drop_last() =~= before);
                        let d = (c as u32 - '0' as u32) as i64;
                        value = match value {
                            Some(v) => match v.checked_mul(10) {
                                Some(m) => m.checked_add(d),
                                None => None,
                            },
                            None => None,
                        };
                    } else {
                        break;
                    }
                },
                None => {
                    break;
                },
            }
        }
        (digits, value)
    }

    /// Reads a string body up to the closing quote, which is consumed.
    fn read_string(&mut self) -> (r: Result<String, LexError>)
        requires
            old(self).wf(),
        ensures
            final(self).wf(),
            final(self).chars@ == old(self).chars@,
            match quote_at_or_after(old(self).chars@, old(self).pos as int) {
                Some(q) => r matches Ok(s) && s@ == old(self).chars@.subrange(
                    old(self).pos as int,
                    q,
                ) && final(self).pos == q + 1,
                None => r matches Err(e) && e@ == LexFailure::UnterminatedString(
                    line_col(old(self).chars@, old(self).chars@.len() as int).0,
                    line_col(old(self).chars@, old(self).chars@.len() as int).1,
                ),
            },
    {
        let ghost cs = self.chars@;
        let start = self.pos;
        let mut body: Vec<char> = Vec::new();
        let mut found = false;
        loop
            invariant_except_break
                start <= self.pos,
                quote_at_or_after(cs, start as int) == quote_at_or_after(cs, self.pos as int),
                body@ == cs.subrange(start as int, self.pos as int),
                !found,
            invariant
                self.wf(),
                self.chars@ == cs,
            ensures
                found ==> start < self.pos && quote_at_or_after(cs, start as int) == Some(
                    self.pos - 1,
                ) && body@ == cs.subrange(start as int, self.pos - 1),
                !found ==> self.pos == cs.len() && quote_at_or_after(cs, start as int) is None,
            decreases cs.len() - self.pos,
        {
            match self.next_char() {
                Some(c) => {
                    if c == '\'' {
                        found = true;
                        break;
                    }
                    body.push(c);
                    assert(body@ =~= cs.subrange(start as int, self.pos as int));
                },
                None => {
                    break;
                },
            }
        }
        if !found {
            return Err(LexError::UnterminatedString(self.line, self.col));
        }
        Ok(string_of_chars(body.as_slice()))
    }

    /// The next token, skipping white space and comments before it.
    pub fn next_token(&mut self) -> (r: Result<Token, LexError>)
        requires
            old(self).wf(),
        ensures
            final(self).wf(),
            final(self).input() == old(self).input(),
            match next_token_from(old(self).input(), old(self).position()) {
                Ok((t, e)) => r matches Ok(tok) && token_model(tok) == t && final(self).position()
                    == e,
                Err(f) => r matches Err(err) && err@ == f,
            },
    {
        self.skip_whitespace_and_comments();
        let ghost cs = self.chars@;
        let ghost p = self.pos as int;
        let line = self.line;
        let col = self.col;
        let first = self.peek_char();
        let second = self.peek_second();
        let c = match first {
            Some(c) => c,
            None => {
                return Ok(Token { kind: TokenKind::EOF, line, col });
            },
        };
        let single = if c == ',' {
            Some(TokenKind::Comma)
        } else if c == ';' {
            Some(TokenKind::Semicolon)
        } else if c == '(' {
            Some(TokenKind::LParen)
        } else if c == ')' {
            Some(TokenKind::RParen)
        } else if c == '+' {
            Some(TokenKind::Plus)
        } else if c == '-' {
            Some(TokenKind::Minus)
        } else if c == '*' {
            Some(TokenKind::Star)
        } else if c == '/' {
            Some(TokenKind::Slash)
        } else if c == '=' {
            Some(TokenKind::Eq)
        } else {
            None
        };
        if let Some(kind) = single {
            self.next_char();
            return Ok(Token { kind, line, col });
        }
        if c == '<' {
            self.next_char();
            if second == Some('=') {
                self.next_char();
                return Ok(Token { kind: TokenKind::LtEq, line, col });
            } else if second == Some('>') {
                self.next_char();
                return Ok(Token { kind: TokenKind::NotEq, line, col });
            }
            return Ok(Token { kind: TokenKind::Lt, line, col });
        }
        if c == '>' {
            self.next_char();
            if second == Some('=') {
                self.next_char();
                return Ok(Token { kind: TokenKind::GtEq, line, col });
            }
            return Ok(Token { kind: TokenKind::Gt, line, col });
        }
        if c == '\'' {
            self.next_char();
            return match self.read_string() {
                Ok(s) => Ok(Token { kind: TokenKind::StringLiteral(s), line, col }),
                Err(e) => Err(e),
            };
        }
        if '0' <= c && c <= '9' {
            let (digits, value) = self.read_number();
            return match value {
                Some(v) => Ok(Token { kind: TokenKind::IntLiteral(v), line, col }),
                None => Err(LexError::InvalidNumber(string_of_chars(digits.as_slice()), line, col)),
            };
        }
        if ('a' <= c && c <= 'z') || ('A' <= c && c <= 'Z') || c == '_' {
            let ident = self.read_identifier_or_keyword();
            let kind = keyword_kind(&ident);
            return Ok(Token { kind, line, col });
        }
        Err(LexError::UnexpectedChar(c, line, col))
    }
}

/// The keyword a word spells in any ASCII case, or an identifier token
/// holding the word as written.
fn keyword_kind(w: &String) -> (r: TokenKind)
    ensures
        match keyword(ascii_upper(w@)) {
            Some(k) => r@ == k,
            None => r@ == Tok::Identifier(w@),
        },
{
    let upper = to_ascii_uppercase(w.as_str());
    let s = upper.as_str();
    if crate::text::str_is(s, "SELECT") {
        TokenKind::Select
    } else if crate::text::str_is(s, "INSERT") {
        TokenKind::Insert
    } else if crate::text::str_is(s, "UPDATE") {
        TokenKind::Update
    } else if crate::text::str_is(s, "DELETE") {
        TokenKind::Delete
    } else if crate::text::str_is(s, "FROM") {
        TokenKind::From
    } else if crate::text::str_is(s, "WHERE") {
        TokenKind::Where
    } else if crate::text::str_is(s, "AND") {
        TokenKind::And
    } else if crate::text::str_is(s, "OR") {
        TokenKind::Or
    } else if crate::text::str_is(s, "CREATE") {
        TokenKind::Create
    } else if crate::text::str_is(s, "TABLE") {
        TokenKind::Table
    } else if crate::text::str_is(s, "INTO") {
        TokenKind::Into
    } else if crate::text::str_is(s, "VALUES") {
        TokenKind::Values
    } else {
        TokenKind::Identifier(w.clone())
    }
}

/// Every token of `src`, ending with the end-of-input token.
pub fn tokenize(src: &str) -> (r: Result<Vec<Token>, LexError>)
    requires
        src@.len() < usize::MAX,
    ensures
        match tokens_from(src@, 0) {
            Ok(ts) => r matches Ok(v) && v@.map_values(|t: Token| token_model(t)) == ts,
            Err(f) => r matches Err(e) && e@ == f,
        },
{
    let mut lexer = Lexer::new(src);
    let mut out: Vec<Token> = Vec::new();
    let ghost cs = src@;
    loop
        invariant
            lexer.wf(),
            lexer.input() == cs,
            cs == src@,
            cs.len() < usize::MAX,
            tokens_from(cs, 0) == match tokens_from(cs, lexer.position()) {
                Ok(ts) => Ok(out@.map_values(|t: Token| token_model(t)) + ts),
                Err(f) => Err(f),
            },
        decreases cs.len() - lexer.position(),
    {
        let p = lexer.pos;
        let ghost p0 = lexer.position();
        let ghost before = out@.map_values(|t: Token| token_model(t));
        let tok = match lexer.next_token() {
            Ok(t) => t,
            Err(e) => {
                assert(tokens_from(cs, p0) == Err::<Seq<TokenModel>, LexFailure>(e@));
                return Err(e);
            },
        };
        let is_eof = match tok.kind {
            TokenKind::EOF => true,
            _ => false,
        };
        let ghost tm = token_model(tok);
        out.push(tok);
        assert(out@.map_values(|t: Token| token_model(t)) =~= before.push(tm));
        if is_eof || lexer.pos <= p {
            assert(tokens_from(cs, p0) == Ok::<Seq<TokenModel>, LexFailure>(seq![tm]));
            assert(before.push(tm) =~= before + seq![tm]);
            return Ok(out);
        }
        assert forall|ts: Seq<TokenModel>| before + (seq![tm] + ts) =~= before.push(tm) + ts by {}
    }
}

} // verus!
