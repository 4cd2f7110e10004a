//! The SQL parser: statements and expressions over the lexer's tokens.
use vstd::prelude::*;
use crate::binder::ValueModel;
use crate::lexer::{LexError, Tok, Token, TokenKind, tokenize, token_model, tokens_from};

verus! {

#[derive(Debug)]
pub enum Statement {
    CreateTable { name: String, columns: Vec<(String, String)> },
    CreateIndex { index_name: String, table: String, column: String },
    Insert { table: String, columns: Vec<String>, values: Vec<Expr> },
    Select { projections: Vec<Expr>, table: String, filter: Option<Expr> },
}

#[derive(Debug)]
pub enum Expr {
    Column(String),
    Literal(Value),
    BinaryOp { left: Box<Expr>, op: BinaryOp, right: Box<Expr> },
}

#[derive(Debug, Clone)]
pub enum Value {
    Int(i64),
    String(String),
}

impl View for Value {
    type V = ValueModel;

    open spec fn view(&self) -> ValueModel {
        match self {
            Value::Int(i) => ValueModel::Int(*i),
            Value::String(s) => ValueModel::Str(s@),
        }
    }
}

#[derive(Debug, Copy, Clone, PartialEq, Eq, Structural)]
pub enum BinaryOp {
    Eq,
    NotEq,
    Lt,
    LtEq,
    Gt,
    GtEq,
    And,
    Or,
}

} // verus!

verus! {

/// An expression with names and strings as characters.
pub enum ExprModel {
    Column(Seq<char>),
    Literal(ValueModel),
    BinaryOp(Box<ExprModel>, BinaryOp, Box<ExprModel>),
}

pub open spec fn expr_model(e: Expr) -> ExprModel
    decreases e,
{
    match e {
        Expr::Column(c) => ExprModel::Column(c@),
        Expr::Literal(v) => ExprModel::Literal(v@),
        Expr::BinaryOp { left, op, right } => ExprModel::BinaryOp(
            Box::new(expr_model(*left)),
            op,
            Box::new(expr_model(*right)),
        ),
    }
}

/// A statement with names as characters.
pub enum StatementModel {
    CreateTable(Seq<char>, Seq<(Seq<char>, Seq<char>)>),
    CreateIndex(Seq<char>, Seq<char>, Seq<char>),
    Insert(Seq<char>, Seq<Seq<char>>, Seq<ExprModel>),
    Select(Seq<ExprModel>, Seq<char>, Option<ExprModel>),
}

pub open spec fn exprs_model(es: Seq<Expr>) -> Seq<ExprModel> {
    es.map_values(|e: Expr| expr_model(e))
}

pub open spec fn statement_model(s: Statement) -> StatementModel {
    match s {
        Statement::CreateTable { name, columns } => StatementModel::CreateTable(
            name@,
            columns@.map_values(|c: (String, String)| (c.0@, c.1@)),
        ),
        Statement::CreateIndex { index_name, table, column } => StatementModel::CreateIndex(
            index_name@,
            table@,
            column@,
        ),
        Statement::Insert { table, columns, values } => StatementModel::Insert(
            table@,
            columns@.map_values(|c: String| c@),
            exprs_model(values@),
        ),
        Statement::Select { projections, table, filter } => StatementModel::Select(
            exprs_model(projections@),
            table@,
            match filter {
                Some(f) => Some(expr_model(f)),
                None => None,
            },
        ),
    }
}

} // verus!

verus! {

/// The kind of token `p`; past the end, the end-of-input token.
pub open spec fn tok_at(ts: Seq<Tok>, p: int) -> Tok {
    if 0 <= p < ts.len() {
        ts[p]
    } else {
        Tok::EOF
    }
}

/// The binary operator a token stands for, with its precedence:
/// OR 4, AND 5, comparisons 10.
pub open spec fn op_prec(t: Tok) -> Option<(BinaryOp, u8)> {
    match t {
        Tok::Eq => Some((BinaryOp::Eq, 10u8)),
        Tok::NotEq => Some((BinaryOp::NotEq, 10u8)),
        Tok::Lt => Some((BinaryOp::Lt, 10u8)),
        Tok::LtEq => Some((BinaryOp::LtEq, 10u8)),
        Tok::Gt => Some((BinaryOp::Gt, 10u8)),
        Tok::GtEq => Some((BinaryOp::GtEq, 10u8)),
        Tok::And => Some((BinaryOp::And, 5u8)),
        Tok::Or => Some((BinaryOp::Or, 4u8)),
        _ => None,
    }
}

/// A primary expression at `p`: a column, a literal, or a parenthesized
/// expression; with the position after it.
pub open spec fn primary_at(ts: Seq<Tok>, p: int) -> Option<(ExprModel, int)>
    decreases ts.len() - p, 1int,
{
    if p < 0 || p >= ts.len() {
        None
    } else {
        match ts[p] {
            Tok::Identifier(s) => Some((ExprModel::Column(s), p + 1)),
            Tok::IntLiteral(v) => Some((ExprModel::Literal(ValueModel::Int(v)), p + 1)),
            Tok::StringLiteral(s) => Some((ExprModel::Literal(ValueModel::Str(s)), p + 1)),
            Tok::LParen => match binary_at(ts, p + 1, 0) {
                Some((e, q)) => if tok_at(ts, q) is RParen {
                    Some((e, q + 1))
                } else {
                    None
                },
                None => None,
            },
            _ => None,
        }
    }
}

/// An expression at `p` whose operators bind at least as tightly as
/// `min_prec`, with the position after it.
pub open spec fn binary_at(ts: Seq<Tok>, p: int, min_prec: u8) -> Option<(ExprModel, int)>
    decreases ts.len() - p, 2int,
{
    if p < 0 || p >= ts.len() {
        None
    } else {
        match primary_at(ts, p) {
            Some((l, q)) => if p < q <= ts.len() {
                climb(ts, q, l, min_prec)
            } else {
                None
            },
            None => None,
        }
    }
}

/// Extends `left` with operators at `p` and after of precedence at least
/// `min_prec`; each right operand binds more tightly than its operator.
pub open spec fn climb(ts: Seq<Tok>, p: int, left: ExprModel, min_prec: u8) -> Option<(ExprModel, int)>
    decreases ts.len() - p, 0int,
{
    if p < 0 || p > ts.len() {
        None
    } else {
        match op_prec(tok_at(ts, p)) {
            Some((op, prec)) => if prec >= min_prec && p < ts.len() {
                match binary_at(ts, p + 1, (prec + 1) as u8) {
                    Some((r, q)) => if p < q <= ts.len() {
                        climb(ts, q, ExprModel::BinaryOp(Box::new(left), op, Box::new(r)), min_prec)
                    } else {
                        None
                    },
                    None => None,
                }
            } else {
                Some((left, p))
            },
            None => Some((left, p)),
        }
    }
}

/// A comma-separated list of expressions at `p`.
pub open spec fn expr_list_at(ts: Seq<Tok>, p: int) -> Option<(Seq<ExprModel>, int)>
    decreases ts.len() - p,
{
    match binary_at(ts, p, 0) {
        Some((e, q)) => if tok_at(ts, q) is Comma && p < q < ts.len() {
            match expr_list_at(ts, q + 1) {
                Some((rest, r)) => Some((seq![e] + rest, r)),
                None => None,
            }
        } else {
            Some((seq![e], q))
        },
        None => None,
    }
}

/// A comma-separated list of identifiers at `p`.
pub open spec fn ident_list_at(ts: Seq<Tok>, p: int) -> Option<(Seq<Seq<char>>, int)>
    decreases ts.len() - p,
{
    match tok_at(ts, p) {
        Tok::Identifier(c) => if tok_at(ts, p + 1) is Comma && p + 1 < ts.len() {
            match ident_list_at(ts, p + 2) {
                Some((rest, r)) => Some((seq![c] + rest, r)),
                None => None,
            }
        } else {
            Some((seq![c], p + 1))
        },
        _ => None,
    }
}

/// A comma-separated list of `name type` pairs at `p`.
pub open spec fn column_defs_at(ts: Seq<Tok>, p: int) -> Option<(Seq<(Seq<char>, Seq<char>)>, int)>
    decreases ts.len() - p,
{
    match (tok_at(ts, p), tok_at(ts, p + 1)) {
        (Tok::Identifier(c), Tok::Identifier(t)) => if tok_at(ts, p + 2) is Comma && p + 2
            < ts.len() {
            match column_defs_at(ts, p + 3) {
                Some((rest, r)) => Some((seq![(c, t)] + rest, r)),
                None => None,
            }
        } else {
            Some((seq![(c, t)], p + 2))
        },
        _ => None,
    }
}

pub open spec fn ident_at(ts: Seq<Tok>, p: int) -> Option<Seq<char>> {
    match tok_at(ts, p) {
        Tok::Identifier(s) => Some(s),
        _ => None,
    }
}

/// An identifier at `p` that spells `word` in any ASCII case.
pub open spec fn word_at(ts: Seq<Tok>, p: int, word: Seq<char>) -> bool {
    match tok_at(ts, p) {
        Tok::Identifier(s) => crate::text::ascii_lower(s) == crate::text::ascii_lower(word),
        _ => false,
    }
}

/// `CREATE TABLE name ( col type, ... ) ;`
pub open spec fn create_table_at(ts: Seq<Tok>, p: int) -> Option<(StatementModel, int)> {
    if tok_at(ts, p) is Create && tok_at(ts, p + 1) is Table && ident_at(ts, p + 2) is Some
        && tok_at(ts, p + 3) is LParen {
        match column_defs_at(ts, p + 4) {
            Some((cols, q)) => if tok_at(ts, q) is RParen && tok_at(ts, q + 1) is Semicolon {
                Some((StatementModel::CreateTable(ident_at(ts, p + 2).unwrap(), cols), q + 2))
            } else {
                None
            },
            None => None,
        }
    } else {
        None
    }
}

/// `CREATE INDEX name ON table ( column ) ;`
pub open spec fn create_index_at(ts: Seq<Tok>, p: int) -> Option<(StatementModel, int)> {
    if tok_at(ts, p) is Create && word_at(ts, p + 1, "INDEX"@) && ident_at(ts, p + 2) is Some
        && word_at(ts, p + 3, "ON"@) && ident_at(ts, p + 4) is Some && tok_at(ts, p + 5) is LParen
        && ident_at(ts, p + 6) is Some && tok_at(ts, p + 7) is RParen && tok_at(ts, p + 8) is Semicolon {
        Some(
            (
                StatementModel::CreateIndex(
                    ident_at(ts, p + 2).unwrap(),
                    ident_at(ts, p + 4).unwrap(),
                    ident_at(ts, p + 6).unwrap(),
                ),
                p + 9,
            ),
        )
    } else {
        None
    }
}

/// `INSERT INTO name ( col, ... ) VALUES ( expr, ... ) ;`
pub open spec fn insert_at(ts: Seq<Tok>, p: int) -> Option<(StatementModel, int)> {
    if tok_at(ts, p) is Insert && tok_at(ts, p + 1) is Into && ident_at(ts, p + 2) is Some
        && tok_at(ts, p + 3) is LParen {
        match ident_list_at(ts, p + 4) {
            Some((cols, q)) => if tok_at(ts, q) is RParen && tok_at(ts, q + 1) is Values && tok_at(
                ts,
                q + 2,
            ) is LParen {
                match expr_list_at(ts, q + 3) {
                    Some((vals, r)) => if tok_at(ts, r) is RParen && tok_at(ts, r + 1) is Semicolon {
                        Some((StatementModel::Insert(ident_at(ts, p + 2).unwrap(), cols, vals), r + 2))
                    } else {
                        None
                    },
                    None => None,
                }
            } else {
                None
            },
            None => None,
        }
    } else {
        None
    }
}

/// `SELECT expr, ... FROM name [WHERE expr] ;`
pub open spec fn select_at(ts: Seq<Tok>, p: int) -> Option<(StatementModel, int)> {
    if tok_at(ts, p) is Select {
        match expr_list_at(ts, p + 1) {
            Some((projs, q)) => if tok_at(ts, q) is From && ident_at(ts, q + 1) is Some {
                let table = ident_at(ts, q + 1).unwrap();
                if tok_at(ts, q + 2) is Where {
                    match binary_at(ts, q + 3, 0) {
                        Some((f, r)) => if tok_at(ts, r) is Semicolon {
                            Some((StatementModel::Select(projs, table, Some(f)), r + 1))
                        } else {
                            None
                        },
                        None => None,
                    }
                } else if tok_at(ts, q + 2) is Semicolon {
                    Some((StatementModel::Select(projs, table, None), q + 3))
                } else {
                    None
                }
            } else {
                None
            },
            None => None,
        }
    } else {
        None
    }
}

/// A statement at `p`. `CREATE` followed by the word `INDEX` starts an index
/// definition, any other `CREATE` a table definition.
pub open spec fn statement_at(ts: Seq<Tok>, p: int) -> Option<(StatementModel, int)> {
    match tok_at(ts, p) {
        Tok::Create => if word_at(ts, p + 1, "INDEX"@) {
            create_index_at(ts, p)
        } else {
            create_table_at(ts, p)
        },
        Tok::Insert => insert_at(ts, p),
        Tok::Select => select_at(ts, p),
        _ => None,
    }
}

} // verus!

verus! {

/// `r` with `acc` put in front of its list.
pub open spec fn prepend<A>(acc: Seq<A>, r: Option<(Seq<A>, int)>) -> Option<(Seq<A>, int)> {
    match r {
        Some((l, q)) => Some((acc + l, q)),
        None => None,
    }
}

/// Why a statement could not be parsed.
#[derive(Debug)]
pub enum ParseError {
    Lex(LexError),
    /// An unexpected token, at this line and column.
    UnexpectedToken(usize, usize),
}

/// A copy of a token kind.
fn copy_kind(k: &TokenKind) -> (r: TokenKind)
    ensures
        r@ == k@,
{
    match k {
        TokenKind::Identifier(s) => TokenKind::Identifier(s.clone()),
        TokenKind::StringLiteral(s) => TokenKind::StringLiteral(s.clone()),
        TokenKind::IntLiteral(v) => TokenKind::IntLiteral(*v),
        TokenKind::Select => TokenKind::Select,
        TokenKind::Insert => TokenKind::Insert,
        TokenKind::Update => TokenKind::Update,
        TokenKind::Delete => TokenKind::Delete,
        TokenKind::From => TokenKind::From,
        TokenKind::Where => TokenKind::Where,
        TokenKind::And => TokenKind::And,
        TokenKind::Or => TokenKind::Or,
        TokenKind::Create => TokenKind::Create,
        TokenKind::Table => TokenKind::Table,
        TokenKind::Into => TokenKind::Into,
        TokenKind::Values => TokenKind::Values,
        TokenKind::Eq => TokenKind::Eq,
        TokenKind::NotEq => TokenKind::NotEq,
        TokenKind::Lt => TokenKind::Lt,
        TokenKind::LtEq => TokenKind::LtEq,
        TokenKind::Gt => TokenKind::Gt,
        TokenKind::GtEq => TokenKind::GtEq,
        TokenKind::Plus => TokenKind::Plus,
        TokenKind::Minus => TokenKind::Minus,
        TokenKind::Star => TokenKind::Star,
        TokenKind::Slash => TokenKind::Slash,
        TokenKind::Comma => TokenKind::Comma,
        TokenKind::Semicolon => TokenKind::Semicolon,
        TokenKind::LParen => TokenKind::LParen,
        TokenKind::RParen => TokenKind::RParen,
        TokenKind::EOF => TokenKind::EOF,
    }
}

/// Whether two token kinds are the same kind with the same contents.
fn same_kind(a: &TokenKind, b: &TokenKind) -> (r: bool)
    ensures
        r == (a@ == b@),
{
    match b {
        TokenKind::Identifier(y) => match a {
            TokenKind::Identifier(x) => crate::text::str_is(x.as_str(), y.as_str()),
            _ => false,
        },
        TokenKind::StringLiteral(y) => match a {
            TokenKind::StringLiteral(x) => crate::text::str_is(x.as_str(), y.as_str()),
            _ => false,
        },
        TokenKind::IntLiteral(y) => match a {
            TokenKind::IntLiteral(x) => *x == *y,
            _ => false,
        },
        TokenKind::Select => matches!(a, TokenKind::Select),
        TokenKind::Insert => matches!(a, TokenKind::Insert),
        TokenKind::Update => matches!(a, TokenKind::Update),
        TokenKind::Delete => matches!(a, TokenKind::Delete),
        TokenKind::From => matches!(a, TokenKind::From),
        TokenKind::Where => matches!(a, TokenKind::Where),
        TokenKind::And => matches!(a, TokenKind::And),
        TokenKind::Or => matches!(a, TokenKind::Or),
        TokenKind::Create => matches!(a, TokenKind::Create),
        TokenKind::Table => matches!(a, TokenKind::Table),
        TokenKind::Into => matches!(a, TokenKind::Into),
        TokenKind::Values => matches!(a, TokenKind::Values),
        TokenKind::Eq => matches!(a, TokenKind::Eq),
        TokenKind::NotEq => matches!(a, TokenKind::NotEq),
        TokenKind::Lt => matches!(a, TokenKind::Lt),
        TokenKind::LtEq => matches!(a, TokenKind::LtEq),
        TokenKind::Gt => matches!(a, TokenKind::Gt),
        TokenKind::GtEq => matches!(a, TokenKind::GtEq),
        TokenKind::Plus => matches!(a, TokenKind::Plus),
        TokenKind::Minus => matches!(a, TokenKind::Minus),
        TokenKind::Star => matches!(a, TokenKind::Star),
        TokenKind::Slash => matches!(a, TokenKind::Slash),
        TokenKind::Comma => matches!(a, TokenKind::Comma),
        TokenKind::Semicolon => matches!(a, TokenKind::Semicolon),
        TokenKind::LParen => matches!(a, TokenKind::LParen),
        TokenKind::RParen => matches!(a, TokenKind::RParen),
        TokenKind::EOF => matches!(a, TokenKind::EOF),
    }
}

pub struct Parser {
    tokens: Vec<Token>,
    pos: usize,
}

impl Parser {
    /// The kinds of the tokens.
    pub closed spec fn kinds(&self) -> Seq<Tok> {
        self.tokens@.map_values(|t: Token| t.kind@)
    }

    /// The position of the next token.
    pub closed spec fn position(&self) -> int {
        self.pos as int
    }

    pub closed spec fn wf(&self) -> bool {
        &&& self.pos <= self.tokens@.len()
    }

    /// Lexes `src` and sets up to parse from its first token.
    pub fn new(src: &str) -> (r: Result<Parser, ParseError>)
        requires
            src@.len() < usize::MAX,
        ensures
            r is Ok <==> tokens_from(src@, 0) is Ok,
            r matches Ok(p) ==> p.wf() && p.position() == 0 && p.kinds() == tokens_from(
                src@,
                0,
            )->Ok_0.map_values(|m: crate::lexer::TokenModel| m.0),
    {
        match tokenize(src) {
            Ok(tokens) => {
                let p = Parser { tokens, pos: 0 };
                proof {
                    let ts = tokens_from(src@, 0)->Ok_0;
                    assert(p.kinds() =~= ts.map_values(|m: crate::lexer::TokenModel| m.0));
                }
                Ok(p)
            },
            Err(e) => Err(ParseError::Lex(e)),
        }
    }

    /// The kind of the next token (the end-of-input token past the end).
    fn peek(&self) -> (r: TokenKind)
        requires
            self.wf(),
        ensures
            r@ == tok_at(self.kinds(), self.position()),
    {
        if self.pos < self.tokens.len() {
            copy_kind(&self.tokens[self.pos].kind)
        } else {
            TokenKind::EOF
        }
    }

    /// The kind of the token after the next one.
    fn peek_second(&self) -> (r: TokenKind)
        requires
            self.wf(),
        ensures
            r@ == tok_at(self.kinds(), self.position() + 1),
    {
        if self.pos < self.tokens.len() && self.pos + 1 < self.tokens.len() {
            copy_kind(&self.tokens[self.pos + 1].kind)
        } else {
            TokenKind::EOF
        }
    }

    /// Moves past the next token and returns its kind.
    fn bump(&mut self) -> (r: TokenKind)
        requires
            old(self).wf(),
        ensures
            final(self).wf(),
            final(self).kinds() == old(self).kinds(),
            r@ == tok_at(old(self).kinds(), old(self).position()),
            old(self).position() < old(self).kinds().len() ==> final(self).position()
                == old(self).position() + 1,
    {
        let k = self.peek();
        if self.pos < self.tokens.len() {
            self.pos = self.pos + 1;
        }
        k
    }

    fn error_here(&self) -> (r: ParseError)
        requires
            self.wf(),
    {
        if self.pos < self.tokens.len() {
            ParseError::UnexpectedToken(self.tokens[self.pos].line, self.tokens[self.pos].col)
        } else {
            ParseError::UnexpectedToken(0, 0)
        }
    }

    /// Moves past the next token if it is of kind `kind`, fails otherwise.
    fn expect(&mut self, kind: TokenKind) -> (r: Result<(), ParseError>)
        requires
            old(self).wf(),
            kind@ != Tok::EOF,
        ensures
            final(self).wf(),
            final(self).kinds() == old(self).kinds(),
            r is Ok <==> tok_at(old(self).kinds(), old(self).position()) == kind@,
            r is Ok ==> final(self).position() == old(self).position() + 1,
    {
        let t = self.peek();
        if same_kind(&t, &kind) {
            self.bump();
            Ok(())
        } else {
            Err(self.error_here())
        }
    }

    /// Moves past an identifier and returns its text.
    fn expect_ident(&mut self) -> (r: Result<String, ParseError>)
        requires
            old(self).wf(),
        ensures
            final(self).wf(),
            final(self).kinds() == old(self).kinds(),
            r is Ok <==> ident_at(old(self).kinds(), old(self).position()) is Some,
            r matches Ok(s) ==> Some(s@) == ident_at(old(self).kinds(), old(self).position())
                && final(self).position() == old(self).position() + 1,
    {
        match self.peek() {
            TokenKind::Identifier(s) => {
                self.bump();
                Ok(s)
            },
            _ => Err(self.error_here()),
        }
    }

    /// Moves past an identifier spelling `word` in any ASCII case.
    fn expect_word(&mut self, word: &str) -> (r: Result<(), ParseError>)
        requires
            old(self).wf(),
        ensures
            final(self).wf(),
            final(self).kinds() == old(self).kinds(),
            r is Ok <==> word_at(old(self).kinds(), old(self).position(), word@),
            r is Ok ==> final(self).position() == old(self).position() + 1,
    {
        match self.peek() {
            TokenKind::Identifier(s) => {
                if crate::text::eq_ignore_ascii_case(s.as_str(), word) {
                    self.bump();
                    Ok(())
                } else {
                    Err(self.error_here())
                }
            },
            _ => Err(self.error_here()),
        }
    }

    /// The operator of the next token, with its precedence.
    fn peek_op_prec(&self) -> (r: Option<(BinaryOp, u8)>)
        requires
            self.wf(),
        ensures
            r == op_prec(tok_at(self.kinds(), self.position())),
    {
        match self.peek() {
            TokenKind::Eq => Some((BinaryOp::Eq, 10)),
            TokenKind::NotEq => Some((BinaryOp::NotEq, 10)),
            TokenKind::Lt => Some((BinaryOp::Lt, 10)),
            TokenKind::LtEq => Some((BinaryOp::LtEq, 10)),
            TokenKind::Gt => Some((BinaryOp::Gt, 10)),
            TokenKind::GtEq => Some((BinaryOp::GtEq, 10)),
            TokenKind::And => Some((BinaryOp::And, 5)),
            TokenKind::Or => Some((BinaryOp::Or, 4)),
            _ => None,
        }
    }

    fn parse_primary(&mut self) -> (r: Result<Expr, ParseError>)
        requires
            old(self).wf(),
        ensures
            final(self).wf(),
            final(self).kinds() == old(self).kinds(),
            match primary_at(old(self).kinds(), old(self).position()) {
                Some((e, q)) => r matches Ok(x) && expr_model(x) == e && final(self).position() == q,
                None => r is Err,
            },
        decreases old(self).kinds().len() - old(self).position(), 1int,
    {
        let ghost ts = self.kinds();
        let ghost p = self.position();
        if self.pos >= self.tokens.len() {
            return Err(self.error_here());
        }
        match self.peek() {
            TokenKind::Identifier(c) => {
                self.bump();
                Ok(Expr::Column(c))
            },
            TokenKind::IntLiteral(v) => {
                self.bump();
                Ok(Expr::Literal(Value::Int(v)))
            },
            TokenKind::StringLiteral(s) => {
                self.bump();
                Ok(Expr::Literal(Value::String(s)))
            },
            TokenKind::LParen => {
                self.bump();
                let e = self.parse_expr()?;
                match self.expect(TokenKind::RParen) {
                    Ok(()) => Ok(e),
                    Err(err) => Err(err),
                }
            },
            _ => Err(self.error_here()),
        }
    }

    fn parse_expr(&mut self) -> (r: Result<Expr, ParseError>)
        requires
            old(self).wf(),
        ensures
            final(self).wf(),
            final(self).kinds() == old(self).kinds(),
            match binary_at(old(self).kinds(), old(self).position(), 0) {
                Some((e, q)) => r matches Ok(x) && expr_model(x) == e && final(self).position() == q,
                None => r is Err,
            },
        decreases old(self).kinds().len() - old(self).position(), 3int,
    {
        self.parse_binary_op(0)
    }

    /// Precedence climbing: a primary, then operators binding at least as
    /// tightly as `min_prec`.
    fn parse_binary_op(&mut self, min_prec: u8) -> (r: Result<Expr, ParseError>)
        requires
            old(self).wf(),
        ensures
            final(self).wf(),
            final(self).kinds() == old(self).kinds(),
            match binary_at(old(self).kinds(), old(self).position(), min_prec) {
                Some((e, q)) => r matches Ok(x) && expr_model(x) == e && final(self).position() == q,
                None => r is Err,
            },
        decreases old(self).kinds().len() - old(self).position(), 2int,
    {
        let ghost ts = self.kinds();
        let ghost p0 = self.position();
        if self.pos >= self.tokens.len() {
            return Err(self.error_here());
        }
        let mut left = self.parse_primary()?;
        proof {
            lemma_primary_advances(ts, p0);
        }
        loop
            invariant
                self.wf(),
                self.kinds() == ts,
                ts == old(self).kinds(),
                p0 == old(self).position(),
                p0 < self.position() <= ts.len(),
                binary_at(ts, p0, min_prec) == climb(ts, self.position(), expr_model(left), min_prec),
            decreases ts.len() - self.position(),
        {
            let ghost p = self.position();
            match self.peek_op_prec() {
                Some((op, prec)) => {
                    if prec < min_prec || self.pos >= self.tokens.len() {
                        return Ok(left);
                    }
                    self.bump();
                    let right = match self.parse_binary_op(prec + 1) {
                        Ok(r) => r,
                        Err(e) => {
                            return Err(e);
                        },
                    };
                    proof {
                        lemma_binary_advances(ts, p + 1, (prec + 1) as u8);
                    }
                    let ghost lm = expr_model(left);
                    left = Expr::BinaryOp { left: Box::new(left), op, right: Box::new(right) };
                    assert(expr_model(left) == ExprModel::BinaryOp(
                        Box::new(lm),
                        op,
                        Box::new(expr_model(right)),
                    ));
                },
                None => {
                    return Ok(left);
                },
            }
        }
    }
}

impl Parser {
    /// A comma-separated list of expressions.
    fn parse_expr_list(&mut self) -> (r: Result<Vec<Expr>, ParseError>)
        requires
            old(self).wf(),
        ensures
            final(self).wf(),
            final(self).kinds() == old(self).kinds(),
            match expr_list_at(old(self).kinds(), old(self).position()) {
                Some((es, q)) => r matches Ok(v) && exprs_model(v@) == es && final(self).position()
                    == q,
                None => r is Err,
            },
    {
        let ghost ts = self.kinds();
        let ghost p0 = self.position();
        let mut out: Vec<Expr> = Vec::new();
        proof {
            assert(prepend(Seq::<ExprModel>::empty(), expr_list_at(ts, p0)) == expr_list_at(ts, p0)) by {
                match expr_list_at(ts, p0) {
                    Some((l, q)) => assert(Seq::<ExprModel>::empty() + l =~= l),
                    None => {},
                }
            }
        }
        loop
            invariant
                self.wf(),
                self.kinds() == ts,
                ts == old(self).kinds(),
                p0 == old(self).position(),
                expr_list_at(ts, p0) == prepend(exprs_model(out@), expr_list_at(ts, self.position())),
            decreases ts.len() - self.position(),
        {
            let ghost p = self.position();
            let ghost acc = exprs_model(out@);
            let e = match self.parse_expr() {
                Ok(e) => e,
                Err(err) => {
                    return Err(err);
                },
            };
            proof {
                lemma_binary_advances(ts, p, 0);
            }
            let ghost em = expr_model(e);
            out.push(e);
            assert(exprs_model(out@) =~= acc.push(em));
            let is_comma = matches!(self.peek(), TokenKind::Comma);
            if is_comma && self.pos < self.tokens.len() {
                self.bump();
                proof {
                    assert forall|r: Option<(Seq<ExprModel>, int)>| prepend(acc, prepend(seq![em], r))
                        == prepend(acc.push(em), r) by {
                        match r {
                            Some((l, q)) => assert(acc + (seq![em] + l) =~= acc.push(em) + l),
                            None => {},
                        }
                    }
                }
            } else {
                assert(acc + seq![em] =~= acc.push(em));
                return Ok(out);
            }
        }
    }

    /// A comma-separated list of identifiers.
    fn parse_ident_list(&mut self) -> (r: Result<Vec<String>, ParseError>)
        requires
            old(self).wf(),
        ensures
            final(self).wf(),
            final(self).kinds() == old(self).kinds(),
            match ident_list_at(old(self).kinds(), old(self).position()) {
                Some((cs, q)) => r matches Ok(v) && v@.map_values(|c: String| c@) == cs
                    && final(self).position() == q,
                None => r is Err,
            },
    {
        let ghost ts = self.kinds();
        let ghost p0 = self.position();
        let mut out: Vec<String> = Vec::new();
        proof {
            match ident_list_at(ts, p0) {
                Some((l, q)) => assert(Seq::<Seq<char>>::empty() + l =~= l),
                None => {},
            }
            assert(out@.map_values(|c: String| c@) =~= Seq::<Seq<char>>::empty());
        }
        loop
            invariant
                self.wf(),
                self.kinds() == ts,
                ts == old(self).kinds(),
                p0 == old(self).position(),
                ident_list_at(ts, p0) == prepend(
                    out@.map_values(|c: String| c@),
                    ident_list_at(ts, self.position()),
                ),
            decreases ts.len() - self.position(),
        {
            let ghost p = self.position();
            let ghost acc = out@.map_values(|c: String| c@);
            let c = match self.expect_ident() {
                Ok(c) => c,
                Err(err) => {
                    return Err(err);
                },
            };
            let ghost cm = c@;
            out.push(c);
            assert(out@.map_values(|c: String| c@) =~= acc.push(cm));
            let is_comma = matches!(self.peek(), TokenKind::Comma);
            if is_comma && self.pos < self.tokens.len() {
                self.bump();
                proof {
                    assert forall|r: Option<(Seq<Seq<char>>, int)>| prepend(acc, prepend(seq![cm], r))
                        == prepend(acc.push(cm), r) by {
                        match r {
                            Some((l, q)) => assert(acc + (seq![cm] + l) =~= acc.push(cm) + l),
                            None => {},
                        }
                    }
                }
            } else {
                assert(acc + seq![cm] =~= acc.push(cm));
                return Ok(out);
            }
        }
    }

    /// A comma-separated list of `name type` pairs.
    fn parse_column_defs(&mut self) -> (r: Result<Vec<(String, String)>, ParseError>)
        requires
            old(self).wf(),
        ensures
            final(self).wf(),
            final(self).kinds() == old(self).kinds(),
            match column_defs_at(old(self).kinds(), old(self).position()) {
                Some((cs, q)) => r matches Ok(v) && v@.map_values(|c: (String, String)| (c.0@, c.1@))
                    == cs && final(self).position() == q,
                None => r is Err,
            },
    {
        let ghost ts = self.kinds();
        let ghost p0 = self.position();
        let mut out: Vec<(String, String)> = Vec::new();
        proof {
            match column_defs_at(ts, p0) {
                Some((l, q)) => assert(Seq::<(Seq<char>, Seq<char>)>::empty() + l =~= l),
                None => {},
            }
            assert(out@.map_values(|c: (String, String)| (c.0@, c.1@)) =~= Seq::<(Seq<char>, Seq<char>)>::empty());
        }
        loop
            invariant
                self.wf(),
                self.kinds() == ts,
                ts == old(self).kinds(),
                p0 == old(self).position(),
                column_defs_at(ts, p0) == prepend(
                    out@.map_values(|c: (String, String)| (c.0@, c.1@)),
                    column_defs_at(ts, self.position()),
                ),
            decreases ts.len() - self.position(),
        {
            let ghost p = self.position();
            let ghost acc = out@.map_values(|c: (String, String)| (c.0@, c.1@));
            let col_name = match self.expect_ident() {
                Ok(c) => c,
                Err(err) => {
                    return Err(err);
                },
            };
            let col_type = match self.expect_ident() {
                Ok(c) => c,
                Err(err) => {
                    return Err(err);
                },
            };
            let ghost cm = (col_name@, col_type@);
            out.push((col_name, col_type));
            assert(out@.map_values(|c: (String, String)| (c.0@, c.1@)) =~= acc.push(cm));
            let is_comma = matches!(self.peek(), TokenKind::Comma);
            if is_comma && self.pos < self.tokens.len() {
                self.bump();
                proof {
                    assert forall|r: Option<(Seq<(Seq<char>, Seq<char>)>, int)>| prepend(
                        acc,
                        prepend(seq![cm], r),
                    ) == prepend(acc.push(cm), r) by {
                        match r {
                            Some((l, q)) => assert(acc + (seq![cm] + l) =~= acc.push(cm) + l),
                            None => {},
                        }
                    }
                }
            } else {
                assert(acc + seq![cm] =~= acc.push(cm));
                return Ok(out);
            }
        }
    }

    /// Parses one statement from the current token.
    pub fn parse_statement(&mut self) -> (r: Result<Statement, ParseError>)
        requires
            old(self).wf(),
        ensures
            final(self).wf(),
            final(self).kinds() == old(self).kinds(),
            match statement_at(old(self).kinds(), old(self).position()) {
                Some((st, q)) => r matches Ok(s) && statement_model(s) == st && final(self).position()
                    == q,
                None => r is Err,
            },
    {
        match self.peek() {
            TokenKind::Create => {
                let is_index = match self.peek_second() {
                    TokenKind::Identifier(s) => crate::text::eq_ignore_ascii_case(s.as_str(), "INDEX"),
                    _ => false,
                };
                if is_index {
                    self.parse_create_index()
                } else {
                    self.parse_create_table()
                }
            },
            TokenKind::Insert => self.parse_insert(),
            TokenKind::Select => self.parse_select(),
            _ => Err(self.error_here()),
        }
    }

    fn parse_create_table(&mut self) -> (r: Result<Statement, ParseError>)
        requires
            old(self).wf(),
        ensures
            final(self).wf(),
            final(self).kinds() == old(self).kinds(),
            match create_table_at(old(self).kinds(), old(self).position()) {
                Some((st, q)) => r matches Ok(s) && statement_model(s) == st && final(self).position()
                    == q,
                None => r is Err,
            },
    {
        self.expect(TokenKind::Create)?;
        self.expect(TokenKind::Table)?;
        let name = self.expect_ident()?;
        self.expect(TokenKind::LParen)?;
        let columns = self.parse_column_defs()?;
        self.expect(TokenKind::RParen)?;
        self.expect(TokenKind::Semicolon)?;
        Ok(Statement::CreateTable { name, columns })
    }

    fn parse_create_index(&mut self) -> (r: Result<Statement, ParseError>)
        requires
            old(self).wf(),
        ensures
            final(self).wf(),
            final(self).kinds() == old(self).kinds(),
            match create_index_at(old(self).kinds(), old(self).position()) {
                Some((st, q)) => r matches Ok(s) && statement_model(s) == st && final(self).position()
                    == q,
                None => r is Err,
            },
    {
        self.expect(TokenKind::Create)?;
        self.expect_word("INDEX")?;
        let index_name = self.expect_ident()?;
        self.expect_word("ON")?;
        let table = self.expect_ident()?;
        self.expect(TokenKind::LParen)?;
        let column = self.expect_ident()?;
        self.expect(TokenKind::RParen)?;
        self.expect(TokenKind::Semicolon)?;
        Ok(Statement::CreateIndex { index_name, table, column })
    }

    fn parse_insert(&mut self) -> (r: Result<Statement, ParseError>)
        requires
            old(self).wf(),
        ensures
            final(self).wf(),
            final(self).kinds() == old(self).kinds(),
            match insert_at(old(self).kinds(), old(self).position()) {
                Some((st, q)) => r matches Ok(s) && statement_model(s) == st && final(self).position()
                    == q,
                None => r is Err,
            },
    {
        self.expect(TokenKind::Insert)?;
        self.expect(TokenKind::Into)?;
        let table = self.expect_ident()?;
        self.expect(TokenKind::LParen)?;
        let columns = self.parse_ident_list()?;
        self.expect(TokenKind::RParen)?;
        self.expect(TokenKind::Values)?;
        self.expect(TokenKind::LParen)?;
        let values = self.parse_expr_list()?;
        self.expect(TokenKind::RParen)?;
        self.expect(TokenKind::Semicolon)?;
        Ok(Statement::Insert { table, columns, values })
    }

    fn parse_select(&mut self) -> (r: Result<Statement, ParseError>)
        requires
            old(self).wf(),
        ensures
            final(self).wf(),
            final(self).kinds() == old(self).kinds(),
            match select_at(old(self).kinds(), old(self).position()) {
                Some((st, q)) => r matches Ok(s) && statement_model(s) == st && final(self).position()
                    == q,
                None => r is Err,
            },
    {
        self.expect(TokenKind::Select)?;
        let projections = self.parse_expr_list()?;
        self.expect(TokenKind::From)?;
        let table = self.expect_ident()?;
        let filter = if matches!(self.peek(), TokenKind::Where) {
            self.bump();
            Some(self.parse_expr()?)
        } else {
            None
        };
        self.expect(TokenKind::Semicolon)?;
        Ok(Statement::Select { projections, table, filter })
    }
}

proof fn lemma_primary_advances(ts: Seq<Tok>, p: int)
    ensures
        primary_at(ts, p) matches Some((e, q)) ==> p < q <= ts.len(),
    decreases ts.len() - p, 1int,
{
    if 0 <= p < ts.len() && ts[p] is LParen {
        lemma_binary_advances(ts, p + 1, 0);
        match binary_at(ts, p + 1, 0) {
            Some((e, q)) => {
                if tok_at(ts, q) is RParen {
                    assert(q < ts.len());
                }
            },
            None => {},
        }
    }
}

proof fn lemma_binary_advances(ts: Seq<Tok>, p: int, min_prec: u8)
    ensures
        binary_at(ts, p, min_prec) matches Some((e, q)) ==> p < q <= ts.len(),
    decreases ts.len() - p, 2int,
{
    if 0 <= p < ts.len() {
        lemma_primary_advances(ts, p);
        match primary_at(ts, p) {
            Some((l, q)) => {
                if p < q <= ts.len() {
                    lemma_climb_advances(ts, q, l, min_prec);
                }
            },
            None => {},
        }
    }
}

proof fn lemma_climb_advances(ts: Seq<Tok>, p: int, left: ExprModel, min_prec: u8)
    ensures
        climb(ts, p, left, min_prec) matches Some((e, q)) ==> p <= q <= ts.len(),
    decreases ts.len() - p, 0int,
{
    if 0 <= p <= ts.len() {
        match op_prec(tok_at(ts, p)) {
            Some((op, prec)) => {
                if prec >= min_prec && p < ts.len() {
                    lemma_binary_advances(ts, p + 1, (prec + 1) as u8);
                    match binary_at(ts, p + 1, (prec + 1) as u8) {
                        Some((r, q)) => {
                            if p < q <= ts.len() {
                                lemma_climb_advances(
                                    ts,
                                    q,
                                    ExprModel::BinaryOp(Box::new(left), op, Box::new(r)),
                                    min_prec,
                                );
                            }
                        },
                        None => {},
                    }
                }
            },
            None => {},
        }
    }
}

} // verus!
