//! The parser: recursive descent over the token sequence, one layer per
//! precedence level, with a cursor that only moves forward.
use vstd::prelude::*;
use crate::expr::{Expr, ExprModel, LiteralModel, LiteralValue};
use crate::scanner::eof_token;
use crate::token::{tokens_view, Object, ObjectModel, Token, TokenModel, TokenType};

verus! {

/// Why parsing stopped: the token where it did, and what was expected.
#[derive(Debug, Clone)]
pub struct ParseError {
    pub token: Token,
    pub message: String,
}

pub struct ParseErrorModel {
    pub token: TokenModel,
    pub message: Seq<char>,
}

impl View for ParseError {
    type V = ParseErrorModel;

    open spec fn view(&self) -> ParseErrorModel {
        ParseErrorModel { token: self.token@, message: self.message@ }
    }
}

pub open spec fn expect_expression_message() -> Seq<char> {
    "expect expression"@
}

pub open spec fn expect_right_paren_message() -> Seq<char> {
    "expect ')' after expression"@
}

/// The binary operators of each layer, from the loosest: equality,
/// comparison, term, factor.
pub open spec fn is_layer_op(level: nat, k: TokenType) -> bool {
    if level == 0 {
        k == TokenType::BangEqual || k == TokenType::EqualEqual
    } else if level == 1 {
        k == TokenType::Greater || k == TokenType::GreaterEqual || k == TokenType::Less || k
            == TokenType::LessEqual
    } else if level == 2 {
        k == TokenType::Minus || k == TokenType::Plus
    } else {
        k == TokenType::Slash || k == TokenType::Star
    }
}

pub open spec fn rank(level: nat) -> int {
    if level >= 3 {
        3
    } else {
        level as int
    }
}

/// The literal value a token stands for as an operand, if any.
pub open spec fn literal_of(t: TokenModel) -> Option<LiteralModel> {
    if t.kind == TokenType::Number && t.literal matches Some(ObjectModel::Num(x)) {
        Some(LiteralModel::Number(t.literal->0->Num_0))
    } else if t.kind == TokenType::Str && t.literal matches Some(ObjectModel::Str(x)) {
        Some(LiteralModel::Str(t.literal->0->Str_0))
    } else if t.kind == TokenType::Sahi {
        Some(LiteralModel::Sahi)
    } else if t.kind == TokenType::Ghalat {
        Some(LiteralModel::Ghalat)
    } else if t.kind == TokenType::Khali {
        Some(LiteralModel::Khali)
    } else {
        None
    }
}

/// The token at `pos`, or an end-of-input token past the end.
pub open spec fn token_at(ts: Seq<TokenModel>, pos: int) -> TokenModel {
    if 0 <= pos < ts.len() {
        ts[pos]
    } else {
        eof_token(0)
    }
}

/// An expression parsed from `ts` at `pos`, with the position after it.
pub type ParseOutcome = Result<(ExprModel, int), ParseErrorModel>;

pub open spec fn parse_expression(ts: Seq<TokenModel>, pos: int) -> ParseOutcome
    decreases ts.len() - pos, 7int, 0int,
{
    parse_binary(ts, pos, 0)
}

/// One binary layer: an operand of the next tighter layer, then a left fold
/// over this layer's operators. Positions only move forward.
pub open spec fn parse_binary(ts: Seq<TokenModel>, pos: int, level: nat) -> ParseOutcome
    decreases ts.len() - pos, 6 - rank(level), 1int,
{
    match parse_operand(ts, pos, level) {
        Ok((left, p)) => if pos <= p <= ts.len() {
            fold_binary(ts, p, level, left)
        } else {
            Ok((left, p))
        },
        Err(e) => Err(e),
    }
}

/// An operand of a binary layer: the next tighter layer.
pub open spec fn parse_operand(ts: Seq<TokenModel>, pos: int, level: nat) -> ParseOutcome
    decreases ts.len() - pos, 6 - rank(level), 0int,
{
    if level >= 3 {
        parse_unary(ts, pos)
    } else {
        parse_binary(ts, pos, level + 1)
    }
}

pub open spec fn fold_binary(
    ts: Seq<TokenModel>,
    pos: int,
    level: nat,
    left: ExprModel,
) -> ParseOutcome
    decreases ts.len() - pos, 6 - rank(level), 0int,
{
    if 0 <= pos < ts.len() && is_layer_op(level, ts[pos].kind) {
        match parse_operand(ts, pos + 1, level) {
            Ok((right, p)) => {
                let e = ExprModel::Binary {
                    left: Box::new(left),
                    operator: ts[pos],
                    right: Box::new(right),
                };
                if pos < p <= ts.len() {
                    fold_binary(ts, p, level, e)
                } else {
                    Ok((e, p))
                }
            },
            Err(e) => Err(e),
        }
    } else {
        Ok((left, pos))
    }
}

/// Prefix `!` and `-`, right-associative, over a primary expression.
pub open spec fn parse_unary(ts: Seq<TokenModel>, pos: int) -> ParseOutcome
    decreases ts.len() - pos, 2int, 0int,
{
    if 0 <= pos < ts.len() && (ts[pos].kind == TokenType::Bang || ts[pos].kind
        == TokenType::Minus) {
        match parse_unary(ts, pos + 1) {
            Ok((right, p)) => Ok((ExprModel::Unary { operator: ts[pos], right: Box::new(right) }, p)),
            Err(e) => Err(e),
        }
    } else {
        parse_primary(ts, pos)
    }
}

/// A literal, or a parenthesized expression.
pub open spec fn parse_primary(ts: Seq<TokenModel>, pos: int) -> ParseOutcome
    decreases ts.len() - pos, 1int, 0int,
{
    if 0 <= pos < ts.len() && literal_of(ts[pos]) is Some {
        Ok((ExprModel::Literal { value: literal_of(ts[pos])->0 }, pos + 1))
    } else if 0 <= pos < ts.len() && ts[pos].kind == TokenType::LeftParen {
        match parse_expression(ts, pos + 1) {
            Ok((inner, p)) => if token_at(ts, p).kind == TokenType::RightParen {
                Ok((ExprModel::Grouping { expression: Box::new(inner) }, p + 1))
            } else {
                Err(ParseErrorModel { token: token_at(ts, p), message: expect_right_paren_message() })
            },
            Err(e) => Err(e),
        }
    } else {
        Err(ParseErrorModel { token: token_at(ts, pos), message: expect_expression_message() })
    }
}

/// The expression that a token sequence starts with, or the first error.
pub open spec fn parse_tokens(ts: Seq<TokenModel>) -> Result<ExprModel, ParseErrorModel> {
    match parse_expression(ts, 0) {
        Ok((e, _)) => Ok(e),
        Err(e) => Err(e),
    }
}

pub open spec fn parse_result_view(r: Result<Expr, ParseError>) -> Result<
    ExprModel,
    ParseErrorModel,
> {
    match r {
        Ok(e) => Ok(e@),
        Err(e) => Err(e@),
    }
}

/// Whether an executable outcome, with the cursor after it, is the outcome
/// of the grammar.
pub open spec fn outcome_matches(r: Result<Expr, ParseError>, pos: int, o: ParseOutcome) -> bool {
    match r {
        Ok(e) => o == Ok::<(ExprModel, int), ParseErrorModel>((e@, pos)),
        Err(e) => o == Err::<(ExprModel, int), ParseErrorModel>(e@),
    }
}

pub open spec fn option_literal_view(v: Option<LiteralValue>) -> Option<LiteralModel> {
    match v {
        Some(x) => Some(x@),
        None => None,
    }
}

/// The literal value a token stands for as an operand, if any.
fn literal_value(t: &Token) -> (r: Option<LiteralValue>)
    ensures
        option_literal_view(r) == literal_of(t@),
{
    match (t.token_type, &t.literal) {
        (TokenType::Number, Some(Object::NumValue(x))) => Some(LiteralValue::Number(x.clone())),
        (TokenType::Str, Some(Object::StrValue(x))) => Some(LiteralValue::Str(x.clone())),
        (TokenType::Sahi, _) => Some(LiteralValue::Sahi),
        (TokenType::Ghalat, _) => Some(LiteralValue::Ghalat),
        (TokenType::Khali, _) => Some(LiteralValue::Khali),
        _ => None,
    }
}

/// Whether `k` is an operator of binary layer `level`.
fn is_layer_operator(level: u8, k: TokenType) -> (r: bool)
    ensures
        r == is_layer_op(level as nat, k),
{
    if level == 0 {
        k == TokenType::BangEqual || k == TokenType::EqualEqual
    } else if level == 1 {
        k == TokenType::Greater || k == TokenType::GreaterEqual || k == TokenType::Less || k
            == TokenType::LessEqual
    } else if level == 2 {
        k == TokenType::Minus || k == TokenType::Plus
    } else {
        k == TokenType::Slash || k == TokenType::Star
    }
}

/// The parser's state: the tokens and a cursor into them.
pub struct Parser {
    tokens: Vec<Token>,
    current: usize,
}

impl Parser {
    /// The tokens being parsed.
    pub closed spec fn token_models(&self) -> Seq<TokenModel> {
        tokens_view(self.tokens@)
    }

    /// Index of the next token to read.
    pub closed spec fn cursor(&self) -> int {
        self.current as int
    }

    /// The tokens end with an end-of-input token, and the cursor stands on
    /// a token.
    pub open spec fn wf(&self) -> bool {
        &&& 0 <= self.cursor() < self.token_models().len()
        &&& self.token_models().last().kind == TokenType::Eof
    }

    pub fn new(tokens: Vec<Token>) -> (r: Self)
        ensures
            r.token_models() == tokens_view(tokens@),
            r.cursor() == 0,
    {
        Self { tokens, current: 0 }
    }

    /// Parses one expression from the cursor on.
    pub fn parse(&mut self) -> (r: Result<Expr, ParseError>)
        requires
            old(self).wf(),
        ensures
            final(self).wf(),
            final(self).token_models() == old(self).token_models(),
            outcome_matches(
                r,
                final(self).cursor(),
                parse_expression(old(self).token_models(), old(self).cursor()),
            ),
    {
        self.expression()
    }

    fn expression(&mut self) -> (r: Result<Expr, ParseError>)
        requires
            old(self).wf(),
        ensures
            final(self).wf(),
            final(self).tokens == old(self).tokens,
            outcome_matches(
                r,
                final(self).current as int,
                parse_expression(tokens_view(old(self).tokens@), old(self).current as int),
            ),
            r is Ok ==> old(self).current < final(self).current,
        decreases old(self).tokens@.len() - old(self).current, 7int, 0int,
    {
        self.binary(0)
    }

    /// Binary layer `level`: equality, comparison, term or factor.
    fn binary(&mut self, level: u8) -> (r: Result<Expr, ParseError>)
        requires
            old(self).wf(),
            level <= 3,
        ensures
            final(self).wf(),
            final(self).tokens == old(self).tokens,
            outcome_matches(
                r,
                final(self).current as int,
                parse_binary(tokens_view(old(self).tokens@), old(self).current as int, level as nat),
            ),
            r is Ok ==> old(self).current < final(self).current,
        decreases old(self).tokens@.len() - old(self).current, 6 - rank(level as nat), 1int,
    {
        let ghost ts = tokens_view(self.tokens@);
        let ghost pos0 = self.current as int;
        let mut expr = match self.operand(level) {
            Ok(e) => e,
            Err(e) => {
                return Err(e);
            },
        };
        loop
            invariant
                self.wf(),
                self.tokens == old(self).tokens,
                ts == tokens_view(self.tokens@),
                pos0 == old(self).current,
                pos0 < self.current,
                level <= 3,
                fold_binary(ts, self.current as int, level as nat, expr@) == parse_binary(
                    ts,
                    pos0,
                    level as nat,
                ),
            decreases self.tokens@.len() - self.current,
        {
            let op_pos = self.current;
            if !is_layer_operator(level, self.tokens[op_pos].token_type) {
                return Ok(expr);
            }
            let operator = self.tokens[op_pos].duplicate();
            self.advance();
            let right = match self.operand(level) {
                Ok(e) => e,
                Err(e) => {
                    return Err(e);
                },
            };
            expr = Expr::Binary { left: Box::new(expr), operator, right: Box::new(right) };
        }
    }

    /// An operand of binary layer `level`: the next tighter layer.
    fn operand(&mut self, level: u8) -> (r: Result<Expr, ParseError>)
        requires
            old(self).wf(),
            level <= 3,
        ensures
            final(self).wf(),
            final(self).tokens == old(self).tokens,
            outcome_matches(
                r,
                final(self).current as int,
                parse_operand(tokens_view(old(self).tokens@), old(self).current as int, level as nat),
            ),
            r is Ok ==> old(self).current < final(self).current,
        decreases old(self).tokens@.len() - old(self).current, 6 - rank(level as nat), 0int,
    {
        if level >= 3 {
            self.unary()
        } else {
            self.binary(level + 1)
        }
    }

    /// Moves past the current token, which is not the end of input.
    fn advance(&mut self)
        requires
            old(self).wf(),
            old(self).token_models()[old(self).cursor()].kind != TokenType::Eof,
        ensures
            final(self).wf(),
            final(self).tokens == old(self).tokens,
            final(self).current == old(self).current + 1,
    {
        let n = self.tokens.len();
        assert(self.current + 1 < n);
        self.current = self.current + 1;
    }

    fn unary(&mut self) -> (r: Result<Expr, ParseError>)
        requires
            old(self).wf(),
        ensures
            final(self).wf(),
            final(self).tokens == old(self).tokens,
            outcome_matches(
                r,
                final(self).current as int,
                parse_unary(tokens_view(old(self).tokens@), old(self).current as int),
            ),
            r is Ok ==> old(self).current < final(self).current,
        decreases old(self).tokens@.len() - old(self).current, 2int, 0int,
    {
        let ghost ts = tokens_view(self.tokens@);
        let k = self.tokens[self.current].token_type;
        if k == TokenType::Bang || k == TokenType::Minus {
            let operator = self.tokens[self.current].duplicate();
            self.advance();
            match self.unary() {
                Ok(right) => Ok(Expr::Unary { operator, right: Box::new(right) }),
                Err(e) => Err(e),
            }
        } else {
            self.primary()
        }
    }

    fn primary(&mut self) -> (r: Result<Expr, ParseError>)
        requires
            old(self).wf(),
        ensures
            final(self).wf(),
            final(self).tokens == old(self).tokens,
            outcome_matches(
                r,
                final(self).current as int,
                parse_primary(tokens_view(old(self).tokens@), old(self).current as int),
            ),
            r is Ok ==> old(self).current < final(self).current,
        decreases old(self).tokens@.len() - old(self).current, 1int, 0int,
    {
        let ghost ts = tokens_view(self.tokens@);
        let pos = self.current;
        assert(ts[pos as int] == self.tokens@[pos as int]@);
        if let Some(value) = literal_value(&self.tokens[pos]) {
            self.advance();
            return Ok(Expr::Literal { value });
        }
        if self.tokens[pos].token_type == TokenType::LeftParen {
            self.advance();
            let inner = match self.expression() {
                Ok(e) => e,
                Err(e) => {
                    return Err(e);
                },
            };
            let p = self.current;
            assert(ts[p as int] == self.tokens@[p as int]@);
            if self.tokens[p].token_type == TokenType::RightParen {
                self.advance();
                Ok(Expr::Grouping { expression: Box::new(inner) })
            } else {
                Err(
                    ParseError {
                        token: self.tokens[p].duplicate(),
                        message: "expect ')' after expression".to_owned(),
                    },
                )
            }
        } else {
            Err(
                ParseError {
                    token: self.tokens[pos].duplicate(),
                    message: "expect expression".to_owned(),
                },
            )
        }
    }
}

} // verus!
