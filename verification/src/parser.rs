use vstd::prelude::*;
use crate::expression::{Expression, Tree};
use crate::token::{views, Kind, Token, TokenType, TokenView};

verus! {

/// Why a token sequence is no expression. Each names a line.
#[derive(Debug, Clone, Copy, PartialEq)]
pub enum ParseError<'a> {
    /// A token that cannot stand where it was found, with its line.
    UnexpectedToken { line: usize, found: TokenType<'a> },
    /// The input ends where an expression has to start.
    ExpectedExpression { line: usize },
    /// A question mark, on this line, whose colon is missing.
    UnterminatedTernary { line: usize },
    /// An opening parenthesis, on this line, that is not closed.
    MissingClosingParen { line: usize },
}

/// A parse error as a mathematical value.
pub enum Failure {
    UnexpectedToken { line: nat, found: Kind },
    ExpectedExpression { line: nat },
    UnterminatedTernary { line: nat },
    MissingClosingParen { line: nat },
}

impl<'a> View for ParseError<'a> {
    type V = Failure;

    open spec fn view(&self) -> Failure {
        match *self {
            ParseError::UnexpectedToken { line, found } => Failure::UnexpectedToken {
                line: line as nat,
                found: found@,
            },
            ParseError::ExpectedExpression { line } => Failure::ExpectedExpression {
                line: line as nat,
            },
            ParseError::UnterminatedTernary { line } => Failure::UnterminatedTernary {
                line: line as nat,
            },
            ParseError::MissingClosingParen { line } => Failure::MissingClosingParen {
                line: line as nat,
            },
        }
    }
}

/// The kind of the token at `pos`; past the last token, `Eof`.
pub open spec fn kind_at(tokens: Seq<TokenView>, pos: int) -> Kind {
    if 0 <= pos < tokens.len() {
        tokens[pos].kind
    } else {
        Kind::Eof
    }
}

/// The line of the token at `pos`; past the last token, the line of the
/// last token, and line one where there is no token at all.
pub open spec fn line_near(tokens: Seq<TokenView>, pos: int) -> nat {
    if 0 <= pos < tokens.len() {
        tokens[pos].line
    } else if tokens.len() > 0 {
        tokens.last().line
    } else {
        1
    }
}

/// Number of tokens from `pos` on.
pub open spec fn left(tokens: Seq<TokenView>, pos: int) -> nat {
    if pos < tokens.len() {
        (tokens.len() - pos) as nat
    } else {
        0
    }
}

/// What a production makes of the tokens from some position on: a tree and
/// the number of tokens that it takes, or a failure and the number of
/// tokens that lie before the one at which it stops.
pub type Outcome = Result<(Tree, nat), (Failure, nat)>;

/// The outcome `outcome` of a production that started `before` tokens later.
pub open spec fn after(before: nat, outcome: Outcome) -> Outcome {
    match outcome {
        Ok((tree, taken)) => Ok((tree, before + taken)),
        Err((failure, taken)) => Err((failure, before + taken)),
    }
}

/// The number of tokens that `outcome` passes: those of its tree, or those
/// before the one at which it stops.
pub open spec fn taken_of(outcome: Outcome) -> nat {
    match outcome {
        Ok((_, taken)) => taken,
        Err((_, taken)) => taken,
    }
}

/// Whether each position from `from` up to `to` holds a token, and none of
/// them is `Eof`.
pub open spec fn before_end(tokens: Seq<TokenView>, from: int, to: int) -> bool {
    forall|k: int| from <= k < to ==> #[trigger] kind_at(tokens, k) != Kind::Eof
}

/// The position at which the input ends for a parser at `from`: that of the
/// first `Eof` there or behind it, or the one behind the last token where
/// there is no `Eof`.
pub open spec fn first_eof(tokens: Seq<TokenView>, from: int) -> int
    decreases left(tokens, from),
{
    if kind_at(tokens, from) == Kind::Eof {
        from
    } else {
        first_eof(tokens, from + 1)
    }
}

/// The four levels of left-associative binary operators, from the one that
/// binds tightest: `* /`, then `+ -`, then `> >= < <=`, then `== !=`.
pub open spec fn is_operator(level: nat, kind: Kind) -> bool {
    if level == 0 {
        kind == Kind::Slash || kind == Kind::Star
    } else if level == 1 {
        kind == Kind::Plus || kind == Kind::Minus
    } else if level == 2 {
        kind == Kind::Greater || kind == Kind::GreaterEqual || kind == Kind::Less || kind
            == Kind::LessEqual
    } else {
        kind == Kind::NotEqual || kind == Kind::EqualEqual
    }
}

/// Whether `kind` is one of the two prefix operators.
pub open spec fn is_unary_operator(kind: Kind) -> bool {
    kind == Kind::Not || kind == Kind::Minus
}

/// Whether `kind` is one of the ten binary operators.
pub open spec fn is_binary_operator(kind: Kind) -> bool {
    is_operator(0, kind) || is_operator(1, kind) || is_operator(2, kind) || is_operator(3, kind)
}

/// Whether `kind` is a number, a string or an identifier.
pub open spec fn is_literal(kind: Kind) -> bool {
    kind is Number || kind is String || kind is Identifier
}

/// A primary expression at `pos`: a number, a string or an identifier, or a
/// ternary expression between parentheses. The end of the input and any
/// other token are failures that stop there; a parenthesis that is not
/// closed is a failure that stops where its closing one is missing.
pub open spec fn primary(tokens: Seq<TokenView>, pos: int) -> Outcome
    decreases left(tokens, pos), 0nat,
{
    match kind_at(tokens, pos) {
        Kind::Eof => Err((Failure::ExpectedExpression { line: line_near(tokens, pos) }, 0)),
        Kind::Number(_) | Kind::String(_) | Kind::Identifier => Ok((Tree::Literal(tokens[pos]), 1)),
        Kind::LeftParen => match ternary(tokens, pos + 1) {
            Ok((inner, taken)) => if kind_at(tokens, pos + 1 + taken) == Kind::RightParen {
                Ok((Tree::Grouping(Box::new(inner)), taken + 2))
            } else {
                Err((Failure::MissingClosingParen { line: tokens[pos].line }, taken + 1))
            },
            Err((failure, taken)) => Err((failure, taken + 1)),
        },
        found => Err((Failure::UnexpectedToken { line: tokens[pos].line, found }, 0)),
    }
}

/// A unary expression at `pos`: any number of `!` and `-`, then a primary
/// expression.
pub open spec fn unary(tokens: Seq<TokenView>, pos: int) -> Outcome
    decreases left(tokens, pos), 1nat,
{
    let kind = kind_at(tokens, pos);
    if kind == Kind::Not || kind == Kind::Minus {
        match unary(tokens, pos + 1) {
            Ok((operand, taken)) => Ok((Tree::Unary(kind, Box::new(operand)), taken + 1)),
            Err((failure, taken)) => Err((failure, taken + 1)),
        }
    } else {
        primary(tokens, pos)
    }
}

/// An operand of the binary operators of `level` at `pos`: an expression of
/// the level below, or a unary expression below the lowest.
pub open spec fn operand(tokens: Seq<TokenView>, pos: int, level: nat) -> Outcome
    decreases left(tokens, pos), 3 * level + 3,
{
    if level == 0 {
        unary(tokens, pos)
    } else {
        binary(tokens, pos, (level - 1) as nat)
    }
}

/// An expression of the binary operators of `level` at `pos`: operands of
/// that level with its operators between them, grouped from the left.
pub open spec fn binary(tokens: Seq<TokenView>, pos: int, level: nat) -> Outcome
    decreases left(tokens, pos), 3 * level + 5,
{
    match operand(tokens, pos, level) {
        Ok((first, taken)) => after(taken, binary_rest(tokens, pos + taken, level, first)),
        Err(stop) => Err(stop),
    }
}

/// What follows the operands read so far, which make `so_far`: while an
/// operator of `level` stands at `pos`, it and the operand behind it join
/// the tree as its new root.
pub open spec fn binary_rest(tokens: Seq<TokenView>, pos: int, level: nat, so_far: Tree) -> Outcome
    decreases left(tokens, pos), 3 * level + 4,
{
    let kind = kind_at(tokens, pos);
    if is_operator(level, kind) {
        match operand(tokens, pos + 1, level) {
            Ok((right, taken)) => after(
                1 + taken,
                binary_rest(
                    tokens,
                    pos + 1 + taken,
                    level,
                    Tree::Binary(Box::new(so_far), kind, Box::new(right)),
                ),
            ),
            Err((failure, taken)) => Err((failure, 1 + taken)),
        }
    } else {
        Ok((so_far, 0))
    }
}

/// A ternary expression at `pos`: an equality, and where a question mark
/// follows it, an equality, a colon and a third equality. A question mark
/// whose colon is missing is a failure that names the line of the question
/// mark and stops where the colon is missing.
pub open spec fn ternary(tokens: Seq<TokenView>, pos: int) -> Outcome
    decreases left(tokens, pos), 15nat,
{
    match binary(tokens, pos, 3) {
        Ok((condition, first)) => {
            let question = pos + first;
            if kind_at(tokens, question) == Kind::Question {
                match binary(tokens, question + 1, 3) {
                    Ok((then_branch, second)) => {
                        let colon = question + 1 + second;
                        if kind_at(tokens, colon) == Kind::Colon {
                            match binary(tokens, colon + 1, 3) {
                                Ok((else_branch, third)) => Ok(
                                    (
                                        Tree::Ternary(
                                            Box::new(condition),
                                            Box::new(then_branch),
                                            Box::new(else_branch),
                                        ),
                                        first + 1 + second + 1 + third,
                                    ),
                                ),
                                Err((failure, third)) => Err(
                                    (failure, first + 1 + second + 1 + third),
                                ),
                            }
                        } else {
                            Err(
                                (
                                    Failure::UnterminatedTernary { line: tokens[question].line },
                                    first + 1 + second,
                                ),
                            )
                        }
                    },
                    Err((failure, second)) => Err((failure, first + 1 + second)),
                }
            } else {
                Ok((condition, first))
            }
        },
        Err(stop) => Err(stop),
    }
}

/// The expression that the tokens from `pos` on are: a ternary expression,
/// behind which the input has to end. Another token there is a failure that
/// stops at it.
pub open spec fn expression(tokens: Seq<TokenView>, pos: int) -> Outcome {
    match ternary(tokens, pos) {
        Ok((tree, taken)) => if kind_at(tokens, pos + taken) == Kind::Eof {
            Ok((tree, taken))
        } else {
            Err(
                (
                    Failure::UnexpectedToken {
                        line: tokens[pos + taken].line,
                        found: tokens[pos + taken].kind,
                    },
                    taken,
                ),
            )
        },
        Err(stop) => Err(stop),
    }
}

/// The expression that `tokens` are as a whole.
pub open spec fn parsed(tokens: Seq<TokenView>) -> Result<Tree, Failure> {
    match expression(tokens, 0) {
        Ok((tree, _)) => Ok(tree),
        Err((failure, _)) => Err(failure),
    }
}

/// Reads an expression from a token sequence by recursive descent.
#[derive(Debug)]
pub struct Parser<'a> {
    /// The tokens that are read.
    pub tokens: Vec<Token<'a>>,
    /// Index of the first token not read yet.
    pub curr_idx: usize,
}

/// `result` and the parser after the call, `post`, are what `outcome` says
/// of the parser before it, `pre`: on success the tree and the cursor moved
/// over the tokens taken, on failure the error and the cursor at the token
/// at which the production stops. The tokens stay as they are.
pub open spec fn agrees<'a>(
    pre: Parser<'a>,
    post: Parser<'a>,
    result: Result<Expression<'a>, ParseError<'a>>,
    outcome: Outcome,
) -> bool {
    &&& post.tokens == pre.tokens
    &&& match outcome {
        Ok((tree, taken)) => result matches Ok(expression) && expression@ == tree && post.curr_idx
            == pre.curr_idx + taken,
        Err((failure, taken)) => result matches Err(error) && error@ == failure && post.curr_idx
            == pre.curr_idx + taken,
    }
}

impl<'a> Parser<'a> {
    /// The tokens as mathematical values.
    pub open spec fn input(&self) -> Seq<TokenView> {
        views(self.tokens@)
    }

    /// A parser at the first of `tokens`.
    pub fn new(tokens: Vec<Token<'a>>) -> (parser: Self)
        ensures
            parser.tokens == tokens,
            parser.curr_idx == 0,
    {
        Parser { tokens, curr_idx: 0 }
    }

    /// Whether the cursor is at the `Eof` token or past the last token.
    fn is_at_end(&self) -> (at_end: bool)
        ensures
            at_end == (kind_at(self.input(), self.curr_idx as int) == Kind::Eof),
            !at_end ==> self.curr_idx < self.tokens.len(),
    {
        if self.curr_idx >= self.tokens.len() {
            true
        } else {
            match self.tokens[self.curr_idx].token_type {
                TokenType::Eof => true,
                _ => false,
            }
        }
    }

    /// The token before the cursor.
    fn prev(&self) -> (token: Token<'a>)
        requires
            0 < self.curr_idx <= self.tokens.len(),
        ensures
            token == self.tokens@[self.curr_idx - 1],
    {
        self.tokens[self.curr_idx - 1]
    }

    /// The token at the cursor.
    fn current(&self) -> (token: Token<'a>)
        requires
            self.curr_idx < self.tokens.len(),
        ensures
            token == self.tokens@[self.curr_idx as int],
    {
        self.tokens[self.curr_idx]
    }

    /// The kind of the token at the cursor; past the last token, `Eof`.
    fn kind(&self) -> (kind: TokenType<'a>)
        ensures
            kind@ == kind_at(self.input(), self.curr_idx as int),
            !(kind is Eof) ==> self.curr_idx < self.tokens.len(),
    {
        if self.curr_idx < self.tokens.len() {
            self.current().token_type
        } else {
            TokenType::Eof
        }
    }

    /// The line that an error at the cursor names.
    fn line(&self) -> (line: usize)
        ensures
            line == line_near(self.input(), self.curr_idx as int),
    {
        if self.curr_idx < self.tokens.len() {
            self.current().line
        } else if self.tokens.len() > 0 {
            self.tokens[self.tokens.len() - 1].line
        } else {
            1
        }
    }

    /// Reads the expression that the tokens from the cursor on are, and moves
    /// the cursor behind it. Where anything but the end of the input follows
    /// the expression, the result is `UnexpectedToken` with the line and the
    /// kind of the first token that was not read. On failure the cursor
    /// stands at the token at which the parser stopped. The cursor never
    /// moves back, and never past `Eof` or the last token.
    pub fn expression(&mut self) -> (result: Result<Expression<'a>, ParseError<'a>>)
        ensures
            agrees(
                *old(self),
                *final(self),
                result,
                expression(old(self).input(), old(self).curr_idx as int),
            ),
            old(self).curr_idx <= final(self).curr_idx <= first_eof(
                old(self).input(),
                old(self).curr_idx as int,
            ),
            old(self).curr_idx <= old(self).tokens.len() ==> final(self).curr_idx <= old(
                self,
            ).tokens.len(),
            forall|end: int|
                old(self).curr_idx <= end && #[trigger] kind_at(old(self).input(), end)
                    == Kind::Eof ==> final(self).curr_idx <= end,
    {
        proof {
            let tokens = self.input();
            let pos = self.curr_idx as int;
            lemma_stays_before_end(tokens, pos);
            assert forall|end: int| pos <= end && #[trigger] kind_at(tokens, end)
                == Kind::Eof implies pos + taken_of(expression(tokens, pos)) <= end by {
                lemma_first_eof(tokens, pos, end);
            }
        }
        let expression = match self.ternary() {
            Ok(expression) => expression,
            Err(error) => {
                return Err(error);
            },
        };
        if self.is_at_end() {
            Ok(expression)
        } else {
            let token = self.current();
            Err(ParseError::UnexpectedToken { line: token.line, found: token.token_type })
        }
    }

    /// Reads a ternary expression: an equality, and behind a question mark
    /// two more with a colon between them.
    fn ternary(&mut self) -> (result: Result<Expression<'a>, ParseError<'a>>)
        ensures
            agrees(
                *old(self),
                *final(self),
                result,
                ternary(old(self).input(), old(self).curr_idx as int),
            ),
        decreases left(old(self).input(), old(self).curr_idx as int), 15nat,
    {
        let condition = match self.equality() {
            Ok(expression) => expression,
            Err(error) => {
                return Err(error);
            },
        };
        match self.kind() {
            TokenType::Question => {},
            _ => {
                return Ok(condition);
            },
        }
        let line = self.current().line;
        self.curr_idx += 1;
        let then_branch = match self.equality() {
            Ok(expression) => expression,
            Err(error) => {
                return Err(error);
            },
        };
        match self.kind() {
            TokenType::Colon => {},
            _ => {
                return Err(ParseError::UnterminatedTernary { line });
            },
        }
        self.curr_idx += 1;
        let else_branch = match self.equality() {
            Ok(expression) => expression,
            Err(error) => {
                return Err(error);
            },
        };
        Ok(Expression::Ternary(Box::new(condition), Box::new(then_branch), Box::new(else_branch)))
    }

    /// Reads comparisons with `==` and `!=` between them.
    fn equality(&mut self) -> (result: Result<Expression<'a>, ParseError<'a>>)
        ensures
            agrees(
                *old(self),
                *final(self),
                result,
                binary(old(self).input(), old(self).curr_idx as int, 3),
            ),
        decreases left(old(self).input(), old(self).curr_idx as int), 14nat,
    {
        let ghost tokens = self.input();
        let ghost start = self.curr_idx as int;
        proof {
            assert(operand(tokens, start, 3) == binary(tokens, start, 2));
        }
        let mut exp = match self.comparison() {
            Ok(expression) => expression,
            Err(error) => {
                return Err(error);
            },
        };
        loop
            invariant
                self.tokens == old(self).tokens,
                tokens == old(self).input(),
                start == old(self).curr_idx,
                start <= self.curr_idx,
                binary(tokens, start, 3) == after(
                    (self.curr_idx - start) as nat,
                    binary_rest(tokens, self.curr_idx as int, 3, exp@),
                ),
            decreases left(tokens, self.curr_idx as int),
        {
            match self.kind() {
                TokenType::NotEqual | TokenType::EqualEqual => {},
                _ => {
                    return Ok(exp);
                },
            }
            self.curr_idx += 1;
            let operator = self.prev().token_type;
            proof {
                assert(operand(tokens, self.curr_idx as int, 3) == binary(tokens, self.curr_idx as int, 2));
            }
            let right = match self.comparison() {
                Ok(expression) => expression,
                Err(error) => {
                    return Err(error);
                },
            };
            exp = Expression::Binary(Box::new(exp), operator, Box::new(right));
        }
    }

    /// Reads terms with `>`, `>=`, `<` and `<=` between them.
    fn comparison(&mut self) -> (result: Result<Expression<'a>, ParseError<'a>>)
        ensures
            agrees(
                *old(self),
                *final(self),
                result,
                binary(old(self).input(), old(self).curr_idx as int, 2),
            ),
        decreases left(old(self).input(), old(self).curr_idx as int), 11nat,
    {
        let ghost tokens = self.input();
        let ghost start = self.curr_idx as int;
        proof {
            assert(operand(tokens, start, 2) == binary(tokens, start, 1));
        }
        let mut exp = match self.term() {
            Ok(expression) => expression,
            Err(error) => {
                return Err(error);
            },
        };
        loop
            invariant
                self.tokens == old(self).tokens,
                tokens == old(self).input(),
                start == old(self).curr_idx,
                start <= self.curr_idx,
                binary(tokens, start, 2) == after(
                    (self.curr_idx - start) as nat,
                    binary_rest(tokens, self.curr_idx as int, 2, exp@),
                ),
            decreases left(tokens, self.curr_idx as int),
        {
            match self.kind() {
                TokenType::Greater
                | TokenType::GreaterEqual
                | TokenType::Less
                | TokenType::LessEqual => {},
                _ => {
                    return Ok(exp);
                },
            }
            self.curr_idx += 1;
            let operator = self.prev().token_type;
            proof {
                assert(operand(tokens, self.curr_idx as int, 2) == binary(tokens, self.curr_idx as int, 1));
            }
            let right = match self.term() {
                Ok(expression) => expression,
                Err(error) => {
                    return Err(error);
                },
            };
            exp = Expression::Binary(Box::new(exp), operator, Box::new(right));
        }
    }

    /// Reads factors with `+` and `-` between them.
    fn term(&mut self) -> (result: Result<Expression<'a>, ParseError<'a>>)
        ensures
            agrees(
                *old(self),
                *final(self),
                result,
                binary(old(self).input(), old(self).curr_idx as int, 1),
            ),
        decreases left(old(self).input(), old(self).curr_idx as int), 8nat,
    {
        let ghost tokens = self.input();
        let ghost start = self.curr_idx as int;
        proof {
            assert(operand(tokens, start, 1) == binary(tokens, start, 0));
        }
        let mut exp = match self.factor() {
            Ok(expression) => expression,
            Err(error) => {
                return Err(error);
            },
        };
        loop
            invariant
                self.tokens == old(self).tokens,
                tokens == old(self).input(),
                start == old(self).curr_idx,
                start <= self.curr_idx,
                binary(tokens, start, 1) == after(
                    (self.curr_idx - start) as nat,
                    binary_rest(tokens, self.curr_idx as int, 1, exp@),
                ),
            decreases left(tokens, self.curr_idx as int),
        {
            match self.kind() {
                TokenType::Plus | TokenType::Minus => {},
                _ => {
                    return Ok(exp);
                },
            }
            self.curr_idx += 1;
            let operator = self.prev().token_type;
            proof {
                assert(operand(tokens, self.curr_idx as int, 1) == binary(tokens, self.curr_idx as int, 0));
            }
            let right = match self.factor() {
                Ok(expression) => expression,
                Err(error) => {
                    return Err(error);
                },
            };
            exp = Expression::Binary(Box::new(exp), operator, Box::new(right));
        }
    }

    /// Reads unary expressions with `*` and `/` between them.
    fn factor(&mut self) -> (result: Result<Expression<'a>, ParseError<'a>>)
        ensures
            agrees(
                *old(self),
                *final(self),
                result,
                binary(old(self).input(), old(self).curr_idx as int, 0),
            ),
        decreases left(old(self).input(), old(self).curr_idx as int), 5nat,
    {
        let ghost tokens = self.input();
        let ghost start = self.curr_idx as int;
        proof {
            assert(operand(tokens, start, 0) == unary(tokens, start));
        }
        let mut exp = match self.unary() {
            Ok(expression) => expression,
            Err(error) => {
                return Err(error);
            },
        };
        loop
            invariant
                self.tokens == old(self).tokens,
                tokens == old(self).input(),
                start == old(self).curr_idx,
                start <= self.curr_idx,
                binary(tokens, start, 0) == after(
                    (self.curr_idx - start) as nat,
                    binary_rest(tokens, self.curr_idx as int, 0, exp@),
                ),
            decreases left(tokens, self.curr_idx as int),
        {
            match self.kind() {
                TokenType::Slash | TokenType::Star => {},
                _ => {
                    return Ok(exp);
                },
            }
            self.curr_idx += 1;
            let operator = self.prev().token_type;
            proof {
                assert(operand(tokens, self.curr_idx as int, 0) == unary(tokens, self.curr_idx as int));
            }
            let right = match self.unary() {
                Ok(expression) => expression,
                Err(error) => {
                    return Err(error);
                },
            };
            exp = Expression::Binary(Box::new(exp), operator, Box::new(right));
        }
    }

    /// Reads any number of `!` and `-` and the primary expression behind them.
    fn unary(&mut self) -> (result: Result<Expression<'a>, ParseError<'a>>)
        ensures
            agrees(
                *old(self),
                *final(self),
                result,
                unary(old(self).input(), old(self).curr_idx as int),
            ),
        decreases left(old(self).input(), old(self).curr_idx as int), 1nat,
    {
        let operator = self.kind();
        match operator {
            TokenType::Not | TokenType::Minus => {
                self.curr_idx += 1;
                match self.unary() {
                    Ok(operand) => Ok(Expression::Unary(operator, Box::new(operand))),
                    Err(error) => Err(error),
                }
            },
            _ => self.primary(),
        }
    }

    /// Reads a literal or an expression between parentheses.
    fn primary(&mut self) -> (result: Result<Expression<'a>, ParseError<'a>>)
        ensures
            agrees(
                *old(self),
                *final(self),
                result,
                primary(old(self).input(), old(self).curr_idx as int),
            ),
        decreases left(old(self).input(), old(self).curr_idx as int), 0nat,
    {
        if self.is_at_end() {
            return Err(ParseError::ExpectedExpression { line: self.line() });
        }
        let token = self.current();
        match token.token_type {
            TokenType::Number(_) | TokenType::String(_) | TokenType::Identifier => {
                self.curr_idx += 1;
                Ok(Expression::Literal(token))
            },
            TokenType::LeftParen => {
                self.curr_idx += 1;
                let inner = match self.ternary() {
                    Ok(expression) => expression,
                    Err(error) => {
                        return Err(error);
                    },
                };
                match self.kind() {
                    TokenType::RightParen => {
                        self.curr_idx += 1;
                        Ok(Expression::Grouping(Box::new(inner)))
                    },
                    _ => Err(ParseError::MissingClosingParen { line: token.line }),
                }
            },
            found => Err(ParseError::UnexpectedToken { line: token.line, found }),
        }
    }
}

/// The expression that `tokens` are: the expression at their start, where
/// nothing but the end of the input follows it.
pub fn parse<'a>(tokens: Vec<Token<'a>>) -> (result: Result<Expression<'a>, ParseError<'a>>)
    ensures
        match parsed(views(tokens@)) {
            Ok(tree) => result matches Ok(expression) && expression@ == tree,
            Err(failure) => result matches Err(error) && error@ == failure,
        },
{
    let mut parser = Parser::new(tokens);
    parser.expression()
}

/// The kinds of `tokens`, in order.
pub open spec fn kinds(tokens: Seq<TokenView>) -> Seq<Kind> {
    Seq::new(tokens.len(), |i: int| tokens[i].kind)
}

/// The kinds of the tokens that `tree` is made of, from left to right.
pub open spec fn kinds_of(tree: Tree) -> Seq<Kind>
    decreases tree,
{
    match tree {
        Tree::Binary(left, operator, right) => kinds_of(*left) + seq![operator] + kinds_of(*right),
        Tree::Unary(operator, operand) => seq![operator] + kinds_of(*operand),
        Tree::Grouping(inner) => seq![Kind::LeftParen] + kinds_of(*inner) + seq![Kind::RightParen],
        Tree::Literal(token) => seq![token.kind],
        Tree::Ternary(condition, then_branch, else_branch) => kinds_of(*condition) + seq![
            Kind::Question,
        ] + kinds_of(*then_branch) + seq![Kind::Colon] + kinds_of(*else_branch),
    }
}

/// Whether `tree` is a tree of the grammar over `tokens`: each literal is a
/// number, a string or an identifier among `tokens`, each prefix operator is
/// `!` or `-`, and each binary operator is one of the ten.
pub open spec fn grammatical(tree: Tree, tokens: Seq<TokenView>) -> bool
    decreases tree,
{
    match tree {
        Tree::Binary(left, operator, right) => is_binary_operator(operator) && grammatical(
            *left,
            tokens,
        ) && grammatical(*right, tokens),
        Tree::Unary(operator, operand) => is_unary_operator(operator) && grammatical(
            *operand,
            tokens,
        ),
        Tree::Grouping(inner) => grammatical(*inner, tokens),
        Tree::Literal(token) => is_literal(token.kind) && exists|i: int|
            0 <= i < tokens.len() && tokens[i] == token,
        Tree::Ternary(condition, then_branch, else_branch) => grammatical(*condition, tokens)
            && grammatical(*then_branch, tokens) && grammatical(*else_branch, tokens),
    }
}

/// Whether `outcome` passes only tokens before the end of the input, and a
/// tree that it holds is a tree of the grammar made of exactly the tokens
/// that it took from `pos` on.
pub open spec fn spans(tokens: Seq<TokenView>, pos: int, outcome: Outcome) -> bool {
    &&& before_end(tokens, pos, pos + taken_of(outcome))
    &&& outcome matches Ok((tree, taken)) ==> {
        &&& 0 <= pos
        &&& pos + taken <= tokens.len()
        &&& kinds_of(tree) == kinds(tokens.subrange(pos, pos + taken))
        &&& grammatical(tree, tokens)
    }
}

/// Whether `outcome` passes only tokens before the end of the input, and a
/// tree that it holds is `so_far` with exactly the tokens that it took from
/// `pos` on behind it, and a tree of the grammar where `so_far` is one.
pub open spec fn extends(tokens: Seq<TokenView>, pos: int, so_far: Tree, outcome: Outcome) -> bool {
    &&& before_end(tokens, pos, pos + taken_of(outcome))
    &&& outcome matches Ok((tree, taken)) ==> {
        &&& pos + taken <= tokens.len()
        &&& kinds_of(tree) == kinds_of(so_far) + kinds(tokens.subrange(pos, pos + taken))
        &&& grammatical(so_far, tokens) ==> grammatical(tree, tokens)
    }
}

/// A primary expression spans its tokens.
proof fn lemma_primary_spans(tokens: Seq<TokenView>, pos: int)
    ensures
        spans(tokens, pos, primary(tokens, pos)),
    decreases left(tokens, pos), 0nat,
{
    match kind_at(tokens, pos) {
        Kind::Number(_) | Kind::String(_) | Kind::Identifier => {
            assert(kinds(tokens.subrange(pos, pos + 1)) =~= seq![tokens[pos].kind]);
        },
        Kind::LeftParen => {
            lemma_ternary_spans(tokens, pos + 1);
            if primary(tokens, pos) is Ok {
                let (tree, taken) = primary(tokens, pos)->Ok_0;
                let (inner, within) = ternary(tokens, pos + 1)->Ok_0;
                assert(kinds(tokens.subrange(pos, pos + taken)) =~= seq![Kind::LeftParen] + kinds(
                    tokens.subrange(pos + 1, pos + 1 + within),
                ) + seq![Kind::RightParen]);
            }
        },
        _ => {},
    }
}

/// A unary expression spans its tokens.
proof fn lemma_unary_spans(tokens: Seq<TokenView>, pos: int)
    ensures
        spans(tokens, pos, unary(tokens, pos)),
    decreases left(tokens, pos), 1nat,
{
    let kind = kind_at(tokens, pos);
    if kind == Kind::Not || kind == Kind::Minus {
        lemma_unary_spans(tokens, pos + 1);
        if unary(tokens, pos) is Ok {
            let (tree, taken) = unary(tokens, pos)->Ok_0;
            let (inner, within) = unary(tokens, pos + 1)->Ok_0;
            assert(kinds(tokens.subrange(pos, pos + taken)) =~= seq![kind] + kinds(
                tokens.subrange(pos + 1, pos + 1 + within),
            ));
        }
    } else {
        lemma_primary_spans(tokens, pos);
    }
}

/// An operand spans its tokens.
proof fn lemma_operand_spans(tokens: Seq<TokenView>, pos: int, level: nat)
    ensures
        spans(tokens, pos, operand(tokens, pos, level)),
    decreases left(tokens, pos), 3 * level + 3,
{
    if level == 0 {
        lemma_unary_spans(tokens, pos);
    } else {
        lemma_binary_spans(tokens, pos, (level - 1) as nat);
    }
}

/// An expression of binary operators spans its tokens.
proof fn lemma_binary_spans(tokens: Seq<TokenView>, pos: int, level: nat)
    ensures
        spans(tokens, pos, binary(tokens, pos, level)),
    decreases left(tokens, pos), 3 * level + 5,
{
    lemma_operand_spans(tokens, pos, level);
    if operand(tokens, pos, level) is Ok {
        let (first, taken) = operand(tokens, pos, level)->Ok_0;
        lemma_binary_rest_spans(tokens, pos + taken, level, first);
        if binary_rest(tokens, pos + taken, level, first) is Ok {
            let (tree, more) = binary_rest(tokens, pos + taken, level, first)->Ok_0;
            assert(kinds(tokens.subrange(pos, pos + taken + more)) =~= kinds(
                tokens.subrange(pos, pos + taken),
            ) + kinds(tokens.subrange(pos + taken, pos + taken + more)));
        }
    }
}

/// What follows the operands read so far adds exactly its tokens to them.
proof fn lemma_binary_rest_spans(tokens: Seq<TokenView>, pos: int, level: nat, so_far: Tree)
    requires
        0 <= pos <= tokens.len(),
    ensures
        extends(tokens, pos, so_far, binary_rest(tokens, pos, level, so_far)),
    decreases left(tokens, pos), 3 * level + 4,
{
    let kind = kind_at(tokens, pos);
    if is_operator(level, kind) {
        lemma_operand_spans(tokens, pos + 1, level);
        if operand(tokens, pos + 1, level) is Ok {
            let (right, taken) = operand(tokens, pos + 1, level)->Ok_0;
            let joined = Tree::Binary(Box::new(so_far), kind, Box::new(right));
            lemma_binary_rest_spans(tokens, pos + 1 + taken, level, joined);
            if binary_rest(tokens, pos + 1 + taken, level, joined) is Ok {
                let (tree, more) = binary_rest(tokens, pos + 1 + taken, level, joined)->Ok_0;
                assert(kinds(tokens.subrange(pos, pos + 1 + taken + more)) =~= seq![kind] + kinds(
                    tokens.subrange(pos + 1, pos + 1 + taken),
                ) + kinds(tokens.subrange(pos + 1 + taken, pos + 1 + taken + more)));
                assert(kinds_of(tree) =~= kinds_of(so_far) + kinds(
                    tokens.subrange(pos, pos + 1 + taken + more),
                ));
            }
        }
    } else {
        assert(kinds(tokens.subrange(pos, pos + 0)) =~= Seq::<Kind>::empty());
        assert(kinds_of(so_far) =~= kinds_of(so_far) + Seq::<Kind>::empty());
    }
}

/// The kinds of a range of tokens are those of its two parts.
proof fn lemma_kinds_split(tokens: Seq<TokenView>, from: int, mid: int, to: int)
    requires
        0 <= from <= mid <= to <= tokens.len(),
    ensures
        kinds(tokens.subrange(from, to)) == kinds(tokens.subrange(from, mid)) + kinds(
            tokens.subrange(mid, to),
        ),
{
    assert(kinds(tokens.subrange(from, to)) =~= kinds(tokens.subrange(from, mid)) + kinds(
        tokens.subrange(mid, to),
    ));
}

/// The kinds of a range of one token.
proof fn lemma_kinds_one(tokens: Seq<TokenView>, at: int)
    requires
        0 <= at < tokens.len(),
    ensures
        kinds(tokens.subrange(at, at + 1)) == seq![tokens[at].kind],
{
    assert(kinds(tokens.subrange(at, at + 1)) =~= seq![tokens[at].kind]);
}

/// Three trees that span their tokens, with a question mark and a colon
/// between them, make a ternary that spans all of them.
proof fn lemma_ternary_joins(
    tokens: Seq<TokenView>,
    pos: int,
    condition: Tree,
    first: nat,
    then_branch: Tree,
    second: nat,
    else_branch: Tree,
    third: nat,
)
    requires
        spans(tokens, pos, Outcome::Ok((condition, first))),
        kind_at(tokens, pos + first) == Kind::Question,
        spans(tokens, pos + first + 1, Outcome::Ok((then_branch, second))),
        kind_at(tokens, pos + first + 1 + second) == Kind::Colon,
        spans(tokens, pos + first + 1 + second + 1, Outcome::Ok((else_branch, third))),
    ensures
        spans(
            tokens,
            pos,
            Outcome::Ok(
                (
                    Tree::Ternary(
                        Box::new(condition),
                        Box::new(then_branch),
                        Box::new(else_branch),
                    ),
                    first + 1 + second + 1 + third,
                ),
            ),
        ),
{
    let question = pos + first;
    let colon = question + 1 + second;
    let end = colon + 1 + third;
    lemma_kinds_split(tokens, pos, question, end);
    lemma_kinds_split(tokens, question, question + 1, end);
    lemma_kinds_split(tokens, question + 1, colon, end);
    lemma_kinds_split(tokens, colon, colon + 1, end);
    lemma_kinds_one(tokens, question);
    lemma_kinds_one(tokens, colon);
    let tree = Tree::Ternary(Box::new(condition), Box::new(then_branch), Box::new(else_branch));
    assert(kinds_of(tree) =~= kinds(tokens.subrange(pos, end)));
}

/// A ternary expression spans its tokens.
proof fn lemma_ternary_spans(tokens: Seq<TokenView>, pos: int)
    ensures
        spans(tokens, pos, ternary(tokens, pos)),
    decreases left(tokens, pos), 15nat,
{
    lemma_binary_spans(tokens, pos, 3);
    let head = binary(tokens, pos, 3);
    if head is Ok {
        let (condition, first) = head->Ok_0;
        let question = pos + first;
        if kind_at(tokens, question) == Kind::Question {
            lemma_binary_spans(tokens, question + 1, 3);
            let middle = binary(tokens, question + 1, 3);
            if middle is Ok {
                let (then_branch, second) = middle->Ok_0;
                let colon = question + 1 + second;
                if kind_at(tokens, colon) == Kind::Colon {
                    lemma_binary_spans(tokens, colon + 1, 3);
                    let last = binary(tokens, colon + 1, 3);
                    if last is Ok {
                        let (else_branch, third) = last->Ok_0;
                        lemma_ternary_joins(
                            tokens,
                            pos,
                            condition,
                            first,
                            then_branch,
                            second,
                            else_branch,
                            third,
                        );
                    }
                }
            }
        }
    }
}

/// The input ends at or behind `from`, at an `Eof` or behind the last token,
/// and no `Eof` stands between `from` and that end: it ends no later than at
/// any `Eof` at `end`.
pub proof fn lemma_first_eof(tokens: Seq<TokenView>, from: int, end: int)
    requires
        from <= end,
        kind_at(tokens, end) == Kind::Eof,
    ensures
        from <= first_eof(tokens, from) <= end,
        kind_at(tokens, first_eof(tokens, from)) == Kind::Eof,
        before_end(tokens, from, first_eof(tokens, from)),
        0 <= from <= tokens.len() ==> first_eof(tokens, from) <= tokens.len(),
    decreases end - from,
{
    if kind_at(tokens, from) != Kind::Eof {
        lemma_first_eof(tokens, from + 1, end);
    }
}

/// The input does not end before the position from which it is read.
pub proof fn lemma_first_eof_behind(tokens: Seq<TokenView>, from: int)
    ensures
        from <= first_eof(tokens, from),
    decreases left(tokens, from),
{
    if kind_at(tokens, from) != Kind::Eof {
        lemma_first_eof_behind(tokens, from + 1);
    }
}

/// Tokens before the end of the input end no later than the input does.
pub proof fn lemma_before_end_bound(tokens: Seq<TokenView>, from: int, to: int)
    requires
        from <= to,
        before_end(tokens, from, to),
    ensures
        to <= first_eof(tokens, from),
    decreases to - from,
{
    if from < to {
        assert(kind_at(tokens, from) != Kind::Eof);
        lemma_before_end_bound(tokens, from + 1, to);
    } else {
        lemma_first_eof_behind(tokens, from);
    }
}

/// The parser never passes the end of the input: the tokens that an
/// expression passes, those of its tree on success and those before the
/// token at which it stops on failure, all stand before the first `Eof`.
pub proof fn lemma_stays_before_end(tokens: Seq<TokenView>, pos: int)
    ensures
        before_end(tokens, pos, pos + taken_of(expression(tokens, pos))),
        pos + taken_of(expression(tokens, pos)) <= first_eof(tokens, pos),
        0 <= pos <= tokens.len() ==> pos + taken_of(expression(tokens, pos)) <= tokens.len(),
{
    lemma_ternary_spans(tokens, pos);
    let taken = taken_of(expression(tokens, pos));
    assert(taken == taken_of(ternary(tokens, pos)));
    lemma_before_end_bound(tokens, pos, pos + taken);
    if taken > 0 {
        assert(kind_at(tokens, pos + taken - 1) != Kind::Eof);
    }
}

/// A tree that is read from `tokens` is a tree of the grammar, and it is
/// made of every token before the `Eof` at which the input ends, each taken
/// once and in order: none is left over.
pub proof fn lemma_tree_takes_every_token(tokens: Seq<TokenView>)
    ensures
        parsed(tokens) matches Ok(tree) ==> {
            &&& grammatical(tree, tokens)
            &&& kinds_of(tree).len() <= tokens.len()
            &&& kinds_of(tree) == kinds(tokens.take(kinds_of(tree).len() as int))
            &&& kind_at(tokens, kinds_of(tree).len() as int) == Kind::Eof
            &&& before_end(tokens, 0, kinds_of(tree).len() as int)
        },
{
    lemma_ternary_spans(tokens, 0);
    if ternary(tokens, 0) is Ok {
        let (tree, taken) = ternary(tokens, 0)->Ok_0;
        assert(tokens.subrange(0, taken as int) =~= tokens.take(taken as int));
    }
}

} // verus!
