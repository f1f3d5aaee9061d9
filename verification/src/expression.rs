use vstd::prelude::*;
use vstd::string::StringExecFns;
use crate::token::{spelling, Kind, Token, TokenType, TokenView};

verus! {

/// An expression tree. Each node owns its children.
#[derive(Debug, PartialEq)]
pub enum Expression<'a> {
    /// Left operand, operator, right operand.
    Binary(Box<Expression<'a>>, TokenType<'a>, Box<Expression<'a>>),
    /// Prefix operator and operand.
    Unary(TokenType<'a>, Box<Expression<'a>>),
    /// An expression between parentheses.
    Grouping(Box<Expression<'a>>),
    /// A number, a string or an identifier, as the token that was read.
    Literal(Token<'a>),
    /// Condition, value where it holds, value where it does not.
    Ternary(Box<Expression<'a>>, Box<Expression<'a>>, Box<Expression<'a>>),
}

/// An expression tree as a mathematical value.
pub enum Tree {
    Binary(Box<Tree>, Kind, Box<Tree>),
    Unary(Kind, Box<Tree>),
    Grouping(Box<Tree>),
    Literal(TokenView),
    Ternary(Box<Tree>, Box<Tree>, Box<Tree>),
}

/// The tree that `expression` stands for.
pub open spec fn tree_of(expression: Expression) -> Tree
    decreases expression,
{
    match expression {
        Expression::Binary(left, operator, right) => Tree::Binary(
            Box::new(tree_of(*left)),
            operator@,
            Box::new(tree_of(*right)),
        ),
        Expression::Unary(operator, operand) => Tree::Unary(operator@, Box::new(tree_of(*operand))),
        Expression::Grouping(inner) => Tree::Grouping(Box::new(tree_of(*inner))),
        Expression::Literal(token) => Tree::Literal(token@),
        Expression::Ternary(condition, then_branch, else_branch) => Tree::Ternary(
            Box::new(tree_of(*condition)),
            Box::new(tree_of(*then_branch)),
            Box::new(tree_of(*else_branch)),
        ),
    }
}

impl<'a> View for Expression<'a> {
    type V = Tree;

    open spec fn view(&self) -> Tree {
        tree_of(*self)
    }
}

/// The tree in infix form. Every composite node stands between parentheses,
/// a grouping between its own; a literal is written as its lexeme and an
/// operator as its kind is spelled.
pub open spec fn infix(tree: Tree) -> Seq<char>
    decreases tree,
{
    match tree {
        Tree::Binary(left, operator, right) => "("@ + infix(*left) + " "@ + spelling(operator)
            + " "@ + infix(*right) + ")"@,
        Tree::Unary(operator, operand) => "("@ + spelling(operator) + " "@ + infix(*operand)
            + ")"@,
        Tree::Grouping(inner) => "("@ + infix(*inner) + ")"@,
        Tree::Literal(token) => token.lexeme,
        Tree::Ternary(condition, then_branch, else_branch) => "("@ + infix(*condition) + " ? "@
            + infix(*then_branch) + " : "@ + infix(*else_branch) + ")"@,
    }
}

/// The tree in reverse Polish form: operands first, then the operator. A
/// grouping keeps its parentheses, and a ternary ends in a colon and a
/// question mark.
pub open spec fn reverse_polish(tree: Tree) -> Seq<char>
    decreases tree,
{
    match tree {
        Tree::Binary(left, operator, right) => reverse_polish(*left) + " "@ + reverse_polish(
            *right,
        ) + " "@ + spelling(operator),
        Tree::Unary(operator, operand) => reverse_polish(*operand) + " "@ + spelling(operator),
        Tree::Grouping(inner) => "( "@ + reverse_polish(*inner) + " )"@,
        Tree::Literal(token) => token.lexeme,
        Tree::Ternary(condition, then_branch, else_branch) => reverse_polish(*condition) + " "@
            + reverse_polish(*then_branch) + " "@ + reverse_polish(*else_branch) + " : ?"@,
    }
}

/// Rendering with each operator behind its operands.
pub trait ReversePolish {
    /// The text that `print_rpn` returns.
    spec fn rpn(&self) -> Seq<char>;

    /// The value in reverse Polish form.
    fn print_rpn(&self) -> (out: String)
        ensures
            out@ == self.rpn(),
    ;
}

impl<'a> Expression<'a> {
    /// The expression in infix form.
    pub fn to_string(&self) -> (out: String)
        ensures
            out@ == infix(self@),
        decreases self,
    {
        match self {
            Expression::Binary(left, operator, right) => {
                let mut out = String::from_str("(");
                out.append(left.to_string().as_str());
                out.append(" ");
                out.append(operator.text().as_str());
                out.append(" ");
                out.append(right.to_string().as_str());
                out.append(")");
                out
            },
            Expression::Unary(operator, operand) => {
                let mut out = String::from_str("(");
                out.append(operator.text().as_str());
                out.append(" ");
                out.append(operand.to_string().as_str());
                out.append(")");
                out
            },
            Expression::Grouping(inner) => {
                let mut out = String::from_str("(");
                out.append(inner.to_string().as_str());
                out.append(")");
                out
            },
            Expression::Literal(token) => String::from_str(token.lexeme),
            Expression::Ternary(condition, then_branch, else_branch) => {
                let mut out = String::from_str("(");
                out.append(condition.to_string().as_str());
                out.append(" ? ");
                out.append(then_branch.to_string().as_str());
                out.append(" : ");
                out.append(else_branch.to_string().as_str());
                out.append(")");
                out
            },
        }
    }
}

impl<'a> ReversePolish for Expression<'a> {
    open spec fn rpn(&self) -> Seq<char> {
        reverse_polish(self@)
    }

    fn print_rpn(&self) -> (out: String)
        decreases self,
    {
        match self {
            Expression::Binary(left, operator, right) => {
                let mut out = left.print_rpn();
                out.append(" ");
                out.append(right.print_rpn().as_str());
                out.append(" ");
                out.append(operator.text().as_str());
                out
            },
            Expression::Unary(operator, operand) => {
                let mut out = operand.print_rpn();
                out.append(" ");
                out.append(operator.text().as_str());
                out
            },
            Expression::Grouping(inner) => {
                let mut out = String::from_str("( ");
                out.append(inner.print_rpn().as_str());
                out.append(" )");
                out
            },
            Expression::Literal(token) => String::from_str(token.lexeme),
            Expression::Ternary(condition, then_branch, else_branch) => {
                let mut out = condition.print_rpn();
                out.append(" ");
                out.append(then_branch.print_rpn().as_str());
                out.append(" ");
                out.append(else_branch.print_rpn().as_str());
                out.append(" : ?");
                out
            },
        }
    }
}

} // verus!
