use vstd::prelude::*;

pub mod literal;

pub use literal::Literal;

use crate::error::{Error, SyntaxError};

verus! {

use crate::ast::literal::{chars_to_string, render_literal};
use crate::lexer::Token;

/// A node of the abstract syntax tree. Each node owns its children, so a
/// tree is consumed exactly once by evaluation or walked by rendering.
#[derive(Debug)]
pub enum Expression {
    UnaryExpr { op: UnaryOperator, child: Box<Expression> },
    BinaryExpr { op: BinaryOperator, lhs: Box<Expression>, rhs: Box<Expression> },
    Literal(Literal),
}

/// An operator with one operand. `Parenthesis` is kept only so that
/// rendering reproduces explicit grouping; evaluation passes through it.
#[derive(Clone, Copy, Debug, PartialEq, Eq, Structural)]
pub enum UnaryOperator {
    Parenthesis,
    Negation,
}

/// An operator with two operands.
#[derive(Clone, Copy, Debug, PartialEq, Eq, Structural)]
pub enum BinaryOperator {
    Add,
    Subtract,
    Divide,
    Multiply,
    Power,
}

/// The binary operator a token denotes, if it denotes one.
pub open spec fn binary_operator_of(t: Token) -> Option<BinaryOperator> {
    if t == Token::Plus {
        Some(BinaryOperator::Add)
    } else if t == Token::Dash {
        Some(BinaryOperator::Subtract)
    } else if t == Token::Star {
        Some(BinaryOperator::Multiply)
    } else if t == Token::ForwardSlash {
        Some(BinaryOperator::Divide)
    } else if t == Token::Hat {
        Some(BinaryOperator::Power)
    } else {
        None
    }
}

impl BinaryOperator {
    /// Reads an operator token as a binary operator. The parser only
    /// calls this on the five operator tokens; any other token is a
    /// defect and fails loudly with a syntax error rather than being
    /// coerced.
    pub fn try_from(value: Token) -> (r: Result<BinaryOperator, Error>)
        ensures
            r == match binary_operator_of(value) {
                Some(op) => Ok::<BinaryOperator, Error>(op),
                None => Err::<BinaryOperator, Error>(
                    Error::SyntaxError(SyntaxError::MissingOperand),
                ),
            },
    {
        match value {
            Token::Plus => Ok(BinaryOperator::Add),
            Token::Dash => Ok(BinaryOperator::Subtract),
            Token::Star => Ok(BinaryOperator::Multiply),
            Token::ForwardSlash => Ok(BinaryOperator::Divide),
            Token::Hat => Ok(BinaryOperator::Power),
            _ => Err(Error::SyntaxError(SyntaxError::MissingOperand)),
        }
    }
}

/// The token that denotes a binary operator: the inverse of
/// [`binary_operator_of`] on the five operator tokens.
pub open spec fn binop_token(op: BinaryOperator) -> Token {
    match op {
        BinaryOperator::Add => Token::Plus,
        BinaryOperator::Subtract => Token::Dash,
        BinaryOperator::Divide => Token::ForwardSlash,
        BinaryOperator::Multiply => Token::Star,
        BinaryOperator::Power => Token::Hat,
    }
}

/// The character that renders a binary operator.
pub open spec fn binop_char(op: BinaryOperator) -> char {
    match op {
        BinaryOperator::Add => '+',
        BinaryOperator::Subtract => '-',
        BinaryOperator::Divide => '/',
        BinaryOperator::Multiply => '*',
        BinaryOperator::Power => '^',
    }
}

/// The rendering of an expression: literals in decimal, binary operators
/// between their operands with single spaces, `-` prefixed to a negation,
/// and parentheses exactly around grouping nodes.
pub open spec fn render_expr(e: Expression) -> Seq<char>
    decreases e,
{
    match e {
        Expression::Literal(l) => render_literal(l),
        Expression::BinaryExpr { op, lhs, rhs } => render_expr(*lhs) + seq![
            ' ',
            binop_char(op),
            ' ',
        ] + render_expr(*rhs),
        Expression::UnaryExpr { op, child } => match op {
            UnaryOperator::Parenthesis => seq!['('] + render_expr(*child) + seq![')'],
            UnaryOperator::Negation => seq!['-'] + render_expr(*child),
        },
    }
}

impl Expression {
    /// Appends this expression's rendering to `out`.
    fn push_render(&self, out: &mut Vec<char>)
        ensures
            final(out)@ == old(out)@ + render_expr(*self),
        decreases *self,
    {
        match self {
            Expression::Literal(l) => {
                l.push_render(out);
            },
            Expression::BinaryExpr { op, lhs, rhs } => {
                lhs.push_render(out);
                out.push(' ');
                let c = match op {
                    BinaryOperator::Add => '+',
                    BinaryOperator::Subtract => '-',
                    BinaryOperator::Divide => '/',
                    BinaryOperator::Multiply => '*',
                    BinaryOperator::Power => '^',
                };
                out.push(c);
                out.push(' ');
                rhs.push_render(out);
                proof {
                    assert(out@ =~= old(out)@ + render_expr(*self));
                }
            },
            Expression::UnaryExpr { op, child } => {
                match op {
                    UnaryOperator::Parenthesis => {
                        out.push('(');
                        child.push_render(out);
                        out.push(')');
                        proof {
                            assert(out@ =~= old(out)@ + render_expr(*self));
                        }
                    },
                    UnaryOperator::Negation => {
                        out.push('-');
                        child.push_render(out);
                        proof {
                            assert(out@ =~= old(out)@ + render_expr(*self));
                        }
                    },
                }
            },
        }
    }

    /// This expression's textual rendering, suitable for reading back.
    pub fn render(&self) -> (r: String)
        ensures
            r@ == render_expr(*self),
    {
        let mut out: Vec<char> = Vec::new();
        self.push_render(&mut out);
        chars_to_string(&out)
    }
}

} // verus!
