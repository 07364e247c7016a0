use vstd::prelude::*;

use crate::ast::{BinaryOperator, Expression, UnaryOperator};
use crate::error::Error;

use super::{eval_spec, Interpreter};

verus! {

use crate::ast::literal::Literal;

/// A direct recursive evaluator with no state between calls.
pub struct SimpleInterpreter {}

impl Interpreter for SimpleInterpreter {
    fn eval(expression: Expression) -> (r: Result<Literal, Error>)
        decreases expression,
    {
        match expression {
            Expression::Literal(literal) => Ok(literal),
            Expression::BinaryExpr { op, lhs, rhs } => {
                let lhs_output = match Self::eval(*lhs) {
                    Ok(v) => v,
                    Err(e) => {
                        return Err(e);
                    },
                };
                let rhs_output = match Self::eval(*rhs) {
                    Ok(v) => v,
                    Err(e) => {
                        return Err(e);
                    },
                };
                let applied = match op {
                    BinaryOperator::Add => lhs_output.add(rhs_output),
                    BinaryOperator::Subtract => lhs_output.sub(rhs_output),
                    BinaryOperator::Divide => lhs_output.div(rhs_output),
                    BinaryOperator::Multiply => lhs_output.mul(rhs_output),
                    BinaryOperator::Power => lhs_output.pow(rhs_output),
                };
                match applied {
                    Ok(v) => Ok(v),
                    Err(e) => Err(Error::OperatorError(e)),
                }
            },
            Expression::UnaryExpr { op, child } => {
                let child_output = match Self::eval(*child) {
                    Ok(v) => v,
                    Err(e) => {
                        return Err(e);
                    },
                };
                match op {
                    UnaryOperator::Negation => match child_output.neg() {
                        Ok(v) => Ok(v),
                        Err(e) => Err(Error::OperatorError(e)),
                    },
                    UnaryOperator::Parenthesis => Ok(child_output),
                }
            },
        }
    }
}

} // verus!
