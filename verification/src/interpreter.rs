use vstd::prelude::*;

pub mod simple;

pub use simple::SimpleInterpreter;

use crate::ast::{BinaryOperator, Expression, UnaryOperator};
use crate::error::{Error, OperatorError};

verus! {

use crate::ast::literal::float::{f64_add, f64_div, f64_of_int};
use crate::ast::literal::integer::int_pow_result;
use crate::ast::literal::{
    literal_add, literal_div, literal_mul, literal_neg, literal_pow, literal_sub, widen, Float,
    Int, Literal,
};

/// Wraps an operator failure as a pipeline error.
pub open spec fn lift_operator(r: Result<Literal, OperatorError>) -> Result<Literal, Error> {
    match r {
        Ok(l) => Ok(l),
        Err(e) => Err(Error::OperatorError(e)),
    }
}

/// What a binary operator returns on two reduced operands.
pub open spec fn eval_binary(op: BinaryOperator, a: Literal, b: Literal) -> Result<
    Literal,
    OperatorError,
> {
    match op {
        BinaryOperator::Add => literal_add(a, b),
        BinaryOperator::Subtract => literal_sub(a, b),
        BinaryOperator::Divide => literal_div(a, b),
        BinaryOperator::Multiply => literal_mul(a, b),
        BinaryOperator::Power => literal_pow(a, b),
    }
}

/// What evaluating an expression returns: the bottom-up fold of the tree,
/// left operand before right, grouping passed through unchanged, stopping
/// at the first failure.
pub open spec fn eval_spec(e: Expression) -> Result<Literal, Error>
    decreases e,
{
    match e {
        Expression::Literal(l) => Ok(l),
        Expression::BinaryExpr { op, lhs, rhs } => match eval_spec(*lhs) {
            Ok(a) => match eval_spec(*rhs) {
                Ok(b) => lift_operator(eval_binary(op, a, b)),
                Err(er) => Err(er),
            },
            Err(er) => Err(er),
        },
        Expression::UnaryExpr { op, child } => match eval_spec(*child) {
            Ok(v) => match op {
                UnaryOperator::Negation => lift_operator(literal_neg(v)),
                UnaryOperator::Parenthesis => Ok(v),
            },
            Err(er) => Err(er),
        },
    }
}

/// Division never returns an integer: for any two operands, successful
/// division yields a float — two integer operands are both widened and
/// divided as floats, so no quotient is silently truncated.
pub proof fn lemma_division_always_floats(a: Literal, b: Literal)
    ensures
        eval_spec(
            Expression::BinaryExpr {
                op: BinaryOperator::Divide,
                lhs: Box::new(Expression::Literal(a)),
                rhs: Box::new(Expression::Literal(b)),
            },
        ) == Ok::<Literal, Error>(
            Literal::Float(
                Float(
                    f64_div(
                        widen(a),
                        widen(b),
                    ),
                ),
            ),
        ),
{
    assert(eval_spec(Expression::Literal(a)) == Ok::<Literal, Error>(a));
    assert(eval_spec(Expression::Literal(b)) == Ok::<Literal, Error>(b));
}

/// Integer power stays exact: raising an integer to an integer gives the
/// mathematical power as an integer whenever it fits 64 bits, and the
/// matching operator error otherwise — never a float.
pub proof fn lemma_integer_power_stays_integer(x: i64, y: i64)
    ensures
        ({
            let r = eval_spec(
                Expression::BinaryExpr {
                    op: BinaryOperator::Power,
                    lhs: Box::new(
                        Expression::Literal(Literal::Int(Int(x))),
                    ),
                    rhs: Box::new(
                        Expression::Literal(Literal::Int(Int(y))),
                    ),
                },
            );
            match int_pow_result(x, y) {
                Ok(p) => r == Ok::<Literal, Error>(Literal::Int(p)),
                Err(e) => r == Err::<Literal, Error>(Error::OperatorError(e)),
            }
        }),
{
    let xa = Literal::Int(Int(x));
    let ya = Literal::Int(Int(y));
    assert(eval_spec(Expression::Literal(xa)) == Ok::<Literal, Error>(xa));
    assert(eval_spec(Expression::Literal(ya)) == Ok::<Literal, Error>(ya));
}

/// Mixed operands promote to float: adding a float and an integer, in
/// either order, widens the integer and adds as floats.
pub proof fn lemma_mixed_addition_floats(f: Float, x: i64)
    ensures
        eval_spec(
            Expression::BinaryExpr {
                op: BinaryOperator::Add,
                lhs: Box::new(Expression::Literal(Literal::Float(f))),
                rhs: Box::new(Expression::Literal(Literal::Int(Int(x)))),
            },
        ) == Ok::<Literal, Error>(
            Literal::Float(
                Float(
                    f64_add(
                        f.0,
                        f64_of_int(x),
                    ),
                ),
            ),
        ),
        eval_spec(
            Expression::BinaryExpr {
                op: BinaryOperator::Add,
                lhs: Box::new(Expression::Literal(Literal::Int(Int(x)))),
                rhs: Box::new(Expression::Literal(Literal::Float(f))),
            },
        ) == Ok::<Literal, Error>(
            Literal::Float(
                Float(
                    f64_add(
                        f64_of_int(x),
                        f.0,
                    ),
                ),
            ),
        ),
{
    let fa = Literal::Float(f);
    let xa = Literal::Int(Int(x));
    assert(eval_spec(Expression::Literal(fa)) == Ok::<Literal, Error>(fa));
    assert(eval_spec(Expression::Literal(xa)) == Ok::<Literal, Error>(xa));
}

/// An evaluator of expression trees. Every implementation must return
/// exactly what [`eval_spec`] says the tree evaluates to.
pub trait Interpreter {
    /// Consumes an expression tree and reduces it to a single literal,
    /// or the first arithmetic failure met in evaluation order.
    fn eval(expression: Expression) -> (r: Result<Literal, Error>)
        ensures
            r == eval_spec(expression),
    ;
}

} // verus!
