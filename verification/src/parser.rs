use vstd::prelude::*;

use crate::ast::{binary_operator_of, BinaryOperator, Expression, UnaryOperator};
use crate::error::{Error, SyntaxError};
use crate::lexer::{
    is_expression_token, is_term_token, lemma_next_step_bounds, next_token_spec, tokenize_all,
    Lexer, Token,
};

verus! {

use crate::ast::{binop_char, binop_token, render_expr, Literal};
use crate::ast::literal::dec_chars_nat;
use crate::lexer::{
    digits_value, has_digit, is_digit_byte, is_num_byte, is_ws_byte, lemma_count_dots_none,
    lemma_leading_whitespace, lemma_num_run_eq, op_token, ws_len,
};


/// What the factor rule returns on a token sequence: a literal leaf, a
/// parenthesized expression, a negation of another factor, or the syntax
/// error that rules the sequence out. The count is how many tokens the
/// factor occupies.
pub open spec fn spec_factor(t: Seq<Token>) -> Result<(Expression, nat), SyntaxError>
    decreases t.len(), 0nat,
{
    if t.len() == 0 {
        Err(SyntaxError::MissingOperand)
    } else {
        match t[0] {
            Token::Literal(lit) => Ok((Expression::Literal(lit), 1 as nat)),
            Token::LeftParenthesis => match spec_expr(t.skip(1)) {
                Ok((child, n)) => {
                    if 1 + n < t.len() && t[1 + n as int] == Token::RightParenthesis {
                        Ok(
                            (
                                Expression::UnaryExpr {
                                    op: UnaryOperator::Parenthesis,
                                    child: Box::new(child),
                                },
                                n + 2,
                            ),
                        )
                    } else {
                        Err(SyntaxError::UnclosedParenthesis)
                    }
                },
                Err(e) => Err(e),
            },
            Token::Dash => match spec_factor(t.skip(1)) {
                Ok((child, n)) => Ok(
                    (
                        Expression::UnaryExpr {
                            op: UnaryOperator::Negation,
                            child: Box::new(child),
                        },
                        n + 1,
                    ),
                ),
                Err(e) => Err(e),
            },
            Token::Unrecognized(c) => Err(SyntaxError::UnrecognizedToken(c)),
            _ => Err(SyntaxError::MissingOperand),
        }
    }
}

/// What the term rule returns: a factor, optionally continued by `*`,
/// `/` or `^` and another term on its right (so chains of one precedence
/// level group to the right).
pub open spec fn spec_term(t: Seq<Token>) -> Result<(Expression, nat), SyntaxError>
    decreases t.len(), 1nat,
{
    match spec_factor(t) {
        Ok((lhs, n)) => {
            if n < t.len() && is_term_token(t[n as int]) {
                match spec_term(t.skip(n + 1 as int)) {
                    Ok((rhs, m)) => {
                        match binary_operator_of(t[n as int]) {
                            Some(op) => Ok(
                                (
                                    Expression::BinaryExpr {
                                        op,
                                        lhs: Box::new(lhs),
                                        rhs: Box::new(rhs),
                                    },
                                    n + 1 + m,
                                ),
                            ),
                            None => Err(SyntaxError::MissingOperand),
                        }
                    },
                    Err(e) => Err(e),
                }
            } else {
                Ok((lhs, n))
            }
        },
        Err(e) => Err(e),
    }
}

/// What the expression rule returns: a term, optionally continued by `+`
/// or `-` and another expression on its right.
pub open spec fn spec_expr(t: Seq<Token>) -> Result<(Expression, nat), SyntaxError>
    decreases t.len(), 2nat,
{
    match spec_term(t) {
        Ok((lhs, n)) => {
            if n < t.len() && is_expression_token(t[n as int]) {
                match spec_expr(t.skip(n + 1 as int)) {
                    Ok((rhs, m)) => {
                        match binary_operator_of(t[n as int]) {
                            Some(op) => Ok(
                                (
                                    Expression::BinaryExpr {
                                        op,
                                        lhs: Box::new(lhs),
                                        rhs: Box::new(rhs),
                                    },
                                    n + 1 + m,
                                ),
                            ),
                            None => Err(SyntaxError::MissingOperand),
                        }
                    },
                    Err(e) => Err(e),
                }
            } else {
                Ok((lhs, n))
            }
        },
        Err(e) => Err(e),
    }
}

/// A recursive-descent parser for the grammar
///
/// ```text
/// expr   := term (('+' | '-') expr)?
/// term   := factor (('*' | '/' | '^') term)?
/// factor := LITERAL | '(' expr ')' | '-' factor
/// ```
///
/// Each rule recurses into itself for its right-hand side, so chains of
/// operators at one precedence level group to the right: `a - b - c` is
/// `a - (b - c)` and `a ^ b ^ c` is `a ^ (b ^ c)`. This is a deliberate
/// property of the grammar, stated by [`spec_term`] and [`spec_expr`]
/// and proved as [`lemma_power_right_associative`].
pub struct Parser;

impl Parser {
    /// Parses one factor starting at token `i`.
    fn factor(toks: &Vec<Token>, i: usize) -> (r: Result<(Expression, usize), Error>)
        requires
            i <= toks@.len(),
        ensures
            match (r, spec_factor(toks@.skip(i as int))) {
                (Ok(rp), Ok(sp)) => rp.0 == sp.0 && rp.1 == i + sp.1 && rp.1 <= toks@.len(),
                (Err(e), Err(se)) => e == Error::SyntaxError(se),
                _ => false,
            },
        decreases toks@.len() - i, 0int,
    {
        if i >= toks.len() {
            return Err(Error::SyntaxError(SyntaxError::MissingOperand));
        }
        proof {
            assert(toks@.skip(i as int).skip(1) =~= toks@.skip(i + 1));
        }
        let t0 = toks[i];
        match t0 {
            Token::Literal(lit) => Ok((Expression::Literal(lit), i + 1)),
            Token::LeftParenthesis => match Self::expr(toks, i + 1) {
                Ok((child, j)) => {
                    if j < toks.len() {
                        let tj = toks[j];
                        if tj == Token::RightParenthesis {
                            Ok(
                                (
                                    Expression::UnaryExpr {
                                        op: UnaryOperator::Parenthesis,
                                        child: Box::new(child),
                                    },
                                    j + 1,
                                ),
                            )
                        } else {
                            Err(Error::SyntaxError(SyntaxError::UnclosedParenthesis))
                        }
                    } else {
                        Err(Error::SyntaxError(SyntaxError::UnclosedParenthesis))
                    }
                },
                Err(e) => Err(e),
            },
            Token::Dash => match Self::factor(toks, i + 1) {
                Ok((child, j)) => Ok(
                    (
                        Expression::UnaryExpr {
                            op: UnaryOperator::Negation,
                            child: Box::new(child),
                        },
                        j,
                    ),
                ),
                Err(e) => Err(e),
            },
            Token::Unrecognized(c) => Err(Error::SyntaxError(SyntaxError::UnrecognizedToken(c))),
            _ => Err(Error::SyntaxError(SyntaxError::MissingOperand)),
        }
    }

    /// Parses one term starting at token `i`.
    fn term(toks: &Vec<Token>, i: usize) -> (r: Result<(Expression, usize), Error>)
        requires
            i <= toks@.len(),
        ensures
            match (r, spec_term(toks@.skip(i as int))) {
                (Ok(rp), Ok(sp)) => rp.0 == sp.0 && rp.1 == i + sp.1 && rp.1 <= toks@.len(),
                (Err(e), Err(se)) => e == Error::SyntaxError(se),
                _ => false,
            },
        decreases toks@.len() - i, 1int,
    {
        match Self::factor(toks, i) {
            Ok((lhs, j)) => {
                if j < toks.len() && toks[j].is_term() {
                    let op_tok = toks[j];
                    proof {
                        assert(toks@.skip(i as int).skip(j - i + 1) =~= toks@.skip(j + 1));
                    }
                    match Self::term(toks, j + 1) {
                        Ok((rhs, m)) => {
                            match BinaryOperator::try_from(op_tok) {
                                Ok(op) => Ok(
                                    (
                                        Expression::BinaryExpr {
                                            op,
                                            lhs: Box::new(lhs),
                                            rhs: Box::new(rhs),
                                        },
                                        m,
                                    ),
                                ),
                                Err(e) => Err(e),
                            }
                        },
                        Err(e) => Err(e),
                    }
                } else {
                    Ok((lhs, j))
                }
            },
            Err(e) => Err(e),
        }
    }

    /// Parses one expression starting at token `i`.
    fn expr(toks: &Vec<Token>, i: usize) -> (r: Result<(Expression, usize), Error>)
        requires
            i <= toks@.len(),
        ensures
            match (r, spec_expr(toks@.skip(i as int))) {
                (Ok(rp), Ok(sp)) => rp.0 == sp.0 && rp.1 == i + sp.1 && rp.1 <= toks@.len(),
                (Err(e), Err(se)) => e == Error::SyntaxError(se),
                _ => false,
            },
        decreases toks@.len() - i, 2int,
    {
        match Self::term(toks, i) {
            Ok((lhs, j)) => {
                if j < toks.len() && toks[j].is_expression() {
                    let op_tok = toks[j];
                    proof {
                        assert(toks@.skip(i as int).skip(j - i + 1) =~= toks@.skip(j + 1));
                    }
                    match Self::expr(toks, j + 1) {
                        Ok((rhs, m)) => {
                            match BinaryOperator::try_from(op_tok) {
                                Ok(op) => Ok(
                                    (
                                        Expression::BinaryExpr {
                                            op,
                                            lhs: Box::new(lhs),
                                            rhs: Box::new(rhs),
                                        },
                                        m,
                                    ),
                                ),
                                Err(e) => Err(e),
                            }
                        },
                        Err(e) => Err(e),
                    }
                } else {
                    Ok((lhs, j))
                }
            },
            Err(e) => Err(e),
        }
    }

    /// Parses one expression out of the lexer's tokens: the expression
    /// the grammar gives, or the syntax error that rules the input out.
    /// Every byte is tokenized, so the lexer's log afterwards holds all
    /// recoverable literal errors; on success the tokens after the one
    /// parsed expression are handed back to the lexer, which serves them
    /// again — detecting trailing garbage is the caller's concern. A
    /// syntax error is fatal and leaves the lexer exhausted.
    pub fn parse(lexer: &mut Lexer) -> (r: Result<Expression, Error>)
        requires
            old(lexer).wf(),
        ensures
            final(lexer).wf(),
            final(lexer).remaining().len() == 0,
            final(lexer).errors_view() == old(lexer).errors_view() + tokenize_all(
                old(lexer).remaining(),
            ).1,
            ({
                let toks = old(lexer).remaining_tokens();
                match (r, spec_expr(toks)) {
                    (Ok(e), Ok(sp)) => e == sp.0 && final(lexer).remaining_tokens() == toks.skip(
                        sp.1 as int,
                    ),
                    (Err(e), Err(se)) => e == Error::SyntaxError(se)
                        && final(lexer).remaining_tokens().len() == 0,
                    _ => false,
                }
            }),
    {
        let tokens = lexer.drain_tokens();
        proof {
            assert(tokens@.skip(0) =~= tokens@);
        }
        match Self::expr(&tokens, 0) {
            Ok((e, consumed)) => {
                let ghost drained = *lexer;
                let mut leftover: Vec<Token> = Vec::new();
                let mut k = consumed;
                while k < tokens.len()
                    invariant
                        *lexer == drained,
                        consumed <= k <= tokens@.len(),
                        leftover@ == tokens@.subrange(consumed as int, k as int),
                    decreases tokens@.len() - k,
                {
                    leftover.push(tokens[k]);
                    k = k + 1;
                    proof {
                        assert(leftover@ =~= tokens@.subrange(consumed as int, k as int));
                    }
                }
                proof {
                    assert(leftover@ =~= tokens@.skip(consumed as int));
                }
                lexer.restore_tokens(leftover);
                proof {
                    assert(final(lexer).remaining_tokens() =~= old(lexer).remaining_tokens().skip(
                        consumed as int,
                    ));
                }
                Ok(e)
            },
            Err(e) => {
                proof {
                    assert(next_token_spec(lexer.remaining()).token is None);
                    assert(tokenize_all(lexer.remaining()).0 =~= Seq::<Token>::empty());
                }
                Err(e)
            },
        }
    }
}


/// The token sequence an expression spells out: its literals, operators
/// and explicit parentheses in order, with no whitespace.
pub open spec fn token_yield(e: Expression) -> Seq<Token>
    decreases e,
{
    match e {
        Expression::Literal(l) => seq![Token::Literal(l)],
        Expression::BinaryExpr { op, lhs, rhs } => token_yield(*lhs) + seq![binop_token(op)]
            + token_yield(*rhs),
        Expression::UnaryExpr { op, child } => match op {
            UnaryOperator::Parenthesis => seq![Token::LeftParenthesis] + token_yield(*child)
                + seq![Token::RightParenthesis],
            UnaryOperator::Negation => seq![Token::Dash] + token_yield(*child),
        },
    }
}

/// The shape of a tree the factor rule can produce: a literal, a grouped
/// expression, or a negated factor.
pub open spec fn factor_form(e: Expression) -> bool
    decreases e, 0nat,
{
    match e {
        Expression::Literal(_) => true,
        Expression::UnaryExpr { op, child } => match op {
            UnaryOperator::Parenthesis => expr_form(*child),
            UnaryOperator::Negation => factor_form(*child),
        },
        Expression::BinaryExpr { .. } => false,
    }
}

/// The shape of a tree the term rule can produce: a factor, or a
/// multiplicative operator with a factor on the left and a term on the
/// right.
pub open spec fn term_form(e: Expression) -> bool
    decreases e, 1nat,
{
    factor_form(e) || match e {
        Expression::BinaryExpr { op, lhs, rhs } => is_term_token(binop_token(op)) && factor_form(
            *lhs,
        ) && term_form(*rhs),
        _ => false,
    }
}

/// The shape of a tree the expression rule can produce: a term, or an
/// additive operator with a term on the left and an expression on the
/// right.
pub open spec fn expr_form(e: Expression) -> bool
    decreases e, 2nat,
{
    term_form(e) || match e {
        Expression::BinaryExpr { op, lhs, rhs } => is_expression_token(binop_token(op))
            && term_form(*lhs) && expr_form(*rhs),
        _ => false,
    }
}

/// A successful factor parse has factor shape, consumes at least one
/// token, and spells out exactly the tokens it consumed.
pub proof fn lemma_factor_shape(t: Seq<Token>)
    ensures
        spec_factor(t) matches Ok(sp) ==> factor_form(sp.0) && 1 <= sp.1 <= t.len()
            && token_yield(sp.0) == t.take(sp.1 as int),
    decreases t.len(), 0nat,
{
    if t.len() == 0 {
    } else {
        match t[0] {
            Token::Literal(lit) => {
                assert(token_yield(Expression::Literal(lit)) =~= t.take(1));
            },
            Token::LeftParenthesis => {
                lemma_expr_shape(t.skip(1));
                match spec_expr(t.skip(1)) {
                    Ok((child, n)) => {
                        if 1 + n < t.len() && t[1 + n as int] == Token::RightParenthesis {
                            assert(token_yield(*Box::new(child)) == t.skip(1).take(n as int));
                            assert(seq![Token::LeftParenthesis] + token_yield(child) + seq![
                                Token::RightParenthesis,
                            ] =~= t.take(n + 2 as int));
                        }
                    },
                    Err(_) => {},
                }
            },
            Token::Dash => {
                lemma_factor_shape(t.skip(1));
                match spec_factor(t.skip(1)) {
                    Ok((child, n)) => {
                        assert(seq![Token::Dash] + token_yield(child) =~= t.take(n + 1 as int));
                    },
                    Err(_) => {},
                }
            },
            _ => {},
        }
    }
}

/// A successful term parse has term shape, consumes at least one token,
/// and spells out exactly the tokens it consumed.
pub proof fn lemma_term_shape(t: Seq<Token>)
    ensures
        spec_term(t) matches Ok(sp) ==> term_form(sp.0) && 1 <= sp.1 <= t.len() && token_yield(
            sp.0,
        ) == t.take(sp.1 as int),
    decreases t.len(), 1nat,
{
    lemma_factor_shape(t);
    match spec_factor(t) {
        Ok((lhs, n)) => {
            if n < t.len() && is_term_token(t[n as int]) {
                lemma_term_shape(t.skip(n + 1 as int));
                match spec_term(t.skip(n + 1 as int)) {
                    Ok((rhs, m)) => {
                        match binary_operator_of(t[n as int]) {
                            Some(op) => {
                                assert(binop_token(op) == t[n as int]);
                                assert(token_yield(lhs) + seq![binop_token(op)] + token_yield(rhs)
                                    =~= t.take(n + 1 + m as int));
                            },
                            None => {},
                        }
                    },
                    Err(_) => {},
                }
            }
        },
        Err(_) => {},
    }
}

/// A successful expression parse has expression shape, consumes at least
/// one token, and spells out exactly the tokens it consumed.
pub proof fn lemma_expr_shape(t: Seq<Token>)
    ensures
        spec_expr(t) matches Ok(sp) ==> expr_form(sp.0) && 1 <= sp.1 <= t.len() && token_yield(
            sp.0,
        ) == t.take(sp.1 as int),
    decreases t.len(), 2nat,
{
    lemma_term_shape(t);
    match spec_term(t) {
        Ok((lhs, n)) => {
            if n < t.len() && is_expression_token(t[n as int]) {
                lemma_expr_shape(t.skip(n + 1 as int));
                match spec_expr(t.skip(n + 1 as int)) {
                    Ok((rhs, m)) => {
                        match binary_operator_of(t[n as int]) {
                            Some(op) => {
                                assert(binop_token(op) == t[n as int]);
                                assert(token_yield(lhs) + seq![binop_token(op)] + token_yield(rhs)
                                    =~= t.take(n + 1 + m as int));
                            },
                            None => {},
                        }
                    },
                    Err(_) => {},
                }
            }
        },
        Err(_) => {},
    }
}

/// Parsing the spelled-out tokens of a factor-shaped tree, whatever
/// follows them, gives back exactly that tree.
pub proof fn lemma_factor_yield(f: Expression, rest: Seq<Token>)
    requires
        factor_form(f),
    ensures
        spec_factor(token_yield(f) + rest) == Ok::<(Expression, nat), SyntaxError>(
            (f, token_yield(f).len() as nat),
        ),
    decreases f, 0nat,
{
    let t = token_yield(f) + rest;
    match f {
        Expression::Literal(lit) => {
            assert(t[0] == Token::Literal(lit));
        },
        Expression::UnaryExpr { op, child } => {
            match op {
                UnaryOperator::Parenthesis => {
                    assert(t[0] == Token::LeftParenthesis);
                    assert(t.skip(1) =~= token_yield(*child) + (seq![Token::RightParenthesis]
                        + rest));
                    lemma_expr_yield(*child, seq![Token::RightParenthesis] + rest);
                    let n = token_yield(*child).len() as nat;
                    assert(t[1 + n as int] == Token::RightParenthesis);
                    assert(1 + n < t.len());
                },
                UnaryOperator::Negation => {
                    assert(t[0] == Token::Dash);
                    assert(t.skip(1) =~= token_yield(*child) + rest);
                    lemma_factor_yield(*child, rest);
                },
            }
        },
        Expression::BinaryExpr { .. } => {},
    }
}

/// Parsing the spelled-out tokens of a term-shaped tree gives back
/// exactly that tree, provided what follows does not continue the term.
pub proof fn lemma_term_yield(f: Expression, rest: Seq<Token>)
    requires
        term_form(f),
        rest.len() == 0 || !is_term_token(rest[0]),
    ensures
        spec_term(token_yield(f) + rest) == Ok::<(Expression, nat), SyntaxError>(
            (f, token_yield(f).len() as nat),
        ),
    decreases f, 1nat,
{
    let t = token_yield(f) + rest;
    if factor_form(f) {
        lemma_factor_yield(f, rest);
        let n = token_yield(f).len() as nat;
        if n < t.len() {
            assert(t[n as int] == rest[0]);
        }
    } else {
        match f {
            Expression::BinaryExpr { op, lhs, rhs } => {
                let rest1 = seq![binop_token(op)] + token_yield(*rhs) + rest;
                assert(t =~= token_yield(*lhs) + rest1);
                lemma_factor_yield(*lhs, rest1);
                let n = token_yield(*lhs).len() as nat;
                assert(t[n as int] == binop_token(op));
                assert(t.skip(n + 1 as int) =~= token_yield(*rhs) + rest);
                lemma_term_yield(*rhs, rest);
                assert(binary_operator_of(binop_token(op)) == Some(op));
            },
            _ => {},
        }
    }
}

/// Parsing the spelled-out tokens of an expression-shaped tree gives back
/// exactly that tree, provided what follows does not continue it.
pub proof fn lemma_expr_yield(f: Expression, rest: Seq<Token>)
    requires
        expr_form(f),
        rest.len() == 0 || (!is_term_token(rest[0]) && !is_expression_token(rest[0])),
    ensures
        spec_expr(token_yield(f) + rest) == Ok::<(Expression, nat), SyntaxError>(
            (f, token_yield(f).len() as nat),
        ),
    decreases f, 2nat,
{
    let t = token_yield(f) + rest;
    if term_form(f) {
        lemma_term_yield(f, rest);
        let n = token_yield(f).len() as nat;
        if n < t.len() {
            assert(t[n as int] == rest[0]);
        }
    } else {
        match f {
            Expression::BinaryExpr { op, lhs, rhs } => {
                let rest1 = seq![binop_token(op)] + token_yield(*rhs) + rest;
                assert(t =~= token_yield(*lhs) + rest1);
                assert(!is_term_token(rest1[0]));
                lemma_term_yield(*lhs, rest1);
                let n = token_yield(*lhs).len() as nat;
                assert(t[n as int] == binop_token(op));
                assert(t.skip(n + 1 as int) =~= token_yield(*rhs) + rest);
                lemma_expr_yield(*rhs, rest);
                assert(binary_operator_of(binop_token(op)) == Some(op));
            },
            _ => {},
        }
    }
}

/// An expression built by a successful parse, spelled back out as tokens
/// and parsed again, is the very same tree — so evaluating the re-parse
/// gives the same result as evaluating the tree it came from.
pub proof fn lemma_parse_round_trip(toks: Seq<Token>)
    requires
        spec_expr(toks) is Ok,
    ensures
        ({
            let sp = spec_expr(toks)->Ok_0;
            expr_form(sp.0) && token_yield(sp.0) == toks.take(sp.1 as int) && spec_expr(
                token_yield(sp.0),
            ) == Ok::<(Expression, nat), SyntaxError>(
                (sp.0, token_yield(sp.0).len() as nat),
            )
        }),
{
    lemma_expr_shape(toks);
    let sp = spec_expr(toks)->Ok_0;
    lemma_expr_yield(sp.0, Seq::empty());
    assert(token_yield(sp.0) + Seq::<Token>::empty() =~= token_yield(sp.0));
}


/// Multiplication binds tighter than addition: `a + b * c` parses with
/// the product on the right of the sum, never `(a + b) * c`.
pub proof fn lemma_precedence_mul_over_add(a: Literal, b: Literal, c: Literal)
    ensures
        spec_expr(
            seq![
                Token::Literal(a),
                Token::Plus,
                Token::Literal(b),
                Token::Star,
                Token::Literal(c),
            ],
        ) == Ok::<(Expression, nat), SyntaxError>(
            (
                Expression::BinaryExpr {
                    op: BinaryOperator::Add,
                    lhs: Box::new(Expression::Literal(a)),
                    rhs: Box::new(
                        Expression::BinaryExpr {
                            op: BinaryOperator::Multiply,
                            lhs: Box::new(Expression::Literal(b)),
                            rhs: Box::new(Expression::Literal(c)),
                        },
                    ),
                },
                5,
            ),
        ),
{
    let t = seq![
        Token::Literal(a),
        Token::Plus,
        Token::Literal(b),
        Token::Star,
        Token::Literal(c),
    ];
    let u = t.skip(2);
    assert(u =~= seq![Token::Literal(b), Token::Star, Token::Literal(c)]);
    let v = u.skip(2);
    assert(v =~= seq![Token::Literal(c)]);
    assert(spec_factor(v) == Ok::<(Expression, nat), SyntaxError>((Expression::Literal(c), 1)));
    assert(spec_term(v) == Ok::<(Expression, nat), SyntaxError>((Expression::Literal(c), 1)));
    assert(spec_factor(u) == Ok::<(Expression, nat), SyntaxError>((Expression::Literal(b), 1)));
    assert(spec_factor(t) == Ok::<(Expression, nat), SyntaxError>((Expression::Literal(a), 1)));
    assert(spec_term(u) == Ok::<(Expression, nat), SyntaxError>(
        (
            Expression::BinaryExpr {
                op: BinaryOperator::Multiply,
                lhs: Box::new(Expression::Literal(b)),
                rhs: Box::new(Expression::Literal(c)),
            },
            3,
        ),
    ));
    assert(spec_expr(u) == Ok::<(Expression, nat), SyntaxError>(
        (
            Expression::BinaryExpr {
                op: BinaryOperator::Multiply,
                lhs: Box::new(Expression::Literal(b)),
                rhs: Box::new(Expression::Literal(c)),
            },
            3,
        ),
    ));
    assert(spec_term(t) == Ok::<(Expression, nat), SyntaxError>((Expression::Literal(a), 1)));
}

/// Power chains group to the right: `a ^ b ^ c` parses as `a ^ (b ^ c)`.
pub proof fn lemma_power_right_associative(a: Literal, b: Literal, c: Literal)
    ensures
        spec_expr(
            seq![
                Token::Literal(a),
                Token::Hat,
                Token::Literal(b),
                Token::Hat,
                Token::Literal(c),
            ],
        ) == Ok::<(Expression, nat), SyntaxError>(
            (
                Expression::BinaryExpr {
                    op: BinaryOperator::Power,
                    lhs: Box::new(Expression::Literal(a)),
                    rhs: Box::new(
                        Expression::BinaryExpr {
                            op: BinaryOperator::Power,
                            lhs: Box::new(Expression::Literal(b)),
                            rhs: Box::new(Expression::Literal(c)),
                        },
                    ),
                },
                5,
            ),
        ),
{
    let t = seq![
        Token::Literal(a),
        Token::Hat,
        Token::Literal(b),
        Token::Hat,
        Token::Literal(c),
    ];
    let u = t.skip(2);
    assert(u =~= seq![Token::Literal(b), Token::Hat, Token::Literal(c)]);
    let v = u.skip(2);
    assert(v =~= seq![Token::Literal(c)]);
    assert(spec_factor(v) == Ok::<(Expression, nat), SyntaxError>((Expression::Literal(c), 1)));
    assert(spec_term(v) == Ok::<(Expression, nat), SyntaxError>((Expression::Literal(c), 1)));
    assert(spec_factor(u) == Ok::<(Expression, nat), SyntaxError>((Expression::Literal(b), 1)));
    assert(spec_factor(t) == Ok::<(Expression, nat), SyntaxError>((Expression::Literal(a), 1)));
    assert(spec_term(u) == Ok::<(Expression, nat), SyntaxError>(
        (
            Expression::BinaryExpr {
                op: BinaryOperator::Power,
                lhs: Box::new(Expression::Literal(b)),
                rhs: Box::new(Expression::Literal(c)),
            },
            3,
        ),
    ));
    assert(spec_term(t) == Ok::<(Expression, nat), SyntaxError>(
        (
            Expression::BinaryExpr {
                op: BinaryOperator::Power,
                lhs: Box::new(Expression::Literal(a)),
                rhs: Box::new(
                    Expression::BinaryExpr {
                        op: BinaryOperator::Power,
                        lhs: Box::new(Expression::Literal(b)),
                        rhs: Box::new(Expression::Literal(c)),
                    },
                ),
            },
            5,
        ),
    ));
}

/// Unary negation binds tighter than every binary operator: `- a ^ b`
/// parses as `(-a) ^ b`, the negation staying inside the left operand.
pub proof fn lemma_negation_binds_tighter(a: Literal, b: Literal)
    ensures
        spec_expr(seq![Token::Dash, Token::Literal(a), Token::Hat, Token::Literal(b)])
            == Ok::<(Expression, nat), SyntaxError>(
            (
                Expression::BinaryExpr {
                    op: BinaryOperator::Power,
                    lhs: Box::new(
                        Expression::UnaryExpr {
                            op: UnaryOperator::Negation,
                            child: Box::new(Expression::Literal(a)),
                        },
                    ),
                    rhs: Box::new(Expression::Literal(b)),
                },
                4,
            ),
        ),
{
    let t = seq![Token::Dash, Token::Literal(a), Token::Hat, Token::Literal(b)];
    assert(t.skip(1) =~= seq![Token::Literal(a), Token::Hat, Token::Literal(b)]);
    assert(spec_factor(t.skip(1)) == Ok::<(Expression, nat), SyntaxError>(
        (Expression::Literal(a), 1),
    ));
    assert(spec_factor(t) == Ok::<(Expression, nat), SyntaxError>(
        (
            Expression::UnaryExpr {
                op: UnaryOperator::Negation,
                child: Box::new(Expression::Literal(a)),
            },
            2,
        ),
    ));
    let u = t.skip(3);
    assert(u =~= seq![Token::Literal(b)]);
    assert(spec_factor(u) == Ok::<(Expression, nat), SyntaxError>((Expression::Literal(b), 1)));
    assert(spec_term(u) == Ok::<(Expression, nat), SyntaxError>((Expression::Literal(b), 1)));
    assert(spec_term(t) == Ok::<(Expression, nat), SyntaxError>(
        (
            Expression::BinaryExpr {
                op: BinaryOperator::Power,
                lhs: Box::new(
                    Expression::UnaryExpr {
                        op: UnaryOperator::Negation,
                        child: Box::new(Expression::Literal(a)),
                    },
                ),
                rhs: Box::new(Expression::Literal(b)),
            },
            4,
        ),
    ));
}

/// An opening parenthesis whose expression runs to the end of the input
/// fails with the unclosed-parenthesis error, for every such input.
pub proof fn lemma_unclosed_parenthesis(t: Seq<Token>)
    requires
        spec_expr(t) matches Ok(sp) && sp.1 == t.len(),
    ensures
        spec_factor(seq![Token::LeftParenthesis] + t) == Err::<(Expression, nat), SyntaxError>(
            SyntaxError::UnclosedParenthesis,
        ),
{
    let w = seq![Token::LeftParenthesis] + t;
    assert(w.skip(1) =~= t);
}


/// The bytes of an ASCII rendering.
pub open spec fn ascii_bytes(s: Seq<char>) -> Seq<u8> {
    s.map_values(|c: char| c as u8)
}

/// A rendered natural number is one or more decimal digit bytes whose
/// value reads back as the number itself.
proof fn lemma_dec_chars_digits(n: nat)
    ensures
        dec_chars_nat(n).len() >= 1,
        forall|i: int| 0 <= i < dec_chars_nat(n).len() ==> is_digit_byte(
            #[trigger] ascii_bytes(dec_chars_nat(n))[i],
        ),
        digits_value(ascii_bytes(dec_chars_nat(n))) == n,
    decreases n,
{
    if n < 10 {
        assert(ascii_bytes(dec_chars_nat(n)) =~= seq![(48 + n) as u8]);
        assert(seq![(48 + n) as u8].drop_last() =~= Seq::<u8>::empty());
        assert(digits_value(Seq::<u8>::empty()) == 0);
        assert(digits_value(seq![(48 + n) as u8]) == n);
    } else {
        lemma_dec_chars_digits(n / 10);
        let whole = ascii_bytes(dec_chars_nat(n));
        let high = ascii_bytes(dec_chars_nat(n / 10));
        assert(whole =~= high + seq![(48 + n % 10) as u8]);
        assert(whole.drop_last() =~= high);
        assert(whole.last() == (48 + n % 10) as u8);
        assert(digits_value(whole) == digits_value(high) * 10 + ((48 + n % 10) - 48));
        assert forall|i: int| 0 <= i < whole.len() implies is_digit_byte(whole[i]) by {
            if i < whole.len() - 1 {
                assert(whole[i] == high[i]);
            }
        }
    }
}

/// The tokenizer reads a rendered nonnegative integer back as exactly
/// that integer literal, whatever follows it, provided what follows
/// cannot extend the numeric run.
proof fn lemma_lex_int_literal(v: i64, rest: Seq<u8>)
    requires
        0 <= v,
        rest.len() == 0 || !is_num_byte(rest[0]),
    ensures
        ({
            let digits = ascii_bytes(dec_chars_nat(v as nat));
            let st = next_token_spec(digits + rest);
            st.token == Some(Token::Literal(Literal::Int(crate::ast::literal::Int(v))))
                && st.consumed == digits.len() && st.log == Seq::<Error>::empty()
        }),
{
    lemma_dec_chars_digits(v as nat);
    let digits = ascii_bytes(dec_chars_nat(v as nat));
    let s = digits + rest;
    assert forall|i: int| 0 <= i < digits.len() implies is_digit_byte(s[i]) by {
        assert(s[i] == digits[i]);
    }
    assert(!is_ws_byte(s[0]));
    assert(ws_len(s) == 0);
    if digits.len() < s.len() {
        assert(s[digits.len() as int] == rest[0]);
    }
    lemma_num_run_eq(s, digits.len());
    let run = s.take(digits.len() as int);
    assert(run =~= digits);
    assert(is_digit_byte(run.last()));
    assert(has_digit(run));
    lemma_count_dots_none(run);
    assert(digits_value(run) == v);
    assert(s.skip(0) =~= s);
}

/// Whether a tree's literals are all nonnegative integers — the shape of
/// every literal a parse can produce when the input has no decimal
/// point. Rendered floats pass through outside formatting, so only this
/// fragment can be read back byte for byte.
pub open spec fn int_only(e: Expression) -> bool
    decreases e,
{
    match e {
        Expression::Literal(l) => match l {
            Literal::Int(i) => i.0 >= 0,
            Literal::Float(_) => false,
        },
        Expression::BinaryExpr { op, lhs, rhs } => int_only(*lhs) && int_only(*rhs),
        Expression::UnaryExpr { op, child } => int_only(*child),
    }
}

/// Tokenizing the rendering of an integer-only tree yields exactly the
/// tree's own token spelling, with nothing logged, whatever follows the
/// rendering (as long as it cannot extend a trailing number).
#[verifier::rlimit(100)]
#[verifier::spinoff_prover]
proof fn lemma_render_tokenizes(e: Expression, rest: Seq<u8>)
    requires
        int_only(e),
        rest.len() == 0 || !is_num_byte(rest[0]),
    ensures
        tokenize_all(ascii_bytes(render_expr(e)) + rest).0 == token_yield(e) + tokenize_all(
            rest,
        ).0,
        tokenize_all(ascii_bytes(render_expr(e)) + rest).1 == tokenize_all(rest).1,
    decreases e,
{
    let s = ascii_bytes(render_expr(e)) + rest;
    match e {
        Expression::Literal(l) => {
            match l {
                Literal::Int(iv) => {
                    assert(render_expr(e) == dec_chars_nat(iv.0 as nat));
                    lemma_lex_int_literal(iv.0, rest);
                    let st = next_token_spec(s);
                    assert(s.skip(st.consumed as int) =~= rest);
                    assert(tokenize_all(s).0 =~= token_yield(e) + tokenize_all(rest).0);
                    assert(tokenize_all(s).1 =~= tokenize_all(rest).1);
                },
                Literal::Float(_) => {},
            }
        },
        Expression::UnaryExpr { op, child } => {
            match op {
                UnaryOperator::Negation => {
                    assert(s =~= seq![45u8] + (ascii_bytes(render_expr(*child)) + rest));
                    assert(!is_ws_byte(s[0]));
                    assert(ws_len(s) == 0);
                    assert(s.skip(0) =~= s);
                    let st = next_token_spec(s);
                    assert(st.token == Some(Token::Dash) && st.consumed == 1);
                    assert(s.skip(1) =~= ascii_bytes(render_expr(*child)) + rest);
                    lemma_render_tokenizes(*child, rest);
                    assert(tokenize_all(s).0 =~= token_yield(e) + tokenize_all(rest).0);
                    assert(tokenize_all(s).1 =~= tokenize_all(rest).1);
                },
                UnaryOperator::Parenthesis => {
                    let inner = ascii_bytes(render_expr(*child));
                    let closing = seq![41u8] + rest;
                    assert(s =~= seq![40u8] + (inner + closing));
                    assert(!is_ws_byte(s[0]));
                    assert(ws_len(s) == 0);
                    assert(s.skip(0) =~= s);
                    let st = next_token_spec(s);
                    assert(st.token == Some(Token::LeftParenthesis) && st.consumed == 1);
                    assert(s.skip(1) =~= inner + closing);
                    lemma_render_tokenizes(*child, closing);
                    assert(!is_ws_byte(closing[0]));
                    assert(ws_len(closing) == 0);
                    assert(closing.skip(0) =~= closing);
                    let st2 = next_token_spec(closing);
                    assert(st2.token == Some(Token::RightParenthesis) && st2.consumed == 1);
                    assert(closing.skip(1) =~= rest);
                    assert(tokenize_all(closing).0 =~= seq![Token::RightParenthesis]
                        + tokenize_all(rest).0);
                    assert(tokenize_all(closing).1 =~= tokenize_all(rest).1);
                    assert(tokenize_all(s).0 =~= token_yield(e) + tokenize_all(rest).0);
                    assert(tokenize_all(s).1 =~= tokenize_all(rest).1);
                },
            }
        },
        Expression::BinaryExpr { op, lhs, rhs } => {
            let opb = binop_char(op) as u8;
            let after = ascii_bytes(render_expr(*rhs)) + rest;
            let tail = seq![32u8, opb, 32u8] + after;
            assert(s =~= ascii_bytes(render_expr(*lhs)) + tail);
            lemma_render_tokenizes(*lhs, tail);
            let u = tail.skip(1);
            assert(u[0] == opb);
            assert(!is_ws_byte(opb));
            assert(ws_len(u) == 0);
            assert(is_ws_byte(tail[0]));
            assert(tail.skip(1) == u);
            assert(ws_len(tail) == 1);
            let st = next_token_spec(tail);
            assert(op_token(opb) == Some(binop_token(op)));
            assert(st.token == Some(binop_token(op)) && st.consumed == 2);
            assert(tail.skip(2) =~= seq![32u8] + after);
            lemma_leading_whitespace(seq![32u8], after);
            lemma_render_tokenizes(*rhs, rest);
            assert(tokenize_all(tail).0 =~= seq![binop_token(op)] + (token_yield(*rhs)
                + tokenize_all(rest).0));
            assert(tokenize_all(tail).1 =~= tokenize_all(rest).1);
            assert(tokenize_all(s).0 =~= token_yield(e) + tokenize_all(rest).0);
            assert(tokenize_all(s).1 =~= tokenize_all(rest).1);
        },
    }
}

/// Round trip through the display: an integer-only tree of a parse's
/// shape, rendered to text and pushed through the tokenizer and the
/// parser again, comes back as the very same tree with nothing logged —
/// so the re-parse evaluates exactly as the first parse does.
pub proof fn lemma_render_parse_round_trip(e: Expression)
    requires
        expr_form(e),
        int_only(e),
    ensures
        tokenize_all(ascii_bytes(render_expr(e))).1 == Seq::<Error>::empty(),
        spec_expr(tokenize_all(ascii_bytes(render_expr(e))).0) == Ok::<
            (Expression, nat),
            SyntaxError,
        >((e, token_yield(e).len() as nat)),
{
    lemma_render_tokenizes(e, Seq::empty());
    assert(ascii_bytes(render_expr(e)) + Seq::<u8>::empty() =~= ascii_bytes(render_expr(e)));
    assert(ws_len(Seq::<u8>::empty()) == 0);
    assert(next_token_spec(Seq::<u8>::empty()).token is None);
    assert(tokenize_all(Seq::<u8>::empty()).0 =~= Seq::<Token>::empty());
    assert(tokenize_all(Seq::<u8>::empty()).1 =~= Seq::<Error>::empty());
    assert(tokenize_all(ascii_bytes(render_expr(e))).0 =~= token_yield(e));
    lemma_expr_yield(e, Seq::empty());
    assert(token_yield(e) + Seq::<Token>::empty() =~= token_yield(e));
}


/// The pipeline's round trip in one statement: when an input's tokens
/// parse successfully into a tree holding only integer literals,
/// rendering that tree and running tokenizer and parser on the rendered
/// text logs nothing and gives back the very same tree.
pub proof fn lemma_pipeline_round_trip(input: Seq<u8>)
    requires
        spec_expr(tokenize_all(input).0) is Ok,
        int_only(spec_expr(tokenize_all(input).0)->Ok_0.0),
    ensures
        ({
            let e = spec_expr(tokenize_all(input).0)->Ok_0.0;
            let rendered = ascii_bytes(render_expr(e));
            &&& tokenize_all(rendered).1 == Seq::<Error>::empty()
            &&& spec_expr(tokenize_all(rendered).0) matches Ok(sp) && sp.0 == e
        }),
{
    lemma_expr_shape(tokenize_all(input).0);
    lemma_render_parse_round_trip(spec_expr(tokenize_all(input).0)->Ok_0.0);
}

} // verus!
