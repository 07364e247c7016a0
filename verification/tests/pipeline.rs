use calculator::ast::literal::{Float, Int};
use calculator::ast::{BinaryOperator, Expression, Literal, UnaryOperator};
use calculator::error::{Error, OperatorError, SyntaxError};
use calculator::interpreter::{Interpreter, SimpleInterpreter};
use calculator::lexer::{Buffer, Lexer, Token};
use calculator::parser::Parser;

fn parse_str(input: &str) -> Result<Expression, Error> {
    let mut lexer = Lexer::new(input.as_bytes().to_vec());
    Parser::parse(&mut lexer)
}

fn eval_str(input: &str) -> Result<Literal, Error> {
    let expression = parse_str(input)?;
    SimpleInterpreter::eval(expression)
}

fn int_lit(v: i64) -> Literal {
    Literal::Int(Int::new(v))
}

fn float(v: f64) -> Literal {
    Literal::Float(Float::new(v.to_bits()))
}

#[test]
fn precedence_mul_over_add() {
    assert_eq!(eval_str("2 + 3 * 4"), Ok(int_lit(14)));
    assert_eq!(eval_str("2 * 3 + 4"), Ok(int_lit(10)));
}

#[test]
fn power_groups_to_the_right() {
    assert_eq!(eval_str("2 ^ 3 ^ 2"), Ok(int_lit(512)));
}

#[test]
fn negation_binds_tighter_than_power() {
    assert_eq!(eval_str("-2 ^ 2"), Ok(int_lit(4)));
    assert_eq!(eval_str("--5"), Ok(int_lit(5)));
}

#[test]
fn parenthesization_overrides_precedence() {
    assert_eq!(eval_str("(2 + 3) * 4"), Ok(int_lit(20)));
}

#[test]
fn integer_division_promotes_to_float() {
    let four_over_two = Expression::BinaryExpr {
        op: BinaryOperator::Divide,
        lhs: Box::new(Expression::Literal(int_lit(4))),
        rhs: Box::new(Expression::Literal(int_lit(2))),
    };
    assert_eq!(SimpleInterpreter::eval(four_over_two), Ok(float(2.0)));
    assert_eq!(eval_str("1 / 3"), Ok(float(1.0 / 3.0)));
}

#[test]
fn integer_power_stays_integer() {
    let two_cubed = Expression::BinaryExpr {
        op: BinaryOperator::Power,
        lhs: Box::new(Expression::Literal(int_lit(2))),
        rhs: Box::new(Expression::Literal(int_lit(3))),
    };
    assert_eq!(SimpleInterpreter::eval(two_cubed), Ok(int_lit(8)));
}

#[test]
fn mixed_addition_promotes_to_float() {
    let sum = Expression::BinaryExpr {
        op: BinaryOperator::Add,
        lhs: Box::new(Expression::Literal(float(2.0))),
        rhs: Box::new(Expression::Literal(int_lit(3))),
    };
    assert_eq!(SimpleInterpreter::eval(sum), Ok(float(5.0)));
}

#[test]
fn float_arithmetic_matches_ieee() {
    assert_eq!(eval_str("1.5 + 2.25"), Ok(float(3.75)));
    assert_eq!(eval_str("7.5 - 0.25"), Ok(float(7.25)));
    assert_eq!(eval_str("2.5 * 4"), Ok(float(10.0)));
    assert_eq!(eval_str("7.5 / 2"), Ok(float(3.75)));
    assert_eq!(eval_str("0.1 + 0.2"), Ok(float(0.1 + 0.2)));
}

#[test]
fn float_power_uses_soft_pow() {
    assert_eq!(eval_str("2.0 ^ 2"), Ok(float(4.0)));
    assert_eq!(eval_str("2 ^ 0.5"), Ok(float(libm::pow(2.0, 0.5))));
}

#[test]
fn float_literals_parse_like_rust() {
    assert_eq!(eval_str("2.5"), Ok(float(2.5)));
    assert_eq!(eval_str(".5"), Ok(float(0.5)));
    assert_eq!(eval_str("5."), Ok(float(5.0)));
}

#[test]
fn negation_of_float_flips_sign() {
    assert_eq!(eval_str("-2.5"), Ok(float(-2.5)));
}

#[test]
fn malformed_float_is_logged_and_lexing_continues() {
    let mut lexer = Lexer::new(b"3..4 5".to_vec());
    let mut tokens = Vec::new();
    while let Some(token) = lexer.next() {
        tokens.push(token);
    }
    assert_eq!(
        tokens,
        vec![
            Token::Unrecognized('3'),
            Token::Literal(int_lit(5)),
        ]
    );
    assert_eq!(
        lexer.errors().as_slice(),
        &[Error::SyntaxError(SyntaxError::ParseFloat)]
    );
}

#[test]
fn oversized_integer_is_logged() {
    let mut lexer = Lexer::new(b"99999999999999999999".to_vec());
    let token = lexer.next();
    assert_eq!(token, Some(Token::Unrecognized('9')));
    assert_eq!(
        lexer.errors().as_slice(),
        &[Error::SyntaxError(SyntaxError::ParseInt)]
    );
    assert_eq!(lexer.next(), None);
}

#[test]
fn largest_integer_parses() {
    assert_eq!(eval_str("9223372036854775807"), Ok(int_lit(i64::MAX)));
}

#[test]
fn lone_dots_are_unrecognized_without_log() {
    let mut lexer = Lexer::new(b"..".to_vec());
    assert_eq!(
        lexer.next(),
        Some(Token::Unrecognized('.'))
    );
    assert_eq!(lexer.next(), None);
    assert!(lexer.errors().is_empty());
}

#[test]
fn unclosed_parenthesis_is_a_syntax_error() {
    assert_eq!(
        parse_str("(1 + 2").err(),
        Some(Error::SyntaxError(SyntaxError::UnclosedParenthesis))
    );
}

#[test]
fn unrecognized_character_is_a_syntax_error() {
    assert_eq!(
        parse_str("1 + a").err(),
        Some(Error::SyntaxError(SyntaxError::UnrecognizedToken('a')))
    );
}

#[test]
fn missing_operand_is_a_syntax_error() {
    assert_eq!(
        parse_str("").err(),
        Some(Error::SyntaxError(SyntaxError::MissingOperand))
    );
    assert_eq!(
        parse_str("1 +").err(),
        Some(Error::SyntaxError(SyntaxError::MissingOperand))
    );
    assert_eq!(
        parse_str("* 4").err(),
        Some(Error::SyntaxError(SyntaxError::MissingOperand))
    );
}

#[test]
fn whitespace_is_insignificant() {
    let bare = parse_str("1+2").unwrap();
    let spaced = parse_str(" 1 \t+\n 2 ").unwrap();
    assert_eq!(bare.render(), spaced.render());
    assert_eq!(
        SimpleInterpreter::eval(bare),
        SimpleInterpreter::eval(spaced)
    );
    assert_eq!(eval_str(" 1 + 2 "), Ok(int_lit(3)));
}

#[test]
fn rendering_round_trips_through_the_parser() {
    for source in ["2 + 3 * (4 - 1)", "-2 ^ 2", "(2 + 3) * 4", "1.5 + 2.25 * 4."] {
        let first = parse_str(source).unwrap();
        let rendered = first.render();
        let second = parse_str(&rendered).unwrap();
        assert_eq!(rendered, second.render());
        assert_eq!(
            SimpleInterpreter::eval(first),
            SimpleInterpreter::eval(second)
        );
    }
}

#[test]
fn rendering_keeps_grouping_and_operators() {
    let expression = parse_str("(2 + 3) * 4").unwrap();
    assert_eq!(expression.render(), "(2 + 3) * 4");
    let subtraction = parse_str("5 - 3").unwrap();
    assert_eq!(subtraction.render(), "5 - 3");
    let negation = parse_str("--5").unwrap();
    assert_eq!(negation.render(), "--5");
}

#[test]
fn literal_rendering_is_decimal() {
    assert_eq!(int_lit(-5).render(), "-5");
    assert_eq!(int_lit(0).render(), "0");
    assert_eq!(int_lit(1234).render(), "1234");
}

#[test]
fn int_pow_is_checked() {
    assert_eq!(Int::new(2).pow(10), Ok(Int::new(1024)));
    assert_eq!(Int::new(-2).pow(3), Ok(Int::new(-8)));
    assert_eq!(Int::new(0).pow(0), Ok(Int::new(1)));
    assert_eq!(Int::new(-1).pow(5), Ok(Int::new(-1)));
    assert_eq!(Int::new(2).pow(-1), Err(OperatorError::NegativeExponent));
    assert_eq!(Int::new(2).pow(64), Err(OperatorError::Overflow));
}

#[test]
fn integer_overflow_is_an_operator_error() {
    let too_big = Expression::BinaryExpr {
        op: BinaryOperator::Add,
        lhs: Box::new(Expression::Literal(int_lit(i64::MAX))),
        rhs: Box::new(Expression::Literal(int_lit(1))),
    };
    assert_eq!(
        SimpleInterpreter::eval(too_big),
        Err(Error::OperatorError(OperatorError::Overflow))
    );
    let negated_min = Expression::UnaryExpr {
        op: UnaryOperator::Negation,
        child: Box::new(Expression::Literal(int_lit(i64::MIN))),
    };
    assert_eq!(
        SimpleInterpreter::eval(negated_min),
        Err(Error::OperatorError(OperatorError::Overflow))
    );
}

#[test]
fn grouping_is_transparent_to_evaluation() {
    assert_eq!(eval_str("(((7)))"), Ok(int_lit(7)));
}

#[test]
fn token_classifiers_follow_the_grammar() {
    assert!(Token::Plus.is_expression());
    assert!(Token::Dash.is_expression());
    assert!(!Token::Star.is_expression());
    assert!(Token::Star.is_term());
    assert!(Token::ForwardSlash.is_term());
    assert!(Token::Hat.is_term());
    assert!(!Token::Plus.is_term());
}

#[test]
fn long_inputs_cross_block_boundaries() {
    let mut source = String::from("1");
    for _ in 0..599 {
        source.push_str(" + 1");
    }
    assert!(source.len() > 512);
    assert_eq!(eval_str(&source), Ok(int_lit(600)));
}

#[test]
fn buffer_reads_block_by_block() {
    let mut buffer = Buffer::new(vec![7u8; 600]);
    assert_eq!(buffer.read_block(), 512);
    assert_eq!(buffer.read_block(), 88);
    assert_eq!(buffer.read_block(), 0);
}

#[test]
fn fatal_and_logged_errors_are_both_reported() {
    let mut lexer = Lexer::new(b"3..4 + 1".to_vec());
    let result = Parser::parse(&mut lexer);
    assert_eq!(
        result.err(),
        Some(Error::SyntaxError(SyntaxError::UnrecognizedToken('3')))
    );
    assert_eq!(
        lexer.errors().as_slice(),
        &[Error::SyntaxError(SyntaxError::ParseFloat)]
    );
}

#[test]
fn trailing_tokens_stay_available_after_parse() {
    let mut lexer = Lexer::new(b"1 + 2 ) * 3".to_vec());
    let result = Parser::parse(&mut lexer);
    assert_eq!(result.map(SimpleInterpreter::eval), Ok(Ok(int_lit(3))));
    assert_eq!(lexer.next(), Some(Token::RightParenthesis));
    assert_eq!(lexer.next(), Some(Token::Star));
    assert_eq!(lexer.next(), Some(Token::Literal(int_lit(3))));
    assert_eq!(lexer.next(), None);
}

#[test]
fn lexer_is_exhausted_after_one_full_expression() {
    let mut lexer = Lexer::new(b"1 + 2".to_vec());
    assert!(Parser::parse(&mut lexer).is_ok());
    assert_eq!(lexer.next(), None);
}

#[test]
fn whole_floats_keep_their_kind_through_rendering() {
    let parsed = parse_str("4.").unwrap();
    let rendered = parsed.render();
    assert_eq!(rendered, "4.0");
    let again = parse_str(&rendered).unwrap();
    assert_eq!(SimpleInterpreter::eval(again), Ok(float(4.0)));
}

#[test]
fn same_precedence_chains_group_to_the_right() {
    assert_eq!(eval_str("10 - 5 - 2"), Ok(int_lit(7)));
    assert_eq!(eval_str("24 / 4 / 2"), Ok(float(12.0)));
}

#[test]
fn clean_input_logs_no_errors() {
    let mut lexer = Lexer::new(b"1 + 2.5".to_vec());
    let parsed = Parser::parse(&mut lexer);
    assert!(parsed.is_ok());
    assert!(lexer.errors().is_empty());
}
