use vstd::prelude::*;

pub mod float;
pub mod integer;

pub use self::float::Float;
pub use self::integer::Int;

use crate::error::OperatorError;

verus! {

use crate::ast::literal::float::{
    f64_add, f64_div, f64_mul, f64_of_int, f64_pow, f64_render, f64_sub, SIGN_BIT,
    add_bits, div_bits, mul_bits, of_int_bits, pow_bits, sub_bits,
};
use crate::ast::literal::integer::{in_i64, int_pow_result};

/// A fully reduced numeric value: an integer or a binary64 float.
#[derive(Clone, Copy, Debug, PartialEq, Eq, Structural)]
pub enum Literal {
    Int(Int),
    Float(Float),
}

/// The bit pattern of a literal seen as a binary64 value: a float keeps
/// its bits, an integer is converted to the nearest float. This is the
/// widening that mixed-operand arithmetic applies.
pub open spec fn widen(l: Literal) -> u64 {
    match l {
        Literal::Int(i) => f64_of_int(i.0),
        Literal::Float(f) => f.0,
    }
}

/// What adding two literals returns: integer addition when both operands
/// are integers (failing when the sum leaves 64 bits), float addition of
/// the widened operands otherwise.
pub open spec fn literal_add(a: Literal, b: Literal) -> Result<Literal, OperatorError> {
    match (a, b) {
        (Literal::Int(x), Literal::Int(y)) => {
            if in_i64(x.0 + y.0) {
                Ok(Literal::Int(Int((x.0 + y.0) as i64)))
            } else {
                Err(OperatorError::Overflow)
            }
        },
        _ => Ok(Literal::Float(Float(f64_add(widen(a), widen(b))))),
    }
}

/// What subtracting two literals returns, under the same promotion rule
/// as addition.
pub open spec fn literal_sub(a: Literal, b: Literal) -> Result<Literal, OperatorError> {
    match (a, b) {
        (Literal::Int(x), Literal::Int(y)) => {
            if in_i64(x.0 - y.0) {
                Ok(Literal::Int(Int((x.0 - y.0) as i64)))
            } else {
                Err(OperatorError::Overflow)
            }
        },
        _ => Ok(Literal::Float(Float(f64_sub(widen(a), widen(b))))),
    }
}

/// What multiplying two literals returns, under the same promotion rule
/// as addition.
pub open spec fn literal_mul(a: Literal, b: Literal) -> Result<Literal, OperatorError> {
    match (a, b) {
        (Literal::Int(x), Literal::Int(y)) => {
            if in_i64(x.0 * y.0) {
                Ok(Literal::Int(Int((x.0 * y.0) as i64)))
            } else {
                Err(OperatorError::Overflow)
            }
        },
        _ => Ok(Literal::Float(Float(f64_mul(widen(a), widen(b))))),
    }
}

/// What dividing two literals returns: always a float, even for two
/// integer operands, so that no quotient is silently truncated. Division
/// by zero follows IEEE 754 (an infinity or NaN), so it is not an error.
pub open spec fn literal_div(a: Literal, b: Literal) -> Result<Literal, OperatorError> {
    Ok(Literal::Float(Float(f64_div(widen(a), widen(b)))))
}

/// What raising a literal to a literal returns: exact integer power when
/// both operands are integers, float power of the widened operands
/// otherwise.
pub open spec fn literal_pow(a: Literal, b: Literal) -> Result<Literal, OperatorError> {
    match (a, b) {
        (Literal::Int(x), Literal::Int(y)) => {
            match int_pow_result(x.0, y.0) {
                Ok(p) => Ok(Literal::Int(p)),
                Err(e) => Err(e),
            }
        },
        _ => Ok(Literal::Float(Float(f64_pow(widen(a), widen(b))))),
    }
}

/// What negating a literal returns: integer negation (failing only on the
/// one integer without a 64-bit negation), or a flip of the float's sign
/// bit.
pub open spec fn literal_neg(a: Literal) -> Result<Literal, OperatorError> {
    match a {
        Literal::Int(x) => {
            if x.0 == i64::MIN {
                Err(OperatorError::Overflow)
            } else {
                Ok(Literal::Int(Int((-x.0) as i64)))
            }
        },
        Literal::Float(f) => Ok(Literal::Float(Float(f.0 ^ SIGN_BIT))),
    }
}

impl Literal {
    /// The operand widened to float bits; see [`widen`].
    fn widen_exec(self) -> (r: u64)
        ensures
            r == widen(self),
    {
        match self {
            Literal::Int(i) => of_int_bits(i.0),
            Literal::Float(f) => f.0,
        }
    }

    /// Adds two literals under the promotion table.
    pub fn add(self, rhs: Literal) -> (r: Result<Literal, OperatorError>)
        ensures
            r == literal_add(self, rhs),
    {
        match (self, rhs) {
            (Literal::Int(x), Literal::Int(y)) => match x.0.checked_add(y.0) {
                Some(s) => Ok(Literal::Int(Int(s))),
                None => Err(OperatorError::Overflow),
            },
            _ => Ok(Literal::Float(Float(add_bits(self.widen_exec(), rhs.widen_exec())))),
        }
    }

    /// Subtracts two literals under the promotion table.
    pub fn sub(self, rhs: Literal) -> (r: Result<Literal, OperatorError>)
        ensures
            r == literal_sub(self, rhs),
    {
        match (self, rhs) {
            (Literal::Int(x), Literal::Int(y)) => match x.0.checked_sub(y.0) {
                Some(s) => Ok(Literal::Int(Int(s))),
                None => Err(OperatorError::Overflow),
            },
            _ => Ok(Literal::Float(Float(sub_bits(self.widen_exec(), rhs.widen_exec())))),
        }
    }

    /// Multiplies two literals under the promotion table.
    pub fn mul(self, rhs: Literal) -> (r: Result<Literal, OperatorError>)
        ensures
            r == literal_mul(self, rhs),
    {
        match (self, rhs) {
            (Literal::Int(x), Literal::Int(y)) => match x.0.checked_mul(y.0) {
                Some(s) => Ok(Literal::Int(Int(s))),
                None => Err(OperatorError::Overflow),
            },
            _ => Ok(Literal::Float(Float(mul_bits(self.widen_exec(), rhs.widen_exec())))),
        }
    }

    /// Divides two literals; the quotient is always a float.
    pub fn div(self, rhs: Literal) -> (r: Result<Literal, OperatorError>)
        ensures
            r == literal_div(self, rhs),
    {
        Ok(Literal::Float(Float(div_bits(self.widen_exec(), rhs.widen_exec()))))
    }

    /// Raises a literal to a literal under the promotion table.
    pub fn pow(self, rhs: Literal) -> (r: Result<Literal, OperatorError>)
        ensures
            r == literal_pow(self, rhs),
    {
        match (self, rhs) {
            (Literal::Int(x), Literal::Int(y)) => match x.pow(y.0) {
                Ok(p) => Ok(Literal::Int(p)),
                Err(e) => Err(e),
            },
            _ => Ok(Literal::Float(Float(pow_bits(self.widen_exec(), rhs.widen_exec())))),
        }
    }

    /// Negates a literal.
    pub fn neg(self) -> (r: Result<Literal, OperatorError>)
        ensures
            r == literal_neg(self),
    {
        match self {
            Literal::Int(x) => {
                if x.0 == i64::MIN {
                    Err(OperatorError::Overflow)
                } else {
                    Ok(Literal::Int(Int(-x.0)))
                }
            },
            Literal::Float(f) => Ok(Literal::Float(f.neg())),
        }
    }
}

/// The character for a single decimal digit.
pub open spec fn dec_digit(d: int) -> char {
    (48 + d) as char
}

/// The decimal rendering of a natural number, most significant digit
/// first, with no leading zeros (a single zero for zero).
pub open spec fn dec_chars_nat(n: nat) -> Seq<char>
    decreases n,
{
    if n < 10 {
        seq![dec_digit(n as int)]
    } else {
        dec_chars_nat(n / 10) + seq![dec_digit((n % 10) as int)]
    }
}

/// The decimal rendering of an integer, with a leading minus sign when
/// negative.
pub open spec fn dec_chars_int(i: int) -> Seq<char> {
    if i < 0 {
        seq!['-'] + dec_chars_nat((-i) as nat)
    } else {
        dec_chars_nat(i as nat)
    }
}

/// An ASCII decimal digit character.
pub open spec fn is_digit_char(c: char) -> bool {
    48 <= (c as u32) <= 57
}

/// Whether rendered text is a bare digit run (with at most a leading
/// minus sign): the one float form the tokenizer would read back as an
/// integer instead of a float.
pub open spec fn is_bare_digits(s: Seq<char>) -> bool {
    s.len() >= 1 && (forall|i: int|
        0 <= i < s.len() ==> (is_digit_char(s[i]) || (i == 0 && s[i] == '-')))
        && is_digit_char(s.last())
}

/// A float's rendered characters, adjusted so that a whole value keeps
/// its floating kind when the text is read back: a bare digit run gets
/// `.0` appended; every other form is kept as the formatter gave it.
pub open spec fn float_chars(s: Seq<char>) -> Seq<char> {
    if is_bare_digits(s) {
        s + seq!['.', '0']
    } else {
        s
    }
}

/// The rendering of a literal: decimal digits for an integer, the decimal
/// form of the binary64 value for a float (with `.0` restored on whole
/// values, so the kind survives re-reading).
pub open spec fn render_literal(l: Literal) -> Seq<char> {
    match l {
        Literal::Int(i) => dec_chars_int(i.0 as int),
        Literal::Float(f) => float_chars(f64_render(f.0)),
    }
}

/// Appends the decimal rendering of a natural number to `out`.
fn push_dec_u64(out: &mut Vec<char>, n: u64)
    ensures
        final(out)@ == old(out)@ + dec_chars_nat(n as nat),
    decreases n,
{
    if n < 10 {
        out.push((48 + n as u8) as char);
    } else {
        push_dec_u64(out, n / 10);
        out.push((48 + (n % 10) as u8) as char);
    }
}

/// Appends the decimal rendering of a signed integer to `out`.
pub(crate) fn push_dec_i64(out: &mut Vec<char>, i: i64)
    ensures
        final(out)@ == old(out)@ + dec_chars_int(i as int),
{
    if i < 0 {
        out.push('-');
        let magnitude: u64 = ((-(i + 1)) as u64) + 1;
        push_dec_u64(out, magnitude);
        proof {
            assert(out@ =~= old(out)@ + dec_chars_int(i as int));
        }
    } else {
        push_dec_u64(out, i as u64);
    }
}

/// Relies on `String`'s `FromIterator`: collects characters into the
/// string that holds exactly them.
#[verifier::external_body]
pub(crate) fn chars_to_string(v: &Vec<char>) -> (r: String)
    ensures
        r@ == v@,
{
    v.iter().collect()
}

impl Literal {
    /// Appends this literal's rendering to `out`.
    pub(crate) fn push_render(&self, out: &mut Vec<char>)
        ensures
            final(out)@ == old(out)@ + render_literal(*self),
    {
        match self {
            Literal::Int(i) => push_dec_i64(out, i.0),
            Literal::Float(f) => {
                let chars = crate::ast::literal::float::render_bits(f.0);
                let mut bare = chars.len() >= 1;
                let mut k: usize = 0;
                while k < chars.len()
                    invariant
                        k <= chars@.len(),
                        chars@ == f64_render(f.0),
                        out@ == old(out)@,
                        bare == (chars@.len() >= 1 && (forall|i: int|
                            0 <= i < k ==> (is_digit_char(chars@[i]) || (i == 0 && chars@[i]
                                == '-')))),
                    decreases chars@.len() - k,
                {
                    let c = chars[k];
                    let code = c as u32;
                    let ok_here = (48 <= code && code <= 57) || (k == 0 && c == '-');
                    bare = bare && ok_here;
                    k = k + 1;
                }
                let is_bare = bare && chars.len() >= 1 && {
                    let lc = chars[chars.len() - 1];
                    let lcode = lc as u32;
                    48 <= lcode && lcode <= 57
                };
                proof {
                    assert(is_bare == is_bare_digits(chars@));
                }
                let mut k2: usize = 0;
                while k2 < chars.len()
                    invariant
                        k2 <= chars@.len(),
                        chars@ == f64_render(f.0),
                        is_bare == is_bare_digits(chars@),
                        out@ == old(out)@ + chars@.take(k2 as int),
                    decreases chars@.len() - k2,
                {
                    let c = chars[k2];
                    out.push(c);
                    k2 = k2 + 1;
                    proof {
                        assert(chars@.take(k2 as int) =~= chars@.take(k2 - 1) + seq![
                            chars@[k2 - 1],
                        ]);
                    }
                }
                proof {
                    assert(chars@.take(chars@.len() as int) =~= chars@);
                }
                if is_bare {
                    out.push('.');
                    out.push('0');
                }
                proof {
                    assert(out@ =~= old(out)@ + render_literal(*self));
                }
            },
        }
    }

    /// This literal's textual rendering.
    pub fn render(&self) -> (r: String)
        ensures
            r@ == render_literal(*self),
    {
        let mut out: Vec<char> = Vec::new();
        self.push_render(&mut out);
        chars_to_string(&out)
    }
}

} // verus!
