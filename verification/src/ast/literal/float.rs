use vstd::prelude::*;

use rustc_apfloat::Float as ApFloat;

verus! {

/// The sign bit of an IEEE 754 binary64 value.
pub const SIGN_BIT: u64 = 0x8000_0000_0000_0000;

/// A floating-point literal, held as the bit pattern of an IEEE 754
/// binary64 value. The arithmetic on these patterns is done by outside
/// soft-float code; each operation's result is named by an uninterpreted
/// function below, so that contracts can speak of it exactly.
#[derive(Clone, Copy, Debug, PartialEq, Eq, Structural)]
pub struct Float(pub u64);

/// The IEEE 754 binary64 sum of two values given as bit patterns.
pub uninterp spec fn f64_add(a: u64, b: u64) -> u64;

/// The IEEE 754 binary64 difference of two values given as bit patterns.
pub uninterp spec fn f64_sub(a: u64, b: u64) -> u64;

/// The IEEE 754 binary64 product of two values given as bit patterns.
pub uninterp spec fn f64_mul(a: u64, b: u64) -> u64;

/// The IEEE 754 binary64 quotient of two values given as bit patterns.
pub uninterp spec fn f64_div(a: u64, b: u64) -> u64;

/// The binary64 power `a ^ b`, both given as bit patterns.
pub uninterp spec fn f64_pow(a: u64, b: u64) -> u64;

/// The binary64 value nearest to a 64-bit signed integer, as a bit pattern.
pub uninterp spec fn f64_of_int(i: i64) -> u64;

/// What reading a decimal numeral as a binary64 value yields: the bit
/// pattern of the correctly rounded value, or `None` where the bytes do
/// not form a numeral.
pub uninterp spec fn f64_parse(s: Seq<u8>) -> Option<u64>;

/// The decimal rendering of a binary64 value given as a bit pattern.
pub uninterp spec fn f64_render(bits: u64) -> Seq<char>;

/// Relies on rustc_apfloat's `Double::add`: the IEEE 754 binary64 sum,
/// rounded to nearest, ties to even. A pure function of the two bit patterns.
#[verifier::external_body]
pub(crate) fn add_bits(a: u64, b: u64) -> (r: u64)
    ensures
        r == f64_add(a, b),
{
    let x = rustc_apfloat::ieee::Double::from_bits(a as u128);
    let y = rustc_apfloat::ieee::Double::from_bits(b as u128);
    (x + y).value.to_bits() as u64
}

/// Relies on rustc_apfloat's `Double::sub`: the IEEE 754 binary64
/// difference, rounded to nearest, ties to even.
#[verifier::external_body]
pub(crate) fn sub_bits(a: u64, b: u64) -> (r: u64)
    ensures
        r == f64_sub(a, b),
{
    let x = rustc_apfloat::ieee::Double::from_bits(a as u128);
    let y = rustc_apfloat::ieee::Double::from_bits(b as u128);
    (x - y).value.to_bits() as u64
}

/// Relies on rustc_apfloat's `Double::mul`: the IEEE 754 binary64 product,
/// rounded to nearest, ties to even.
#[verifier::external_body]
pub(crate) fn mul_bits(a: u64, b: u64) -> (r: u64)
    ensures
        r == f64_mul(a, b),
{
    let x = rustc_apfloat::ieee::Double::from_bits(a as u128);
    let y = rustc_apfloat::ieee::Double::from_bits(b as u128);
    (x * y).value.to_bits() as u64
}

/// Relies on rustc_apfloat's `Double::div`: the IEEE 754 binary64 quotient,
/// rounded to nearest, ties to even (division by zero gives an infinity
/// or NaN, as IEEE 754 defines).
#[verifier::external_body]
pub(crate) fn div_bits(a: u64, b: u64) -> (r: u64)
    ensures
        r == f64_div(a, b),
{
    let x = rustc_apfloat::ieee::Double::from_bits(a as u128);
    let y = rustc_apfloat::ieee::Double::from_bits(b as u128);
    (x / y).value.to_bits() as u64
}

/// Relies on libm's `pow`: a pure-Rust binary64 power function, the same
/// on every machine. The casts move between a bit pattern and the value
/// it encodes.
#[verifier::external_body]
pub(crate) fn pow_bits(a: u64, b: u64) -> (r: u64)
    ensures
        r == f64_pow(a, b),
{
    bytemuck::cast(libm::pow(bytemuck::cast(a), bytemuck::cast(b)))
}

/// Relies on rustc_apfloat's `Double::from_i128`: the binary64 value
/// nearest to the given integer, rounded to nearest, ties to even.
#[verifier::external_body]
pub(crate) fn of_int_bits(i: i64) -> (r: u64)
    ensures
        r == f64_of_int(i),
{
    rustc_apfloat::ieee::Double::from_i128(i as i128).value.to_bits() as u64
}

/// Relies on rustc_apfloat's `Double::from_str`: reads numeric text as a
/// correctly rounded binary64 value, erring on text it cannot read. The
/// tokenizer only hands it runs of digits with one decimal point.
#[verifier::external_body]
pub(crate) fn parse_bits(s: &Vec<u8>) -> (r: Option<u64>)
    ensures
        r == f64_parse(s@),
{
    let text = match String::from_utf8(s.clone()) {
        Ok(text) => text,
        Err(_) => return None,
    };
    match text.parse::<rustc_apfloat::ieee::Double>() {
        Ok(value) => Some(value.to_bits() as u64),
        Err(_) => None,
    }
}

/// Relies on rustc_apfloat's `Display` for `Double`: renders the value in
/// decimal with enough digits to read the same value back.
#[verifier::external_body]
pub(crate) fn render_bits(bits: u64) -> (r: Vec<char>)
    ensures
        r@ == f64_render(bits),
{
    let value = rustc_apfloat::ieee::Double::from_bits(bits as u128);
    format!("{}", value).chars().collect()
}

impl Float {
    /// Wraps the bit pattern of an IEEE 754 binary64 value as a literal.
    pub fn new(bits: u64) -> (r: Self)
        ensures
            r == Float(bits),
    {
        Float(bits)
    }

    /// Raises this value to a floating-point exponent.
    pub fn pow(&self, exp: Float) -> (r: Float)
        ensures
            r == Float(f64_pow(self.0, exp.0)),
    {
        Float(pow_bits(self.0, exp.0))
    }

    /// Negates this value: IEEE 754 negation is exactly a flip of the
    /// sign bit, so no outside code is needed.
    pub fn neg(&self) -> (r: Float)
        ensures
            r == Float(self.0 ^ SIGN_BIT),
    {
        Float(self.0 ^ SIGN_BIT)
    }
}

} // verus!
