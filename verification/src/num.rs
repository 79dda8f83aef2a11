//! The two conversions between a number literal's text and the IEEE-754
//! binary64 bit pattern it denotes. Both run through software
//! floating-point arithmetic in an outside crate, so no floating-point
//! value appears in the library.

use vstd::prelude::*;

verus! {

/// The IEEE-754 binary64 bit pattern that a decimal or scientific numeric
/// literal denotes, under round-to-nearest, ties to even. The text alone
/// determines it.
pub uninterp spec fn float_bits_of(text: Seq<char>) -> u64;

/// The decimal or scientific text that the formatter renders a binary64
/// bit pattern as. The bits alone determine it.
pub uninterp spec fn float_text_of(bits: u64) -> Seq<char>;

/// Relies on `rustc_apfloat::ieee::Double::from_str` (IEEE-754 binary64,
/// correctly rounded, ties to even) and `Float::to_bits`: the bit pattern
/// of the value that a numeric literal denotes. Text that is no numeric
/// literal is mapped to the zero pattern; the parser only hands over
/// well-formed literals.
#[verifier::external_body]
pub(crate) fn float_bits_from_text(s: &str) -> (r: u64)
    ensures
        r == float_bits_of(s@),
{
    match s.parse::<rustc_apfloat::ieee::Double>() {
        Ok(d) => rustc_apfloat::Float::to_bits(d) as u64,
        Err(_) => 0,
    }
}

/// Relies on `rustc_apfloat::ieee::Double`'s `Display` (and `from_bits`):
/// renders a binary64 bit pattern as a decimal or scientific literal with
/// 17 significant digits, enough to pick the exact value back out. The
/// bits alone determine the text, and the text is never empty.
#[verifier::external_body]
pub(crate) fn float_text_from_bits(bits: u64) -> (r: String)
    ensures
        r@ == float_text_of(bits),
        r@.len() > 0,
{
    let d = <rustc_apfloat::ieee::Double as rustc_apfloat::Float>::from_bits(bits as u128);
    format!("{}", d)
}

/// The binary64 bit pattern nearest to a 64-bit signed integer, ties to
/// even. The integer alone determines it.
pub uninterp spec fn float_bits_of_int(n: int) -> u64;

/// Relies on `rustc_apfloat::Float::from_i128` (IEEE-754 binary64,
/// round to nearest, ties to even) and `Float::to_bits`: the bit pattern
/// nearest to an integer.
#[verifier::external_body]
pub(crate) fn float_bits_from_i64(n: i64) -> (r: u64)
    ensures
        r == float_bits_of_int(n as int),
{
    let d = <rustc_apfloat::ieee::Double as rustc_apfloat::Float>::from_i128(n as i128).value;
    rustc_apfloat::Float::to_bits(d) as u64
}

} // verus!
