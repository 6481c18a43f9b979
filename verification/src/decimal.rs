//! Exact decimal numbers, carried as a plain mantissa and scale, with the
//! arithmetic delegated to `rust_decimal` behind named, trusted wrappers.

use vstd::prelude::*;

verus! {

/// An exact decimal number, `mantissa / 10^scale`.
///
/// This mirrors the representation of `rust_decimal::Decimal`: a signed
/// 96-bit integer mantissa and a scale between 0 and 28. All arithmetic is
/// delegated to `rust_decimal`; this type carries the representation as
/// plain values so that the surrounding logic can be verified.
#[derive(Clone, Copy, Debug, PartialEq, Eq, Structural)]
pub struct Dec {
    pub mantissa: i128,
    pub scale: u32,
}

/// The largest magnitude a mantissa can have: `2^96`.
pub open spec fn mantissa_bound() -> int {
    0x1000000000000000000000000
}

impl Dec {
    /// A representable decimal: the mantissa fits in 96 bits (plus sign)
    /// and the scale is at most 28 decimal places.
    pub open spec fn valid(self) -> bool {
        &&& -mantissa_bound() < self.mantissa < mantissa_bound()
        &&& self.scale <= 28
    }

    pub open spec fn spec_mantissa(&self) -> i128 {
        self.mantissa
    }

    pub open spec fn spec_scale(&self) -> u32 {
        self.scale
    }

    /// The decimal denotes zero exactly when its mantissa is zero,
    /// whatever its scale.
    pub open spec fn is_zero(self) -> bool {
        self.mantissa == 0
    }

    /// The zero value, as produced by a fresh `rust_decimal::Decimal`.
    pub open spec fn spec_zero() -> Dec {
        Dec { mantissa: 0, scale: 0 }
    }

    #[verifier::when_used_as_spec(spec_mantissa)]
    pub fn mantissa(&self) -> (m: i128)
        ensures
            m == self.mantissa,
    {
        self.mantissa
    }

    #[verifier::when_used_as_spec(spec_scale)]
    pub fn scale(&self) -> (s: u32)
        ensures
            s == self.scale,
    {
        self.scale
    }

    /// The zero decimal.
    pub fn zero() -> (z: Dec)
        ensures
            z == Dec::spec_zero(),
            z.valid(),
    {
        Dec { mantissa: 0, scale: 0 }
    }

    /// Builds a decimal from its representation, refusing one that does not
    /// fit the 96-bit mantissa or the maximal scale of 28.
    pub fn new(mantissa: i128, scale: u32) -> (r: Option<Dec>)
        ensures
            r == (if (Dec { mantissa, scale }).valid() {
                Some(Dec { mantissa, scale })
            } else {
                None::<Dec>
            }),
    {
        if -0x1000000000000000000000000i128 < mantissa && mantissa < 0x1000000000000000000000000i128
            && scale <= 28 {
            Some(Dec { mantissa, scale })
        } else {
            None
        }
    }
}

/// What `rust_decimal` parses a digit string into, if anything.
pub uninterp spec fn dec_of_chars(s: Seq<char>) -> Option<Dec>;

/// What exact decimal addition returns: the checked sum, `None` on overflow.
pub uninterp spec fn add_of(a: Dec, b: Dec) -> Option<Dec>;

/// What exact decimal subtraction returns: the checked difference, `None` on overflow.
pub uninterp spec fn sub_of(a: Dec, b: Dec) -> Option<Dec>;

/// What exact decimal multiplication returns: the checked product, `None` on overflow.
pub uninterp spec fn mul_of(a: Dec, b: Dec) -> Option<Dec>;

/// What checked decimal division returns: `None` on overflow or a zero divisor.
pub uninterp spec fn div_of(a: Dec, b: Dec) -> Option<Dec>;

/// What checked decimal exponentiation returns: `None` when the power cannot
/// be represented.
pub uninterp spec fn pow_of(a: Dec, b: Dec) -> Option<Dec>;

/// Relies on `rust_decimal::Decimal`'s `FromStr`: parsing is a function of the
/// characters alone, and every parsed decimal has a 96-bit mantissa and a
/// scale of at most 28.
#[verifier::external_body]
pub(crate) fn parse_decimal(chars: &Vec<char>) -> (r: Option<Dec>)
    ensures
        r == dec_of_chars(chars@),
        r matches Some(d) ==> d.valid(),
{
    let s: String = chars.iter().collect();
    match s.parse::<rust_decimal::Decimal>() {
        Ok(d) => Some(Dec { mantissa: d.mantissa(), scale: d.scale() }),
        Err(_) => None,
    }
}

/// Relies on `rust_decimal::Decimal::checked_add`: exact decimal addition,
/// `None` on overflow; the result depends on the operands alone.
#[verifier::external_body]
pub(crate) fn dec_add(a: &Dec, b: &Dec) -> (r: Option<Dec>)
    requires
        a.valid(),
        b.valid(),
    ensures
        r == add_of(*a, *b),
        r matches Some(d) ==> d.valid(),
{
    let x = rust_decimal::Decimal::from_i128_with_scale(a.mantissa, a.scale);
    let y = rust_decimal::Decimal::from_i128_with_scale(b.mantissa, b.scale);
    x.checked_add(y).map(|d| Dec { mantissa: d.mantissa(), scale: d.scale() })
}

/// Relies on `rust_decimal::Decimal::checked_sub`: exact decimal subtraction,
/// `None` on overflow; the result depends on the operands alone.
#[verifier::external_body]
pub(crate) fn dec_sub(a: &Dec, b: &Dec) -> (r: Option<Dec>)
    requires
        a.valid(),
        b.valid(),
    ensures
        r == sub_of(*a, *b),
        r matches Some(d) ==> d.valid(),
{
    let x = rust_decimal::Decimal::from_i128_with_scale(a.mantissa, a.scale);
    let y = rust_decimal::Decimal::from_i128_with_scale(b.mantissa, b.scale);
    x.checked_sub(y).map(|d| Dec { mantissa: d.mantissa(), scale: d.scale() })
}

/// Relies on `rust_decimal::Decimal::checked_mul`: exact decimal
/// multiplication, `None` on overflow; the result depends on the operands
/// alone.
#[verifier::external_body]
pub(crate) fn dec_mul(a: &Dec, b: &Dec) -> (r: Option<Dec>)
    requires
        a.valid(),
        b.valid(),
    ensures
        r == mul_of(*a, *b),
        r matches Some(d) ==> d.valid(),
{
    let x = rust_decimal::Decimal::from_i128_with_scale(a.mantissa, a.scale);
    let y = rust_decimal::Decimal::from_i128_with_scale(b.mantissa, b.scale);
    x.checked_mul(y).map(|d| Dec { mantissa: d.mantissa(), scale: d.scale() })
}

/// Relies on `rust_decimal::Decimal::checked_div`: checked decimal division,
/// `None` on overflow or a zero divisor; the result depends on the operands
/// alone.
#[verifier::external_body]
pub(crate) fn dec_div(a: &Dec, b: &Dec) -> (r: Option<Dec>)
    requires
        a.valid(),
        b.valid(),
    ensures
        r == div_of(*a, *b),
        r matches Some(d) ==> d.valid(),
{
    let x = rust_decimal::Decimal::from_i128_with_scale(a.mantissa, a.scale);
    let y = rust_decimal::Decimal::from_i128_with_scale(b.mantissa, b.scale);
    x.checked_div(y).map(|d| Dec { mantissa: d.mantissa(), scale: d.scale() })
}

/// Relies on `rust_decimal::MathematicalOps::checked_powd`: checked decimal
/// exponentiation, `None` when the result is not representable; the result
/// depends on the operands alone.
#[verifier::external_body]
pub(crate) fn dec_pow(a: &Dec, b: &Dec) -> (r: Option<Dec>)
    requires
        a.valid(),
        b.valid(),
    ensures
        r == pow_of(*a, *b),
        r matches Some(d) ==> d.valid(),
{
    let x = rust_decimal::Decimal::from_i128_with_scale(a.mantissa, a.scale);
    let y = rust_decimal::Decimal::from_i128_with_scale(b.mantissa, b.scale);
    rust_decimal::MathematicalOps::checked_powd(&x, y)
        .map(|d| Dec { mantissa: d.mantissa(), scale: d.scale() })
}

} // verus!
