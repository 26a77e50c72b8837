//! Arbitrary-precision integers.
//!
//! A `BigNum` keeps its value as a two's-complement, little-endian byte
//! string, the format that `num_bigint` reads and writes with
//! `from_signed_bytes_le` / `to_signed_bytes_le`.  All arithmetic is done by
//! `num_bigint`; the functions marked `external_body` below only convert to
//! and from that byte format around one call each.
use vstd::arithmetic::power::pow;
use vstd::prelude::*;

verus! {

/// Unsigned value of little-endian base-256 digits.
pub open spec fn le_value(bytes: Seq<u8>) -> nat
    decreases bytes.len(),
{
    if bytes.len() == 0 {
        0
    } else {
        bytes[0] as nat + 256 * le_value(bytes.drop_first())
    }
}

/// Value of a two's-complement, little-endian byte string (empty means zero).
pub open spec fn twos_value(bytes: Seq<u8>) -> int {
    if bytes.len() > 0 && bytes.last() >= 128 {
        le_value(bytes) - pow(256, bytes.len())
    } else {
        le_value(bytes) as int
    }
}

/// Quotient of `a / b` rounded toward zero, as Rust's `/` computes it.
pub open spec fn tdiv(a: int, b: int) -> int {
    let q = abs(a) / abs(b);
    if (a < 0) != (b < 0) {
        -q
    } else {
        q
    }
}

/// Remainder of `a / b` with the sign of `a`, as Rust's `%` computes it.
pub open spec fn trem(a: int, b: int) -> int {
    a - b * tdiv(a, b)
}

pub open spec fn abs(a: int) -> int {
    if a < 0 {
        -a
    } else {
        a
    }
}

/// `r` is the integer square root of `x`.
pub open spec fn is_isqrt(r: int, x: int) -> bool {
    0 <= r && r * r <= x && x < (r + 1) * (r + 1)
}

/// ASCII character of a digit: `0`-`9`, then upper-case letters.
pub open spec fn digit_char(d: nat) -> u8 {
    if d < 10 {
        (48 + d) as u8
    } else {
        (55 + d) as u8
    }
}

/// The digits of `n` in base `radix`, most significant first, without
/// leading zeros (`"0"` for zero).
pub open spec fn radix_digits(n: nat, radix: nat) -> Seq<u8>
    decreases n,
{
    if radix < 2 || n < radix {
        seq![digit_char(n)]
    } else {
        proof {
            vstd::arithmetic::div_mod::lemma_div_decreases(n as int, radix as int);
        }
        radix_digits(n / radix, radix).push(digit_char(n % radix))
    }
}

/// An arbitrary-precision signed integer.
#[derive(Debug)]
pub struct BigNum {
    bytes: Vec<u8>,
}

impl View for BigNum {
    type V = int;

    closed spec fn view(&self) -> int {
        twos_value(self.bytes@)
    }
}

impl Clone for BigNum {
    fn clone(&self) -> (r: Self)
        ensures
            r@ == self@,
    {
        BigNum { bytes: self.bytes.clone() }
    }
}

impl BigNum {
    /// Zero.
    pub fn zero() -> (r: BigNum)
        ensures
            r@ == 0,
    {
        let r = BigNum { bytes: Vec::new() };
        assert(r.bytes@.len() == 0);
        r
    }

    /// `BigInt::from(n)`: the value `n`.
    #[verifier::external_body]
    pub(crate) fn from_u32(n: u32) -> (r: BigNum)
        ensures
            r@ == n as int,
    {
        BigNum { bytes: num_bigint::BigInt::from(n).to_signed_bytes_le() }
    }

    /// `&a + &b` on `BigInt`: the sum.
    #[verifier::external_body]
    pub(crate) fn add(&self, other: &BigNum) -> (r: BigNum)
        ensures
            r@ == self@ + other@,
    {
        let a = num_bigint::BigInt::from_signed_bytes_le(&self.bytes);
        let b = num_bigint::BigInt::from_signed_bytes_le(&other.bytes);
        BigNum { bytes: (a + b).to_signed_bytes_le() }
    }

    /// `&a - &b` on `BigInt`: the difference.
    #[verifier::external_body]
    pub(crate) fn sub(&self, other: &BigNum) -> (r: BigNum)
        ensures
            r@ == self@ - other@,
    {
        let a = num_bigint::BigInt::from_signed_bytes_le(&self.bytes);
        let b = num_bigint::BigInt::from_signed_bytes_le(&other.bytes);
        BigNum { bytes: (a - b).to_signed_bytes_le() }
    }

    /// `&a * &b` on `BigInt`: the product.
    #[verifier::external_body]
    pub(crate) fn mul(&self, other: &BigNum) -> (r: BigNum)
        ensures
            r@ == self@ * other@,
    {
        let a = num_bigint::BigInt::from_signed_bytes_le(&self.bytes);
        let b = num_bigint::BigInt::from_signed_bytes_le(&other.bytes);
        BigNum { bytes: (a * b).to_signed_bytes_le() }
    }

    /// `&a / &b` on `BigInt`: the quotient rounded toward zero
    /// (`BigInt::div_rem`); it panics on a zero divisor.
    #[verifier::external_body]
    pub(crate) fn div(&self, other: &BigNum) -> (r: BigNum)
        requires
            other@ != 0,
        ensures
            r@ == tdiv(self@, other@),
    {
        let a = num_bigint::BigInt::from_signed_bytes_le(&self.bytes);
        let b = num_bigint::BigInt::from_signed_bytes_le(&other.bytes);
        BigNum { bytes: (a / b).to_signed_bytes_le() }
    }

    /// `&a % &b` on `BigInt`: the remainder with the sign of `a`
    /// (`BigInt::div_rem`); it panics on a zero divisor.
    #[verifier::external_body]
    pub(crate) fn rem(&self, other: &BigNum) -> (r: BigNum)
        requires
            other@ != 0,
        ensures
            r@ == trem(self@, other@),
    {
        let a = num_bigint::BigInt::from_signed_bytes_le(&self.bytes);
        let b = num_bigint::BigInt::from_signed_bytes_le(&other.bytes);
        BigNum { bytes: (a % b).to_signed_bytes_le() }
    }

    /// `-a` on `BigInt`: the negation.
    #[verifier::external_body]
    pub(crate) fn neg(&self) -> (r: BigNum)
        ensures
            r@ == -self@,
    {
        let a = num_bigint::BigInt::from_signed_bytes_le(&self.bytes);
        BigNum { bytes: (-a).to_signed_bytes_le() }
    }

    /// `BigInt::pow`: `a` to the power `e` (with `0^0 == 1`).
    #[verifier::external_body]
    pub(crate) fn pow(&self, e: u32) -> (r: BigNum)
        ensures
            r@ == pow(self@, e as nat),
    {
        let a = num_bigint::BigInt::from_signed_bytes_le(&self.bytes);
        BigNum { bytes: a.pow(e).to_signed_bytes_le() }
    }

    /// `BigInt::sqrt`: the truncated square root; it panics on a negative
    /// value.
    #[verifier::external_body]
    pub(crate) fn sqrt(&self) -> (r: BigNum)
        requires
            self@ >= 0,
        ensures
            is_isqrt(r@, self@),
    {
        let a = num_bigint::BigInt::from_signed_bytes_le(&self.bytes);
        BigNum { bytes: a.sqrt().to_signed_bytes_le() }
    }

    /// `==` on `BigInt`: numeric equality.
    #[verifier::external_body]
    pub(crate) fn eq(&self, other: &BigNum) -> (r: bool)
        ensures
            r == (self@ == other@),
    {
        let a = num_bigint::BigInt::from_signed_bytes_le(&self.bytes);
        let b = num_bigint::BigInt::from_signed_bytes_le(&other.bytes);
        a == b
    }

    /// `<` on `BigInt`: numeric order.
    #[verifier::external_body]
    pub(crate) fn lt(&self, other: &BigNum) -> (r: bool)
        ensures
            r == (self@ < other@),
    {
        let a = num_bigint::BigInt::from_signed_bytes_le(&self.bytes);
        let b = num_bigint::BigInt::from_signed_bytes_le(&other.bytes);
        a < b
    }

    /// `BigInt::sign() == Sign::Minus`: whether the value is negative.
    #[verifier::external_body]
    pub(crate) fn is_negative(&self) -> (r: bool)
        ensures
            r == (self@ < 0),
    {
        let a = num_bigint::BigInt::from_signed_bytes_le(&self.bytes);
        a.sign() == num_bigint::Sign::Minus
    }

    /// `u32::try_from(BigInt)`: the value when it fits in a `u32`.
    #[verifier::external_body]
    pub(crate) fn to_u32(&self) -> (r: Option<u32>)
        ensures
            r == (if 0 <= self@ <= u32::MAX {
                Some(self@ as u32)
            } else {
                None::<u32>
            }),
    {
        let a = num_bigint::BigInt::from_signed_bytes_le(&self.bytes);
        u32::try_from(a).ok()
    }

    /// `BigInt::to_string()` (its `Display`) on a non-negative value: the
    /// decimal digits, as ASCII bytes.
    #[verifier::external_body]
    pub(crate) fn to_decimal(&self) -> (r: Vec<u8>)
        requires
            self@ >= 0,
        ensures
            r@ == radix_digits(self@ as nat, 10),
    {
        let a = num_bigint::BigInt::from_signed_bytes_le(&self.bytes);
        a.to_string().into_bytes()
    }
}

} // verus!
