//! Fixed-point decimal numbers of unlimited precision.
use crate::num::{abs, digit_char, is_isqrt, radix_digits, tdiv, trem, BigNum};
use vstd::arithmetic::power::pow;
use vstd::prelude::*;

verus! {

/// The mathematical value of a fixed-point number: `value / 10^scale`.
/// The scale is the number of digits after the decimal point.
pub struct Dec {
    pub value: int,
    pub scale: nat,
}

pub open spec fn pow10(n: nat) -> int {
    pow(10, n)
}

pub open spec fn max_nat(a: nat, b: nat) -> nat {
    if a >= b {
        a
    } else {
        b
    }
}

pub open spec fn min_nat(a: nat, b: nat) -> nat {
    if a <= b {
        a
    } else {
        b
    }
}

/// A number built from `value` and `scale`, where zero always gets scale 0.
pub open spec fn normalized(value: int, scale: nat) -> Dec {
    if value == 0 {
        Dec { value: 0, scale: 0 }
    } else {
        Dec { value, scale }
    }
}

/// The numerator of `d` over `10^scale` (for `scale >= d.scale`).
pub open spec fn rescaled(d: Dec, scale: nat) -> int {
    d.value * pow10((scale - d.scale) as nat)
}

pub open spec fn common_scale(a: Dec, b: Dec) -> nat {
    max_nat(a.scale, b.scale)
}

/// Sum, at the larger of both scales.
pub open spec fn dec_add(a: Dec, b: Dec) -> Dec {
    let s = common_scale(a, b);
    normalized(rescaled(a, s) + rescaled(b, s), s)
}

/// Difference, at the larger of both scales.
pub open spec fn dec_sub(a: Dec, b: Dec) -> Dec {
    let s = common_scale(a, b);
    normalized(rescaled(a, s) - rescaled(b, s), s)
}

/// `d` with the digits beyond `prec` dropped (rounding toward zero).
pub open spec fn truncated(d: Dec, prec: nat) -> Dec {
    if d.scale > prec {
        Dec { value: tdiv(d.value, pow10((d.scale - prec) as nat)), scale: prec }
    } else {
        d
    }
}

/// Scale of a product: `min(a + b, max(scale, a, b))`.
pub open spec fn mul_scale(a: Dec, b: Dec, scale: nat) -> nat {
    min_nat(max_nat(max_nat(scale, a.scale), b.scale), a.scale + b.scale)
}

/// Product, with `scale` the calculator's precision.
pub open spec fn dec_mul(a: Dec, b: Dec, scale: nat) -> Dec {
    truncated(normalized(a.value * b.value, a.scale + b.scale), mul_scale(a, b, scale))
}

/// Quotient at exactly `scale` digits, rounded toward zero.
pub open spec fn dec_div(a: Dec, b: Dec, scale: nat) -> Dec {
    let s = common_scale(a, b);
    normalized(tdiv(rescaled(a, s) * pow10(scale), rescaled(b, s)), scale)
}

/// Remainder `a - (a / b) * b`, where the quotient is taken at `scale` and
/// the product at `max(scale + scale(b), scale(a))` digits.
pub open spec fn dec_rem(a: Dec, b: Dec, scale: nat) -> Dec {
    let q = dec_div(a, b, scale);
    dec_sub(
        a,
        truncated(normalized(q.value * b.value, q.scale + b.scale), max_nat(scale + b.scale, a.scale)),
    )
}

pub open spec fn dec_neg(a: Dec) -> Dec {
    Dec { value: -a.value, scale: a.scale }
}

/// The integer square root of a non-negative `x`.
pub open spec fn isqrt(x: int) -> int {
    choose|r: int| is_isqrt(r, x)
}

/// Square root at `max(scale(a), scale)` digits, rounded down.
pub open spec fn dec_sqrt(a: Dec, scale: nat) -> Dec {
    if a.value == 0 {
        a
    } else {
        let s = max_nat(a.scale, scale);
        normalized(tdiv(isqrt(a.value * pow10(a.scale) * pow10(2 * s)), pow10(a.scale)), s)
    }
}

/// The integer part of `a` (rounded toward zero).
pub open spec fn integer_part(a: Dec) -> int {
    tdiv(a.value, pow10(a.scale))
}

/// `a` to the power of the integer part of `e`; `None` when that is
/// negative or does not fit in a `u32`.
pub open spec fn dec_pow(a: Dec, e: Dec, scale: nat) -> Option<Dec> {
    let n = integer_part(e);
    if 0 <= n <= u32::MAX {
        if n == 0 {
            Some(Dec { value: 1, scale: 0 })
        } else if n == 1 {
            Some(a)
        } else {
            Some(
                truncated(
                    normalized(pow(a.value, n as nat), a.scale * (n as nat)),
                    max_nat(scale, a.scale),
                ),
            )
        }
    } else {
        None
    }
}

/// Numeric equality.
pub open spec fn dec_eq(a: Dec, b: Dec) -> bool {
    let s = common_scale(a, b);
    rescaled(a, s) == rescaled(b, s)
}

/// Numeric order.
pub open spec fn dec_lt(a: Dec, b: Dec) -> bool {
    let s = common_scale(a, b);
    rescaled(a, s) < rescaled(b, s)
}

/// The integer part of `a` as a `u32`: 0 for negative numbers, `u32::MAX`
/// when it is too large.
pub open spec fn saturating_u32(a: Dec) -> u32 {
    if a.value < 0 {
        0
    } else if integer_part(a) <= u32::MAX {
        integer_part(a) as u32
    } else {
        u32::MAX
    }
}

pub proof fn lemma_pow10_positive(n: nat)
    ensures
        pow10(n) > 0,
{
    vstd::arithmetic::power::lemma_pow_positive(10, n);
}

/// The larger of two `u32`.
fn max_u32(a: u32, b: u32) -> (r: u32)
    ensures
        r == max_nat(a as nat, b as nat),
{
    if a >= b {
        a
    } else {
        b
    }
}

/// `10^n`.
fn ten_pow(n: u32) -> (r: BigNum)
    ensures
        r@ == pow10(n as nat),
        r@ > 0,
{
    proof {
        vstd::arithmetic::power::lemma_pow_positive(10, n as nat);
    }
    BigNum::from_u32(10).pow(n)
}

/// A number `value / 10^precision`.
#[derive(Debug)]
pub struct Fixed {
    value: BigNum,
    precision: u32,
}

impl View for Fixed {
    type V = Dec;

    closed spec fn view(&self) -> Dec {
        Dec { value: self.value@, scale: self.precision as nat }
    }
}

impl Clone for Fixed {
    fn clone(&self) -> (r: Self)
        ensures
            r@ == self@,
    {
        Fixed { value: self.value.clone(), precision: self.precision }
    }
}

/// The scale of a number always fits in a `u32`.
pub proof fn lemma_scale_fits(f: &Fixed)
    ensures
        f@.scale <= u32::MAX,
{
}

impl Fixed {
    /// The number `value / 10^precision`; zero gets precision 0.
    pub fn new(value: BigNum, precision: u32) -> (r: Fixed)
        ensures
            r@ == normalized(value@, precision as nat),
    {
        if value.eq(&BigNum::zero()) {
            Fixed { value, precision: 0 }
        } else {
            Fixed { value, precision }
        }
    }

    /// Zero, with precision 0.
    pub fn zero() -> (r: Fixed)
        ensures
            r@ == (Dec { value: 0, scale: 0 }),
    {
        Fixed { value: BigNum::zero(), precision: 0 }
    }

    /// The integer `n`.
    pub fn from_u32(n: u32) -> (r: Fixed)
        ensures
            r@ == (Dec { value: n as int, scale: 0 }),
    {
        Fixed { value: BigNum::from_u32(n), precision: 0 }
    }

    /// The number of digits after the point.
    pub fn precision(&self) -> (r: u32)
        ensures
            r == self@.scale,
    {
        self.precision
    }

    pub fn is_zero(&self) -> (r: bool)
        ensures
            r == (self@.value == 0),
    {
        self.value.eq(&BigNum::zero())
    }

    pub fn is_negative(&self) -> (r: bool)
        ensures
            r == (self@.value < 0),
    {
        self.value.is_negative()
    }

    /// Make the precision not higher than `prec`.
    fn truncate_precision(&mut self, prec: u32)
        ensures
            final(self)@ == truncated(old(self)@, prec as nat),
    {
        if self.precision > prec {
            self.value = self.value.div(&ten_pow(self.precision - prec));
            self.precision = prec;
        }
    }

    /// The integer part (the fractional digits dropped).
    fn value_truncated(&self) -> (r: BigNum)
        ensures
            r@ == integer_part(self@),
    {
        self.value.div(&self.scaling())
    }

    /// The scaling factor `10^precision`.
    fn scaling(&self) -> (r: BigNum)
        ensures
            r@ == pow10(self@.scale),
            r@ > 0,
    {
        proof {
            vstd::arithmetic::power::lemma_pow_positive(10, self.precision as nat);
        }
        ten_pow(self.precision)
    }

    /// The integer part, when it fits in a `u32`.
    pub fn integer_u32(&self) -> (r: Option<u32>)
        ensures
            r == (if 0 <= integer_part(self@) <= u32::MAX {
                Some(integer_part(self@) as u32)
            } else {
                None::<u32>
            }),
    {
        self.value_truncated().to_u32()
    }

    /// The integer part as a `u32`, saturating at both ends.
    pub fn to_u32_saturating(&self) -> (r: u32)
        ensures
            r == saturating_u32(self@),
    {
        if self.is_negative() {
            return 0;
        }
        let val = self.value_truncated();
        proof {
            lemma_pow10_positive(self@.scale);
            vstd::arithmetic::div_mod::lemma_div_pos_is_pos(self@.value, pow10(self@.scale));
        }
        match val.to_u32() {
            Some(v) => v,
            None => u32::MAX,
        }
    }
}


/// Re-scale both numerators to the larger of both precisions.
fn unify_precision(lhs: &Fixed, rhs: &Fixed) -> (r: (BigNum, BigNum))
    ensures
        r.0@ == rescaled(lhs@, common_scale(lhs@, rhs@)),
        r.1@ == rescaled(rhs@, common_scale(lhs@, rhs@)),
{
    proof {
        vstd::arithmetic::power::lemma_pow0(10);
    }
    if lhs.precision < rhs.precision {
        (lhs.value.mul(&ten_pow(rhs.precision - lhs.precision)), rhs.value.clone())
    } else if lhs.precision == rhs.precision {
        (lhs.value.clone(), rhs.value.clone())
    } else {
        (lhs.value.clone(), rhs.value.mul(&ten_pow(lhs.precision - rhs.precision)))
    }
}

impl Fixed {
    /// Sum; the precision of the result is the larger of both.
    pub fn add(&self, rhs: &Fixed) -> (r: Fixed)
        ensures
            r@ == dec_add(self@, rhs@),
    {
        let (a, b) = unify_precision(self, rhs);
        Fixed::new(a.add(&b), max_u32(self.precision, rhs.precision))
    }

    /// Difference; the precision of the result is the larger of both.
    pub fn sub(&self, rhs: &Fixed) -> (r: Fixed)
        ensures
            r@ == dec_sub(self@, rhs@),
    {
        let (a, b) = unify_precision(self, rhs);
        Fixed::new(a.sub(&b), max_u32(self.precision, rhs.precision))
    }

    /// Product with precision `min(a + b, max(scale, a, b))`, where `a` and
    /// `b` are the precisions of the factors.
    pub fn mul(&self, rhs: &Fixed, scale: u32) -> (r: Fixed)
        requires
            self@.scale + rhs@.scale <= u32::MAX,
        ensures
            r@ == dec_mul(self@, rhs@, scale as nat),
    {
        let sum = self.precision + rhs.precision;
        let mut res = Fixed::new(self.value.mul(&rhs.value), sum);
        let m = max_u32(max_u32(scale, self.precision), rhs.precision);
        let prec = if m <= sum {
            m
        } else {
            sum
        };
        res.truncate_precision(prec);
        res
    }

    /// Quotient with precision `scale`, rounded toward zero.
    pub fn div(&self, rhs: &Fixed, scale: u32) -> (r: Fixed)
        requires
            rhs@.value != 0,
        ensures
            r@ == dec_div(self@, rhs@, scale as nat),
    {
        let scaling = ten_pow(scale);
        let (a, b) = unify_precision(self, rhs);
        proof {
            lemma_pow10_positive((common_scale(self@, rhs@) - rhs@.scale) as nat);
            vstd::arithmetic::mul::lemma_mul_nonzero(
                rhs@.value,
                pow10((common_scale(self@, rhs@) - rhs@.scale) as nat),
            );
        }
        Fixed::new(a.mul(&scaling).div(&b), scale)
    }

    /// Remainder `a - (a / b) * b`: the quotient is taken at precision
    /// `scale`, the product at `max(scale + b, a)`.
    pub fn rem(&self, rhs: &Fixed, scale: u32) -> (r: Fixed)
        requires
            rhs@.value != 0,
            scale + rhs@.scale <= u32::MAX,
        ensures
            r@ == dec_rem(self@, rhs@, scale as nat),
    {
        let div = self.div(rhs, scale);
        proof {
            lemma_scale_fits(&div);
            assert(div@.scale <= scale);
        }
        let mut mul = Fixed::new(div.value.mul(&rhs.value), div.precision + rhs.precision);
        let prec = max_u32(scale + rhs.precision, self.precision);
        mul.truncate_precision(prec);
        self.sub(&mul)
    }

    /// Negation; the precision is kept.
    pub fn neg(&self) -> (r: Fixed)
        ensures
            r@ == dec_neg(self@),
    {
        Fixed { value: self.value.neg(), precision: self.precision }
    }

    /// Numeric equality.
    pub fn equals(&self, other: &Fixed) -> (r: bool)
        ensures
            r == dec_eq(self@, other@),
    {
        let (a, b) = unify_precision(self, other);
        a.eq(&b)
    }

    /// Numeric order: `self < other`.
    pub fn less_than(&self, other: &Fixed) -> (r: bool)
        ensures
            r == dec_lt(self@, other@),
    {
        let (a, b) = unify_precision(self, other);
        a.lt(&b)
    }

    /// Square root with precision `max(precision, scale)`, rounded down.
    pub fn sqrt(&self, scale: u32) -> (r: Fixed)
        requires
            self@.value >= 0,
            2 * max_nat(self@.scale, scale as nat) <= u32::MAX,
        ensures
            r@ == dec_sqrt(self@, scale as nat),
    {
        if self.is_zero() {
            return self.clone();
        }
        let prec = max_u32(self.precision, scale);
        let scaling = ten_pow(2 * prec);
        let own = self.scaling();
        let radicand = self.value.mul(&own).mul(&scaling);
        proof {
            lemma_pow10_positive(self@.scale);
            lemma_pow10_positive(2 * (prec as nat));
            vstd::arithmetic::mul::lemma_mul_nonnegative(self@.value, pow10(self@.scale));
            vstd::arithmetic::mul::lemma_mul_nonnegative(
                self@.value * pow10(self@.scale),
                pow10(2 * (prec as nat)),
            );
        }
        let root = radicand.sqrt();
        proof {
            lemma_isqrt_unique(root@, isqrt(radicand@), radicand@);
        }
        Fixed::new(root.div(&own), prec)
    }

    /// Raise to the integer part of `rhs`; `None` when that is negative or
    /// does not fit in a `u32`.  Results of exponents above 1 keep
    /// `max(scale, precision)` digits.
    pub fn checked_pow(&self, rhs: &Fixed, scale: u32) -> (r: Option<Fixed>)
        requires
            integer_part(rhs@) <= u32::MAX ==> self@.scale * integer_part(rhs@) <= u32::MAX,
        ensures
            match (r, dec_pow(self@, rhs@, scale as nat)) {
                (Some(x), Some(d)) => x@ == d,
                (None, None) => true,
                _ => false,
            },
    {
        match rhs.integer_u32() {
            Some(exp) => {
                if exp == 0 {
                    Some(Fixed { value: BigNum::from_u32(1), precision: 0 })
                } else if exp == 1 {
                    Some(self.clone())
                } else {
                    let prec = max_u32(scale, self.precision);
                    proof {
                        vstd::arithmetic::mul::lemma_mul_is_commutative(
                            self@.scale as int,
                            exp as int,
                        );
                    }
                    let mut pow = Fixed::new(self.value.pow(exp), self.precision * exp);
                    pow.truncate_precision(prec);
                    Some(pow)
                }
            },
            None => None,
        }
    }
}

/// The integer square root is unique.
pub proof fn lemma_isqrt_unique(r1: int, r2: int, x: int)
    requires
        is_isqrt(r1, x),
    ensures
        is_isqrt(isqrt(x), x),
        isqrt(x) == r1,
{
    assert(is_isqrt(r1, x));
    let r = isqrt(x);
    if r < r1 {
        assert((r + 1) * (r + 1) <= r1 * r1) by (nonlinear_arith)
            requires
                0 <= r,
                r + 1 <= r1,
        ;
    } else if r > r1 {
        assert((r1 + 1) * (r1 + 1) <= r * r) by (nonlinear_arith)
            requires
                0 <= r1,
                r1 + 1 <= r,
        ;
    }
}


/// Digit value of an input byte: `0`-`9` and `A`-`F`; anything else is 0.
pub open spec fn digit_value(c: u8) -> nat {
    if 48 <= c <= 57 {
        (c - 48) as nat
    } else if 65 <= c <= 70 {
        (c - 55) as nat
    } else {
        0
    }
}

/// The value of a digit string in base `radix`.
pub open spec fn digits_value(s: Seq<u8>, radix: nat) -> nat
    decreases s.len(),
{
    if s.len() == 0 {
        0
    } else {
        digits_value(s.drop_last(), radix) * radix + digit_value(s.last())
    }
}

/// The index of the last `.` in `s`.
pub open spec fn last_dot(s: Seq<u8>) -> Option<int>
    decreases s.len(),
{
    if s.len() == 0 {
        None
    } else if s.last() == 46 {
        Some(s.len() - 1)
    } else {
        last_dot(s.drop_last())
    }
}

/// The number of digits after the last `.` (as a `u32`, as counted when
/// parsing), or 0 without a dot.
pub open spec fn parsed_scale(s: Seq<u8>) -> nat {
    match last_dot(s) {
        Some(d) => ((s.len() - d - 1) as u32) as nat,
        None => 0,
    }
}

/// The digits of `s` without its last `.`.
pub open spec fn parsed_digits(s: Seq<u8>) -> Seq<u8> {
    match last_dot(s) {
        Some(d) => s.remove(d),
        None => s,
    }
}

/// The number that `s` denotes in base `radix`: the digits without the last
/// dot, read in base `radix`; with `p` digits after the dot, the result
/// keeps `p` decimal digits (rounded down when `radix` is not 10).
pub open spec fn parsed(s: Seq<u8>, radix: nat) -> Dec {
    let p = parsed_scale(s);
    let mant = digits_value(parsed_digits(s), radix) as int;
    if p > 0 && radix != 10 {
        normalized(tdiv(mant * pow10(p), pow(radix as int, p)), p)
    } else {
        normalized(mant, p)
    }
}

pub proof fn lemma_last_dot_at(s: Seq<u8>, i: int)
    requires
        0 <= i < s.len(),
        s[i] == 46,
        forall|j: int| i < j < s.len() ==> s[j] != 46,
    ensures
        last_dot(s) == Some(i),
    decreases s.len(),
{
    if i < s.len() - 1 {
        lemma_last_dot_at(s.drop_last(), i);
    }
}

proof fn lemma_no_dot(s: Seq<u8>)
    requires
        forall|j: int| 0 <= j < s.len() ==> s[j] != 46,
    ensures
        last_dot(s) == None::<int>,
    decreases s.len(),
{
    if s.len() > 0 {
        lemma_no_dot(s.drop_last());
    }
}

pub proof fn lemma_last_dot_bound(s: Seq<u8>)
    ensures
        last_dot(s) matches Some(d) ==> 0 <= d < s.len() && s[d] == 46,
    decreases s.len(),
{
    if s.len() > 0 && s.last() != 46 {
        lemma_last_dot_bound(s.drop_last());
    }
}

/// Convert an input byte to its digit in hexadecimal notation; every other
/// byte is 0.
pub fn to_digit(c: u8) -> (r: u8)
    ensures
        r as nat == digit_value(c),
{
    if 48 <= c && c <= 57 {
        // '0'..='9'
        c - 48
    } else if 65 <= c && c <= 70 {
        // 'A'..='F'
        c - 55
    } else {
        0
    }
}

impl Fixed {
    /// Parse digits possibly separated by a dot, in base `radix`.
    pub fn parse(bytes: &[u8], radix: u32) -> (r: Fixed)
        requires
            radix == 0 ==> parsed_scale(bytes@) == 0,
        ensures
            r@ == parsed(bytes@, radix as nat),
    {
        let len = bytes.len();
        // find the last dot
        let mut i = len;
        let mut dot: usize = len;
        while i != 0
            invariant_except_break
                forall|j: int| i <= j < len ==> bytes@[j] != 46,
                dot == len,
            invariant
                i <= len == bytes@.len(),
            ensures
                dot <= len,
                dot < len ==> last_dot(bytes@) == Some(dot as int),
                dot == len ==> forall|j: int| 0 <= j < len ==> bytes@[j] != 46,
            decreases i,
        {
            i -= 1;
            if bytes[i] == 46 {
                // '.'
                proof {
                    lemma_last_dot_at(bytes@, i as int);
                }
                dot = i;
                break;
            }
        }
        proof {
            if dot == len {
                lemma_no_dot(bytes@);
            }
        }
        let ghost digits = parsed_digits(bytes@);
        let n = if dot < len {
            len - 1
        } else {
            len
        };
        assert(digits.len() == n);
        let base = BigNum::from_u32(radix);
        let mut value = BigNum::zero();
        let mut j: usize = 0;
        while j < n
            invariant
                j <= n == digits.len(),
                len == bytes@.len(),
                dot <= len,
                dot < len ==> digits == bytes@.remove(dot as int),
                dot == len ==> digits == bytes@,
                n == if dot < len { len - 1 } else { len as int },
                base@ == radix,
                value@ == digits_value(digits.take(j as int), radix as nat),
            decreases n - j,
        {
            let c = if j < dot {
                bytes[j]
            } else {
                bytes[j + 1]
            };
            assert(c == digits[j as int]);
            assert(digits.take(j + 1).drop_last() =~= digits.take(j as int));
            value = value.mul(&base).add(&BigNum::from_u32(to_digit(c) as u32));
            j += 1;
        }
        assert(digits.take(n as int) =~= digits);
        let precision: u32 = if dot < len {
            (len - dot - 1) as u32
        } else {
            0
        };
        assert(precision == parsed_scale(bytes@));
        if precision > 0 && radix != 10 {
            let scaled = value.mul(&ten_pow(precision));
            let denom = base.pow(precision);
            proof {
                vstd::arithmetic::power::lemma_pow_positive(radix as int, precision as nat);
            }
            value = scaled.div(&denom);
        }
        Fixed::new(value, precision)
    }
}


/// `s` padded with leading `0`s to at least `width` characters.
pub open spec fn zero_padded(s: Seq<u8>, width: nat) -> Seq<u8> {
    if s.len() >= width {
        s
    } else {
        Seq::new((width - s.len()) as nat, |i: int| 48u8) + s
    }
}

/// The first digits in base `radix` of the fraction `x / base`: one digit
/// per step while the rest is not zero and `done` (divided by `radix` at
/// each step) is positive.
pub open spec fn frac_digits(x: int, done: int, radix: nat, base: int) -> Seq<u8>
    decreases done,
{
    if radix < 2 || x == 0 || done <= 0 || base <= 0 {
        seq![]
    } else {
        proof {
            vstd::arithmetic::div_mod::lemma_div_decreases(done, radix as int);
        }
        let y = x * radix;
        seq![digit_char((y / base) as nat)] + frac_digits(y % base, done / (radix as int), radix, base)
    }
}

/// The digits after the point of `x / 10^digits` in base `radix`: for
/// radix 10 all `digits` decimal digits, otherwise the base-`radix` digits
/// until the fraction is exhausted or about as many digits as the decimal
/// form has.
pub open spec fn frac_string(x: nat, radix: nat, digits: nat) -> Seq<u8> {
    if radix == 10 {
        zero_padded(radix_digits(x, 10), digits)
    } else {
        frac_digits(x as int, pow10(digits), radix, pow10(digits))
    }
}

/// `s` without a lone leading zero.
pub open spec fn strip_zero(s: Seq<u8>) -> Seq<u8> {
    if s == seq![48u8] {
        seq![]
    } else {
        s
    }
}

/// The text of `a` in base `radix`: a `-` for negative numbers, the integer
/// digits (none when the integer part is zero and there are fractional
/// digits), then a `.` and the fractional digits when the scale is not zero.
pub open spec fn dec_to_string(a: Dec, radix: nat) -> Seq<u8> {
    let sign: Seq<u8> = if a.value < 0 {
        seq![45u8]
    } else {
        seq![]
    };
    let v = abs(a.value);
    if a.scale == 0 {
        sign + radix_digits(v as nat, radix)
    } else if radix_digits(v as nat, 10).len() < a.scale {
        sign + seq![46u8] + frac_string(v as nat, radix, a.scale)
    } else if radix == 10 {
        let s = radix_digits(v as nat, 10);
        let k = s.len() - a.scale;
        sign + strip_zero(s.take(k)) + seq![46u8] + s.skip(k)
    } else {
        let base = pow10(a.scale);
        sign + strip_zero(radix_digits((v / base) as nat, radix)) + seq![46u8] + frac_string(
            (v % base) as nat,
            radix,
            a.scale,
        )
    }
}

/// Produces an upper-case character for a digit.
pub fn char_from_digit(n: u32, radix: u32) -> (r: char)
    requires
        n < radix <= 36,
    ensures
        r as u32 == digit_char(n as nat),
{
    if n < 10 {
        (n as u8 + 48) as char
    } else {
        (n as u8 + 55) as char
    }
}

/// Append `src[from..to]` to `dst`.
fn push_range(dst: &mut Vec<u8>, src: &Vec<u8>, from: usize, to: usize)
    requires
        from <= to <= src@.len(),
    ensures
        final(dst)@ == old(dst)@ + src@.subrange(from as int, to as int),
{
    let mut k: usize = from;
    while k < to
        invariant
            from <= k <= to <= src@.len(),
            dst@ == old(dst)@ + src@.subrange(from as int, k as int),
        decreases to - k,
    {
        assert(src@.subrange(from as int, k + 1) =~= src@.subrange(from as int, k as int).push(
            src@[k as int],
        ));
        dst.push(src[k]);
        k += 1;
    }
}

/// The elements of `v` in reverse order.
fn reversed(v: &Vec<u8>) -> (r: Vec<u8>)
    ensures
        r@ == v@.reverse(),
{
    let mut r: Vec<u8> = Vec::new();
    let mut k: usize = v.len();
    while k > 0
        invariant
            k <= v@.len(),
            r@ == v@.subrange(k as int, v@.len() as int).reverse(),
        decreases k,
    {
        k -= 1;
        assert(v@.subrange(k as int, v@.len() as int).reverse() =~= v@.subrange(
            k + 1,
            v@.len() as int,
        ).reverse().push(v@[k as int]));
        r.push(v[k]);
    }
    assert(v@.subrange(0, v@.len() as int) =~= v@);
    r
}

/// For non-negative operands, `/` and `%` rounding toward zero agree with
/// Euclidean division.
pub proof fn lemma_tdiv_nonneg(a: int, b: int)
    requires
        a >= 0,
        b > 0,
    ensures
        tdiv(a, b) == a / b,
        trem(a, b) == a % b,
        0 <= a / b,
        0 <= a % b < b,
{
    vstd::arithmetic::div_mod::lemma_fundamental_div_mod(a, b);
    vstd::arithmetic::div_mod::lemma_div_pos_is_pos(a, b);
    vstd::arithmetic::div_mod::lemma_mod_bound(a, b);
}

proof fn lemma_radix_digits_len(n: nat, radix: nat)
    requires
        radix >= 2,
    ensures
        radix_digits(n, radix).len() >= 1,
        n >= radix ==> radix_digits(n, radix).len() == radix_digits(n / radix, radix).len() + 1,
        n < radix ==> radix_digits(n, radix).len() == 1,
    decreases n,
{
    if n >= radix {
        vstd::arithmetic::div_mod::lemma_div_decreases(n as int, radix as int);
        lemma_radix_digits_len(n / radix, radix);
    }
}

/// The number of decimal digits of `n` (1 for zero), saturating at
/// `u32::MAX`.
fn count_digits(n: &BigNum) -> (r: u32)
    requires
        n@ >= 0,
    ensures
        r == min_nat(radix_digits(n@ as nat, 10).len(), u32::MAX as nat),
{
    let zero = BigNum::zero();
    if n.eq(&zero) {
        return 1;
    }
    let ten = BigNum::from_u32(10);
    let mut m = n.clone();
    let mut count: u32 = 0;
    let ghost mut steps: nat = 0;
    while !m.eq(&zero)
        invariant
            zero@ == 0,
            ten@ == 10,
            m@ >= 0,
            count == min_nat(steps, u32::MAX as nat),
            m@ > 0 ==> steps + radix_digits(m@ as nat, 10).len() == radix_digits(n@ as nat, 10).len(),
            m@ == 0 ==> steps == radix_digits(n@ as nat, 10).len(),
        decreases m@,
    {
        let ghost before = m@;
        m = m.div(&ten);
        proof {
            lemma_radix_digits_len(before as nat, 10);
            if before >= 10 {
                assert(m@ >= 1) by {
                    vstd::arithmetic::div_mod::lemma_div_pos_is_pos(before, 10);
                    vstd::arithmetic::div_mod::lemma_div_is_ordered(10, before, 10);
                }
            } else {
                assert(m@ == 0) by {
                    vstd::arithmetic::div_mod::lemma_basic_div(before, 10);
                }
            }
            vstd::arithmetic::div_mod::lemma_div_decreases(before, 10);
            steps = steps + 1;
        }
        if count < u32::MAX {
            count += 1;
        }
    }
    count
}


/// A value is below 10 to the number of its decimal digits.
proof fn lemma_below_digit_power(n: nat)
    ensures
        n < pow10(radix_digits(n, 10).len()),
    decreases n,
{
    lemma_radix_digits_len(n, 10);
    let len = radix_digits(n, 10).len();
    vstd::arithmetic::power::lemma_pow1(10);
    if n >= 10 {
        vstd::arithmetic::div_mod::lemma_div_decreases(n as int, 10);
        lemma_below_digit_power(n / 10);
        reveal(pow);
        vstd::arithmetic::div_mod::lemma_fundamental_div_mod(n as int, 10);
        assert(pow10(len) == 10 * pow10((len - 1) as nat));
    }
}

/// The digits of a non-negative `x` in base `radix`.
fn int_to_string(x: &BigNum, radix: u32) -> (r: Vec<u8>)
    requires
        x@ >= 0,
        2 <= radix <= 36,
    ensures
        r@ == radix_digits(x@ as nat, radix as nat),
{
    if radix == 10 {
        return x.to_decimal();
    }
    let zero = BigNum::zero();
    let base = BigNum::from_u32(radix);
    let mut m = x.clone();
    let mut acc: Vec<u8> = Vec::new();
    loop
        invariant_except_break
            m@ >= 0,
            acc@.len() == 0 || m@ > 0,
            radix_digits(x@ as nat, radix as nat) == radix_digits(m@ as nat, radix as nat)
                + acc@.reverse(),
        invariant
            zero@ == 0,
            base@ == radix,
            2 <= radix <= 36,
        ensures
            radix_digits(x@ as nat, radix as nat) == acc@.reverse(),
        decreases m@,
    {
        let ghost before = m@;
        proof {
            lemma_tdiv_nonneg(before, radix as int);
        }
        let d = match m.rem(&base).to_u32() {
            Some(d) => d,
            None => 0,
        };
        let c = char_from_digit(d, radix);
        let ghost old_acc = acc@;
        acc.push(c as u8);
        m = m.div(&base);
        proof {
            assert(acc@.reverse() =~= seq![digit_char((before % (radix as int)) as nat)]
                + old_acc.reverse());
            if before > 0 {
                vstd::arithmetic::div_mod::lemma_div_decreases(before, radix as int);
            }
            if before >= radix {
                vstd::arithmetic::div_mod::lemma_div_is_ordered(radix as int, before, radix as int);
                vstd::arithmetic::div_mod::lemma_div_by_self(radix as int);
            } else {
                vstd::arithmetic::div_mod::lemma_basic_div(before, radix as int);
                vstd::arithmetic::div_mod::lemma_small_mod(before as nat, radix as nat);
            }
        }
        if m.eq(&zero) {
            break;
        }
    }
    reversed(&acc)
}

/// The digits after the point of the fraction `x / 10^digits` in base
/// `radix`.
fn frac_to_string(x: &BigNum, radix: u32, digits: u32) -> (r: Vec<u8>)
    requires
        x@ >= 0,
        2 <= radix <= 36,
        radix != 10 ==> x@ < pow10(digits as nat),
    ensures
        r@ == frac_string(x@ as nat, radix as nat, digits as nat),
{
    if radix == 10 {
        let s = x.to_decimal();
        let mut out: Vec<u8> = Vec::new();
        let width = digits as usize;
        if s.len() < width {
            let mut k: usize = 0;
            while k < width - s.len()
                invariant
                    s@.len() < width,
                    k <= width - s@.len(),
                    out@ == Seq::new(k as nat, |i: int| 48u8),
                decreases width - s@.len() - k,
            {
                out.push(48);
                k += 1;
                assert(out@ =~= Seq::new(k as nat, |i: int| 48u8));
            }
        }
        push_range(&mut out, &s, 0, s.len());
        assert(s@.subrange(0, s@.len() as int) =~= s@);
        assert(out@ =~= zero_padded(s@, digits as nat));
        return out;
    }
    let zero = BigNum::zero();
    let base = ten_pow(digits);
    let r = BigNum::from_u32(radix);
    let mut done = base.clone();
    let mut rest = x.clone();
    let mut acc: Vec<u8> = Vec::new();
    while !rest.eq(&zero) && zero.lt(&done)
        invariant
            zero@ == 0,
            r@ == radix,
            2 <= radix <= 36,
            base@ == pow10(digits as nat),
            base@ > 0,
            0 <= rest@ < base@,
            done@ >= 0,
            acc@ + frac_digits(rest@, done@, radix as nat, base@) == frac_digits(
                x@,
                pow10(digits as nat),
                radix as nat,
                base@,
            ),
        decreases done@,
    {
        let ghost before = acc@;
        let ghost old_rest = rest@;
        let ghost old_done = done@;
        rest = rest.mul(&r);
        let ghost y = rest@;
        proof {
            lemma_tdiv_nonneg(y, base@);
            lemma_tdiv_nonneg(old_done, radix as int);
            assert(y / base@ < radix) by {
                vstd::arithmetic::mul::lemma_mul_strict_inequality(old_rest, base@, radix as int);
                vstd::arithmetic::mul::lemma_mul_is_commutative(base@, radix as int);
                vstd::arithmetic::div_mod::lemma_multiply_divide_lt(y, base@, radix as int);
            }
            vstd::arithmetic::mul::lemma_mul_nonnegative(old_rest, radix as int);
        }
        let d = match rest.div(&base).to_u32() {
            Some(d) => d,
            None => 0,
        };
        let c = char_from_digit(d, radix);
        acc.push(c as u8);
        rest = rest.rem(&base);
        done = done.div(&r);
        proof {
            vstd::arithmetic::div_mod::lemma_div_decreases(old_done, radix as int);
            assert(acc@ + frac_digits(rest@, done@, radix as nat, base@) =~= before
                + frac_digits(old_rest, old_done, radix as nat, base@));
        }
    }
    assert(frac_digits(rest@, done@, radix as nat, base@) =~= Seq::<u8>::empty());
    assert(acc@ =~= acc@ + Seq::<u8>::empty());
    acc
}

impl Fixed {
    /// The text of the number in base `radix` (see `dec_to_string`).
    pub fn to_string_radix(&self, radix: u32) -> (r: Vec<u8>)
        requires
            2 <= radix <= 36,
        ensures
            r@ == dec_to_string(self@, radix as nat),
    {
        let negative = self.is_negative();
        let value = if negative {
            self.value.neg()
        } else {
            self.value.clone()
        };
        let mut out: Vec<u8> = Vec::new();
        if negative {
            out.push(45);
        }
        let ghost sign = out@;
        if self.precision == 0 {
            let digits = int_to_string(&value, radix);
            push_range(&mut out, &digits, 0, digits.len());
            assert(digits@.subrange(0, digits@.len() as int) =~= digits@);
            return out;
        }
        let count = count_digits(&value);
        if count < self.precision {
            proof {
                lemma_below_digit_power(value@ as nat);
                vstd::arithmetic::power::lemma_pow_increases(
                    10,
                    radix_digits(value@ as nat, 10).len(),
                    self@.scale,
                );
            }
            out.push(46);
            let frac = frac_to_string(&value, radix, self.precision);
            push_range(&mut out, &frac, 0, frac.len());
            assert(frac@.subrange(0, frac@.len() as int) =~= frac@);
            assert(out@ =~= sign + seq![46u8] + frac@);
            return out;
        }
        if radix == 10 {
            let s = value.to_decimal();
            let k = s.len() - self.precision as usize;
            if !(k == 1 && s[0] == 48) {
                push_range(&mut out, &s, 0, k);
            }
            out.push(46);
            push_range(&mut out, &s, k, s.len());
            proof {
                if k == 1 && s@[0] == 48 {
                    assert(s@.take(k as int) =~= seq![48u8]);
                } else if k != 1 {
                    assert(s@.take(k as int).len() != seq![48u8].len());
                } else {
                    assert(s@.take(k as int)[0] != seq![48u8][0]);
                }
                assert(s@.subrange(0, k as int) =~= s@.take(k as int));
                assert(s@.subrange(k as int, s@.len() as int) =~= s@.skip(k as int));
            }
            return out;
        }
        let base = ten_pow(self.precision);
        proof {
            lemma_tdiv_nonneg(value@, base@);
        }
        let int_digits = int_to_string(&value.div(&base), radix);
        let frac = frac_to_string(&value.rem(&base), radix, self.precision);
        if !(int_digits.len() == 1 && int_digits[0] == 48) {
            push_range(&mut out, &int_digits, 0, int_digits.len());
        }
        out.push(46);
        push_range(&mut out, &frac, 0, frac.len());
        proof {
            assert(frac@.subrange(0, frac@.len() as int) =~= frac@);
            assert(int_digits@.subrange(0, int_digits@.len() as int) =~= int_digits@);
            if int_digits@.len() == 1 && int_digits@[0] == 48 {
                assert(int_digits@ =~= seq![48u8]);
            }
        }
        out
    }
}


impl PartialEq for Fixed {
    /// Numeric equality: numbers that differ only in trailing fractional
    /// zeros are equal.
    fn eq(&self, other: &Fixed) -> (r: bool) {
        self.equals(other)
    }
}

impl vstd::std_specs::cmp::PartialEqSpecImpl for Fixed {
    open spec fn obeys_eq_spec() -> bool {
        true
    }

    open spec fn eq_spec(&self, other: &Fixed) -> bool {
        dec_eq(self@, other@)
    }
}


impl Default for Fixed {
    /// Zero, with precision 0.
    fn default() -> (r: Fixed)
        ensures
            r@ == (Dec { value: 0, scale: 0 }),
    {
        Fixed::zero()
    }
}

} // verus!
