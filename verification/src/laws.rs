//! Properties of the calculator that hold for all inputs.
use crate::fixed::{
    common_scale, dec_add, dec_div, dec_pow, dec_sqrt, integer_part, isqrt, dec_eq, dec_lt, dec_mul, dec_neg, dec_rem, dec_sub,
    dec_to_string, digit_value, digits_value, frac_string, last_dot, lemma_last_dot_at,
    lemma_pow10_positive, max_nat, mul_scale, normalized, parsed, parsed_digits, parsed_scale,
    pow10, rescaled, strip_zero, truncated, zero_padded, Dec,
};
use crate::eval::{
    advanced, compare_step, go, program_wf, run_item, step_spec, Error, Outcome, Program, ADD,
    DIV, DUP, EQUAL, EXECUTE, GREATER, LESS, LOAD, MUL, NEWLINE, PRINTLN, REM, SAVE, SET_PRECISION,
    SUB, SWAP,
};
use crate::memory::{item_text, pop_two, Item};
use crate::memory::State;
use crate::num::{abs, digit_char, is_isqrt, radix_digits, tdiv, trem};
use vstd::arithmetic::power::pow;
use vstd::prelude::*;

verus! {

/// Addition commutes.
pub proof fn law_add_commutes(a: Dec, b: Dec)
    ensures
        dec_add(a, b) == dec_add(b, a),
{
}

/// Multiplication commutes, whatever the precision.
pub proof fn law_mul_commutes(a: Dec, b: Dec, scale: nat)
    ensures
        dec_mul(a, b, scale) == dec_mul(b, a, scale),
{
    vstd::arithmetic::mul::lemma_mul_is_commutative(a.value, b.value);
    assert(mul_scale(a, b, scale) == mul_scale(b, a, scale));
}

/// Negating twice gives the number back.
pub proof fn law_neg_involution(a: Dec)
    ensures
        dec_neg(dec_neg(a)) == a,
{
}

/// A number minus itself is zero (with precision 0).
pub proof fn law_sub_self(a: Dec)
    ensures
        dec_sub(a, a) == (Dec { value: 0, scale: 0 }),
{
}

/// Numeric equality is reflexive and symmetric.
pub proof fn law_eq_reflexive_symmetric(a: Dec, b: Dec)
    ensures
        dec_eq(a, a),
        dec_eq(a, b) == dec_eq(b, a),
{
}


/// Rescaling to `t` is rescaling to `s` times `10^(t - s)`.
proof fn lemma_rescaled_up(d: Dec, s: nat, t: nat)
    requires
        d.scale <= s <= t,
    ensures
        rescaled(d, t) == rescaled(d, s) * pow10((t - s) as nat),
{
    vstd::arithmetic::power::lemma_pow_adds(10, (s - d.scale) as nat, (t - s) as nat);
    assert((s - d.scale) as nat + (t - s) as nat == (t - d.scale) as nat);
    vstd::arithmetic::mul::lemma_mul_is_associative(
        d.value,
        pow10((s - d.scale) as nat),
        pow10((t - s) as nat),
    );
}

proof fn lemma_rescaled_normalized(v: int, s: nat, t: nat)
    requires
        s <= t,
    ensures
        rescaled(normalized(v, s), t) == v * pow10((t - s) as nat),
{
    vstd::arithmetic::mul::lemma_mul_basics(pow10(t));
    vstd::arithmetic::mul::lemma_mul_basics(pow10((t - s) as nat));
}

/// Equality can be checked at any common scale.
proof fn lemma_eq_at(a: Dec, b: Dec, t: nat)
    requires
        a.scale <= t,
        b.scale <= t,
    ensures
        dec_eq(a, b) <==> rescaled(a, t) == rescaled(b, t),
{
    let s = common_scale(a, b);
    lemma_rescaled_up(a, s, t);
    lemma_rescaled_up(b, s, t);
    let k = pow10((t - s) as nat);
    lemma_pow10_positive((t - s) as nat);
    let x = rescaled(a, s);
    let y = rescaled(b, s);
    assert(x * k == y * k <==> x == y) by (nonlinear_arith)
        requires
            k > 0,
    ;
}

/// Numeric equality is transitive.
pub proof fn law_eq_transitive(a: Dec, b: Dec, c: Dec)
    requires
        dec_eq(a, b),
        dec_eq(b, c),
    ensures
        dec_eq(a, c),
{
    let t = max_nat(max_nat(a.scale, b.scale), c.scale);
    lemma_eq_at(a, b, t);
    lemma_eq_at(b, c, t);
    lemma_eq_at(a, c, t);
}

/// Adding a number and then subtracting it gives a number equal to the
/// first one.
pub proof fn law_add_sub_cancel(a: Dec, b: Dec)
    ensures
        dec_eq(dec_sub(dec_add(a, b), b), a),
{
    let s = common_scale(a, b);
    let sum = dec_add(a, b);
    let s2 = common_scale(sum, b);
    let x = rescaled(sum, s2) - rescaled(b, s2);
    let d = dec_sub(sum, b);
    assert(d == normalized(x, s2));
    lemma_rescaled_normalized(x, s2, s);
    lemma_rescaled_up(sum, s2, s);
    lemma_rescaled_up(b, s2, s);
    vstd::arithmetic::mul::lemma_mul_is_distributive_sub_other_way(
        pow10((s - s2) as nat),
        rescaled(sum, s2),
        rescaled(b, s2),
    );
    lemma_rescaled_normalized(rescaled(a, s) + rescaled(b, s), s, s);
    vstd::arithmetic::power::lemma_pow0(10);
    assert(rescaled(d, s) == rescaled(a, s));
    lemma_eq_at(d, a, s);
}

/// On integers at precision 0, `/` and `%` agree with Rust's integer
/// division and remainder (rounding toward zero, remainder with the sign
/// of the dividend).
pub proof fn law_integer_div_rem(a: Dec, b: Dec)
    requires
        a.scale == 0,
        b.scale == 0,
        b.value != 0,
    ensures
        dec_div(a, b, 0) == normalized(tdiv(a.value, b.value), 0),
        dec_rem(a, b, 0) == normalized(trem(a.value, b.value), 0),
{
    vstd::arithmetic::power::lemma_pow0(10);
    vstd::arithmetic::mul::lemma_mul_basics(a.value);
    vstd::arithmetic::mul::lemma_mul_basics(b.value);
    assert(rescaled(a, 0) == a.value);
    assert(rescaled(b, 0) == b.value);
    let q = dec_div(a, b, 0);
    assert(q.value == tdiv(a.value, b.value));
    vstd::arithmetic::mul::lemma_mul_is_commutative(q.value, b.value);
    let m = normalized(q.value * b.value, 0);
    assert(truncated(m, 0) == m);
    vstd::arithmetic::mul::lemma_mul_basics(m.value);
    assert(rescaled(m, 0) == m.value);
    assert(dec_rem(a, b, 0) == normalized(a.value - m.value, 0));
}


/// Saving the top of the stack in a register and loading that register
/// again (`sr` then `lr`) leaves the stack as it was, with the value in the
/// register.
pub proof fn law_save_then_load(p: Program, st: State, r: u8)
    requires
        program_wf(p),
        st.wf(),
        st.stack.len() > 0,
        p.pos + 3 < p.cmds.len(),
        p.cmds[p.pos as int] == SAVE,
        p.cmds[p.pos + 1 as int] == r,
        p.cmds[p.pos + 2 as int] == LOAD,
        p.cmds[p.pos + 3 as int] == r,
    ensures
        ({
            let t1 = step_spec(p, st);
            let t2 = step_spec(t1.program, t1.state);
            &&& t1.outcome == Outcome::Continue
            &&& t2.outcome == Outcome::Continue
            &&& t2.state.stack == st.stack
            &&& t2.state.register == st.register.update(r as int, st.stack.last())
            &&& t2.program.pos == p.pos + 4
        }),
{
    let t1 = step_spec(p, st);
    assert(t1.state.stack.push(t1.state.register[r as int]) =~= st.stack);
}

/// Exchanging the top two values twice (`rr`) leaves the stack as it was.
pub proof fn law_swap_twice(p: Program, st: State)
    requires
        program_wf(p),
        st.wf(),
        st.stack.len() > 1,
        p.pos + 1 < p.cmds.len(),
        p.cmds[p.pos as int] == SWAP,
        p.cmds[p.pos + 1 as int] == SWAP,
    ensures
        ({
            let t1 = step_spec(p, st);
            let t2 = step_spec(t1.program, t1.state);
            &&& t2.outcome == Outcome::Continue
            &&& t2.state == st
            &&& t2.program.pos == p.pos + 2
        }),
{
    let t1 = step_spec(p, st);
    let t2 = step_spec(t1.program, t1.state);
    assert(t2.state.stack =~= st.stack);
}


/// Errors are fatal exactly in fail mode: a step reports a continuing
/// error only without it, and an error that ends evaluation only with it.
pub proof fn law_fail_mode(p: Program, st: State)
    ensures
        step_spec(p, st).outcome is Warn ==> !p.fail,
        step_spec(p, st).outcome is Fail ==> p.fail,
{
}


pub open spec fn is_decimal(c: u8) -> bool {
    48 <= c <= 57
}

pub open spec fn all_decimal(s: Seq<u8>) -> bool {
    forall|i: int| 0 <= i < s.len() ==> is_decimal(#[trigger] s[i])
}

/// Reading digits after a prefix: `value(a + b) == value(a) * radix^|b| + value(b)`.
proof fn lemma_digits_value_append(a: Seq<u8>, b: Seq<u8>, radix: nat)
    ensures
        digits_value(a + b, radix) == digits_value(a, radix) * pow(radix as int, b.len())
            + digits_value(b, radix),
    decreases b.len(),
{
    if b.len() == 0 {
        assert(a + b =~= a);
        vstd::arithmetic::power::lemma_pow0(radix as int);
    } else {
        assert((a + b).drop_last() =~= a + b.drop_last());
        lemma_digits_value_append(a, b.drop_last(), radix);
        vstd::arithmetic::power::lemma_pow_adds(radix as int, b.drop_last().len(), 1);
        vstd::arithmetic::power::lemma_pow1(radix as int);
        let x = digits_value(a, radix) as int;
        let pb = pow(radix as int, b.drop_last().len());
        assert(x * (pb * radix) == (x * pb) * radix) by (nonlinear_arith);
        assert((x * pb + digits_value(b.drop_last(), radix)) * radix == (x * pb) * radix
            + digits_value(b.drop_last(), radix) * radix) by (nonlinear_arith);
    }
}

/// The value of `n` decimal digits is below `10^n`.
proof fn lemma_digits_value_bound(t: Seq<u8>)
    requires
        all_decimal(t),
    ensures
        digits_value(t, 10) < pow10(t.len()),
    decreases t.len(),
{
    vstd::arithmetic::power::lemma_pow0(10);
    if t.len() > 0 {
        let u = t.drop_last();
        assert forall|i: int| 0 <= i < u.len() implies is_decimal(#[trigger] u[i]) by {
            assert(u[i] == t[i]);
        }
        lemma_digits_value_bound(u);
        vstd::arithmetic::power::lemma_pow_adds(10, u.len(), 1);
        vstd::arithmetic::power::lemma_pow1(10);
        assert(u.len() + 1 == t.len());
        assert(is_decimal(t[t.len() - 1]));
        let x = digits_value(u, 10) as int;
        let p = pow10(u.len());
        let d = digit_value(t.last()) as int;
        assert(x * 10 + d < p * 10) by (nonlinear_arith)
            requires
                x < p,
                0 <= d <= 9,
        ;
    }
}

/// A value below `10^k` has at most `k` decimal digits (`k >= 1`).
proof fn lemma_digit_count_bound(n: nat, k: nat)
    requires
        k >= 1,
        n < pow10(k),
    ensures
        radix_digits(n, 10).len() <= k,
    decreases k,
{
    if n >= 10 {
        vstd::arithmetic::div_mod::lemma_div_decreases(n as int, 10);
        vstd::arithmetic::power::lemma_pow_adds(10, (k - 1) as nat, 1);
        vstd::arithmetic::power::lemma_pow1(10);
        if k == 1 {
            assert(pow10(1) == 10);
        } else {
            vstd::arithmetic::div_mod::lemma_div_is_ordered(n as int, pow10(k) - 1, 10);
            vstd::arithmetic::div_mod::lemma_multiply_divide_lt(n as int, 10, pow10((k - 1) as nat));
            lemma_digit_count_bound(n / 10, (k - 1) as nat);
        }
    }
}

/// Printing the value of decimal digits without a leading zero gives the
/// digits back.
proof fn lemma_digits_roundtrip(t: Seq<u8>)
    requires
        all_decimal(t),
        t.len() > 0,
        t.len() > 1 ==> t[0] != 48,
    ensures
        radix_digits(digits_value(t, 10), 10) == t,
    decreases t.len(),
{
    reveal_with_fuel(digits_value, 2);
    let c = t.last();
    assert(is_decimal(t[t.len() - 1]));
    assert(digit_char(digit_value(c)) == c);
    if t.len() == 1 {
        assert(t.drop_last().len() == 0);
        assert(seq![c] =~= t);
    } else {
        let u = t.drop_last();
        assert(u[0] == t[0]);
        assert forall|i: int| 0 <= i < u.len() implies is_decimal(#[trigger] u[i]) by {
            assert(u[i] == t[i]);
        }
        lemma_digits_roundtrip(u);
        lemma_leading_digit_positive(u);
        let n = digits_value(t, 10);
        let m = digits_value(u, 10);
        assert(n == m * 10 + digit_value(c));
        vstd::arithmetic::div_mod::lemma_fundamental_div_mod_converse(
            n as int,
            10,
            m as int,
            digit_value(c) as int,
        );
        assert(t =~= u.push(c));
    }
}

/// Decimal digits that start with a non-zero digit have a positive value.
proof fn lemma_leading_digit_positive(t: Seq<u8>)
    requires
        all_decimal(t),
        t.len() > 0,
        t[0] != 48,
    ensures
        digits_value(t, 10) > 0,
{
    reveal_with_fuel(digits_value, 2);
    let head = t.take(1);
    let rest = t.skip(1);
    assert(head + rest =~= t);
    lemma_digits_value_append(head, rest, 10);
    assert(head.drop_last().len() == 0);
    assert(head.last() == t[0]);
    assert(is_decimal(t[0]));
    assert(digits_value(head, 10) == digit_value(t[0]));
    vstd::arithmetic::power::lemma_pow_positive(10, rest.len());
    vstd::arithmetic::mul::lemma_mul_increases(digits_value(head, 10) as int, pow(10, rest.len()));
}

/// Decimal digits with a positive value, padded back to their length,
/// read again as themselves.
proof fn lemma_padded_roundtrip(t: Seq<u8>)
    requires
        all_decimal(t),
        digits_value(t, 10) > 0,
    ensures
        zero_padded(radix_digits(digits_value(t, 10), 10), t.len()) == t,
    decreases t.len(),
{
    reveal_with_fuel(digits_value, 2);
    if t[0] != 48 || t.len() == 1 {
        if t[0] == 48 {
            assert(t.drop_last().len() == 0);
            assert(t.last() == t[0]);
            assert(digits_value(t, 10) == 0);
        }
        lemma_digits_roundtrip(t);
    } else {
        let head = t.take(1);
        let rest = t.skip(1);
        assert(head + rest =~= t);
        lemma_digits_value_append(head, rest, 10);
        assert(head.drop_last().len() == 0);
        assert(head.last() == t[0]);
        assert(digits_value(head, 10) == 0);
        assert forall|i: int| 0 <= i < rest.len() implies is_decimal(#[trigger] rest[i]) by {
            assert(rest[i] == t[i + 1]);
        }
        vstd::arithmetic::mul::lemma_mul_basics(pow(10, rest.len()));
        assert(digits_value(t, 10) == digits_value(rest, 10));
        lemma_padded_roundtrip(rest);
        let r = radix_digits(digits_value(t, 10), 10);
        lemma_digits_value_bound(rest);
        lemma_digit_count_bound(digits_value(rest, 10), rest.len());
        assert(r.len() <= rest.len());
        assert(rest.len() + 1 == t.len());
        let pad = Seq::new((t.len() - r.len()) as nat, |i: int| 48u8);
        let pad_rest = Seq::new((rest.len() - r.len()) as nat, |i: int| 48u8);
        assert(zero_padded(r, t.len()) == pad + r);
        assert(zero_padded(r, rest.len()) == (if r.len() >= rest.len() {
            r
        } else {
            pad_rest + r
        }));
        assert(pad =~= seq![48u8] + pad_rest);
        assert(zero_padded(r, rest.len()) =~= pad_rest + r);
        assert(zero_padded(r, t.len()) =~= seq![48u8] + zero_padded(r, rest.len()));
        assert(seq![48u8] + rest =~= t);
    }
}

/// Printing a decimal integer without leading zeros in base 10 gives it
/// back.
pub proof fn law_print_parse_integer(s: Seq<u8>)
    requires
        all_decimal(s),
        s.len() > 0,
        s.len() > 1 ==> s[0] != 48,
    ensures
        dec_to_string(parsed(s, 10), 10) == s,
{
    lemma_no_dot_in_decimal(s);
    assert(parsed_digits(s) == s);
    lemma_digits_roundtrip(s);
    if digits_value(s, 10) == 0 {
        assert(parsed(s, 10) == (Dec { value: 0, scale: 0 }));
    }
}

proof fn lemma_no_dot_in_decimal(s: Seq<u8>)
    requires
        all_decimal(s),
    ensures
        last_dot(s) == None::<int>,
    decreases s.len(),
{
    if s.len() > 0 {
        assert(is_decimal(s[s.len() - 1]));
        assert forall|i: int| 0 <= i < s.drop_last().len() implies is_decimal(
            #[trigger] s.drop_last()[i],
        ) by {
            assert(s.drop_last()[i] == s[i]);
        }
        lemma_no_dot_in_decimal(s.drop_last());
    }
}


/// Printing in base 10 a non-zero decimal number written with a point,
/// without leading zeros before it, gives it back (trailing zeros after
/// the point are kept).
pub proof fn law_print_parse_fraction(int_part: Seq<u8>, frac: Seq<u8>)
    requires
        all_decimal(int_part),
        all_decimal(frac),
        0 < frac.len() <= u32::MAX,
        int_part.len() > 0 ==> int_part[0] != 48,
        digits_value(int_part + frac, 10) > 0,
    ensures
        dec_to_string(parsed(int_part + seq![46u8] + frac, 10), 10) == int_part + seq![46u8]
            + frac,
{
    let s = int_part + seq![46u8] + frac;
    let d = int_part.len() as int;
    let t = int_part + frac;
    assert forall|j: int| d < j < s.len() implies s[j] != 46 by {
        assert(s[j] == frac[j - d - 1]);
        assert(is_decimal(frac[j - d - 1]));
    }
    lemma_last_dot_at(s, d);
    assert(s.remove(d) =~= t);
    assert(parsed_scale(s) == frac.len());
    let p = frac.len();
    let mant = digits_value(t, 10);
    assert(parsed(s, 10) == (Dec { value: mant as int, scale: p }));
    assert forall|i: int| 0 <= i < t.len() implies is_decimal(#[trigger] t[i]) by {
        if i < d {
            assert(t[i] == int_part[i]);
        } else {
            assert(t[i] == frac[i - d]);
        }
    }
    if int_part.len() == 0 {
        assert(t =~= frac);
        lemma_digits_value_bound(frac);
        lemma_digit_count_bound(mant, p);
        lemma_padded_roundtrip(frac);
        let r = radix_digits(mant, 10);
        if r.len() < p {
            assert(frac_string(mant, 10, p) == frac);
            assert(s =~= seq![46u8] + frac);
            assert(dec_to_string(parsed(s, 10), 10) =~= Seq::<u8>::empty() + seq![46u8] + frac);
        } else {
            assert(r == frac);
            assert(r.take(0) =~= Seq::<u8>::empty());
            assert(strip_zero(r.take(0)) =~= Seq::<u8>::empty());
            assert(r.skip(0) =~= frac);
            assert(dec_to_string(parsed(s, 10), 10) =~= Seq::<u8>::empty() + strip_zero(r.take(0))
                + seq![46u8] + r.skip(0));
        }
    } else {
        assert(t[0] == int_part[0]);
        lemma_digits_roundtrip(t);
        let r = radix_digits(mant, 10);
        assert(r == t);
        assert(r.take(d) =~= int_part);
        assert(r.skip(d) =~= frac);
        assert(int_part != seq![48u8]) by {
            if int_part =~= seq![48u8] {
                assert(int_part[0] == 48);
            }
        }
        assert(dec_to_string(parsed(s, 10), 10) =~= Seq::<u8>::empty() + strip_zero(r.take(d))
            + seq![46u8] + r.skip(d));
    }
}


proof fn lemma_zero_digits(t: Seq<u8>, radix: nat)
    requires
        forall|i: int| 0 <= i < t.len() ==> digit_value(#[trigger] t[i]) == 0,
    ensures
        digits_value(t, radix) == 0,
    decreases t.len(),
{
    if t.len() > 0 {
        let u = t.drop_last();
        assert forall|i: int| 0 <= i < u.len() implies digit_value(#[trigger] u[i]) == 0 by {
            assert(u[i] == t[i]);
        }
        lemma_zero_digits(u, radix);
        assert(digit_value(t[t.len() - 1]) == 0);
        vstd::arithmetic::mul::lemma_mul_basics(radix as int);
    }
}

/// Text made only of zeros and dots is zero (with precision 0), which
/// prints as `0`.
pub proof fn law_zeros_parse_to_zero(s: Seq<u8>, radix: nat)
    requires
        forall|i: int| 0 <= i < s.len() ==> #[trigger] s[i] == 48 || s[i] == 46,
        radix > 0,
    ensures
        parsed(s, radix) == (Dec { value: 0, scale: 0 }),
        dec_to_string(parsed(s, radix), 10) == seq![48u8],
{
    let t = parsed_digits(s);
    crate::fixed::lemma_last_dot_bound(s);
    assert forall|i: int| 0 <= i < t.len() implies digit_value(#[trigger] t[i]) == 0 by {
        match last_dot(s) {
            Some(d) => {
                if i < d {
                    assert(t[i] == s[i]);
                } else {
                    assert(t[i] == s[i + 1]);
                }
            },
            None => {
                assert(t[i] == s[i]);
            },
        }
    }
    lemma_zero_digits(t, radix);
    let p = parsed_scale(s);
    vstd::arithmetic::power::lemma_pow_positive(radix as int, p);
    vstd::arithmetic::mul::lemma_mul_basics(pow10(p));
    assert(radix_digits(0, 10) == seq![digit_char(0)]);
}


/// Exactly one of `a < b`, `a == b`, `b < a` holds, so `!>` means `<=`,
/// `!<` means `>=` and `!=` means "not equal".
pub proof fn law_trichotomy(a: Dec, b: Dec)
    ensures
        dec_lt(a, b) || dec_eq(a, b) || dec_lt(b, a),
        !(dec_lt(a, b) && dec_eq(a, b)),
        !(dec_lt(a, b) && dec_lt(b, a)),
        !(dec_eq(a, b) && dec_lt(b, a)),
{
}

/// Two numbers are equal exactly when their difference is zero.
pub proof fn law_eq_iff_difference_zero(a: Dec, b: Dec)
    ensures
        dec_eq(a, b) <==> dec_sub(a, b).value == 0,
{
}

/// Adding zero gives an equal number.
pub proof fn law_add_zero(a: Dec)
    ensures
        dec_eq(dec_add(a, Dec { value: 0, scale: 0 }), a),
{
    let z = Dec { value: 0, scale: 0 };
    let s = common_scale(a, z);
    lemma_rescaled_normalized(rescaled(a, s) + rescaled(z, s), s, s);
    vstd::arithmetic::power::lemma_pow0(10);
    vstd::arithmetic::mul::lemma_mul_basics(pow10(s));
    vstd::arithmetic::mul::lemma_mul_basics(rescaled(a, s));
    lemma_eq_at(dec_add(a, z), a, s);
}


/// Every non-negative integer has an integer square root.
proof fn lemma_isqrt_exists(x: int)
    requires
        x >= 0,
    ensures
        is_isqrt(isqrt(x), x),
    decreases x,
{
    if x == 0 {
        assert(is_isqrt(0, 0));
    } else {
        lemma_isqrt_exists(x - 1);
        let r = isqrt(x - 1);
        if (r + 1) * (r + 1) <= x {
            assert(x < (r + 2) * (r + 2)) by (nonlinear_arith)
                requires
                    x - 1 < (r + 1) * (r + 1),
                    r >= 0,
            ;
            assert(is_isqrt(r + 1, x));
        } else {
            assert(is_isqrt(r, x));
        }
    }
}

/// The square root of `y * k^2` is `k` times the square root of `y`,
/// rounded down.
proof fn lemma_isqrt_scaled(y: int, k: int, big: int)
    requires
        y >= 0,
        k > 0,
        is_isqrt(big, y * k * k),
    ensures
        big / k == isqrt(y),
{
    lemma_isqrt_exists(y);
    let q = isqrt(y);
    let x = y * k * k;
    assert((q * k) * (q * k) <= x) by (nonlinear_arith)
        requires
            q * q <= y,
            x == y * k * k,
            k > 0,
            q >= 0,
    ;
    assert(x < ((q + 1) * k) * ((q + 1) * k)) by (nonlinear_arith)
        requires
            y < (q + 1) * (q + 1),
            x == y * k * k,
            k > 0,
    ;
    assert(q * k <= big) by {
        if big < q * k {
            assert((big + 1) * (big + 1) <= (q * k) * (q * k)) by (nonlinear_arith)
                requires
                    0 <= big,
                    big + 1 <= q * k,
            ;
        }
    }
    assert(big < (q + 1) * k) by {
        if big >= (q + 1) * k {
            assert(((q + 1) * k) * ((q + 1) * k) <= big * big) by (nonlinear_arith)
                requires
                    0 <= (q + 1) * k,
                    (q + 1) * k <= big,
            ;
        }
    }
    vstd::arithmetic::div_mod::lemma_fundamental_div_mod(big, k);
    vstd::arithmetic::div_mod::lemma_mod_bound(big, k);
    let d = big / k;
    assert(d == q) by (nonlinear_arith)
        requires
            big == k * d + big % k,
            0 <= big % k < k,
            q * k <= big,
            big < (q + 1) * k,
            k > 0,
    ;
}

/// `v` gives the square root rounded down at `s = max(scale(a), scale)`
/// digits: with `q` the digits of the result, `q^2 <= a * 10^(2s) <
/// (q + 1)^2` (over `10^(2s)`).
pub proof fn law_sqrt_rounds_down(a: Dec, scale: nat)
    requires
        a.value >= 0,
    ensures
        ({
            let s = max_nat(a.scale, scale);
            let q = dec_sqrt(a, scale).value;
            let y = a.value * pow10((2 * s - a.scale) as nat);
            &&& a.value > 0 ==> dec_sqrt(a, scale).scale == s || q == 0
            &&& is_isqrt(q, y)
        }),
{
    let s = max_nat(a.scale, scale);
    let p = a.scale;
    let e = (2 * s - p) as nat;
    let y = a.value * pow10(e);
    lemma_pow10_positive(e);
    lemma_pow10_positive(p);
    vstd::arithmetic::mul::lemma_mul_nonnegative(a.value, pow10(e));
    lemma_isqrt_exists(y);
    if a.value == 0 {
        vstd::arithmetic::mul::lemma_mul_basics(pow10(e));
        assert(is_isqrt(0, 0));
        crate::fixed::lemma_isqrt_unique(0, 0, 0);
    } else {
        let k = pow10(p);
        let x = a.value * pow10(p) * pow10(2 * s);
        vstd::arithmetic::power::lemma_pow_adds(10, e, p);
        vstd::arithmetic::power::lemma_pow_adds(10, e + p, p);
        assert(e + p + p == p + 2 * s);
        vstd::arithmetic::power::lemma_pow_adds(10, p, 2 * s);
        assert(x == y * k * k) by {
            vstd::arithmetic::mul::lemma_mul_is_associative(a.value, pow10(p), pow10(2 * s));
            vstd::arithmetic::mul::lemma_mul_is_associative(a.value, pow10(e), pow10(p));
            vstd::arithmetic::mul::lemma_mul_is_associative(y, pow10(p), pow10(p));
            vstd::arithmetic::mul::lemma_mul_is_associative(a.value, pow10(e + p), pow10(p));
        }
        assert(x >= 0) by {
            vstd::arithmetic::mul::lemma_mul_nonnegative(y, k);
            vstd::arithmetic::mul::lemma_mul_nonnegative(y * k, k);
        }
        lemma_isqrt_exists(x);
        let big = isqrt(x);
        lemma_isqrt_scaled(y, k, big);
        crate::fixed::lemma_tdiv_nonneg(big, k);
    }
}


// ---------------------------------------------------------------------
// Signs, products, powers and remainders
// ---------------------------------------------------------------------

/// Division rounding toward zero is odd in the dividend.
proof fn lemma_tdiv_neg(x: int, y: int)
    requires
        y != 0,
    ensures
        tdiv(-x, y) == -tdiv(x, y),
{
    if x == 0 {
        vstd::arithmetic::div_mod::lemma_div_basics(abs(y));
    }
}

proof fn lemma_normalized_neg(x: int, s: nat)
    ensures
        normalized(-x, s) == dec_neg(normalized(x, s)),
{
}

proof fn lemma_truncated_neg(d: Dec, t: nat)
    ensures
        truncated(dec_neg(d), t) == dec_neg(truncated(d, t)),
{
    if d.scale > t {
        lemma_pow10_positive((d.scale - t) as nat);
        lemma_tdiv_neg(d.value, pow10((d.scale - t) as nat));
    }
}

/// `(-v)^n` is `v^n` for even `n` and `-(v^n)` for odd `n`.
proof fn lemma_pow_neg(v: int, n: nat)
    ensures
        pow(-v, n) == if n % 2 == 0 {
            pow(v, n)
        } else {
            -pow(v, n)
        },
    decreases n,
{
    reveal(pow);
    if n > 0 {
        lemma_pow_neg(v, (n - 1) as nat);
        vstd::arithmetic::mul::lemma_mul_unary_negation(v, pow(v, (n - 1) as nat));
        vstd::arithmetic::mul::lemma_mul_unary_negation(-v, pow(v, (n - 1) as nat));
        assert((-v) * (-pow(v, (n - 1) as nat)) == v * pow(v, (n - 1) as nat)) by (nonlinear_arith);
    }
}

/// Multiplying integers gives their integer product, whatever the
/// precision.
pub proof fn law_mul_integers(a: Dec, b: Dec, scale: nat)
    requires
        a.scale == 0,
        b.scale == 0,
    ensures
        dec_mul(a, b, scale) == normalized(a.value * b.value, 0),
{
}

/// With a precision of at least the sum of both scales, a product keeps
/// all its digits: it is exactly `a * b`.
pub proof fn law_mul_exact(a: Dec, b: Dec, scale: nat)
    requires
        scale >= a.scale + b.scale,
    ensures
        rescaled(dec_mul(a, b, scale), a.scale + b.scale) == a.value * b.value,
{
    lemma_rescaled_normalized(a.value * b.value, a.scale + b.scale, a.scale + b.scale);
    vstd::arithmetic::power::lemma_pow0(10);
    vstd::arithmetic::mul::lemma_mul_basics(a.value * b.value);
}

/// Multiplication is odd in each factor: negating a factor negates the
/// product.
pub proof fn law_mul_odd(a: Dec, b: Dec, scale: nat)
    ensures
        dec_mul(dec_neg(a), b, scale) == dec_neg(dec_mul(a, b, scale)),
        dec_mul(a, dec_neg(b), scale) == dec_neg(dec_mul(a, b, scale)),
{
    vstd::arithmetic::mul::lemma_mul_unary_negation(a.value, b.value);
    vstd::arithmetic::mul::lemma_mul_is_commutative(a.value, -b.value);
    vstd::arithmetic::mul::lemma_mul_unary_negation(b.value, a.value);
    vstd::arithmetic::mul::lemma_mul_is_commutative(a.value, b.value);
    let s = a.scale + b.scale;
    lemma_normalized_neg(a.value * b.value, s);
    lemma_truncated_neg(normalized(a.value * b.value, s), mul_scale(a, b, scale));
    assert(mul_scale(dec_neg(a), b, scale) == mul_scale(a, b, scale));
    assert(mul_scale(a, dec_neg(b), scale) == mul_scale(a, b, scale));
}

/// An integer raised to a non-negative integer exponent is its integer
/// power, whatever the precision.
pub proof fn law_pow_integer(a: Dec, e: Dec, scale: nat)
    requires
        a.scale == 0,
        0 <= integer_part(e) <= u32::MAX,
    ensures
        dec_pow(a, e, scale) == Some(normalized(pow(a.value, integer_part(e) as nat), 0)),
{
    let n = integer_part(e) as nat;
    vstd::arithmetic::power::lemma_pow0(a.value);
    vstd::arithmetic::power::lemma_pow1(a.value);
    vstd::arithmetic::mul::lemma_mul_basics(n as int);
}

/// Negating the base keeps an even power and negates an odd one.
pub proof fn law_pow_parity(a: Dec, e: Dec, scale: nat)
    requires
        0 <= integer_part(e) <= u32::MAX,
    ensures
        match (dec_pow(dec_neg(a), e, scale), dec_pow(a, e, scale)) {
            (Some(x), Some(y)) => if integer_part(e) % 2 == 0 {
                x == y
            } else {
                x == dec_neg(y)
            },
            _ => false,
        },
{
    let n = integer_part(e) as nat;
    lemma_pow_neg(a.value, n);
    if n >= 2 {
        let d = normalized(pow(a.value, n), a.scale * n);
        lemma_normalized_neg(pow(a.value, n), a.scale * n);
        lemma_truncated_neg(d, max_nat(scale, a.scale));
    }
}

/// The remainder is `a - q * b` as a number, with `q = a / b` at the
/// precision: at the common scale `t = scale(a) + scale + scale(b)` its
/// numerator is that of `a` minus the full product of `q` and `b`.
pub proof fn law_rem_value(a: Dec, b: Dec, scale: nat)
    requires
        b.value != 0,
    ensures
        ({
            let q = dec_div(a, b, scale);
            let t = a.scale + scale + b.scale;
            &&& q.scale <= scale
            &&& rescaled(dec_rem(a, b, scale), t) == rescaled(a, t) - q.value * b.value * pow10(
                (t - q.scale - b.scale) as nat,
            )
        }),
{
    let q = dec_div(a, b, scale);
    let t = a.scale + scale + b.scale;
    let m0 = normalized(q.value * b.value, q.scale + b.scale);
    let m = truncated(m0, max_nat(scale + b.scale, a.scale));
    assert(m == m0);
    let r = dec_rem(a, b, scale);
    assert(r == dec_sub(a, m));
    let s2 = common_scale(a, m);
    let x = rescaled(a, s2) - rescaled(m, s2);
    lemma_rescaled_normalized(x, s2, t);
    lemma_rescaled_up(a, s2, t);
    lemma_rescaled_up(m, s2, t);
    vstd::arithmetic::mul::lemma_mul_is_distributive_sub_other_way(
        pow10((t - s2) as nat),
        rescaled(a, s2),
        rescaled(m, s2),
    );
    lemma_rescaled_normalized(q.value * b.value, q.scale + b.scale, t);
}

/// Truncated remainders are smaller than the divisor and have the sign of
/// the dividend.
proof fn lemma_trem_bounds(x: int, y: int)
    requires
        y != 0,
    ensures
        abs(trem(x, y)) < abs(y),
        trem(x, y) == 0 || ((trem(x, y) < 0) == (x < 0)),
{
    let ax = abs(x);
    let ay = abs(y);
    vstd::arithmetic::div_mod::lemma_fundamental_div_mod(ax, ay);
    vstd::arithmetic::div_mod::lemma_mod_bound(ax, ay);
    let q = ax / ay;
    let r = ax % ay;
    assert(ax == ay * q + r);
    if x >= 0 {
        assert(trem(x, y) == r) by (nonlinear_arith)
            requires
                x >= 0,
                ax == x,
                ay == abs(y),
                ay == (if y < 0 { -y } else { y }),
                ax == ay * q + r,
                trem(x, y) == x - y * tdiv(x, y),
                tdiv(x, y) == (if (x < 0) != (y < 0) { -q } else { q }),
        ;
    } else {
        assert(trem(x, y) == -r) by (nonlinear_arith)
            requires
                x < 0,
                ax == -x,
                ay == (if y < 0 { -y } else { y }),
                ax == ay * q + r,
                trem(x, y) == x - y * tdiv(x, y),
                tdiv(x, y) == (if (x < 0) != (y < 0) { -q } else { q }),
        ;
    }
}

/// At precision 0 the remainder is the truncated remainder of both numbers
/// at their common scale: smaller in size than `b`, with the sign of `a`.
pub proof fn law_rem_at_precision_zero(a: Dec, b: Dec)
    requires
        b.value != 0,
    ensures
        ({
            let s = common_scale(a, b);
            let r = rescaled(dec_rem(a, b, 0), s);
            &&& r == trem(rescaled(a, s), rescaled(b, s))
            &&& abs(r) < abs(rescaled(b, s))
            &&& (r == 0 || ((r < 0) == (a.value < 0)))
        }),
{
    let s = common_scale(a, b);
    let t = a.scale + b.scale;
    let q = dec_div(a, b, 0);
    let big_a = rescaled(a, s);
    let big_b = rescaled(b, s);
    vstd::arithmetic::power::lemma_pow0(10);
    vstd::arithmetic::mul::lemma_mul_basics(big_a);
    lemma_pow10_positive((s - b.scale) as nat);
    vstd::arithmetic::mul::lemma_mul_nonzero(b.value, pow10((s - b.scale) as nat));
    assert(q.scale == 0);
    assert(q.value == tdiv(big_a, big_b));
    law_rem_value(a, b, 0);
    let r = dec_rem(a, b, 0);
    let k = pow10((t - s) as nat);
    lemma_pow10_positive((t - s) as nat);
    lemma_rescaled_up(a, s, t);
    lemma_rescaled_up(b, s, t);
    assert(r.scale <= s);
    lemma_rescaled_up(r, s, t);
    assert(rescaled(b, t) == b.value * pow10((t - b.scale) as nat));
    assert((t - q.scale - b.scale) as nat == (t - b.scale) as nat);
    vstd::arithmetic::mul::lemma_mul_is_associative(q.value, b.value, pow10((t - b.scale) as nat));
    let rr = rescaled(r, s);
    let m = trem(big_a, big_b);
    assert(rr * k == big_a * k - q.value * (big_b * k));
    assert(rr * k == m * k) by (nonlinear_arith)
        requires
            rr * k == big_a * k - q.value * (big_b * k),
            m == big_a - big_b * q.value,
    ;
    assert(rr == m) by (nonlinear_arith)
        requires
            rr * k == m * k,
            k > 0,
    ;
    lemma_trem_bounds(big_a, big_b);
    lemma_pow10_positive((s - a.scale) as nat);
    assert((big_a < 0) == (a.value < 0)) by (nonlinear_arith)
        requires
            big_a == a.value * pow10((s - a.scale) as nat),
            pow10((s - a.scale) as nat) > 0,
    ;
}


// ---------------------------------------------------------------------
// Comparisons
// ---------------------------------------------------------------------

/// `<` on numbers is `<` on their cross-multiplied numerators.
pub proof fn law_lt_cross(a: Dec, b: Dec)
    ensures
        dec_lt(a, b) <==> a.value * pow10(b.scale) < b.value * pow10(a.scale),
        dec_eq(a, b) <==> a.value * pow10(b.scale) == b.value * pow10(a.scale),
{
    let s = common_scale(a, b);
    let t = a.scale + b.scale;
    lemma_rescaled_up(a, s, t);
    lemma_rescaled_up(b, s, t);
    let k = pow10((t - s) as nat);
    lemma_pow10_positive((t - s) as nat);
    let x = rescaled(a, s);
    let y = rescaled(b, s);
    assert(x * k < y * k <==> x < y) by (nonlinear_arith)
        requires
            k > 0,
    ;
    assert(x * k == y * k <==> x == y) by (nonlinear_arith)
        requires
            k > 0,
    ;
    assert((t - a.scale) as nat == b.scale);
    assert((t - b.scale) as nat == a.scale);
}

/// What the comparisons `>r`, `<r`, `=r` and their negations `!>r`, `!<r`,
/// `!=r` do with the second value from the top (`l`) and the top (`r`):
/// both are popped, and the register runs exactly when `l < r`, `r < l`,
/// `l == r` respectively holds, or for a negation, does not hold.
pub proof fn law_compare_runs(p: Program, st: State, op: u8, negated: bool)
    requires
        op == GREATER || op == LESS || op == EQUAL,
    ensures
        match pop_two(st).1 {
            Ok((l, r)) => {
                let plain = if op == GREATER {
                    dec_lt(l, r)
                } else if op == LESS {
                    dec_lt(r, l)
                } else {
                    dec_eq(l, r)
                };
                let runs = if negated {
                    !plain
                } else {
                    plain
                };
                compare_step(p, st, op, negated) == if runs {
                    run_item(p, pop_two(st).0, st.register[p.cmds[p.pos as int] as int])
                } else {
                    go(advanced(p, 1), pop_two(st).0, Outcome::Continue)
                }
            },
            Err(_) => true,
        },
{
}

/// A negated comparison does the opposite of the plain one: exactly one of
/// them runs the register.
pub proof fn law_compare_negation(p: Program, st: State, op: u8)
    requires
        op == GREATER || op == LESS || op == EQUAL,
        pop_two(st).1 is Ok,
    ensures
        ({
            let skip = go(advanced(p, 1), pop_two(st).0, Outcome::Continue);
            let run = run_item(p, pop_two(st).0, st.register[p.cmds[p.pos as int] as int]);
            &&& compare_step(p, st, op, false) == skip <==> compare_step(p, st, op, true) == run
                || run == skip
            &&& (compare_step(p, st, op, false) == run || compare_step(p, st, op, false) == skip)
            &&& (compare_step(p, st, op, true) == run || compare_step(p, st, op, true) == skip)
            &&& compare_step(p, st, op, false) == run ==> compare_step(p, st, op, true) == skip
            &&& compare_step(p, st, op, false) == skip ==> compare_step(p, st, op, true) == run
        }),
{
}

// ---------------------------------------------------------------------
// Printing signs
// ---------------------------------------------------------------------

/// The text of a negative number is `-` followed by the text of its
/// negation, in every radix and at every scale.
pub proof fn law_print_negative(a: Dec, radix: nat)
    requires
        a.value < 0,
    ensures
        dec_to_string(a, radix) == seq![45u8] + dec_to_string(dec_neg(a), radix),
{
    let n = dec_neg(a);
    assert(abs(n.value) == abs(a.value));
    let e = Seq::<u8>::empty();
    let v = abs(a.value);
    let sign = seq![45u8];
    if a.scale == 0 {
        assert(dec_to_string(n, radix) =~= e + radix_digits(v as nat, radix));
        assert(dec_to_string(a, radix) =~= sign + dec_to_string(n, radix));
    } else if radix_digits(v as nat, 10).len() < a.scale {
        assert(dec_to_string(n, radix) =~= e + seq![46u8] + frac_string(v as nat, radix, a.scale));
        assert(dec_to_string(a, radix) =~= sign + dec_to_string(n, radix));
    } else if radix == 10 {
        let s = radix_digits(v as nat, 10);
        let k = s.len() - a.scale;
        assert(dec_to_string(n, radix) =~= e + strip_zero(s.take(k)) + seq![46u8] + s.skip(k));
        assert(dec_to_string(a, radix) =~= sign + dec_to_string(n, radix));
    } else {
        let base = pow10(a.scale);
        let i = strip_zero(radix_digits((v / base) as nat, radix));
        let f = frac_string((v % base) as nat, radix, a.scale);
        assert(dec_to_string(n, radix) =~= e + i + seq![46u8] + f);
        assert(dec_to_string(a, radix) =~= sign + dec_to_string(n, radix));
    }
}

/// The first digit of a number in base `radix` is a digit character.
proof fn lemma_first_digit(n: nat, radix: nat)
    requires
        2 <= radix,
    ensures
        radix_digits(n, radix).len() > 0,
        exists|d: nat| d < radix && radix_digits(n, radix)[0] == #[trigger] digit_char(d),
    decreases n,
{
    if n < radix {
        assert(radix_digits(n, radix)[0] == digit_char(n));
    } else {
        vstd::arithmetic::div_mod::lemma_div_decreases(n as int, radix as int);
        lemma_first_digit(n / radix, radix);
        assert(radix_digits(n, radix)[0] == radix_digits(n / radix, radix)[0]);
    }
}

/// The text of a number that is not negative does not start with `-`.
pub proof fn law_print_nonnegative(a: Dec, radix: nat)
    requires
        a.value >= 0,
        2 <= radix <= 36,
    ensures
        dec_to_string(a, radix).len() > 0,
        dec_to_string(a, radix)[0] != 45,
{
    let vi = abs(a.value);
    let v = vi as nat;
    let e = Seq::<u8>::empty();
    lemma_first_digit(v, radix);
    lemma_first_digit(v, 10);
    if a.scale == 0 {
        assert(dec_to_string(a, radix) =~= radix_digits(v, radix));
        let d = choose|d: nat| d < radix && radix_digits(v, radix)[0] == #[trigger] digit_char(d);
        assert(d < 36);
    } else if radix_digits(v, 10).len() < a.scale {
        assert(dec_to_string(a, radix) =~= seq![46u8] + frac_string(v, radix, a.scale));
    } else if radix == 10 {
        let s = radix_digits(v, 10);
        let k = s.len() - a.scale;
        let i = strip_zero(s.take(k));
        assert(dec_to_string(a, radix) =~= i + seq![46u8] + s.skip(k));
        if i.len() > 0 {
            assert(i[0] == s[0]);
            let d = choose|d: nat| d < 10 && radix_digits(v, 10)[0] == #[trigger] digit_char(d);
            assert(d < 10);
        }
    } else {
        let base = pow10(a.scale);
        lemma_pow10_positive(a.scale);
        vstd::arithmetic::div_mod::lemma_div_pos_is_pos(vi, base);
        let w = (vi / base) as nat;
        lemma_first_digit(w, radix);
        let i = strip_zero(radix_digits(w, radix));
        let f = frac_string((vi % base) as nat, radix, a.scale);
        assert(dec_to_string(a, radix) =~= i + seq![46u8] + f);
        if i.len() > 0 {
            let d = choose|d: nat| d < radix && radix_digits(w, radix)[0] == #[trigger] digit_char(d);
            assert(d < 36);
        }
    }
}


// ---------------------------------------------------------------------
// Sums, differences and quotients as numbers
// ---------------------------------------------------------------------

/// A sum is exact: at any scale `t` that both operands fit, its numerator
/// is the sum of theirs.
pub proof fn law_add_exact(a: Dec, b: Dec, t: nat)
    requires
        a.scale <= t,
        b.scale <= t,
    ensures
        rescaled(dec_add(a, b), t) == rescaled(a, t) + rescaled(b, t),
        dec_add(a, b).scale <= t,
{
    let s = common_scale(a, b);
    lemma_rescaled_normalized(rescaled(a, s) + rescaled(b, s), s, t);
    lemma_rescaled_up(a, s, t);
    lemma_rescaled_up(b, s, t);
    vstd::arithmetic::mul::lemma_mul_is_distributive_add_other_way(
        pow10((t - s) as nat),
        rescaled(a, s),
        rescaled(b, s),
    );
}

/// A difference is exact: at any scale `t` that both operands fit, its
/// numerator is the difference of theirs.
pub proof fn law_sub_exact(a: Dec, b: Dec, t: nat)
    requires
        a.scale <= t,
        b.scale <= t,
    ensures
        rescaled(dec_sub(a, b), t) == rescaled(a, t) - rescaled(b, t),
        dec_sub(a, b).scale <= t,
{
    let s = common_scale(a, b);
    lemma_rescaled_normalized(rescaled(a, s) - rescaled(b, s), s, t);
    lemma_rescaled_up(a, s, t);
    lemma_rescaled_up(b, s, t);
    vstd::arithmetic::mul::lemma_mul_is_distributive_sub_other_way(
        pow10((t - s) as nat),
        rescaled(a, s),
        rescaled(b, s),
    );
}

/// Truncated division ignores a common positive factor.
proof fn lemma_tdiv_cancel(x: int, y: int, c: int)
    requires
        y != 0,
        c > 0,
    ensures
        tdiv(x * c, y * c) == tdiv(x, y),
{
    let ax = abs(x);
    let ay = abs(y);
    assert(abs(x * c) == ax * c) by (nonlinear_arith)
        requires
            c > 0,
            ax == (if x < 0 { -x } else { x }),
    ;
    assert(abs(y * c) == ay * c) by (nonlinear_arith)
        requires
            c > 0,
            ay == (if y < 0 { -y } else { y }),
    ;
    assert((x * c < 0) == (x < 0)) by (nonlinear_arith)
        requires
            c > 0,
    ;
    assert((y * c < 0) == (y < 0)) by (nonlinear_arith)
        requires
            c > 0,
    ;
    vstd::arithmetic::mul::lemma_mul_is_commutative(ax, c);
    vstd::arithmetic::mul::lemma_mul_is_commutative(ay, c);
    vstd::arithmetic::div_mod::lemma_div_denominator(c * ax, c, ay);
    vstd::arithmetic::div_mod::lemma_div_multiples_vanish(ax, c);
    vstd::arithmetic::mul::lemma_mul_is_commutative(c, ay);
}

/// A quotient is `a / b` at `scale` digits rounded toward zero: its
/// numerator is the truncated quotient of the cross-multiplied numerators
/// `a * 10^(scale + scale(b))` and `b * 10^scale(a)`, and its scale is
/// `scale` (or 0 for a zero quotient).
pub proof fn law_div_value(a: Dec, b: Dec, scale: nat)
    requires
        b.value != 0,
    ensures
        dec_div(a, b, scale).value == tdiv(
            a.value * pow10(scale + b.scale),
            b.value * pow10(a.scale),
        ),
        dec_div(a, b, scale).scale == scale || dec_div(a, b, scale).value == 0,
{
    let s = common_scale(a, b);
    let c = pow10((a.scale + b.scale - s) as nat);
    lemma_pow10_positive((a.scale + b.scale - s) as nat);
    let x = rescaled(a, s) * pow10(scale);
    let y = rescaled(b, s);
    lemma_pow10_positive((s - b.scale) as nat);
    vstd::arithmetic::mul::lemma_mul_nonzero(b.value, pow10((s - b.scale) as nat));
    lemma_tdiv_cancel(x, y, c);
    // x * c == a * 10^(scale + scale(b))
    let e1 = (s - a.scale) as nat;
    let e2 = (a.scale + b.scale - s) as nat;
    vstd::arithmetic::power::lemma_pow_adds(10, e1, e2);
    assert(e1 + e2 == b.scale);
    vstd::arithmetic::power::lemma_pow_adds(10, b.scale, scale);
    assert(x * c == a.value * pow10(scale + b.scale)) by {
        vstd::arithmetic::mul::lemma_mul_is_associative(a.value, pow10(e1), pow10(scale));
        vstd::arithmetic::mul::lemma_mul_is_commutative(pow10(e1), pow10(scale));
        vstd::arithmetic::mul::lemma_mul_is_associative(a.value, pow10(scale) * pow10(e1), c);
        vstd::arithmetic::mul::lemma_mul_is_associative(pow10(scale), pow10(e1), c);
        vstd::arithmetic::mul::lemma_mul_is_associative(a.value, pow10(scale), pow10(e1) * c);
        vstd::arithmetic::mul::lemma_mul_is_commutative(pow10(scale), pow10(b.scale));
    }
    // y * c == b * 10^scale(a)
    let f1 = (s - b.scale) as nat;
    vstd::arithmetic::power::lemma_pow_adds(10, f1, e2);
    assert(f1 + e2 == a.scale);
    vstd::arithmetic::mul::lemma_mul_is_associative(b.value, pow10(f1), c);
}


/// A power keeps all its digits when the precision allows: raising `a`
/// to an exponent with integer part `n` gives `a^n` exactly (`1` for
/// `n == 0`, `a` itself for `n == 1`).
pub proof fn law_pow_exact(a: Dec, e: Dec, scale: nat)
    requires
        0 <= integer_part(e) <= u32::MAX,
        scale >= a.scale * (integer_part(e) as nat),
    ensures
        match dec_pow(a, e, scale) {
            Some(x) => rescaled(x, a.scale * (integer_part(e) as nat)) == pow(
                a.value,
                integer_part(e) as nat,
            ),
            None => false,
        },
{
    let n = integer_part(e) as nat;
    let t = a.scale * n;
    vstd::arithmetic::power::lemma_pow0(a.value);
    vstd::arithmetic::power::lemma_pow1(a.value);
    vstd::arithmetic::power::lemma_pow0(10);
    if n == 0 {
        vstd::arithmetic::mul::lemma_mul_basics(a.scale as int);
        assert(t == 0);
    } else if n == 1 {
        vstd::arithmetic::mul::lemma_mul_basics(a.scale as int);
        assert(t == a.scale);
        vstd::arithmetic::mul::lemma_mul_basics(a.value);
    } else {
        assert(t >= a.scale) by (nonlinear_arith)
            requires
                t == a.scale * n,
                n >= 2,
        ;
        lemma_rescaled_normalized(pow(a.value, n), t, t);
        vstd::arithmetic::mul::lemma_mul_basics(pow(a.value, n));
    }
}

/// Digit characters read back as their digits in bases up to 16.
proof fn lemma_digits_read_back(n: nat, radix: nat)
    requires
        2 <= radix <= 16,
    ensures
        digits_value(radix_digits(n, radix), radix) == n,
        forall|i: int| 0 <= i < radix_digits(n, radix).len() ==> #[trigger] radix_digits(n, radix)[i]
            != 46,
    decreases n,
{
    reveal_with_fuel(digits_value, 2);
    if n < radix {
        let t = radix_digits(n, radix);
        assert(t == seq![digit_char(n)]);
        assert(t.drop_last() =~= Seq::<u8>::empty());
        assert(digits_value(Seq::<u8>::empty(), radix) == 0);
        assert(t.last() == digit_char(n));
        assert(digit_value(digit_char(n)) == n);
        assert(digits_value(t, radix) == digits_value(t.drop_last(), radix) * radix + digit_value(
            t.last(),
        ));
        assert(0 * radix == 0);
    } else {
        vstd::arithmetic::div_mod::lemma_div_decreases(n as int, radix as int);
        lemma_digits_read_back(n / radix, radix);
        vstd::arithmetic::div_mod::lemma_fundamental_div_mod(n as int, radix as int);
        vstd::arithmetic::div_mod::lemma_mod_bound(n as int, radix as int);
        let t = radix_digits(n, radix);
        let h = radix_digits(n / radix, radix);
        assert(t == h.push(digit_char(n % radix)));
        assert(t.drop_last() =~= h);
        assert(t.last() == digit_char(n % radix));
        assert(digit_value(digit_char(n % radix)) == n % radix);
        assert(digits_value(t, radix) == digits_value(h, radix) * radix + digit_value(t.last()));
        vstd::arithmetic::mul::lemma_mul_is_commutative(radix as int, (n / radix) as int);
        assert(digits_value(t, radix) == n);
        assert forall|i: int| 0 <= i < t.len() implies #[trigger] t[i] != 46 by {
            if i < h.len() {
                assert(t[i] == h[i]);
            }
        }
    }
}

/// Printing a non-negative integer in any radix from 2 to 16 and reading
/// the text back in that radix gives the integer again (negative numbers
/// print as `-` and their negation, see `law_print_negative`).
pub proof fn law_print_parse_any_radix(a: Dec, radix: nat)
    requires
        a.scale == 0,
        a.value >= 0,
        2 <= radix <= 16,
    ensures
        parsed(dec_to_string(a, radix), radix) == normalized(a.value, 0),
{
    let t = radix_digits(a.value as nat, radix);
    assert(dec_to_string(a, radix) =~= t);
    lemma_digits_read_back(a.value as nat, radix);
    crate::fixed::lemma_last_dot_bound(t);
    if let Some(d) = last_dot(t) {
        assert(t[d] == 46);
    }
    assert(parsed_digits(t) == t);
}


// ---------------------------------------------------------------------
// Commands
// ---------------------------------------------------------------------

/// The arithmetic commands pop the top (`r`) and the value below it (`l`)
/// and push `l + r`, `l - r`, `l * r`, `l / r` or `l % r` (the last three
/// at the current precision); dividing by zero reports an error instead.
pub proof fn law_arith_commands(p: Program, st: State, l: Dec, r: Dec)
    requires
        p.pos < p.cmds.len(),
        st.stack.len() >= 2,
        st.stack[st.stack.len() - 2] == Item::Number(l),
        st.stack.last() == Item::Number(r),
        !p.fail,
    ensures
        ({
            let c = p.cmds[p.pos as int];
            let rest = st.stack.drop_last().drop_last();
            let t = step_spec(p, st);
            let pushed = |d: Dec|
                t.state == st.with_stack(rest.push(Item::Number(d))) && t.outcome
                    == Outcome::Continue && t.program == advanced(p, 1);
            &&& c == ADD ==> pushed(dec_add(l, r))
            &&& c == SUB ==> pushed(dec_sub(l, r))
            &&& c == MUL && l.scale + r.scale <= u32::MAX ==> pushed(
                dec_mul(l, r, st.precision as nat),
            )
            &&& c == DIV && r.value != 0 ==> pushed(dec_div(l, r, st.precision as nat))
            &&& c == REM && r.value != 0 && st.precision + r.scale <= u32::MAX ==> pushed(
                dec_rem(l, r, st.precision as nat),
            )
            &&& (c == DIV || c == REM) && r.value == 0 ==> t.outcome == Outcome::Warn(
                Error::ZeroDivision,
            ) && t.state == st.with_stack(rest)
        }),
{
}

/// `d` pushes a copy of the top; `p` pops the top and prints its text in
/// the output radix followed by a newline.
pub proof fn law_dup_and_print(p: Program, st: State)
    requires
        p.pos < p.cmds.len(),
        st.stack.len() > 0,
    ensures
        p.cmds[p.pos as int] == DUP ==> step_spec(p, st).state == st.push(st.stack.last()),
        p.cmds[p.pos as int] == PRINTLN ==> {
            let t = step_spec(p, st);
            &&& t.state == st.with_stack(st.stack.drop_last())
            &&& t.outcome == Outcome::Print(
                item_text(st.stack.last(), st.output_radix).push(NEWLINE),
            )
        },
{
}

/// `k` pops a number and makes its integer part (0 when negative,
/// saturating at `u32::MAX`) the precision.
pub proof fn law_set_precision(p: Program, st: State, d: Dec)
    requires
        p.pos < p.cmds.len(),
        p.cmds[p.pos as int] == SET_PRECISION,
        st.stack.len() > 0,
        st.stack.last() == Item::Number(d),
    ensures
        step_spec(p, st).state.stack == st.stack.drop_last(),
        step_spec(p, st).state.precision == crate::fixed::saturating_u32(d),
        d.value >= 0 && integer_part(d) <= u32::MAX ==> step_spec(p, st).state.precision
            == integer_part(d),
        d.value < 0 ==> step_spec(p, st).state.precision == 0,
{
    crate::fixed::lemma_pow10_positive(d.scale);
    if d.value >= 0 {
        crate::fixed::lemma_tdiv_nonneg(d.value, pow10(d.scale));
    }
}

/// `x` on a string runs it from its start; the commands after `x`
/// resume once it is done.
pub proof fn law_execute_string(p: Program, st: State, text: Seq<u8>)
    requires
        p.pos + 1 < p.cmds.len(),
        p.cmds[p.pos as int] == EXECUTE,
        st.stack.len() > 0,
        st.stack.last() == Item::Text(text),
    ensures
        step_spec(p, st).program == (Program {
            queue: p.queue.push((p.cmds, p.pos + 1)),
            cmds: text,
            pos: 0,
            fail: p.fail,
        }),
        step_spec(p, st).state == st.with_stack(st.stack.drop_last()),
{
}

} // verus!
