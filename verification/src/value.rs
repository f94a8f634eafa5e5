//! The exact mixed-number type `Value` and its arithmetic.
//!
//! A `Value` is either a 64-bit integer or a mixed number
//! `quotient + remainder / divisor`. Every operation returns a value in
//! normal form: positive divisor, proper reduced fraction, quotient and
//! remainder never of opposite signs, and a zero fraction collapsed to
//! `Integer`. Each operation's contract states the exact rational it
//! returns, and on which inputs it reports `ArithmeticOverflow` instead.

use vstd::prelude::*;

use crate::arith::{
    abs_of, gcd_of, lemma_div_exact_signed, lemma_gcd_congruent, lemma_gcd_div_coprime,
    lemma_gcd_divides, lemma_gcd_scale, lemma_mixed_basics, lemma_mixed_unique,
    lemma_mul_of_divisible, mixed_q, mixed_r,
};
use crate::EvalError;

verus! {

/// An exact number: a 64-bit integer, or the mixed number
/// `quotient + remainder / divisor`.
#[derive(Clone, Copy, Debug, PartialEq, Eq, Structural)]
pub enum Value {
    Integer(i64),
    Rational { quotient: i64, remainder: i64, divisor: i64 },
}

impl Value {
    /// Improper numerator of the exact rational this value denotes.
    pub open spec fn numer(self) -> int {
        match self {
            Value::Integer(i) => i as int,
            Value::Rational { quotient, remainder, divisor } => quotient * divisor + remainder,
        }
    }

    /// Denominator of the exact rational this value denotes.
    pub open spec fn denom(self) -> int {
        match self {
            Value::Integer(_) => 1,
            Value::Rational { quotient, remainder, divisor } => divisor as int,
        }
    }

    /// Normal form: proper reduced fraction over a positive divisor,
    /// quotient and remainder never of opposite signs, and a zero
    /// fraction collapsed to `Integer`.
    pub open spec fn is_normalized(self) -> bool {
        match self {
            Value::Integer(_) => true,
            Value::Rational { quotient, remainder, divisor } => {
                &&& 0 < abs_of(remainder as int) < divisor
                &&& gcd_of(divisor as nat, abs_of(remainder as int)) == 1
                &&& quotient > 0 ==> remainder > 0
                &&& quotient < 0 ==> remainder < 0
            },
        }
    }
}

/// The gcd by which `n / d` is reduced to lowest terms.
pub open spec fn norm_g(n: int, d: int) -> int {
    gcd_of(abs_of(n), abs_of(d)) as int
}

/// Denominator of `n / d` in lowest terms.
pub open spec fn norm_den(n: int, d: int) -> int {
    d / norm_g(n, d)
}

/// Numerator of `n / d` in lowest terms.
pub open spec fn norm_num(n: int, d: int) -> int {
    if n >= 0 {
        abs_of(n) as int / norm_g(n, d)
    } else {
        -(abs_of(n) as int / norm_g(n, d))
    }
}

/// Integer part of `n / d`, rounded toward zero.
pub open spec fn norm_quot(n: int, d: int) -> int {
    mixed_q(norm_num(n, d), norm_den(n, d))
}

/// Proper remainder of `n / d`, carrying the sign of `n`.
pub open spec fn norm_rem(n: int, d: int) -> int {
    mixed_r(norm_num(n, d), norm_den(n, d))
}

/// Whether the normal form of the fraction `n / d` fits 64-bit fields.
pub open spec fn fits64(n: int, d: int) -> bool {
    &&& i64::MIN <= norm_quot(n, d) <= i64::MAX
    &&& norm_den(n, d) <= i64::MAX
}

/// The normalized `Value` denoting the exact fraction `n / d`.
pub open spec fn norm_of(n: int, d: int) -> Value {
    if norm_rem(n, d) == 0 {
        Value::Integer(norm_quot(n, d) as i64)
    } else {
        Value::Rational {
            quotient: norm_quot(n, d) as i64,
            remainder: norm_rem(n, d) as i64,
            divisor: norm_den(n, d) as i64,
        }
    }
}

/// The outcome owed for the exact fraction `n / d`: its normal form, or
/// `ArithmeticOverflow` exactly when that form exceeds 64-bit fields.
pub open spec fn frac_result(n: int, d: int) -> Result<Value, EvalError> {
    if fits64(n, d) {
        Ok(norm_of(n, d))
    } else {
        Err(EvalError::ArithmeticOverflow)
    }
}

/// How the components of the normal form of `n / d` decompose `n` and `d`.
pub proof fn lemma_norm_decompose(n: int, d: int)
    requires
        d > 0,
    ensures
        ({
            let g = norm_g(n, d);
            let n1 = norm_num(n, d);
            let d1 = norm_den(n, d);
            let q = norm_quot(n, d);
            let r = norm_rem(n, d);
            &&& 1 <= g <= d
            &&& 1 <= d1 <= d
            &&& n == g * n1
            &&& d == g * d1
            &&& abs_of(n1) == abs_of(n) / g as nat
            &&& n1 == q * d1 + r
            &&& abs_of(r) < d1
            &&& (n >= 0 ==> n1 >= 0 && q >= 0 && r >= 0)
            &&& (n <= 0 ==> n1 <= 0 && q <= 0 && r <= 0)
            &&& gcd_of(abs_of(n1), d1 as nat) == 1
            &&& gcd_of(d1 as nat, abs_of(r)) == 1
            &&& (r == 0 ==> d1 == 1 && n1 == q)
            &&& abs_of(q) == abs_of(n1) / d1 as nat
        }),
{
    let g = norm_g(n, d);
    let n1 = norm_num(n, d);
    let d1 = norm_den(n, d);
    let q = norm_quot(n, d);
    let r = norm_rem(n, d);
    let na = abs_of(n);
    lemma_gcd_divides(na, d as nat);
    assert(g >= 1);
    assert(g <= d);
    lemma_div_exact_signed(d, g);
    lemma_div_exact_signed(na as int, g);
    assert(d == g * d1) by (nonlinear_arith)
        requires
            d1 == d / g,
            (d / g) * g == d,
    ;
    assert(d1 >= 1) by (nonlinear_arith)
        requires
            d == g * d1,
            d > 0,
            g >= 1,
            d1 >= 0,
    ;
    assert(d1 <= d) by (nonlinear_arith)
        requires
            d == g * d1,
            g >= 1,
            d1 >= 0,
    ;
    // n == g * n1, by cases on the sign of n.
    let m = na as int / g;
    assert(na as int == m * g);
    if n >= 0 {
        assert(n1 == m);
        assert(n == g * n1) by (nonlinear_arith)
            requires
                n == m * g,
                n1 == m,
        ;
    } else {
        assert(n1 == -m);
        assert(n == g * n1) by (nonlinear_arith)
            requires
                -n == m * g,
                n1 == -m,
        ;
    }
    assert(abs_of(n1) == na / g as nat);
    // Coprimality of the reduced pair.
    lemma_gcd_div_coprime(na, d as nat);
    assert(gcd_of(na / g as nat, d as nat / g as nat) == 1);
    assert(d as nat / g as nat == d1 as nat);
    assert(gcd_of(abs_of(n1), d1 as nat) == 1);
    // The mixed decomposition of the reduced numerator.
    lemma_mixed_basics(n1, d1);
    // gcd_of(d1, abs(r)) == 1, by unfolding gcd_of once.
    assert(abs_of(r) == abs_of(n1) % d1 as nat);
    if d1 == 1 {
        assert(abs_of(r) < 1);
        assert(gcd_of(1nat, 0nat) == 1);
    } else {
        assert(gcd_of(abs_of(n1), d1 as nat) == gcd_of(d1 as nat, abs_of(n1) % d1 as nat));
    }
    // A zero remainder forces the reduced denominator to 1.
    if r == 0 {
        assert(abs_of(n1) % d1 as nat == 0);
        assert(gcd_of(abs_of(n1), d1 as nat) == gcd_of(d1 as nat, 0nat));
        assert(gcd_of(d1 as nat, 0nat) == d1 as nat);
        assert(d1 == 1);
        assert(n1 == q * 1 + 0);
    }
}

/// Under `fits64`, the normal form is a well-formed normalized `Value`
/// denoting exactly `n / d`.
pub proof fn lemma_norm_value(n: int, d: int)
    requires
        d > 0,
        fits64(n, d),
    ensures
        norm_of(n, d).is_normalized(),
        norm_of(n, d).numer() == norm_num(n, d),
        norm_of(n, d).denom() == norm_den(n, d),
        norm_of(n, d).numer() * d == n * norm_of(n, d).denom(),
{
    lemma_norm_decompose(n, d);
    let g = norm_g(n, d);
    let n1 = norm_num(n, d);
    let d1 = norm_den(n, d);
    let q = norm_quot(n, d);
    let r = norm_rem(n, d);
    let v = norm_of(n, d);
    assert(abs_of(r) < d1 <= i64::MAX);
    assert(i64::MIN <= q <= i64::MAX);
    if r == 0 {
        assert(v == Value::Integer(q as i64));
        assert(v.numer() == q == n1);
        assert(v.denom() == 1 == d1);
    } else {
        assert(v.numer() == (q as i64) * (d1 as i64) + (r as i64));
        assert(v.numer() == q * d1 + r);
        assert(v.numer() == n1);
        assert(v.denom() == d1);
        // Sign consistency carries from the decomposition.
        if q > 0 {
            assert(n1 > 0) by (nonlinear_arith)
                requires
                    n1 == q * d1 + r,
                    q > 0,
                    d1 > abs_of(r) >= 0,
                    abs_of(r) == if r >= 0 { r } else { -r },
            ;
            assert(r > 0);
        }
        if q < 0 {
            assert(n1 < 0) by (nonlinear_arith)
                requires
                    n1 == q * d1 + r,
                    q < 0,
                    d1 > abs_of(r) >= 0,
                    abs_of(r) == if r >= 0 { r } else { -r },
            ;
            assert(r < 0);
        }
        assert(v.is_normalized());
    }
    // v.numer() * d == n * v.denom(), since n == g * n1 and d == g * d1.
    assert(n1 * d == n * d1) by (nonlinear_arith)
        requires
            n == g * n1,
            d == g * d1,
    ;
}

/// Scaling numerator and denominator by the same positive factor leaves
/// the normal form unchanged.
pub proof fn lemma_norm_scale(k: int, n: int, d: int)
    requires
        k >= 1,
        d >= 1,
    ensures
        norm_num(k * n, k * d) == norm_num(n, d),
        norm_den(k * n, k * d) == norm_den(n, d),
        norm_quot(k * n, k * d) == norm_quot(n, d),
        norm_rem(k * n, k * d) == norm_rem(n, d),
        fits64(k * n, k * d) == fits64(n, d),
        norm_of(k * n, k * d) == norm_of(n, d),
        frac_result(k * n, k * d) == frac_result(n, d),
{
    let g = norm_g(n, d);
    lemma_gcd_divides(abs_of(n), d as nat);
    assert(abs_of(k * n) == (k as nat) * abs_of(n)) by (nonlinear_arith)
        requires
            k >= 1,
            abs_of(n) == if n >= 0 { n as nat } else { (-n) as nat },
            abs_of(k * n) == if k * n >= 0 { (k * n) as nat } else { (-(k * n)) as nat },
    ;
    assert(abs_of(k * d) == (k as nat) * (d as nat)) by (nonlinear_arith)
        requires
            k >= 1,
            d >= 1,
            abs_of(k * d) == if k * d >= 0 { (k * d) as nat } else { (-(k * d)) as nat },
    ;
    lemma_gcd_scale(k as nat, abs_of(n), d as nat);
    assert(norm_g(k * n, k * d) == k * g);
    // The scaled magnitudes divide back to the same reduced pair.
    lemma_div_exact_signed(abs_of(n) as int, g);
    let m = abs_of(n) as int / g;
    assert(abs_of(n) as int == m * g);
    assert((k * abs_of(n)) as int == m * (k * g)) by (nonlinear_arith)
        requires
            abs_of(n) as int == m * g,
    ;
    assert(m >= 0);
    assert(k * g > 0) by (nonlinear_arith)
        requires
            k >= 1,
            g >= 1,
    ;
    vstd::arithmetic::div_mod::lemma_fundamental_div_mod_converse(
        m * (k * g),
        k * g,
        m,
        0,
    );
    assert(abs_of(k * n) as int / (k * g) == m);
    let dm = d / g;
    lemma_div_exact_signed(d, g);
    assert(d == dm * g);
    assert(k * d == dm * (k * g)) by (nonlinear_arith)
        requires
            d == dm * g,
    ;
    assert(dm >= 0);
    vstd::arithmetic::div_mod::lemma_fundamental_div_mod_converse(
        dm * (k * g),
        k * g,
        dm,
        0,
    );
    assert((k * d) / (k * g) == dm);
    assert(norm_den(k * n, k * d) == norm_den(n, d));
    assert(k * n >= 0 <==> n >= 0) by (nonlinear_arith)
        requires
            k >= 1,
    ;
    assert(norm_num(k * n, k * d) == norm_num(n, d));
}

/// Two integers congruent modulo `d` reduce against `d` by the same gcd.
pub proof fn lemma_norm_congruent(x: int, y: int, d: int)
    requires
        d >= 1,
        (x - y) % d == 0,
    ensures
        norm_g(x, d) == norm_g(y, d),
{
    // One of |x| - |y| and |x| + |y| equals x - y up to sign.
    lemma_mul_of_divisible(x - y, 1, d);
    assert((x - y) * 1 == x - y);
    assert((-(x - y)) % d == 0);
    let a = abs_of(x);
    let b = abs_of(y);
    if x >= 0 && y >= 0 {
        assert(a as int - b as int == x - y);
    } else if x >= 0 && y < 0 {
        assert(a as int + b as int == x - y);
    } else if x < 0 && y >= 0 {
        assert(a as int + b as int == -(x - y));
    } else {
        assert(a as int - b as int == -(x - y));
    }
    lemma_gcd_congruent(a, b, d as nat);
}

/// A normalized value is exactly the normal form of its own fraction.
pub proof fn lemma_norm_identity(v: Value)
    requires
        v.is_normalized(),
    ensures
        v.denom() >= 1,
        norm_g(v.numer(), v.denom()) == 1,
        fits64(v.numer(), v.denom()),
        norm_of(v.numer(), v.denom()) == v,
        ({
            let n = v.numer();
            let d = v.denom();
            match v {
                Value::Integer(i) => norm_quot(n, d) == i && norm_rem(n, d) == 0 && norm_den(
                    n,
                    d,
                ) == 1,
                Value::Rational { quotient, remainder, divisor } => norm_quot(n, d) == quotient
                    && norm_rem(n, d) == remainder && norm_den(n, d) == divisor,
            }
        }),
{
    let n = v.numer();
    let d = v.denom();
    match v {
        Value::Integer(i) => {
            let ni = i as int;
            // gcd_of(|i|, 1) == 1, by unfolding twice.
            vstd::arithmetic::div_mod::lemma_small_mod(0, 1);
            assert(abs_of(ni) % 1nat == 0) by {
                vstd::arithmetic::div_mod::lemma_mod_pos_bound(abs_of(ni) as int, 1);
            }
            assert(gcd_of(abs_of(ni), 1nat) == gcd_of(1nat, abs_of(ni) % 1nat));
            assert(gcd_of(1nat, 0nat) == 1);
            assert(norm_g(n, d) == 1);
            lemma_norm_decompose(n, d);
            assert(norm_den(n, d) == 1);
            let n1 = norm_num(n, d);
            assert(1 * n1 == n1) by (nonlinear_arith);
            assert(n1 == ni);
            lemma_mixed_unique(ni, 1, ni, 0);
            assert(ni == ni * 1 + 0) by (nonlinear_arith);
        },
        Value::Rational { quotient, remainder, divisor } => {
            let q0 = quotient as int;
            let r0 = remainder as int;
            let d0 = divisor as int;
            assert(n == q0 * d0 + r0);
            // n is congruent to r0 modulo d0, so they reduce by the same gcd.
            vstd::arithmetic::div_mod::lemma_mod_self_0(d0);
            lemma_mul_of_divisible(d0, q0, d0);
            assert((d0 * q0) % d0 == 0);
            assert(n - r0 == d0 * q0) by (nonlinear_arith)
                requires
                    n == q0 * d0 + r0,
            ;
            lemma_norm_congruent(n, r0, d0);
            // gcd_of(|r0|, d0) == gcd_of(d0, |r0|) == 1 by one unfolding.
            vstd::arithmetic::div_mod::lemma_small_mod(abs_of(r0), d0 as nat);
            assert(gcd_of(abs_of(r0), d0 as nat) == gcd_of(d0 as nat, abs_of(r0)));
            assert(norm_g(r0, d0) == 1);
            assert(norm_g(n, d0) == 1);
            lemma_norm_decompose(n, d0);
            let n1 = norm_num(n, d0);
            assert(1 * n1 == n1) by (nonlinear_arith);
            assert(n1 == n);
            assert(norm_den(n, d0) == d0);
            lemma_mixed_unique(n, d0, q0, r0);
        },
    }
}

/// The product of two 64-bit values stays well inside 128 bits.
pub proof fn lemma_i64_product_bound(x: int, y: int)
    requires
        -0x8000000000000000 <= x <= 0x7fffffffffffffff,
        -0x8000000000000000 <= y <= 0x7fffffffffffffff,
    ensures
        -0x40000000000000000000000000000000 <= x * y <= 0x40000000000000000000000000000000,
{
    assert(-0x40000000000000000000000000000000 <= x * y
        <= 0x40000000000000000000000000000000) by (nonlinear_arith)
        requires
            -0x8000000000000000 <= x <= 0x7fffffffffffffff,
            -0x8000000000000000 <= y <= 0x7fffffffffffffff,
    ;
}

/// Relies on num::integer::gcd: the greatest common divisor of two
/// unsigned values, computed by Stein's binary algorithm. On unsigned
/// arguments it neither panics nor overflows; `gcd(a, 0) == a` and
/// `gcd(0, 0) == 0`.
#[verifier::external_body]
fn gcd_u128(a: u128, b: u128) -> (r: u128)
    ensures
        r as nat == gcd_of(a as nat, b as nat),
{
    num::integer::gcd(a, b)
}

/// Builds the normalized `Value` for the exact fraction `n / d`, or
/// reports `ArithmeticOverflow` exactly when its normal form exceeds
/// 64-bit fields.
pub(crate) fn from_frac(n: i128, d: i128) -> (res: Result<Value, EvalError>)
    requires
        1 <= d,
        n > i128::MIN,
    ensures
        res == frac_result(n as int, d as int),
{
    proof {
        lemma_norm_decompose(n as int, d as int);
    }
    let ghost gn = norm_num(n as int, d as int);
    let ghost gq = norm_quot(n as int, d as int);
    let ghost gr = norm_rem(n as int, d as int);
    let ghost gd = norm_den(n as int, d as int);
    let neg = n < 0;
    let n_abs: u128 = if neg {
        (-n) as u128
    } else {
        n as u128
    };
    assert(n_abs as nat == abs_of(n as int));
    let g = gcd_u128(n_abs, d as u128);
    assert(g as int == norm_g(n as int, d as int));
    assert(g >= 1);
    let n1 = n_abs / g;
    let d1 = (d as u128) / g;
    proof {
        lemma_mixed_basics(gn, gd);
    }
    assert(n1 as nat == abs_of(gn));
    assert(d1 as int == gd);
    assert(d1 >= 1);
    let qa = n1 / d1;
    let ra = n1 % d1;
    assert(qa as nat == abs_of(gq));
    assert(ra as nat == abs_of(gr));
    assert(neg ==> gq <= 0 && gr <= 0);
    assert(!neg ==> gq >= 0 && gr >= 0);
    let max_mag: u128 = if neg {
        9223372036854775808
    } else {
        9223372036854775807
    };
    assert((i64::MIN <= gq <= i64::MAX) == (qa <= max_mag));
    if ra == 0 {
        assert(gd == 1);
        if qa > max_mag {
            assert(!fits64(n as int, d as int));
            return Err(EvalError::ArithmeticOverflow);
        }
        let qi: i128 = if neg {
            -(qa as i128)
        } else {
            qa as i128
        };
        assert(qi == gq);
        assert(fits64(n as int, d as int));
        return Ok(Value::Integer(qi as i64));
    }
    if d1 > 9223372036854775807 || qa > max_mag {
        assert(!fits64(n as int, d as int));
        return Err(EvalError::ArithmeticOverflow);
    }
    let qi: i128 = if neg {
        -(qa as i128)
    } else {
        qa as i128
    };
    let ri: i128 = if neg {
        -(ra as i128)
    } else {
        ra as i128
    };
    assert(qi == gq);
    assert(ri == gr);
    assert(fits64(n as int, d as int));
    Ok(Value::Rational { quotient: qi as i64, remainder: ri as i64, divisor: d1 as i64 })
}

/// Which values `simplify` accepts: any integer, and any fraction whose
/// divisor is not zero.
pub open spec fn simplify_wf(v: Value) -> bool {
    match v {
        Value::Integer(_) => true,
        Value::Rational { quotient, remainder, divisor } => divisor != 0,
    }
}

/// What `simplify` owes: the normal form of the exact value, or
/// `ArithmeticOverflow` exactly when that form exceeds 64-bit fields.
pub open spec fn simplify_spec(v: Value) -> Result<Value, EvalError> {
    match v {
        Value::Integer(_) => Ok(v),
        Value::Rational { quotient, remainder, divisor } => {
            let n = quotient * divisor + remainder;
            if divisor > 0 {
                frac_result(n, divisor as int)
            } else {
                frac_result(-n, -(divisor as int))
            }
        },
    }
}

impl Value {
    /// Normalize this value: reduce the fraction to lowest terms, absorb
    /// the improper part into the quotient, collapse a zero remainder to
    /// `Integer`, and make the divisor positive.
    pub fn simplify(self) -> (res: Result<Value, EvalError>)
        requires
            simplify_wf(self),
        ensures
            res == simplify_spec(self),
    {
        match self {
            Value::Integer(_) => Ok(self),
            Value::Rational { quotient, remainder, divisor } => {
                proof {
                    lemma_i64_product_bound(quotient as int, divisor as int);
                }
                let n: i128 = (quotient as i128) * (divisor as i128) + (remainder as i128);
                if divisor > 0 {
                    from_frac(n, divisor as i128)
                } else {
                    from_frac(-n, -(divisor as i128))
                }
            },
        }
    }
}

/// What addition owes: the normal form of the exact sum.
pub open spec fn value_add_spec(a: Value, b: Value) -> Result<Value, EvalError> {
    frac_result(a.numer() * b.denom() + b.numer() * a.denom(), a.denom() * b.denom())
}

/// What subtraction owes: the normal form of the exact difference.
pub open spec fn value_sub_spec(a: Value, b: Value) -> Result<Value, EvalError> {
    frac_result(a.numer() * b.denom() - b.numer() * a.denom(), a.denom() * b.denom())
}

/// Mixed-number fields of a value: quotient, remainder and divisor, with
/// an integer read as `i + 0/1`.
fn fields_of(v: Value) -> (t: (i128, i128, i128))
    requires
        v.is_normalized(),
    ensures
        t.0 * t.2 + t.1 == v.numer(),
        t.2 == v.denom(),
        1 <= t.2 <= 0x7fffffffffffffff,
        -t.2 < t.1 < t.2,
        -0x8000000000000000 <= t.0 <= 0x7fffffffffffffff,
{
    match v {
        Value::Integer(i) => {
            let t = (i as i128, 0i128, 1i128);
            assert(t.0 * t.2 == i) by (nonlinear_arith)
                requires
                    t.0 == i as int,
                    t.2 == 1,
            ;
            t
        },
        Value::Rational { quotient, remainder, divisor } => {
            (quotient as i128, remainder as i128, divisor as i128)
        },
    }
}

/// Shared core of addition and subtraction: the normal form of
/// `a + b` or of `a - b`.
fn combine(a: Value, b: Value, negate_b: bool) -> (res: Result<Value, EvalError>)
    requires
        a.is_normalized(),
        b.is_normalized(),
    ensures
        !negate_b ==> res == value_add_spec(a, b),
        negate_b ==> res == value_sub_spec(a, b),
{
    let (q1, r1, e1) = fields_of(a);
    let (q2n, r2n, e2) = fields_of(b);
    let q2: i128 = if negate_b {
        -q2n
    } else {
        q2n
    };
    let r2: i128 = if negate_b {
        -r2n
    } else {
        r2n
    };
    let ghost nb_eff: int = if negate_b {
        -b.numer()
    } else {
        b.numer()
    };
    assert(q2 * e2 + r2 == nb_eff) by (nonlinear_arith)
        requires
            q2n * e2 + r2n == b.numer(),
            q2 == if negate_b {
                -q2n as int
            } else {
                q2n as int
            },
            r2 == if negate_b {
                -r2n as int
            } else {
                r2n as int
            },
            nb_eff == if negate_b {
                -b.numer()
            } else {
                b.numer()
            },
    ;
    // The exact result is nv / dv.
    let ghost nv: int = a.numer() * b.denom() + nb_eff * a.denom();
    let s: i128 = q1 + q2;
    proof {
        lemma_i64_product_bound(r1 as int, e2 as int);
        lemma_i64_product_bound(r2 as int, e1 as int);
        lemma_i64_product_bound(e1 as int, e2 as int);
    }
    let dd: i128 = e1 * e2;
    assert(1 <= dd) by (nonlinear_arith)
        requires
            dd == e1 * e2,
            1 <= e1,
            1 <= e2,
    ;
    assert(-dd < r1 * e2 < dd && -dd < r2 * e1 < dd) by (nonlinear_arith)
        requires
            dd == e1 * e2,
            -e1 < r1 < e1,
            -e2 < r2 < e2,
            1 <= e1,
            1 <= e2,
    ;
    let f: i128 = r1 * e2 + r2 * e1;
    assert(-2 * dd < f < 2 * dd);
    assert(nv == s * dd + f) by (nonlinear_arith)
        requires
            nv == a.numer() * e2 + nb_eff * e1,
            a.numer() == q1 * e1 + r1,
            nb_eff == q2 * e2 + r2,
            s == q1 + q2,
            f == r1 * e2 + r2 * e1,
            dd == e1 * e2,
    ;
    let f_neg = f < 0;
    let f_abs: u128 = if f_neg {
        (-f) as u128
    } else {
        f as u128
    };
    assert(f_abs as nat == abs_of(f as int));
    let g = gcd_u128(f_abs, dd as u128);
    proof {
        vstd::arithmetic::div_mod::lemma_mod_self_0(dd as int);
        lemma_mul_of_divisible(dd as int, s as int, dd as int);
        assert(nv - f == dd * s) by (nonlinear_arith)
            requires
                nv == s * dd + f,
        ;
        assert((nv - f) % (dd as int) == 0);
        lemma_norm_congruent(nv, f as int, dd as int);
        lemma_norm_decompose(nv, dd as int);
        lemma_gcd_divides(f_abs as nat, dd as nat);
    }
    assert(g as int == norm_g(nv, dd as int));
    assert(1 <= g <= dd);
    let f1a: u128 = f_abs / g;
    let d1: u128 = (dd as u128) / g;
    assert(d1 as int == norm_den(nv, dd as int));
    let ghost dn = norm_den(nv, dd as int);
    assert(1 <= dn <= dd);
    // The reduced numerator of the exact result is s * d1 + (f / g).
    let ghost f1s: int = if f_neg {
        -(f1a as int)
    } else {
        f1a as int
    };
    let ghost mv: int = s * dn + f1s;
    proof {
        vstd::arithmetic::div_mod::lemma_fundamental_div_mod(f_abs as int, g as int);
        assert(f_abs as int == g * f1a + (f_abs as int % g as int));
        assert(f_abs as int % g as int == 0) by {
            assert(abs_of(f as int) % (g as nat) == 0);
        }
        assert(f == g * f1s) by (nonlinear_arith)
            requires
                f_abs as int == g * (f1a as int),
                f1s == if f_neg {
                    -(f1a as int)
                } else {
                    f1a as int
                },
                f_neg == (f < 0),
                f_abs as int == abs_of(f as int),
                abs_of(f as int) == if f >= 0 {
                    f as nat
                } else {
                    (-f) as nat
                },
        ;
        assert(dd == g * dn) by {
            vstd::arithmetic::div_mod::lemma_fundamental_div_mod(dd as int, g as int);
            assert(dd as int % g as int == 0) by {
                assert((dd as nat) % (g as nat) == 0);
            }
        }
        assert(nv == g * mv) by (nonlinear_arith)
            requires
                nv == s * dd + f,
                dd == g * dn,
                f == g * f1s,
                mv == s * dn + f1s,
        ;
        // So mv is exactly the reduced numerator.
        assert(norm_num(nv, dd as int) == mv) by (nonlinear_arith)
            requires
                nv == g * norm_num(nv, dd as int),
                nv == g * mv,
                g >= 1,
        ;
    }
    let qfa: u128 = f1a / d1;
    let rfa: u128 = f1a % d1;
    proof {
        vstd::arithmetic::div_mod::lemma_fundamental_div_mod(f1a as int, d1 as int);
    }
    assert(f1a as int == (d1 as int) * (qfa as int) + rfa as int);
    // The fraction part is proper up to one whole unit.
    assert((f_abs as int) < 2 * (dd as int));
    assert((f1a as int) < 2 * (d1 as int)) by (nonlinear_arith)
        requires
            f_abs as int == g * (f1a as int),
            dd as int == g * (d1 as int),
            (f_abs as int) < 2 * (dd as int),
            g >= 1,
            f1a >= 0,
    ;
    assert(qfa <= 1) by (nonlinear_arith)
        requires
            f1a as int == (d1 as int) * (qfa as int) + rfa as int,
            rfa >= 0,
            (f1a as int) < 2 * (d1 as int),
            d1 >= 1,
            qfa >= 0,
    ;
    let d1i: i128 = d1 as i128;
    let qf: i128 = if f_neg {
        -(qfa as i128)
    } else {
        qfa as i128
    };
    let rf0: i128 = if f_neg {
        -(rfa as i128)
    } else {
        rfa as i128
    };
    assert(f1s == qf * d1i + rf0) by (nonlinear_arith)
        requires
            f1a as int == (d1 as int) * (qfa as int) + rfa as int,
            f1s == if f_neg {
                -(f1a as int)
            } else {
                f1a as int
            },
            qf == if f_neg {
                -(qfa as int)
            } else {
                qfa as int
            },
            rf0 == if f_neg {
                -(rfa as int)
            } else {
                rfa as int
            },
            d1i == d1 as int,
    ;
    let mut qt: i128 = s + qf;
    let mut rf: i128 = rf0;
    assert(mv == qt * d1i + rf) by (nonlinear_arith)
        requires
            mv == s * (d1i as int) + f1s,
            f1s == qf * d1i + rf0,
            qt == s + qf,
            rf == rf0,
    ;
    if qt > 0 && rf < 0 {
        proof {
            assert(mv == (qt - 1) * d1i + (rf + d1i)) by (nonlinear_arith)
                requires
                    mv == qt * d1i + rf,
            ;
        }
        qt = qt - 1;
        rf = rf + d1i;
    } else if qt < 0 && rf > 0 {
        proof {
            assert(mv == (qt + 1) * d1i + (rf - d1i)) by (nonlinear_arith)
                requires
                    mv == qt * d1i + rf,
            ;
        }
        qt = qt + 1;
        rf = rf - d1i;
    }
    proof {
        lemma_mixed_unique(mv, d1i as int, qt as int, rf as int);
        if negate_b {
            assert(nv == a.numer() * b.denom() - b.numer() * a.denom()) by (nonlinear_arith)
                requires
                    nv == a.numer() * b.denom() + nb_eff * a.denom(),
                    nb_eff == -b.numer(),
            ;
        }
    }
    assert(qt == norm_quot(nv, dd as int));
    assert(rf == norm_rem(nv, dd as int));
    if rf == 0 {
        proof {
            lemma_norm_decompose(nv, dd as int);
        }
        assert(dn == 1);
        if qt < -9223372036854775808i128 || qt > 9223372036854775807i128 {
            assert(!fits64(nv, dd as int));
            return Err(EvalError::ArithmeticOverflow);
        }
        assert(fits64(nv, dd as int));
        return Ok(Value::Integer(qt as i64));
    }
    if d1i > 9223372036854775807 || qt < -9223372036854775808i128
        || qt > 9223372036854775807i128 {
        assert(!fits64(nv, dd as int));
        return Err(EvalError::ArithmeticOverflow);
    }
    assert(fits64(nv, dd as int));
    Ok(Value::Rational { quotient: qt as i64, remainder: rf as i64, divisor: d1i as i64 })
}

impl Value {
    /// Exact sum of two normalized values.
    pub fn plus(self, rhs: Value) -> (res: Result<Value, EvalError>)
        requires
            self.is_normalized(),
            rhs.is_normalized(),
        ensures
            res == value_add_spec(self, rhs),
    {
        combine(self, rhs, false)
    }

    /// Exact difference of two normalized values.
    pub fn minus(self, rhs: Value) -> (res: Result<Value, EvalError>)
        requires
            self.is_normalized(),
            rhs.is_normalized(),
        ensures
            res == value_sub_spec(self, rhs),
    {
        combine(self, rhs, true)
    }
}

/// What negation owes: the normal form of the exact opposite.
pub open spec fn value_neg_spec(a: Value) -> Result<Value, EvalError> {
    frac_result(-a.numer(), a.denom())
}

/// What multiplication owes: the normal form of the exact product, or
/// overflow exactly when that form exceeds 64-bit fields.
pub open spec fn value_mul_spec(a: Value, b: Value) -> Result<Value, EvalError> {
    frac_result(a.numer() * b.numer(), a.denom() * b.denom())
}

/// The cross-reduced factors of a product of normalized values are
/// coprime with the cross-reduced denominators, so the product pair is
/// already in lowest terms.
pub proof fn lemma_mul_product_coprime(a: Value, b: Value)
    requires
        a.is_normalized(),
        b.is_normalized(),
        norm_num(a.numer(), b.denom()) != 0,
        norm_num(b.numer(), a.denom()) != 0,
    ensures
        norm_g(
            norm_num(a.numer(), b.denom()) * norm_num(b.numer(), a.denom()),
            norm_den(b.numer(), a.denom()) * norm_den(a.numer(), b.denom()),
        ) == 1,
{
    let na = a.numer();
    let nb = b.numer();
    let e1 = a.denom();
    let e2 = b.denom();
    lemma_norm_identity(a);
    lemma_norm_identity(b);
    lemma_norm_decompose(na, e2);
    lemma_norm_decompose(nb, e1);
    let p1 = norm_num(na, e2);
    let p2 = norm_num(nb, e1);
    let d2 = norm_den(na, e2);
    let d1 = norm_den(nb, e1);
    let pa = abs_of(p1);
    let pb = abs_of(p2);
    // The reduced parts divide the unreduced parts.
    assert(abs_of(na) == norm_g(na, e2) as nat * pa) by (nonlinear_arith)
        requires
            na == norm_g(na, e2) * p1,
            norm_g(na, e2) >= 1,
            abs_of(na) == if na >= 0 {
                na as nat
            } else {
                (-na) as nat
            },
            pa == if p1 >= 0 {
                p1 as nat
            } else {
                (-p1) as nat
            },
    ;
    assert(abs_of(nb) == norm_g(nb, e1) as nat * pb) by (nonlinear_arith)
        requires
            nb == norm_g(nb, e1) * p2,
            norm_g(nb, e1) >= 1,
            abs_of(nb) == if nb >= 0 {
                nb as nat
            } else {
                (-nb) as nat
            },
            pb == if p2 >= 0 {
                p2 as nat
            } else {
                (-p2) as nat
            },
    ;
    lemma_divisible_by_factor(abs_of(na) as int, norm_g(na, e2), pa as int);
    lemma_divisible_by_factor(abs_of(nb) as int, norm_g(nb, e1), pb as int);
    lemma_divisible_by_factor(e1, norm_g(nb, e1), d1);
    lemma_divisible_by_factor(e2, norm_g(na, e2), d2);
    // The four cross pairs are coprime.
    assert(gcd_of(pa, d2 as nat) == 1);
    assert(gcd_of(pb, d1 as nat) == 1);
    crate::arith::lemma_coprime_divisors(abs_of(na), e1 as nat, pa, d1 as nat);
    crate::arith::lemma_coprime_divisors(abs_of(nb), e2 as nat, pb, d2 as nat);
    crate::arith::lemma_coprime_pair_product(pa, pb, d1 as nat, d2 as nat);
    assert(abs_of(p1 * p2) == pa * pb) by (nonlinear_arith)
        requires
            pa == abs_of(p1),
            pb == abs_of(p2),
            abs_of(p1) == if p1 >= 0 {
                p1 as nat
            } else {
                (-p1) as nat
            },
            abs_of(p2) == if p2 >= 0 {
                p2 as nat
            } else {
                (-p2) as nat
            },
            abs_of(p1 * p2) == if p1 * p2 >= 0 {
                (p1 * p2) as nat
            } else {
                (-(p1 * p2)) as nat
            },
    ;
    assert(d1 * d2 >= 1) by (nonlinear_arith)
        requires
            d1 >= 1,
            d2 >= 1,
    ;
    assert(abs_of(d1 * d2) == (d1 * d2) as nat);
}

/// When the exact product of two normalized values fits 64-bit fields,
/// the cross-reduced numerator product stays strictly within 128 bits.
pub proof fn lemma_mul_no_overflow_when_fits(
    a: Value,
    b: Value,
    p1: int,
    p2: int,
    d1: int,
    d2: int,
)
    requires
        a.is_normalized(),
        b.is_normalized(),
        p1 == norm_num(a.numer(), b.denom()),
        p2 == norm_num(b.numer(), a.denom()),
        d1 == norm_den(b.numer(), a.denom()),
        d2 == norm_den(a.numer(), b.denom()),
        d1 >= 1,
        d2 >= 1,
        fits64(p1 * p2, d1 * d2),
    ensures
        -(i128::MAX as int) <= p1 * p2 <= i128::MAX as int,
{
    if p1 * p2 == 0 {
    } else {
        assert(p1 != 0 && p2 != 0) by (nonlinear_arith)
            requires
                p1 * p2 != 0,
        ;
        lemma_mul_product_coprime(a, b);
        assert(d1 * d2 >= 1) by (nonlinear_arith)
            requires
                d1 >= 1,
                d2 >= 1,
        ;
        lemma_fits_bounds_coprime(p1 * p2, d1 * d2);
    }
}

/// A value written as a product is divisible by either factor.
pub proof fn lemma_divisible_by_factor(x: int, g: int, f: int)
    requires
        f >= 0,
        x == g * f,
    ensures
        x % f == 0 || f == 0,
{
    if f != 0 {
        assert(x == g * f);
        vstd::arithmetic::div_mod::lemma_mod_multiples_basic(g, f);
        assert(g * f == x);
    }
}

/// Improper numerator of a value, in 128 bits.
fn numer_of(v: Value) -> (n: i128)
    requires
        v.is_normalized(),
    ensures
        n == v.numer(),
        -0x41000000000000000000000000000000 <= n <= 0x41000000000000000000000000000000,
{
    let (q, r, e) = fields_of(v);
    proof {
        lemma_i64_product_bound(q as int, e as int);
    }
    q * e + r
}

impl Value {
    /// Exact opposite of a normalized value.
    pub fn negated(self) -> (res: Result<Value, EvalError>)
        requires
            self.is_normalized(),
        ensures
            res == value_neg_spec(self),
    {
        let (q, r, e) = fields_of(self);
        proof {
            lemma_i64_product_bound(q as int, e as int);
        }
        let n: i128 = q * e + r;
        from_frac(-n, e)
    }

    /// Exact product of two normalized values.
    pub fn times(self, rhs: Value) -> (res: Result<Value, EvalError>)
        requires
            self.is_normalized(),
            rhs.is_normalized(),
        ensures
            res == value_mul_spec(self, rhs),
    {
        let (_, _, e1) = fields_of(self);
        let (_, _, e2) = fields_of(rhs);
        let na = numer_of(self);
        let nb = numer_of(rhs);
        let na_abs: u128 = if na < 0 {
            (-na) as u128
        } else {
            na as u128
        };
        let nb_abs: u128 = if nb < 0 {
            (-nb) as u128
        } else {
            nb as u128
        };
        assert(na_abs as nat == abs_of(self.numer()));
        assert(nb_abs as nat == abs_of(rhs.numer()));
        let ga = gcd_u128(na_abs, e2 as u128);
        let gb = gcd_u128(nb_abs, e1 as u128);
        proof {
            lemma_norm_decompose(na as int, e2 as int);
            lemma_norm_decompose(nb as int, e1 as int);
        }
        assert(ga as int == norm_g(na as int, e2 as int));
        assert(gb as int == norm_g(nb as int, e1 as int));
        let ghost p1v = norm_num(na as int, e2 as int);
        let ghost p2v = norm_num(nb as int, e1 as int);
        let ghost d2v = norm_den(na as int, e2 as int);
        let ghost d1v = norm_den(nb as int, e1 as int);
        let p1a: u128 = na_abs / ga;
        let p2a: u128 = nb_abs / gb;
        let d2: u128 = (e2 as u128) / ga;
        let d1: u128 = (e1 as u128) / gb;
        assert(p1a as nat == abs_of(p1v));
        assert(p2a as nat == abs_of(p2v));
        assert(d2 as int == d2v);
        assert(d1 as int == d1v);
        let p1: i128 = if na < 0 {
            -(p1a as i128)
        } else {
            p1a as i128
        };
        let p2: i128 = if nb < 0 {
            -(p2a as i128)
        } else {
            p2a as i128
        };
        assert(p1 == p1v);
        assert(p2 == p2v);
        let prod = p1.checked_mul(p2);
        let ghost nv: int = self.numer() * rhs.numer();
        let ghost dv: int = self.denom() * rhs.denom();
        proof {
            // The full product and denominator are the cross-reduced ones
            // scaled by ga * gb.
            assert(nv == (ga * gb) * (p1v * p2v)) by (nonlinear_arith)
                requires
                    self.numer() == ga * p1v,
                    rhs.numer() == gb * p2v,
                    nv == self.numer() * rhs.numer(),
            ;
            assert(dv == (ga * gb) * (d1v * d2v)) by (nonlinear_arith)
                requires
                    self.denom() == gb * d1v,
                    rhs.denom() == ga * d2v,
                    dv == self.denom() * rhs.denom(),
            ;
            assert(ga * gb >= 1) by (nonlinear_arith)
                requires
                    ga >= 1,
                    gb >= 1,
            ;
            assert(d1v * d2v >= 1) by (nonlinear_arith)
                requires
                    d1v >= 1,
                    d2v >= 1,
            ;
            lemma_norm_scale(ga as int * gb as int, p1v * p2v, d1v * d2v);
        }
        match prod {
            None => {
                proof {
                    if fits64(nv, dv) {
                        lemma_mul_no_overflow_when_fits(self, rhs, p1v, p2v, d1v, d2v);
                    }
                }
                assert(!fits64(nv, dv));
                Err(EvalError::ArithmeticOverflow)
            },
            Some(p) => {
                if p == i128::MIN {
                    proof {
                        if fits64(nv, dv) {
                            lemma_mul_no_overflow_when_fits(self, rhs, p1v, p2v, d1v, d2v);
                        }
                    }
                    assert(!fits64(nv, dv));
                    return Err(EvalError::ArithmeticOverflow);
                }
                proof {
                    lemma_i64_product_bound(d1 as int, d2 as int);
                }
                let dprod: i128 = (d1 as i128) * (d2 as i128);
                let res = from_frac(p, dprod);
                assert(res == frac_result(nv, dv));
                res
            },
        }
    }
}

/// Numerator of the exact quotient `a / b`, signed so that its
/// denominator `div_den` is positive.
pub open spec fn div_num(a: Value, b: Value) -> int {
    if b.numer() >= 0 {
        a.numer() * b.denom()
    } else {
        -(a.numer() * b.denom())
    }
}

/// Denominator of the exact quotient `a / b`; positive when `b` is not zero.
pub open spec fn div_den(a: Value, b: Value) -> int {
    a.denom() * (abs_of(b.numer()) as int)
}

/// What division owes: `DivisionByZero` exactly on a zero divisor, else
/// the normal form of the exact quotient, or overflow exactly when that
/// form exceeds 64-bit fields.
pub open spec fn value_div_spec(a: Value, b: Value) -> Result<Value, EvalError> {
    if b.numer() == 0 {
        Err(EvalError::DivisionByZero)
    } else {
        frac_result(div_num(a, b), div_den(a, b))
    }
}

/// When the exact quotient of two normalized values fits 64-bit fields,
/// the cross-reduced products stay strictly within 128 bits.
pub proof fn lemma_div_no_overflow_when_fits(a: Value, b: Value, pex: int, ddx: int)
    requires
        a.is_normalized(),
        b.is_normalized(),
        b.numer() != 0,
        abs_of(pex) == abs_of(norm_num(a.numer(), abs_of(b.numer()) as int)) * abs_of(
            norm_num(b.denom(), a.denom()),
        ),
        ddx == norm_den(b.denom(), a.denom()) * norm_den(
            a.numer(),
            abs_of(b.numer()) as int,
        ),
        fits64(pex, ddx),
    ensures
        -(i128::MAX as int) <= pex <= i128::MAX as int,
        ddx <= i64::MAX as int,
{
    let na = a.numer();
    let nb = b.numer();
    let e1 = a.denom();
    let e2 = b.denom();
    let nb_abs = abs_of(nb) as int;
    lemma_norm_identity(a);
    lemma_norm_identity(b);
    assert(nb_abs >= 1);
    lemma_norm_decompose(na, nb_abs);
    lemma_norm_decompose(e2, e1);
    let u1 = norm_num(na, nb_abs);
    let v1 = norm_den(na, nb_abs);
    let u2 = norm_num(e2, e1);
    let v2 = norm_den(e2, e1);
    assert(u2 >= 1) by (nonlinear_arith)
        requires
            e2 == norm_g(e2, e1) * u2,
            norm_g(e2, e1) >= 1,
            u2 >= 0,
            e2 >= 1,
    ;
    assert(ddx >= 1) by (nonlinear_arith)
        requires
            ddx == v2 * v1,
            v1 >= 1,
            v2 >= 1,
    ;
    if u1 == 0 {
        // A zero dividend leaves the divisor magnitude as the whole gcd,
        // so the reduced denominator against it is one.
        assert(na == 0) by (nonlinear_arith)
            requires
                na == norm_g(na, nb_abs) * u1,
                u1 == 0,
        ;
        assert(gcd_of(0, nb_abs as nat) == gcd_of(nb_abs as nat, 0nat % nb_abs as nat));
        vstd::arithmetic::div_mod::lemma_small_mod(0, nb_abs as nat);
        assert(norm_g(na, nb_abs) == nb_abs);
        assert(v1 == 1) by (nonlinear_arith)
            requires
                nb_abs == norm_g(na, nb_abs) * v1,
                norm_g(na, nb_abs) == nb_abs,
                nb_abs >= 1,
        ;
        assert(abs_of(pex) == 0) by (nonlinear_arith)
            requires
                abs_of(pex) == abs_of(u1) * abs_of(u2),
                abs_of(u1) == 0,
        ;
        assert(pex == 0);
        assert(ddx == v2) by (nonlinear_arith)
            requires
                ddx == v2 * v1,
                v1 == 1,
        ;
        assert(ddx <= i64::MAX as int);
    } else {
        let pa = abs_of(u1);
        let pb = abs_of(u2);
        assert(pb == u2);
        // The reduced parts divide the unreduced parts.
        assert(abs_of(na) == norm_g(na, nb_abs) as nat * pa) by (nonlinear_arith)
            requires
                na == norm_g(na, nb_abs) * u1,
                norm_g(na, nb_abs) >= 1,
                abs_of(na) == if na >= 0 {
                    na as nat
                } else {
                    (-na) as nat
                },
                pa == if u1 >= 0 {
                    u1 as nat
                } else {
                    (-u1) as nat
                },
        ;
        lemma_divisible_by_factor(abs_of(na) as int, norm_g(na, nb_abs), pa as int);
        lemma_divisible_by_factor(nb_abs, norm_g(na, nb_abs), v1);
        lemma_divisible_by_factor(e2, norm_g(e2, e1), u2);
        lemma_divisible_by_factor(e1, norm_g(e2, e1), v2);
        // The four cross pairs are coprime.
        assert(gcd_of(pa, v1 as nat) == 1);
        assert(gcd_of(pb, v2 as nat) == 1);
        crate::arith::lemma_coprime_divisors(abs_of(na), e1 as nat, pa, v2 as nat);
        crate::arith::lemma_gcd_sym(abs_of(nb), e2 as nat);
        crate::arith::lemma_coprime_divisors(e2 as nat, abs_of(nb), pb, v1 as nat);
        crate::arith::lemma_coprime_pair_product(pa, pb, v2 as nat, v1 as nat);
        assert(norm_g(pex, ddx) == 1);
        lemma_fits_bounds_coprime(pex, ddx);
    }
}

impl Value {
    /// Exact quotient of two normalized values.
    pub fn div_by(self, rhs: Value) -> (res: Result<Value, EvalError>)
        requires
            self.is_normalized(),
            rhs.is_normalized(),
        ensures
            res == value_div_spec(self, rhs),
    {
        let (_, _, e1) = fields_of(self);
        let (_, _, e2) = fields_of(rhs);
        let na = numer_of(self);
        let nb = numer_of(rhs);
        if nb == 0 {
            return Err(EvalError::DivisionByZero);
        }
        let na_abs: u128 = if na < 0 {
            (-na) as u128
        } else {
            na as u128
        };
        let nb_abs: u128 = if nb < 0 {
            (-nb) as u128
        } else {
            nb as u128
        };
        assert(na_abs as nat == abs_of(self.numer()));
        assert(nb_abs as nat == abs_of(rhs.numer()));
        let g1 = gcd_u128(na_abs, nb_abs);
        let g2 = gcd_u128(e2 as u128, e1 as u128);
        proof {
            lemma_norm_decompose(na as int, nb_abs as int);
            lemma_norm_decompose(e2 as int, e1 as int);
        }
        assert(g1 as int == norm_g(na as int, nb_abs as int));
        assert(g2 as int == norm_g(e2 as int, e1 as int));
        let ghost u1v = norm_num(na as int, nb_abs as int);
        let ghost v1v = norm_den(na as int, nb_abs as int);
        let ghost u2v = norm_num(e2 as int, e1 as int);
        let ghost v2v = norm_den(e2 as int, e1 as int);
        let u1a: u128 = na_abs / g1;
        let v1: u128 = nb_abs / g1;
        let u2a: u128 = (e2 as u128) / g2;
        let v2: u128 = (e1 as u128) / g2;
        assert(u1a as nat == abs_of(u1v));
        assert(v1 as int == v1v);
        assert(u2a as nat == abs_of(u2v));
        assert(u2a as int == u2v);
        assert(v2 as int == v2v);
        // The quotient's numerator takes the divisor's sign.
        let n_neg: bool = (na < 0) != (nb < 0);
        let p1: i128 = if n_neg {
            -(u1a as i128)
        } else {
            u1a as i128
        };
        let p2: i128 = u2a as i128;
        let ghost nv: int = div_num(self, rhs);
        let ghost dv: int = div_den(self, rhs);
        proof {
            assert(p1 * p2 == if n_neg {
                -((u1a as int) * (u2a as int))
            } else {
                (u1a as int) * (u2a as int)
            }) by (nonlinear_arith)
                requires
                    p1 == if n_neg {
                        -(u1a as int)
                    } else {
                        u1a as int
                    },
                    p2 == u2a as int,
            ;
            // nv is the cross-reduced numerator scaled by g1 * g2.
            assert(self.numer() * rhs.denom() == (g1 * g2) * (u1v * u2v)) by (nonlinear_arith)
                requires
                    self.numer() == g1 * u1v,
                    rhs.denom() == g2 * u2v,
            ;
            assert(nv == if rhs.numer() >= 0 {
                (g1 * g2) * (u1v * u2v)
            } else {
                -((g1 * g2) * (u1v * u2v))
            });
            assert(u1v * u2v == if na < 0 {
                -((u1a as int) * (u2a as int))
            } else {
                (u1a as int) * (u2a as int)
            }) by (nonlinear_arith)
                requires
                    u1v == if na < 0 {
                        -(u1a as int)
                    } else {
                        u1a as int
                    },
                    u2v == u2a as int,
                    u2a >= 0,
            ;
            assert(nv == (g1 * g2) * (p1 * p2)) by (nonlinear_arith)
                requires
                    nv == if rhs.numer() >= 0 {
                        (g1 * g2) * (u1v * u2v)
                    } else {
                        -((g1 * g2) * (u1v * u2v))
                    },
                    u1v * u2v == if na < 0 {
                        -((u1a as int) * (u2a as int))
                    } else {
                        (u1a as int) * (u2a as int)
                    },
                    p1 * p2 == if n_neg {
                        -((u1a as int) * (u2a as int))
                    } else {
                        (u1a as int) * (u2a as int)
                    },
                    n_neg == ((na < 0) != (nb < 0)),
                    na == self.numer(),
                    nb == rhs.numer(),
                    nb != 0,
            ;
            // dv is the cross-reduced denominator scaled by g1 * g2.
            assert(dv == (g1 * g2) * ((v2 as int) * (v1 as int))) by (nonlinear_arith)
                requires
                    self.denom() == g2 * (v2 as int),
                    abs_of(rhs.numer()) as int == g1 * (v1 as int),
                    dv == self.denom() * (abs_of(rhs.numer()) as int),
            ;
            assert(g1 * g2 >= 1) by (nonlinear_arith)
                requires
                    g1 >= 1,
                    g2 >= 1,
            ;
            assert((v2 as int) * (v1 as int) >= 1) by (nonlinear_arith)
                requires
                    v1 >= 1,
                    v2 >= 1,
            ;
            lemma_norm_scale(g1 as int * g2 as int, p1 * p2, (v2 as int) * (v1 as int));
            assert(abs_of(p1 as int * p2 as int) == abs_of(u1v) * abs_of(u2v))
                by (nonlinear_arith)
                requires
                    p1 * p2 == if n_neg {
                        -((u1a as int) * (u2a as int))
                    } else {
                        (u1a as int) * (u2a as int)
                    },
                    u1a as nat == abs_of(u1v),
                    u2a as nat == abs_of(u2v),
                    u1a >= 0,
                    u2a >= 0,
                    abs_of(p1 as int * p2 as int) == if p1 as int * p2 as int >= 0 {
                        (p1 as int * p2 as int) as nat
                    } else {
                        (-(p1 as int * p2 as int)) as nat
                    },
            ;
        }
        let prod = p1.checked_mul(p2);
        match prod {
            None => {
                proof {
                    if fits64(nv, dv) {
                        lemma_div_no_overflow_when_fits(
                            self,
                            rhs,
                            p1 as int * p2 as int,
                            (v2 as int) * (v1 as int),
                        );
                    }
                }
                assert(!fits64(nv, dv));
                Err(EvalError::ArithmeticOverflow)
            },
            Some(p) => {
                if p == i128::MIN {
                    proof {
                        if fits64(nv, dv) {
                            lemma_div_no_overflow_when_fits(
                                self,
                                rhs,
                                p1 as int * p2 as int,
                                (v2 as int) * (v1 as int),
                            );
                        }
                    }
                    assert(!fits64(nv, dv));
                    return Err(EvalError::ArithmeticOverflow);
                }
                proof {
                    assert((v2 as int) * (v1 as int) == v1v * v2v) by (nonlinear_arith)
                        requires
                            v1 as int == v1v,
                            v2 as int == v2v,
                    ;
                }
                let dprod = (v2 as i128).checked_mul(v1 as i128);
                match dprod {
                    None => {
                        proof {
                            if fits64(nv, dv) {
                                lemma_div_no_overflow_when_fits(
                                    self,
                                    rhs,
                                    p1 as int * p2 as int,
                                    (v2 as int) * (v1 as int),
                                );
                            }
                        }
                        assert(!fits64(nv, dv));
                        Err(EvalError::ArithmeticOverflow)
                    },
                    Some(dp) => {
                        let res = from_frac(p, dp);
                        assert(res == frac_result(nv, dv));
                        res
                    },
                }
            },
        }
    }
}

/// A fraction already in lowest terms that fits 64-bit fields has a
/// numerator well inside 128 bits.
pub proof fn lemma_fits_bounds_coprime(n: int, d: int)
    requires
        d >= 1,
        norm_g(n, d) == 1,
        fits64(n, d),
    ensures
        -(i128::MAX as int) <= n <= i128::MAX as int,
        d <= i64::MAX as int,
{
    lemma_norm_decompose(n, d);
    let d1 = norm_den(n, d);
    let n1 = norm_num(n, d);
    assert(d1 == d) by (nonlinear_arith)
        requires
            d == norm_g(n, d) * d1,
            norm_g(n, d) == 1,
    ;
    assert(n1 == n) by (nonlinear_arith)
        requires
            n == norm_g(n, d) * n1,
            norm_g(n, d) == 1,
    ;
    let q = norm_quot(n, d);
    let r = norm_rem(n, d);
    assert(-(i128::MAX as int) <= n <= i128::MAX as int) by (nonlinear_arith)
        requires
            n == q * d + r,
            -0x8000000000000000 <= q <= 0x7fffffffffffffff,
            1 <= d <= 0x7fffffffffffffff,
            -d < r < d,
    ;
}

impl From<i64> for Value {
    /// An integer becomes the `Integer` value.
    fn from(i: i64) -> (r: Value) {
        Value::Integer(i)
    }
}

impl vstd::std_specs::convert::FromSpecImpl<i64> for Value {
    open spec fn obeys_from_spec() -> bool {
        true
    }

    open spec fn from_spec(i: i64) -> Value {
        Value::Integer(i)
    }
}

/// The decimal digits of a positive magnitude, most significant first;
/// empty for zero.
pub open spec fn dec_rec(n: nat) -> Seq<char>
    decreases n,
{
    if n == 0 {
        Seq::empty()
    } else {
        dec_rec(n / 10).push(digit_char(n % 10))
    }
}

/// The character for one decimal digit.
pub open spec fn digit_char(d: nat) -> char {
    if d == 0 {
        '0'
    } else if d == 1 {
        '1'
    } else if d == 2 {
        '2'
    } else if d == 3 {
        '3'
    } else if d == 4 {
        '4'
    } else if d == 5 {
        '5'
    } else if d == 6 {
        '6'
    } else if d == 7 {
        '7'
    } else if d == 8 {
        '8'
    } else {
        '9'
    }
}

/// The decimal rendering of an integer, with a leading minus sign when
/// it is negative.
pub open spec fn int_digits(n: int) -> Seq<char> {
    if n == 0 {
        seq!['0']
    } else if n > 0 {
        dec_rec(n as nat)
    } else {
        seq!['-'] + dec_rec((-n) as nat)
    }
}

/// The rendering of a value: an integer as its decimal digits, a mixed
/// number as `quotient (remainder / divisor)`.
pub open spec fn render_spec(v: Value) -> Seq<char> {
    match v {
        Value::Integer(i) => int_digits(i as int),
        Value::Rational { quotient, remainder, divisor } => int_digits(quotient as int) + seq![
            ' ',
            '(',
        ] + int_digits(remainder as int) + seq![' ', '/', ' '] + int_digits(divisor as int)
            + seq![')'],
    }
}

/// Append the decimal digits of a magnitude; nothing for zero.
fn push_digits(n: u64, out: &mut Vec<char>)
    ensures
        final(out)@ == old(out)@ + dec_rec(n as nat),
    decreases n,
{
    if n == 0 {
        assert(out@ =~= out@ + dec_rec(0));
        return ;
    }
    push_digits(n / 10, out);
    let d = n % 10;
    let c: char = match d {
        0 => '0',
        1 => '1',
        2 => '2',
        3 => '3',
        4 => '4',
        5 => '5',
        6 => '6',
        7 => '7',
        8 => '8',
        _ => '9',
    };
    assert(c == digit_char(n as nat % 10));
    out.push(c);
}

/// Append the decimal rendering of an integer, sign included.
fn push_int(i: i64, out: &mut Vec<char>)
    ensures
        final(out)@ == old(out)@ + int_digits(i as int),
{
    if i == 0 {
        out.push('0');
        assert(out@ =~= old(out)@ + int_digits(0));
    } else if i > 0 {
        push_digits(i as u64, out);
    } else {
        out.push('-');
        let mag: u64 = (-(i as i128)) as u64;
        assert(mag as nat == -(i as int));
        push_digits(mag, out);
        assert(out@ =~= old(out)@ + int_digits(i as int));
    }
}

/// Relies on String's FromIterator over chars, through iter and
/// collect: the string holds exactly the characters of the vector, in
/// order.
#[verifier::external_body]
fn chars_to_string(v: &Vec<char>) -> (s: String)
    ensures
        s@ == v@,
{
    v.iter().collect()
}

impl Value {
    /// Render this value: an integer as its decimal digits, a mixed
    /// number as `quotient (remainder / divisor)`.
    pub fn to_display_string(&self) -> (s: String)
        ensures
            s@ == render_spec(*self),
    {
        let mut out: Vec<char> = Vec::new();
        match *self {
            Value::Integer(i) => {
                push_int(i, &mut out);
            },
            Value::Rational { quotient, remainder, divisor } => {
                push_int(quotient, &mut out);
                out.push(' ');
                out.push('(');
                push_int(remainder, &mut out);
                out.push(' ');
                out.push('/');
                out.push(' ');
                push_int(divisor, &mut out);
                out.push(')');
                assert(out@ =~= render_spec(*self));
            },
        }
        chars_to_string(&out)
    }
}

/// Law: simplifying is idempotent. Whatever `simplify` returns,
/// simplifying it again returns it unchanged.
pub proof fn lemma_simplify_idempotent(v: Value, w: Value)
    requires
        simplify_wf(v),
        simplify_spec(v) == Ok::<Value, EvalError>(w),
    ensures
        simplify_wf(w),
        simplify_spec(w) == Ok::<Value, EvalError>(w),
{
    match v {
        Value::Integer(i) => {
            assert(w == v);
        },
        Value::Rational { quotient, remainder, divisor } => {
            let n = quotient as int * divisor as int + remainder as int;
            if divisor > 0 {
                lemma_norm_value(n, divisor as int);
            } else {
                lemma_norm_value(-n, -(divisor as int));
            }
            assert(w.is_normalized());
            lemma_simplify_of_normalized(w);
        },
    }
}

/// A normalized value simplifies to itself.
pub proof fn lemma_simplify_of_normalized(w: Value)
    requires
        w.is_normalized(),
    ensures
        simplify_wf(w),
        simplify_spec(w) == Ok::<Value, EvalError>(w),
{
    match w {
        Value::Integer(_) => {},
        Value::Rational { quotient, remainder, divisor } => {
            assert(divisor > 0);
            lemma_norm_identity(w);
            assert(w.numer() == quotient as int * divisor as int + remainder as int);
        },
    }
}

/// What adding two integer values owes: their exact 64-bit sum, or
/// overflow just beyond it.
pub proof fn lemma_int_add(x: i64, y: i64)
    ensures
        value_add_spec(Value::Integer(x), Value::Integer(y)) == (if i64::MIN <= x + y
            <= i64::MAX {
            Ok::<Value, EvalError>(Value::Integer((x + y) as i64))
        } else {
            Err::<Value, EvalError>(EvalError::ArithmeticOverflow)
        }),
{
    let a = Value::Integer(x);
    let b = Value::Integer(y);
    let s = x as int + y as int;
    assert(a.numer() * b.denom() + b.numer() * a.denom() == s);
    assert(a.denom() * b.denom() == 1);
    if i64::MIN <= s <= i64::MAX {
        lemma_norm_identity(Value::Integer(s as i64));
    } else {
        lemma_norm_decompose(s, 1);
        let d1 = norm_den(s, 1);
        let g = norm_g(s, 1);
        assert(g == 1 && d1 == 1) by (nonlinear_arith)
            requires
                1 == g * d1,
                g >= 1,
                d1 >= 1,
        ;
        assert(norm_num(s, 1) == s) by (nonlinear_arith)
            requires
                s == g * norm_num(s, 1),
                g == 1,
        ;
        assert(abs_of(norm_rem(s, 1)) < 1);
        assert(norm_quot(s, 1) == s);
        assert(!fits64(s, 1));
    }
}

/// What multiplying two integer values owes: their exact 64-bit
/// product, or overflow just beyond it.
pub proof fn lemma_int_mul(x: i64, y: i64)
    ensures
        value_mul_spec(Value::Integer(x), Value::Integer(y)) == (if i64::MIN <= x * y
            <= i64::MAX {
            Ok::<Value, EvalError>(Value::Integer((x * y) as i64))
        } else {
            Err::<Value, EvalError>(EvalError::ArithmeticOverflow)
        }),
{
    let a = Value::Integer(x);
    let b = Value::Integer(y);
    let p = x as int * y as int;
    assert(a.numer() * b.numer() == p);
    assert(a.denom() * b.denom() == 1);
    // The cross-reduced factors are the operands themselves, far from
    // the 128-bit limit.
    vstd::arithmetic::div_mod::lemma_mod_pos_bound(abs_of(x as int) as int, 1);
    vstd::arithmetic::div_mod::lemma_mod_pos_bound(abs_of(y as int) as int, 1);
    assert(gcd_of(abs_of(x as int), 1nat) == gcd_of(1nat, abs_of(x as int) % 1nat));
    assert(gcd_of(abs_of(y as int), 1nat) == gcd_of(1nat, abs_of(y as int) % 1nat));
    assert(norm_g(x as int, 1) == 1);
    assert(norm_g(y as int, 1) == 1);
    if i64::MIN <= p <= i64::MAX {
        lemma_norm_identity(Value::Integer(p as i64));
    } else {
        lemma_norm_decompose(p, 1);
        let d1 = norm_den(p, 1);
        let g = norm_g(p, 1);
        assert(g == 1 && d1 == 1) by (nonlinear_arith)
            requires
                1 == g * d1,
                g >= 1,
                d1 >= 1,
        ;
        assert(norm_num(p, 1) == p) by (nonlinear_arith)
            requires
                p == g * norm_num(p, 1),
                g == 1,
        ;
        assert(abs_of(norm_rem(p, 1)) < 1);
        assert(norm_quot(p, 1) == p);
        assert(!fits64(p, 1));
    }
}

/// Law: addition is commutative on all normalized values, overflow
/// included.
pub proof fn lemma_add_comm(a: Value, b: Value)
    ensures
        value_add_spec(a, b) == value_add_spec(b, a),
{
    assert(a.denom() * b.denom() == b.denom() * a.denom()) by (nonlinear_arith);
}

/// Law: addition of integer values is associative whenever each partial
/// sum stays within 64 bits; an input such as
/// `x == i64::MAX, y == 1, z == -1` overflows on one side only and is
/// excluded.
pub proof fn lemma_add_assoc_integers(x: i64, y: i64, z: i64)
    requires
        i64::MIN <= x + y <= i64::MAX,
        i64::MIN <= y + z <= i64::MAX,
        i64::MIN <= x + y + z <= i64::MAX,
    ensures
        value_add_spec(Value::Integer((x + y) as i64), Value::Integer(z))
            == value_add_spec(Value::Integer(x), Value::Integer((y + z) as i64)),
        value_add_spec(Value::Integer((x + y) as i64), Value::Integer(z))
            == Ok::<Value, EvalError>(Value::Integer((x + y + z) as i64)),
{
    lemma_int_add((x + y) as i64, z);
    lemma_int_add(x, (y + z) as i64);
}

/// Law: multiplication is commutative on all normalized values,
/// overflow included.
pub proof fn lemma_mul_comm(a: Value, b: Value)
    ensures
        value_mul_spec(a, b) == value_mul_spec(b, a),
{
    assert(a.numer() * b.numer() == b.numer() * a.numer()) by (nonlinear_arith);
    assert(a.denom() * b.denom() == b.denom() * a.denom()) by (nonlinear_arith);
    assert(norm_num(a.numer(), b.denom()) * norm_num(b.numer(), a.denom()) == norm_num(
        b.numer(),
        a.denom(),
    ) * norm_num(a.numer(), b.denom())) by (nonlinear_arith);
}

/// Law: dividing one integer value by a non-zero integer value
/// succeeds, gives an integer exactly when the divisor's magnitude
/// divides the dividend's, and otherwise a normalized proper fraction
/// in lowest terms denoting exactly `x / y`. The two 64-bit edges that
/// cannot be represented are excluded: `x == i64::MIN, y == -1` (the
/// quotient overflows) and an `i64::MIN` divisor coprime with `x` (the
/// reduced divisor overflows).
pub proof fn lemma_div_integers(x: i64, y: i64)
    requires
        y != 0,
        !(x == i64::MIN && y == -1),
        y == i64::MIN ==> gcd_of(abs_of(x as int), abs_of(y as int)) > 1,
    ensures
        ({
            let r = value_div_spec(Value::Integer(x), Value::Integer(y));
            &&& r is Ok
            &&& r->Ok_0.is_normalized()
            &&& r->Ok_0.numer() * y == x * r->Ok_0.denom()
            &&& (abs_of(x as int) % abs_of(y as int) == 0 ==> r->Ok_0 is Integer)
            &&& (abs_of(x as int) % abs_of(y as int) != 0 ==> r->Ok_0 is Rational)
        }),
{
    let a = Value::Integer(x);
    let b = Value::Integer(y);
    let xa = abs_of(x as int);
    let ya = abs_of(y as int);
    let nv = div_num(a, b);
    let dv = div_den(a, b);
    assert(abs_of(nv) == xa);
    assert(dv == ya as int);
    lemma_norm_decompose(nv, dv);
    let g = norm_g(nv, dv);
    let n1 = norm_num(nv, dv);
    let d1 = norm_den(nv, dv);
    let q = norm_quot(nv, dv);
    let r = norm_rem(nv, dv);
    // The value pair (1, 1) reduces to itself.
    lemma_norm_decompose(1, 1);
    assert(norm_g(1, 1) == 1 && norm_den(1, 1) == 1) by (nonlinear_arith)
        requires
            1 == norm_g(1, 1) * norm_den(1, 1),
            norm_g(1, 1) >= 1,
            norm_den(1, 1) >= 1,
    ;
    assert(norm_num(1, 1) == 1) by (nonlinear_arith)
        requires
            1 == norm_g(1, 1) * norm_num(1, 1),
            norm_g(1, 1) == 1,
    ;
    assert(a.denom() == 1 && b.denom() == 1);
    vstd::arithmetic::div_mod::lemma_div_nonincreasing(xa as int, g);
    assert(abs_of(n1) <= xa);
    vstd::arithmetic::div_mod::lemma_div_nonincreasing(dv, g);
    assert(d1 <= dv);
    // The reduced quotient magnitude is |x| / |y|.
    vstd::arithmetic::div_mod::lemma_div_denominator(xa as int, g, d1);
    assert(abs_of(q) == abs_of(n1) / d1 as nat);
    assert(abs_of(q) == xa as int / (g * d1));
    assert(g * d1 == dv);
    // The normal form fits in 64-bit fields.
    if y == i64::MIN {
        assert(g >= 2);
        assert(d1 <= 0x4000000000000000) by (nonlinear_arith)
            requires
                dv == g * d1,
                dv == 0x8000000000000000,
                g >= 2,
                d1 >= 1,
        ;
    } else {
        assert(d1 <= dv <= i64::MAX);
    }
    vstd::arithmetic::div_mod::lemma_div_nonincreasing(xa as int, dv);
    assert(abs_of(q) <= xa);
    if x == i64::MIN {
        if q > 0 {
            assert(nv > 0);
            assert(y < 0 && nv == xa as int);
            assert(ya >= 2);
            assert(xa as int / (g * d1) <= xa as int / 2) by {
                vstd::arithmetic::div_mod::lemma_div_is_ordered_by_denominator(
                    xa as int,
                    2,
                    g * d1,
                );
            }
            assert(abs_of(q) <= 0x4000000000000000);
        } else {
            assert(abs_of(q) <= 0x8000000000000000);
            assert(i64::MIN <= q <= i64::MAX);
        }
    }
    assert(fits64(nv, dv));
    lemma_norm_value(nv, dv);
    let w = norm_of(nv, dv);
    assert(value_div_spec(a, b) == Ok::<Value, EvalError>(w));
    // Exactness: w.numer() * y == x * w.denom().
    assert(w.numer() * dv == nv * w.denom());
    if y >= 0 {
        assert(dv == y as int && nv == x as int);
    } else {
        assert(dv == -(y as int) && nv == -(x as int));
        assert(w.numer() * (y as int) == (x as int) * w.denom()) by (nonlinear_arith)
            requires
                w.numer() * (-(y as int)) == (-(x as int)) * w.denom(),
        ;
    }
    // An integer result exactly when |y| divides |x|.
    assert(xa as int == g * (abs_of(n1) as int)) by (nonlinear_arith)
        requires
            nv == g * n1,
            g >= 1,
            abs_of(nv) == xa,
            abs_of(nv) == if nv >= 0 {
                nv as nat
            } else {
                (-nv) as nat
            },
            abs_of(n1) == if n1 >= 0 {
                n1 as nat
            } else {
                (-n1) as nat
            },
    ;
    vstd::arithmetic::div_mod::lemma_truncate_middle(abs_of(n1) as int, g, d1);
    assert(xa as int % dv as int == g * (abs_of(n1) as int % d1)) by (nonlinear_arith)
        requires
            xa as int == g * (abs_of(n1) as int),
            dv == g * d1,
            (g * (abs_of(n1) as int)) % (g * d1) == g * ((abs_of(n1) as int) % d1),
    ;
    assert(abs_of(r) == abs_of(n1) % d1 as nat);
    assert(xa % ya == 0 <==> r == 0) by (nonlinear_arith)
        requires
            xa as int % ya as int == g * (abs_of(r) as int),
            g >= 1,
            abs_of(r) == if r >= 0 {
                r as nat
            } else {
                (-r) as nat
            },
    ;
}

/// Law: multiplication of integer values is associative whenever each
/// partial product stays within 64 bits.
pub proof fn lemma_mul_assoc_integers(x: i64, y: i64, z: i64)
    requires
        i64::MIN <= x * y <= i64::MAX,
        i64::MIN <= y * z <= i64::MAX,
        i64::MIN <= x * y * z <= i64::MAX,
    ensures
        value_mul_spec(Value::Integer((x * y) as i64), Value::Integer(z))
            == value_mul_spec(Value::Integer(x), Value::Integer((y * z) as i64)),
        value_mul_spec(Value::Integer((x * y) as i64), Value::Integer(z))
            == Ok::<Value, EvalError>(Value::Integer((x * y * z) as i64)),
{
    lemma_int_mul((x * y) as i64, z);
    lemma_int_mul(x, (y * z) as i64);
    assert(x * y * z == x * (y * z)) by (nonlinear_arith);
}

} // verus!
