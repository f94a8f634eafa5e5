//! Integer groundwork for the exact arithmetic: a greatest-common-divisor
//! specification with the lemmas the `Value` operations rest on, and the
//! sign-magnitude ("mixed") decomposition of an integer by a positive divisor.

use vstd::prelude::*;
use vstd::arithmetic::div_mod::{
    lemma_add_mod_noop, lemma_fundamental_div_mod, lemma_fundamental_div_mod_converse,
    lemma_mod_self_0, lemma_mul_mod_noop_left, lemma_truncate_middle,
};

verus! {

/// Magnitude of an integer, as a natural number.
pub open spec fn abs_of(x: int) -> nat {
    if x >= 0 {
        x as nat
    } else {
        (-x) as nat
    }
}

/// Greatest common divisor by Euclid's recursion; `gcd_of(a, 0) == a`.
pub open spec fn gcd_of(a: nat, b: nat) -> nat
    decreases b,
{
    if b == 0 {
        a
    } else {
        gcd_of(b, a % b)
    }
}

/// With a positive second argument the gcd is positive, divides both
/// arguments, and is no larger than the second.
pub proof fn lemma_gcd_divides(a: nat, b: nat)
    requires
        b > 0,
    ensures
        gcd_of(a, b) > 0,
        a % gcd_of(a, b) == 0,
        b % gcd_of(a, b) == 0,
        gcd_of(a, b) <= b,
    decreases b,
{
    let g = gcd_of(a, b);
    if a % b == 0 {
        assert(gcd_of(b, 0) == b);
        assert(g == b);
        lemma_mod_self_0(b as int);
    } else {
        lemma_gcd_divides(b, a % b);
        assert(g == gcd_of(b, a % b));
        // g divides b and a % b; conclude that g divides a.
        lemma_fundamental_div_mod(a as int, b as int);
        let q = a as int / b as int;
        let r = (a % b) as int;
        lemma_fundamental_div_mod(b as int, g as int);
        lemma_fundamental_div_mod(r, g as int);
        let bq = b as int / g as int;
        let rq = r / g as int;
        assert(a as int == (bq * q + rq) * g) by (nonlinear_arith)
            requires
                a as int == b as int * q + r,
                b as int == g as int * bq,
                r == g as int * rq,
                g > 0,
        ;
        vstd::arithmetic::div_mod::lemma_mod_multiples_basic(bq * q + rq, g as int);
    }
}

/// Every common divisor of `a` and `b` is at most `gcd_of(a, b)`.
pub proof fn lemma_gcd_greatest(a: nat, b: nat, c: nat)
    requires
        b > 0,
        c > 0,
        a % c == 0,
        b % c == 0,
    ensures
        c <= gcd_of(a, b),
    decreases b,
{
    if a % b == 0 {
        assert(gcd_of(a, b) == gcd_of(b, 0));
        assert(gcd_of(b, 0) == b);
        lemma_fundamental_div_mod(b as int, c as int);
        assert(b as int == c as int * (b as int / c as int));
        assert(b >= c) by (nonlinear_arith)
            requires
                b as int == c as int * (b as int / c as int),
                b > 0,
                c > 0,
        ;
    } else {
        // c divides a % b, since a % b == a - b * (a / b).
        let q = a as int / b as int;
        lemma_fundamental_div_mod(a as int, b as int);
        lemma_mul_of_divisible(b as int, q, c as int);
        lemma_add_mod_noop(a as int, -(b as int * q), c as int);
        vstd::arithmetic::div_mod::lemma_small_mod(0, c as nat);
        assert((a as int + -(b as int * q)) % c as int == 0);
        assert((a as int - b as int * q) % c as int == 0);
        assert((a % b) % c == 0);
        lemma_gcd_greatest(b, a % b, c);
    }
}

/// A multiple of a divisible value is itself divisible, as is its negation.
pub proof fn lemma_mul_of_divisible(x: int, y: int, c: int)
    requires
        c > 0,
        x % c == 0,
    ensures
        (x * y) % c == 0,
        (-(x * y)) % c == 0,
{
    lemma_mul_mod_noop_left(x, y, c);
    assert((x % c) * y == 0) by (nonlinear_arith)
        requires
            x % c == 0,
    ;
    vstd::arithmetic::div_mod::lemma_small_mod(0, c as nat);
    assert((x * y) % c == 0);
    lemma_fundamental_div_mod(x * y, c);
    let m = (x * y) / c;
    assert(-(x * y) == (-m) * c) by (nonlinear_arith)
        requires
            x * y == c * m + (x * y) % c,
            (x * y) % c == 0,
    ;
    vstd::arithmetic::div_mod::lemma_mod_multiples_basic(-m, c);
}

/// Scaling both arguments scales the gcd.
pub proof fn lemma_gcd_scale(k: nat, a: nat, b: nat)
    requires
        k > 0,
    ensures
        gcd_of(k * a, k * b) == k * gcd_of(a, b),
    decreases b,
{
    if b == 0 {
        assert(k * b == 0);
    } else {
        lemma_truncate_middle(a as int, k as int, b as int);
        assert((k * a) % (k * b) == k * (a % b));
        assert(k * b > 0) by (nonlinear_arith)
            requires
                k > 0,
                b > 0,
        ;
        assert(gcd_of(k * a, k * b) == gcd_of(k * b, k * (a % b)));
        lemma_gcd_scale(k, b, a % b);
    }
}

/// Dividing both arguments by their gcd leaves coprime values.
pub proof fn lemma_gcd_div_coprime(a: nat, b: nat)
    requires
        b > 0,
    ensures
        gcd_of(a / gcd_of(a, b), b / gcd_of(a, b)) == 1,
{
    let g = gcd_of(a, b);
    lemma_gcd_divides(a, b);
    lemma_fundamental_div_mod(a as int, g as int);
    lemma_fundamental_div_mod(b as int, g as int);
    assert(a == g * (a / g));
    assert(b == g * (b / g));
    lemma_gcd_scale(g, a / g, b / g);
    assert(gcd_of(a, b) == g * gcd_of(a / g, b / g));
    let t = gcd_of(a / g, b / g);
    assert(t == 1) by (nonlinear_arith)
        requires
            g == g * t,
            g > 0,
    ;
}

/// Two naturals congruent up to sign modulo `d` share their gcd with `d`.
pub proof fn lemma_gcd_congruent(a: nat, b: nat, d: nat)
    requires
        d > 0,
        (a as int - b as int) % d as int == 0 || (a as int + b as int) % d as int == 0,
    ensures
        gcd_of(a, d) == gcd_of(b, d),
{
    let g1 = gcd_of(a, d);
    let g2 = gcd_of(b, d);
    lemma_gcd_divides(a, d);
    lemma_gcd_divides(b, d);
    if (a as int - b as int) % d as int == 0 {
        lemma_mul_of_divisible(a as int - b as int, 1, d as int);
        assert((a as int - b as int) * 1 == a as int - b as int);
        assert(-(a as int - b as int) == b as int - a as int);
        assert((b as int - a as int) % d as int == 0);
    } else {
        assert((b as int + a as int) % d as int == 0);
    }
    lemma_congruent_divisor(a, b, d, g1);
    lemma_congruent_divisor(b, a, d, g2);
    lemma_gcd_greatest(b, d, g1);
    lemma_gcd_greatest(a, d, g2);
}

/// A common divisor of `a` and `d` also divides anything congruent to
/// `a` up to sign modulo `d`.
proof fn lemma_congruent_divisor(a: nat, b: nat, d: nat, c: nat)
    requires
        d > 0,
        c > 0,
        a % c == 0,
        d % c == 0,
        (a as int - b as int) % d as int == 0 || (a as int + b as int) % d as int == 0,
    ensures
        b % c == 0,
{
    let ai = a as int;
    let bi = b as int;
    let di = d as int;
    let ci = c as int;
    if (ai - bi) % di == 0 {
        lemma_fundamental_div_mod(ai - bi, di);
        let k = (ai - bi) / di;
        assert(ai - bi == di * k);
        lemma_mul_of_divisible(di, k, ci);
        assert((-(di * k)) % ci == 0);
        lemma_add_mod_noop(ai, -(di * k), ci);
        vstd::arithmetic::div_mod::lemma_small_mod(0, ci as nat);
        assert((ai + -(di * k)) % ci == 0);
        assert(bi == ai + -(di * k));
        assert(bi % ci == 0);
    } else {
        lemma_fundamental_div_mod(ai + bi, di);
        let k = (ai + bi) / di;
        assert(ai + bi == di * k);
        lemma_mul_of_divisible(di, k, ci);
        assert((di * k) % ci == 0);
        lemma_mul_of_divisible(ai, 1, ci);
        assert(ai * 1 == ai);
        assert((-ai) % ci == 0);
        lemma_add_mod_noop(di * k, -ai, ci);
        vstd::arithmetic::div_mod::lemma_small_mod(0, ci as nat);
        assert((di * k + -ai) % ci == 0);
        assert(bi == di * k + -ai);
        assert(bi % ci == 0);
    }
}

/// The gcd is symmetric in its arguments.
pub proof fn lemma_gcd_sym(a: nat, b: nat)
    requires
        a > 0 || b > 0,
    ensures
        gcd_of(a, b) == gcd_of(b, a),
{
    if a == 0 {
        assert(gcd_of(0, b) == gcd_of(b, 0nat % b));
        vstd::arithmetic::div_mod::lemma_small_mod(0, b);
        assert(gcd_of(0, b) == gcd_of(b, 0));
    } else if b == 0 {
        assert(gcd_of(0, a) == gcd_of(a, 0nat % a));
        vstd::arithmetic::div_mod::lemma_small_mod(0, a);
    } else {
        lemma_gcd_divides(a, b);
        lemma_gcd_divides(b, a);
        lemma_gcd_greatest(b, a, gcd_of(a, b));
        lemma_gcd_greatest(a, b, gcd_of(b, a));
    }
}

/// Divisibility is transitive.
pub proof fn lemma_divides_trans(a: nat, b: nat, c: nat)
    requires
        b > 0,
        c > 0,
        a % b == 0,
        b % c == 0,
    ensures
        a % c == 0,
{
    lemma_fundamental_div_mod(a as int, b as int);
    lemma_fundamental_div_mod(b as int, c as int);
    let k = a as int / b as int;
    let m = b as int / c as int;
    assert(a as int == (m * k) * c as int) by (nonlinear_arith)
        requires
            a as int == b as int * k,
            b as int == c as int * m,
    ;
    vstd::arithmetic::div_mod::lemma_mod_multiples_basic(m * k, c as int);
}

/// Divisors of coprime values are coprime.
pub proof fn lemma_coprime_divisors(a: nat, b: nat, a1: nat, b1: nat)
    requires
        b > 0,
        a1 > 0,
        b1 > 0,
        gcd_of(a, b) == 1,
        a % a1 == 0,
        b % b1 == 0,
    ensures
        gcd_of(a1, b1) == 1,
{
    let d = gcd_of(a1, b1);
    lemma_gcd_divides(a1, b1);
    lemma_divides_trans(a, a1, d);
    lemma_divides_trans(b, b1, d);
    lemma_gcd_greatest(a, b, d);
}

/// Bezout's identity: some integer combination of the arguments equals
/// their gcd.
pub proof fn lemma_bezout(a: nat, b: nat)
    ensures
        exists|x: int, y: int|
            #![trigger a as int * x, b as int * y]
            a as int * x + b as int * y == gcd_of(a, b),
    decreases b,
{
    if b == 0 {
        assert(a as int * 1 + b as int * 0 == gcd_of(a, 0)) by (nonlinear_arith)
            requires
                gcd_of(a, 0) == a,
        ;
    } else {
        lemma_bezout(b, a % b);
        let (x0, y0) = choose|x: int, y: int|
            #![trigger b as int * x, (a % b) as int * y]
            b as int * x + (a % b) as int * y == gcd_of(b, a % b);
        lemma_fundamental_div_mod(a as int, b as int);
        let q = a as int / b as int;
        assert(a as int * y0 + b as int * (x0 - q * y0) == gcd_of(a, b)) by (nonlinear_arith)
            requires
                b as int * x0 + (a % b) as int * y0 == gcd_of(a, b),
                (a % b) as int == a as int - b as int * q,
        ;
    }
}

/// A value coprime with each of two factors is coprime with their
/// product.
pub proof fn lemma_coprime_mul(a: nat, b: nat, c: nat)
    requires
        b > 0,
        c > 0,
        gcd_of(a, b) == 1,
        gcd_of(a, c) == 1,
    ensures
        gcd_of(a, b * c) == 1,
{
    let bc = b * c;
    assert(bc > 0) by (nonlinear_arith)
        requires
            bc == b * c,
            b > 0,
            c > 0,
    ;
    let d = gcd_of(a, bc);
    lemma_gcd_divides(a, bc);
    // Bezout on (a, b), scaled by c: d divides c.
    lemma_bezout(a, b);
    let (x, y) = choose|x: int, y: int|
        #![trigger a as int * x, b as int * y]
        a as int * x + b as int * y == gcd_of(a, b);
    lemma_mul_of_divisible(a as int, x * c as int, d as int);
    lemma_mul_of_divisible(bc as int, y, d as int);
    lemma_add_mod_noop(a as int * (x * c as int), bc as int * y, d as int);
    vstd::arithmetic::div_mod::lemma_small_mod(0, d as nat);
    assert(c as int == a as int * (x * c as int) + bc as int * y) by (nonlinear_arith)
        requires
            a as int * x + b as int * y == 1,
            bc == b * c,
    ;
    assert(c as int % d as int == 0);
    // d divides a and c, which are coprime.
    lemma_gcd_greatest(a, c, d);
}

/// Two pairwise-coprime pairs stay coprime after multiplying across.
pub proof fn lemma_coprime_pair_product(pa: nat, pb: nat, da: nat, db: nat)
    requires
        pa > 0,
        pb > 0,
        da > 0,
        db > 0,
        gcd_of(pa, da) == 1,
        gcd_of(pa, db) == 1,
        gcd_of(pb, da) == 1,
        gcd_of(pb, db) == 1,
    ensures
        gcd_of(pa * pb, da * db) == 1,
{
    lemma_coprime_mul(pa, da, db);
    lemma_coprime_mul(pb, da, db);
    let dd = da * db;
    assert(dd > 0) by (nonlinear_arith)
        requires
            dd == da * db,
            da > 0,
            db > 0,
    ;
    lemma_gcd_sym(pa, dd);
    lemma_gcd_sym(pb, dd);
    lemma_coprime_mul(dd, pa, pb);
    assert(pa * pb > 0) by (nonlinear_arith)
        requires
            pa > 0,
            pb > 0,
    ;
    lemma_gcd_sym(dd, pa * pb);
}

/// Quotient of the sign-magnitude decomposition: round toward zero.
pub open spec fn mixed_q(n: int, d: int) -> int {
    if n >= 0 {
        n / d
    } else {
        -((-n) / d)
    }
}

/// Remainder of the sign-magnitude decomposition: carries the sign of `n`.
pub open spec fn mixed_r(n: int, d: int) -> int {
    if n >= 0 {
        n % d
    } else {
        -((-n) % d)
    }
}

/// The decomposition recombines to `n`, its remainder is a proper
/// fraction, and quotient and remainder never take opposite signs.
pub proof fn lemma_mixed_basics(n: int, d: int)
    requires
        d > 0,
    ensures
        n == mixed_q(n, d) * d + mixed_r(n, d),
        abs_of(mixed_r(n, d)) < d,
        abs_of(mixed_r(n, d)) == abs_of(n) % d as nat,
        abs_of(mixed_q(n, d)) == abs_of(n) / d as nat,
        n >= 0 ==> mixed_q(n, d) >= 0 && mixed_r(n, d) >= 0,
        n <= 0 ==> mixed_q(n, d) <= 0 && mixed_r(n, d) <= 0,
{
    if n >= 0 {
        lemma_fundamental_div_mod(n, d);
        vstd::arithmetic::div_mod::lemma_div_pos_is_pos(n, d);
        assert((n / d) * d == d * (n / d)) by (nonlinear_arith);
    } else {
        lemma_fundamental_div_mod(-n, d);
        vstd::arithmetic::div_mod::lemma_div_pos_is_pos(-n, d);
        assert(-n == d * ((-n) / d) + (-n) % d);
        assert(n == -((-n) / d) * d + -((-n) % d)) by (nonlinear_arith)
            requires
                -n == d * ((-n) / d) + (-n) % d,
        ;
    }
}

/// Any decomposition with a proper remainder and sign-consistent parts
/// is the sign-magnitude decomposition.
pub proof fn lemma_mixed_unique(n: int, d: int, q: int, r: int)
    requires
        d > 0,
        n == q * d + r,
        -d < r < d,
        q > 0 ==> r >= 0,
        q < 0 ==> r <= 0,
    ensures
        q == mixed_q(n, d),
        r == mixed_r(n, d),
{
    if q >= 0 && r >= 0 {
        assert(n >= 0) by (nonlinear_arith)
            requires
                n == q * d + r,
                q >= 0,
                r >= 0,
                d > 0,
        ;
        lemma_fundamental_div_mod_converse(n, d, q, r);
    } else {
        assert(q <= 0 && r <= 0);
        assert(-n == (-q) * d + (-r)) by (nonlinear_arith)
            requires
                n == q * d + r,
        ;
        assert(-n >= 0) by (nonlinear_arith)
            requires
                -n == (-q) * d + (-r),
                q <= 0,
                r <= 0,
                d > 0,
        ;
        lemma_fundamental_div_mod_converse(-n, d, -q, -r);
        assert(-q == (-n) / d);
        assert(-r == (-n) % d);
        if n == 0 {
            vstd::arithmetic::div_mod::lemma_div_of0(d);
            vstd::arithmetic::div_mod::lemma_small_mod(0, d as nat);
        }
    }
}

/// Exact division distributes over the sign: for a divisible numerator,
/// the Euclidean quotient is the signed magnitude quotient.
pub proof fn lemma_div_exact_signed(x: int, g: int)
    requires
        g > 0,
        x % g == 0,
    ensures
        x >= 0 ==> x / g == abs_of(x) as int / g,
        x < 0 ==> x / g == -(abs_of(x) as int / g),
        (x / g) * g == x,
        abs_of(x / g) == abs_of(x) / g as nat,
{
    lemma_fundamental_div_mod(x, g);
    assert(x == g * (x / g));
    assert((x / g) * g == g * (x / g)) by (nonlinear_arith);
    if x >= 0 {
        vstd::arithmetic::div_mod::lemma_div_pos_is_pos(x, g);
    } else {
        let m = x / g;
        assert(m < 0) by (nonlinear_arith)
            requires
                x == g * m,
                x < 0,
                g > 0,
        ;
        assert(-x == g * (-m)) by (nonlinear_arith)
            requires
                x == g * m,
        ;
        vstd::arithmetic::div_mod::lemma_mod_multiples_basic(-m, g);
        assert((-m) * g == g * (-m)) by (nonlinear_arith);
        assert((-x) % g == 0);
        lemma_fundamental_div_mod_converse(-x, g, -m, 0);
    }
}

} // verus!
