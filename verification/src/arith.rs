//! Integer helpers shared by the geometry modules.

use vstd::prelude::*;

verus! {

/// Division as Rust's `/` performs it on signed integers: the quotient is
/// rounded toward zero (Verus' own `/` in specifications is Euclidean).
pub open spec fn tdiv(a: int, b: int) -> int
    recommends
        b > 0,
{
    if a >= 0 {
        a / b
    } else {
        -((-a) / b)
    }
}

/// `ceil(a / b)` for a non-negative `a` and a positive `b`.
pub open spec fn ceil_div(a: int, b: int) -> int
    recommends
        a >= 0,
        b > 0,
{
    (a + b - 1) / b
}

/// `a.div_ceil(b)` for unsigned operands, without the intermediate sum that
/// could overflow.
pub fn usize_div_ceil(a: usize, b: usize) -> (r: usize)
    requires
        b > 0,
    ensures
        r == ceil_div(a as int, b as int),
{
    let q = a / b;
    if a % b == 0 {
        proof {
            lemma_ceil_of_exact(a as int, b as int);
        }
        q
    } else {
        proof {
            lemma_ceil_of_inexact(a as int, b as int);
            vstd::arithmetic::div_mod::lemma_fundamental_div_mod(a as int, b as int);
            assert(b >= 2);
            assert(q < usize::MAX) by (nonlinear_arith)
                requires
                    b >= 2,
                    q * b <= a,
                    a <= usize::MAX,
                    q >= 0,
            ;
        }
        q + 1
    }
}

/// The smallest multiple of `divisor` that is at least `value`:
/// `Mth.roundToward`, `positiveCeilDiv(value, divisor) * divisor`.
pub open spec fn round_toward_spec(value: int, divisor: int) -> int
    recommends
        divisor > 0,
{
    -((-value) / divisor) * divisor
}

/// `Mth.roundToward(value, divisor)` — rounds **up** to a multiple of
/// `divisor`, never to the nearest one.
pub fn round_toward(value: i32, divisor: i32) -> (r: i32)
    requires
        divisor > 0,
        value <= i32::MAX - divisor,
    ensures
        r == round_toward_spec(value as int, divisor as int),
        r >= value,
        r < value + divisor,
        r % divisor == 0,
{
    let q = value / divisor;
    proof {
        lemma_tdiv_bounds(value as int, divisor as int);
    }
    let qd = q * divisor;
    let up: i32 = if qd < value { q + 1 } else { q };
    proof {
        lemma_round_toward(value as int, divisor as int, up as int);
        vstd::arithmetic::div_mod::lemma_mod_multiples_basic(up as int, divisor as int);
    }
    up * divisor
}

/// What truncating division promises: `q * b` is within one `b` of `a`, on
/// the side of zero.
pub proof fn lemma_tdiv_bounds(a: int, b: int)
    requires
        b > 0,
    ensures
        a >= 0 ==> 0 <= a - tdiv(a, b) * b < b,
        a < 0 ==> -b < a - tdiv(a, b) * b <= 0,
        a >= 0 ==> tdiv(a, b) >= 0,
        a < 0 ==> tdiv(a, b) <= 0,
        a >= 0 ==> tdiv(a, b) <= a,
        a < 0 ==> tdiv(a, b) >= a,
{
    let n = if a >= 0 { a } else { -a };
    vstd::arithmetic::div_mod::lemma_fundamental_div_mod(n, b);
    let q = n / b;
    let r = n % b;
    assert(0 <= r < b);
    assert(q >= 0 && q <= n && q * b == n - r) by (nonlinear_arith)
        requires
            n == b * q + r,
            0 <= r < b,
            n >= 0,
            b > 0,
    ;
    assert((-q) * b == -(q * b)) by (nonlinear_arith);
}

/// `up`, the quotient bumped by one where truncation left a remainder above
/// zero, is the ceiling of `a / b`.
proof fn lemma_round_toward(a: int, b: int, up: int)
    requires
        b > 0,
        up == (if tdiv(a, b) * b < a { tdiv(a, b) + 1 } else { tdiv(a, b) }),
    ensures
        up == -((-a) / b),
        up * b >= a,
        up * b < a + b,
{
    lemma_tdiv_bounds(a, b);
    let fq = (-a) / b;
    let fr = (-a) % b;
    vstd::arithmetic::div_mod::lemma_fundamental_div_mod(-a, b);
    assert(0 <= fr < b);
    assert(-a == b * fq + fr);
    let t = tdiv(a, b);
    // a == b * (-fq) - fr, and a == t * b + rest with rest in (-b, b).
    assert(up == -fq) by (nonlinear_arith)
        requires
            -a == b * fq + fr,
            0 <= fr < b,
            a >= 0 ==> 0 <= a - t * b < b,
            a < 0 ==> -b < a - t * b <= 0,
            up == (if t * b < a { t + 1 } else { t }),
            b > 0,
    ;
    assert(up * b >= a && up * b < a + b) by (nonlinear_arith)
        requires
            -a == b * fq + fr,
            0 <= fr < b,
            up == -fq,
    ;
}

proof fn lemma_ceil_of_exact(a: int, b: int)
    requires
        a >= 0,
        b > 0,
        a % b == 0,
    ensures
        (a + b - 1) / b == a / b,
{
    vstd::arithmetic::div_mod::lemma_fundamental_div_mod(a, b);
    let q = a / b;
    assert(a + b - 1 == q * b + (b - 1)) by (nonlinear_arith)
        requires
            a == b * q + 0,
    ;
    vstd::arithmetic::div_mod::lemma_fundamental_div_mod_converse(a + b - 1, b, q, b - 1);
}

proof fn lemma_ceil_of_inexact(a: int, b: int)
    requires
        a >= 0,
        b > 0,
        a % b != 0,
    ensures
        (a + b - 1) / b == a / b + 1,
{
    vstd::arithmetic::div_mod::lemma_fundamental_div_mod(a, b);
    let q = a / b;
    let r = a % b;
    assert(a + b - 1 == (q + 1) * b + (r - 1)) by (nonlinear_arith)
        requires
            a == b * q + r,
    ;
    vstd::arithmetic::div_mod::lemma_fundamental_div_mod_converse(a + b - 1, b, q + 1, r - 1);
}

/// Rounding up to a multiple of `d` moves a value by less than `d`.
pub proof fn lemma_round_toward_range(v: int, d: int)
    requires
        d > 0,
    ensures
        v <= round_toward_spec(v, d) < v + d,
{
    vstd::arithmetic::div_mod::lemma_fundamental_div_mod(-v, d);
    let f = (-v) / d;
    let r = (-v) % d;
    assert(-f * d == v + r) by (nonlinear_arith)
        requires
            -v == d * f + r,
    ;
}

} // verus!
