//! Fixed-point arithmetic on signed 64-bit counts of `1 / UNIT`.
//!
//! A quantity `x` stands for the real number `value(x)`, which is
//! `x / UNIT`: twelve decimal places, and a range of about nine million
//! either way. Sums and differences are exact. A product or a quotient is
//! the real result with what follows its twelfth decimal place dropped, and
//! every result that leaves the 64-bit range is replaced by the nearest end
//! of it.

use vstd::prelude::*;
use vstd::arithmetic::div_mod::{lemma_div_is_ordered, lemma_div_multiples_vanish};

verus! {

/// The count that stands for the real number one.
pub const UNIT: i64 = 1_000_000_000_000;

/// Whether `x` is a count that a quantity can hold.
pub open spec fn fits(x: int) -> bool {
    i64::MIN <= x <= i64::MAX
}

/// The count nearest to `x` that a quantity can hold.
pub open spec fn clamp(x: int) -> int {
    if x < i64::MIN {
        i64::MIN as int
    } else if x > i64::MAX {
        i64::MAX as int
    } else {
        x
    }
}

/// The count nearest to `x` among those that a quantity can hold together
/// with their negatives.
pub open spec fn bound(x: int) -> int {
    if x < -i64::MAX {
        -i64::MAX
    } else if x > i64::MAX {
        i64::MAX as int
    } else {
        x
    }
}

/// The real number that a count stands for.
pub open spec fn value(x: int) -> real {
    (x as real) / (UNIT as real)
}

/// Whether the whole number `q` is the real number `x` rounded toward
/// zero.
pub open spec fn rounds_to(x: real, q: int) -> bool {
    if x >= (0 as real) {
        (q as real) <= x && x < ((q + 1) as real)
    } else {
        ((q - 1) as real) < x && x <= (q as real)
    }
}

/// The count that stands for the real number `x`, with what follows the
/// twelfth decimal place of `x` dropped.
pub open spec fn count(x: real) -> int {
    choose|q: int| #[trigger] rounds_to(x * (UNIT as real), q)
}

/// The product of two quantities as a quantity.
pub open spec fn product(a: int, b: int) -> int {
    clamp(count(value(a) * value(b)))
}

/// The quotient of the whole number `a` by a positive `b`, rounded toward
/// zero.
pub open spec fn quot(a: int, b: int) -> int
    recommends
        b > 0,
{
    if a >= 0 {
        a / b
    } else {
        -((-a) / b)
    }
}

/// A real number rounds toward zero to one whole number only.
pub proof fn lemma_rounds_to_one(x: real, p: int, q: int)
    requires
        rounds_to(x, p),
        rounds_to(x, q),
    ensures
        p == q,
{
}

/// The count of `x` is the one whole number that `x * UNIT` rounds to.
pub proof fn lemma_count(x: real, q: int)
    requires
        rounds_to(x * (UNIT as real), q),
    ensures
        count(x) == q,
{
    lemma_rounds_to_one(x * (UNIT as real), count(x), q);
}

/// Sums and differences of quantities are exact.
pub proof fn lemma_value_sum(a: int, b: int)
    ensures
        value(a + b) == value(a) + value(b),
        value(a - b) == value(a) - value(b),
{
    let u = UNIT as real;
    assert(((a + b) as real) / u == (a as real) / u + (b as real) / u) by (nonlinear_arith)
        requires
            u == 1_000_000_000_000 as real,
    ;
    assert(((a - b) as real) / u == (a as real) / u - (b as real) / u) by (nonlinear_arith)
        requires
            u == 1_000_000_000_000 as real,
    ;
}

/// A count stands for a real number whose count it is.
pub proof fn lemma_count_value(q: int)
    ensures
        count(value(q)) == q,
{
    let u = UNIT as real;
    assert(value(q) * u == (q as real)) by (nonlinear_arith)
        requires
            value(q) == (q as real) / u,
            u == 1_000_000_000_000 as real,
    ;
    lemma_count(value(q), q);
}

/// The whole quotient rounded toward zero is the real quotient rounded
/// toward zero.
pub proof fn lemma_quot_rounds(a: int, b: int)
    requires
        b > 0,
    ensures
        rounds_to((a as real) / (b as real), quot(a, b)),
{
    let q = quot(a, b);
    let x = (a as real) / (b as real);
    if a >= 0 {
        assert(q * b <= a < (q + 1) * b) by (nonlinear_arith)
            requires
                q == a / b,
                b > 0,
        ;
        assert((q as real) <= x && x < ((q + 1) as real)) by (nonlinear_arith)
            requires
                q * b <= a < (q + 1) * b,
                b > 0,
                x == (a as real) / (b as real),
        ;
    } else {
        let m = (-a) / b;
        assert(m * b <= -a < (m + 1) * b) by (nonlinear_arith)
            requires
                m == (-a) / b,
                b > 0,
        ;
        assert(((q - 1) as real) < x && x <= (q as real) && x < (0 as real))
            by (nonlinear_arith)
            requires
                m * b <= -a < (m + 1) * b,
                q == -m,
                b > 0,
                a < 0,
                x == (a as real) / (b as real),
        ;
    }
}

/// Rounding toward zero never moves a quotient away from zero, and keeps
/// its sign.
pub proof fn lemma_quot_bounds(a: int, b: int)
    requires
        b > 0,
    ensures
        a >= 0 ==> 0 <= quot(a, b) <= a,
        a <= 0 ==> a <= quot(a, b) <= 0,
{
    if a >= 0 {
        assert(0 <= a / b <= a) by (nonlinear_arith)
            requires
                a >= 0,
                b > 0,
        ;
    } else {
        assert(0 <= (-a) / b <= -a) by (nonlinear_arith)
            requires
                -a >= 0,
                b > 0,
        ;
    }
}

/// How a product is computed: the whole product of the counts, divided by
/// `UNIT`.
pub proof fn lemma_product_count(a: int, b: int)
    ensures
        product(a, b) == clamp(quot(a * b, UNIT as int)),
{
    lemma_quot_rounds(a * b, UNIT as int);
    let u = UNIT as real;
    assert(value(a) * value(b) * u == ((a * b) as real) / u) by (nonlinear_arith)
        requires
            value(a) == (a as real) / u,
            value(b) == (b as real) / u,
            u == 1_000_000_000_000 as real,
    ;
    lemma_count(value(a) * value(b), quot(a * b, UNIT as int));
}

/// The magnitude of a whole number.
pub open spec fn abs(x: int) -> int {
    if x < 0 {
        -x
    } else {
        x
    }
}

/// A product with a factor between minus one and one is no larger in
/// magnitude than the other factor.
pub proof fn lemma_product_damped(a: int, f: int)
    requires
        fits(a),
        -UNIT <= f <= UNIT,
    ensures
        -abs(a) <= product(a, f) <= abs(a),
{
    lemma_product_count(a, f);
    let u: int = UNIT as int;
    let m: int = abs(a);
    assert(-(m * u) <= a * f <= m * u) by (nonlinear_arith)
        requires
            -u <= f <= u,
            m >= 0,
            a == m || a == -m,
    ;
    lemma_quot_bounds(a * f, u);
    if a * f >= 0 {
        assert((a * f) / u <= m) by (nonlinear_arith)
            requires
                0 <= a * f <= m * u,
                u > 0,
        ;
    } else {
        assert((-(a * f)) / u <= m) by (nonlinear_arith)
            requires
                0 <= -(a * f) <= m * u,
                u > 0,
        ;
    }
}

/// A product of a factor that is not negative has the sign of the other
/// factor.
pub proof fn lemma_product_sign(a: int, f: int)
    requires
        a >= 0,
    ensures
        f >= 0 ==> product(a, f) >= 0,
        f <= 0 ==> product(a, f) <= 0,
{
    lemma_product_count(a, f);
    assert(f >= 0 ==> a * f >= 0) by (nonlinear_arith)
        requires
            a >= 0,
    ;
    assert(f <= 0 ==> a * f <= 0) by (nonlinear_arith)
        requires
            a >= 0,
    ;
    lemma_quot_bounds(a * f, UNIT as int);
}

/// Of two products of factors that are not negative, the one with the
/// larger factors is the larger.
pub proof fn lemma_larger_products(a: int, b: int, c: int, d: int)
    requires
        a >= b >= 0,
        c >= d >= 0,
    ensures
        a * c >= b * d >= 0,
{
    assert(a * c >= b * d >= 0) by (nonlinear_arith)
        requires
            a >= b >= 0,
            c >= d >= 0,
    ;
}

/// A product of factors that are not negative is not negative, and its
/// count times `UNIT` is at most the whole product of the counts.
pub proof fn lemma_product_below(a: int, b: int)
    requires
        a >= 0,
        b >= 0,
    ensures
        0 <= product(a, b),
        product(a, b) * 1_000_000_000_000 <= a * b,
{
    lemma_product_count(a, b);
    lemma_larger_products(a, 0, b, 0);
    let x = a * b;
    let q = x / 1_000_000_000_000;
    assert(0 <= q && q * 1_000_000_000_000 <= x);
}

/// A product is not nothing where the exact product of the counts is at
/// least one count of the result.
pub proof fn lemma_product_strict(a: int, f: int)
    ensures
        a * f >= UNIT ==> product(a, f) > 0,
        a * f <= -UNIT ==> product(a, f) < 0,
{
    lemma_product_count(a, f);
    let u: int = UNIT as int;
    lemma_div_multiples_vanish(1, u);
    if a * f >= u {
        lemma_div_is_ordered(u, a * f, u);
    }
    if a * f <= -u {
        lemma_div_is_ordered(u, -(a * f), u);
    }
}

/// The product of two 64-bit values, and of one with a value slightly
/// outside that range, fits in 128 bits with room to spare.
pub proof fn lemma_wide_product(a: int, b: int)
    requires
        -0x8000_0000_0000_0000 <= a <= 0x8000_0000_0000_0000,
        -0x8001_0000_0000_0000 <= b <= 0x8001_0000_0000_0000,
    ensures
        -0x4000_8000_0000_0000_0000_0000_0000_0000 <= a * b
            <= 0x4000_8000_0000_0000_0000_0000_0000_0000,
{
    assert(-0x4000_8000_0000_0000_0000_0000_0000_0000 <= a * b
        <= 0x4000_8000_0000_0000_0000_0000_0000_0000) by (nonlinear_arith)
        requires
            -0x8000_0000_0000_0000 <= a <= 0x8000_0000_0000_0000,
            -0x8001_0000_0000_0000 <= b <= 0x8001_0000_0000_0000,
    ;
}

/// Brings a wide intermediate result back into the 64-bit range.
pub fn saturate(x: i128) -> (r: i64)
    ensures
        r == clamp(x as int),
{
    if x < i64::MIN as i128 {
        i64::MIN
    } else if x > i64::MAX as i128 {
        i64::MAX
    } else {
        x as i64
    }
}

/// Divides `a` by a positive `b`, rounding toward zero.
pub(crate) fn divide(a: i128, b: i128) -> (r: i128)
    requires
        b > 0,
        a > i128::MIN,
    ensures
        r == quot(a as int, b as int),
{
    proof {
        lemma_quot_bounds(a as int, b as int);
    }
    if a >= 0 {
        a / b
    } else {
        let m: i128 = -a;
        let q: i128 = m / b;
        -q
    }
}

/// Multiplies two quantities.
pub fn times(a: i64, b: i64) -> (r: i64)
    ensures
        r == product(a as int, b as int),
{
    proof {
        lemma_wide_product(a as int, b as int);
        lemma_product_count(a as int, b as int);
    }
    let wide: i128 = (a as i128) * (b as i128);
    saturate(divide(wide, UNIT as i128))
}

} // verus!
