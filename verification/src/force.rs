//! The soft-core repulsion between two cars: the law, and its exact
//! evaluation.

use vstd::prelude::*;
use crate::fixed::{
    bound, count, lemma_count, lemma_larger_products, lemma_quot_rounds, quot, value, UNIT,
};
use crate::wide::{at_most, lemma_val_push, mul_add, val};
use vstd::arithmetic::div_mod::{
    lemma_div_is_ordered, lemma_div_multiples_vanish, lemma_fundamental_div_mod_converse_div,
};

verus! {

/// The soft-core profile `12 t^12 - 6 t^6` of the ratio `t` of the demanded
/// gap to the actual one: positive where the cars are closer than demanded.
pub open spec fn soft_core(t: real) -> real {
    let t2 = t * t;
    let t6 = t2 * t2 * t2;
    (12 as real) * (t6 * t6) - (6 as real) * t6
}

/// The strength of the repulsion between two cars a distance `r` apart, of
/// which one demands the gap `gap`: `4 / r` times the soft-core profile of
/// `gap / r`, rounded once. Positive where it pushes the cars apart.
pub open spec fn repulsion(gap: int, r: int) -> int
    recommends
        r > 0,
{
    count((4 as real) / value(r) * soft_core(value(gap) / value(r)))
}

/// The sixth power of a whole number.
pub open spec fn sixth(x: int) -> int {
    let square = x * x;
    square * square * square
}

/// The whole number over which the repulsion is computed.
pub open spec fn repulsion_over(gap: int, r: int) -> int {
    48 * UNIT * UNIT * (sixth(gap) * sixth(gap)) - 24 * UNIT * UNIT * (sixth(gap) * sixth(r))
}

/// The whole number under which the repulsion is computed: the thirteenth
/// power of the separation.
pub open spec fn repulsion_under(r: int) -> int {
    sixth(r) * sixth(r) * r
}

/// The square of a product is the product of the squares.
proof fn lemma_square_of_product(a: real, b: real)
    ensures
        (a * b) * (a * b) == (a * a) * (b * b),
{
    assert((a * b) * (a * b) == (a * a) * (b * b)) by (nonlinear_arith);
}

/// The cube of a product is the product of the cubes.
proof fn lemma_cube_of_product(a: real, b: real)
    ensures
        (a * b) * (a * b) * (a * b) == (a * a * a) * (b * b * b),
{
    assert((a * b) * (a * b) * (a * b) == (a * a * a) * (b * b * b)) by (nonlinear_arith);
}

/// The profile of `t`, times the square of `r`, in terms of `t * r`.
proof fn lemma_core_scaled(t: real, r: real)
    ensures
        ((12 as real) * (t * t) - (6 as real) * t) * (r * r) == (12 as real) * ((t * r) * (t * r))
            - (6 as real) * ((t * r) * r),
{
    assert(((12 as real) * (t * t) - (6 as real) * t) * (r * r) == (12 as real) * ((t * r) * (t
        * r)) - (6 as real) * ((t * r) * r)) by (nonlinear_arith);
}

/// The force times `UNIT` times the thirteenth power of the separation,
/// gathered from its parts.
proof fn lemma_gather(x: real, u: real, s: real, r: real, c: real, k: real)
    requires
        x * r == (4 as real) * u * c,
        c * s == k,
    ensures
        (x * u) * (s * r) == (4 as real) * u * u * k,
{
    let xr = x * r;
    let cs = c * s;
    assert((x * u) * (s * r) == u * (xr * s)) by (nonlinear_arith)
        requires
            xr == x * r,
    ;
    assert(u * (((4 as real) * u * c) * s) == (4 as real) * u * u * cs) by (nonlinear_arith)
        requires
            cs == c * s,
    ;
}

/// Four times a difference of twelve and six parts, written out.
proof fn lemma_split(u: real, a: real, b: real)
    ensures
        (4 as real) * u * u * ((12 as real) * a - (6 as real) * b) == (48 as real) * u * u * a
            - (24 as real) * u * u * b,
{
    assert((4 as real) * u * u * ((12 as real) * a - (6 as real) * b) == (48 as real) * u * u * a
        - (24 as real) * u * u * b) by (nonlinear_arith);
}

/// A whole product stands for the product of the reals.
proof fn lemma_cast_product(a: int, b: int)
    ensures
        ((a * b) as real) == (a as real) * (b as real),
{
    assert(((a * b) as real) == (a as real) * (b as real)) by (nonlinear_arith);
}

/// A ratio of two quantities, times the count of the divisor, is the count
/// of the dividend.
proof fn lemma_ratio_times(g: real, r: real, u: real)
    requires
        u > 0 as real,
        r > 0 as real,
    ensures
        ((g / u) / (r / u)) * r == g,
{
    let a = g / u;
    let b = r / u;
    assert(a * u == g && b * u == r && b > 0 as real) by (nonlinear_arith)
        requires
            a == g / u,
            b == r / u,
            u > 0 as real,
            r > 0 as real,
    ;
    let t = a / b;
    assert(t * b == a) by (nonlinear_arith)
        requires
            t == a / b,
            b > 0 as real,
    ;
    assert(t * r == (t * b) * u) by (nonlinear_arith)
        requires
            r == b * u,
    ;
}

/// Four over the separation, times the count of the separation, is four
/// times `UNIT`.
proof fn lemma_force_times(c: real, r: real, u: real)
    requires
        u > 0 as real,
        r > 0 as real,
    ensures
        ((4 as real) / (r / u) * c) * r == (4 as real) * u * c,
{
    let b = r / u;
    assert(b * u == r && b > 0 as real) by (nonlinear_arith)
        requires
            b == r / u,
            u > 0 as real,
            r > 0 as real,
    ;
    let f = (4 as real) / b;
    assert(f * b == 4 as real) by (nonlinear_arith)
        requires
            f == (4 as real) / b,
            b > 0 as real,
    ;
    assert((f * c) * r == (f * b) * (u * c)) by (nonlinear_arith)
        requires
            r == b * u,
    ;
    assert((4 as real) * (u * c) == (4 as real) * u * c) by (nonlinear_arith);
}

/// What gives `n` when multiplied by a positive `d` is `n / d`.
proof fn lemma_quotient_of(p: real, d: real, n: real)
    requires
        p * d == n,
        d > 0 as real,
    ensures
        p == n / d,
{
    let q = n / d;
    assert(q * d == n) by (nonlinear_arith)
        requires
            q == n / d,
            d > 0 as real,
    ;
    assert((p - q) * d == p * d - q * d) by (nonlinear_arith);
    assert(p - q == 0 as real) by (nonlinear_arith)
        requires
            (p - q) * d == 0 as real,
            d > 0 as real,
    ;
}

/// A whole sixth power stands for the sixth power of the real, and is not
/// negative.
proof fn lemma_sixth_cast(x: int)
    ensures
        (sixth(x) as real) == ((x as real) * (x as real)) * ((x as real) * (x as real)) * ((
        x as real) * (x as real)),
        sixth(x) >= 0,
        x != 0 ==> sixth(x) > 0,
{
    let s = x * x;
    lemma_cast_product(x, x);
    lemma_cast_product(s, s);
    lemma_cast_product(s * s, s);
    assert(s >= 0 && (x != 0 ==> s > 0)) by (nonlinear_arith)
        requires
            s == x * x,
    ;
    assert(s * s * s >= 0 && (s > 0 ==> s * s * s > 0)) by (nonlinear_arith)
        requires
            s >= 0,
    ;
}

/// How the repulsion is computed: as the quotient of two whole numbers,
/// rounded toward zero.
pub proof fn lemma_repulsion_count(gap: int, r: int)
    requires
        r > 0,
    ensures
        repulsion_under(r) > 0,
        repulsion(gap, r) == quot(repulsion_over(gap, r), repulsion_under(r)),
{
    let u = UNIT as real;
    let g = gap as real;
    let rr = r as real;
    let t = value(gap) / value(r);
    lemma_ratio_times(g, rr, u);
    assert(t * rr == g);
    let t2 = t * t;
    let g2 = g * g;
    let r2 = rr * rr;
    lemma_square_of_product(t, rr);
    assert(t2 * r2 == g2);
    let t6 = t2 * t2 * t2;
    let g6 = g2 * g2 * g2;
    let r6 = r2 * r2 * r2;
    lemma_cube_of_product(t2, r2);
    assert(t6 * r6 == g6);
    let core = soft_core(t);
    assert(core == (12 as real) * (t6 * t6) - (6 as real) * t6);
    lemma_core_scaled(t6, r6);
    let k = (12 as real) * (g6 * g6) - (6 as real) * (g6 * r6);
    assert(core * (r6 * r6) == k);
    let x = (4 as real) / value(r) * core;
    lemma_force_times(core, rr, u);
    assert(x * rr == (4 as real) * u * core);
    lemma_gather(x, u, r6 * r6, rr, core, k);
    lemma_split(u, g6 * g6, g6 * r6);
    let nn = (48 as real) * u * u * (g6 * g6) - (24 as real) * u * u * (g6 * r6);
    let dd = (r6 * r6) * rr;
    assert((x * u) * dd == nn);
    let ig6 = sixth(gap);
    let ir6 = sixth(r);
    lemma_sixth_cast(gap);
    lemma_sixth_cast(r);
    assert((ig6 as real) == g6);
    assert((ir6 as real) == r6);
    lemma_cast_product(ig6, ig6);
    lemma_cast_product(ig6, ir6);
    lemma_cast_product(ir6, ir6);
    lemma_cast_product(ir6 * ir6, r);
    let over = repulsion_over(gap, r);
    let under = repulsion_under(r);
    let a = ig6 * ig6;
    let b = ig6 * ir6;
    assert(over == 48_000_000_000_000_000_000_000_000 * a - 24_000_000_000_000_000_000_000_000 * b)
        by (nonlinear_arith)
        requires
            over == 48 * 1_000_000_000_000 * 1_000_000_000_000 * a - 24 * 1_000_000_000_000
                * 1_000_000_000_000 * b,
    ;
    assert(nn == (48_000_000_000_000_000_000_000_000 as real) * (g6 * g6) - (
    24_000_000_000_000_000_000_000_000 as real) * (g6 * r6)) by (nonlinear_arith)
        requires
            nn == (48 as real) * u * u * (g6 * g6) - (24 as real) * u * u * (g6 * r6),
            u == 1_000_000_000_000 as real,
    ;
    assert((over as real) == nn);
    assert((under as real) == dd);
    assert(under > 0) by (nonlinear_arith)
        requires
            under == ir6 * ir6 * r,
            ir6 > 0,
            r > 0,
    ;
    lemma_quot_rounds(over, under);
    lemma_quotient_of(x * u, dd, nn);
    lemma_count(x, quot(over, under));
}

/// Two cars no farther apart than demanded push each other by at least one
/// count.
pub proof fn lemma_repulsion_positive(gap: int, r: int)
    requires
        0 < r <= u64::MAX,
        gap >= r,
    ensures
        repulsion(gap, r) >= 1,
{
    lemma_repulsion_count(gap, r);
    let g2 = gap * gap;
    let r2 = r * r;
    lemma_larger_products(gap, r, gap, r);
    lemma_larger_products(g2, r2, g2, r2);
    lemma_larger_products(g2 * g2, r2 * r2, g2, r2);
    let s = sixth(gap);
    let q = sixth(r);
    assert(s >= q >= 0);
    lemma_larger_products(s, q, s, q);
    lemma_larger_products(s, s, s, q);
    let over = repulsion_over(gap, r);
    let under = repulsion_under(r);
    lemma_over(s * s, s * q, over);
    lemma_larger_products(q * q, q * q, 0x1_0000_0000_0000_0000, r);
    assert(over >= under);
    lemma_div_multiples_vanish(1, under);
    lemma_div_is_ordered(under, over, under);
}

/// Two cars exactly as far apart as demanded push each other with the
/// strength `24 / r`.
pub proof fn lemma_repulsion_at_contact(r: int)
    requires
        r > 0,
    ensures
        repulsion(r, r) == count((24 as real) / value(r)),
{
    let v = value(r);
    let t = v / v;
    assert(v > 0 as real && t == 1 as real) by (nonlinear_arith)
        requires
            v == (r as real) / (1_000_000_000_000 as real),
            r > 0,
            t == v / v,
    ;
    let t2 = t * t;
    let t6 = t2 * t2 * t2;
    assert((12 as real) * (t6 * t6) - (6 as real) * t6 == 6 as real) by (nonlinear_arith)
        requires
            t == 1 as real,
            t2 == t * t,
            t6 == t2 * t2 * t2,
    ;
    let f = (4 as real) / v;
    assert(f * (6 as real) == (24 as real) / v) by (nonlinear_arith)
        requires
            f == (4 as real) / v,
            v > 0 as real,
    ;
}

/// A product of three factors can be taken from either end.
proof fn lemma_three_factors(v: int, a: int, b: int)
    ensures
        v * a * b == v * (a * b),
{
    assert(v * a * b == v * (a * b)) by (nonlinear_arith);
}

/// A product of four factors can be taken from either end.
proof fn lemma_three_squares(v: int, s: int)
    ensures
        v * s * s * s == v * (s * s * s),
{
    assert(v * s * s * s == v * (s * s * s)) by (nonlinear_arith);
}

/// The number `x * m^6`.
fn times_sixth(x: &Vec<u64>, m: u64) -> (res: Vec<u64>)
    ensures
        val(res@) == val(x@) * sixth(m as int),
{
    let none: Vec<u64> = Vec::new();
    let x1 = mul_add(x, m, &none);
    let x2 = mul_add(&x1, m, &none);
    let x3 = mul_add(&x2, m, &none);
    let x4 = mul_add(&x3, m, &none);
    let x5 = mul_add(&x4, m, &none);
    let x6 = mul_add(&x5, m, &none);
    proof {
        let v = val(x@);
        let k = m as int;
        let s = k * k;
        lemma_three_factors(v, k, k);
        lemma_three_factors(val(x2@), k, k);
        lemma_three_factors(val(x4@), k, k);
        assert(val(x6@) == v * s * s * s);
        lemma_three_squares(v, s);
    }
    x6
}

/// The factors of a product can change places.
proof fn lemma_commutes(a: int, b: int)
    ensures
        a * b == b * a,
{
    assert(a * b == b * a) by (nonlinear_arith);
}

/// One more than `a`, times `d`, is `d` more than `a` times `d`.
proof fn lemma_next(a: int, d: int)
    ensures
        (a + 1) * d == a * d + d,
{
    assert((a + 1) * d == a * d + d) by (nonlinear_arith);
}

/// The quotient of `hi - lo` by `d`, or the largest count if that is
/// smaller.
fn quotient(hi: &Vec<u64>, lo: &Vec<u64>, d: &Vec<u64>) -> (q: u64)
    requires
        val(lo@) <= val(hi@),
        val(d@) > 0,
    ensures
        q <= i64::MAX,
        (val(hi@) - val(lo@)) / val(d@) <= i64::MAX ==> q == (val(hi@) - val(lo@)) / val(d@),
        (val(hi@) - val(lo@)) / val(d@) > i64::MAX ==> q == i64::MAX,
{
    let ghost n = val(hi@) - val(lo@);
    let ghost dv = val(d@);
    let top: u64 = 0x7fff_ffff_ffff_ffff;
    if at_most(&mul_add(d, top, lo), hi) {
        proof {
            lemma_div_multiples_vanish(top as int, dv);
            lemma_commutes(top as int, dv);
            lemma_div_is_ordered(dv * top, n, dv);
        }
        return top;
    }
    let mut low: u64 = 0;
    let mut high: u64 = top;
    while high - low > 1
        invariant
            low < high <= top,
            low * dv <= n,
            high * dv > n,
            n == val(hi@) - val(lo@),
            dv == val(d@),
            dv > 0,
        decreases high - low,
    {
        let mid: u64 = low + (high - low) / 2;
        proof {
            lemma_commutes(mid as int, dv);
        }
        if at_most(&mul_add(d, mid, lo), hi) {
            low = mid;
        } else {
            high = mid;
        }
    }
    proof {
        lemma_next(low as int, dv);
        lemma_fundamental_div_mod_converse_div(n, dv, low as int, n - low * dv);
    }
    low
}

/// One times a number is that number.
proof fn lemma_one_times(v: int, q: int)
    requires
        v == 1,
    ensures
        v * q == q,
{
    assert(v * q == q) by (nonlinear_arith)
        requires
            v == 1,
    ;
}

/// A number and its negative have the same square.
proof fn lemma_negation_squares(x: int)
    ensures
        (-x) * (-x) == x * x,
{
    assert((-x) * (-x) == x * x) by (nonlinear_arith);
}

/// The whole number over which the repulsion is computed, with its
/// constants multiplied out.
proof fn lemma_over(a: int, b: int, over: int)
    requires
        over == 48 * UNIT * UNIT * a - 24 * UNIT * UNIT * b,
    ensures
        over == 48_000_000_000_000_000_000_000_000 * a - 24_000_000_000_000_000_000_000_000 * b,
{
    assert(over == 48_000_000_000_000_000_000_000_000 * a - 24_000_000_000_000_000_000_000_000 * b)
        by (nonlinear_arith)
        requires
            over == 48 * 1_000_000_000_000 * 1_000_000_000_000 * a - 24 * 1_000_000_000_000
                * 1_000_000_000_000 * b,
    ;
}

/// The repulsion between two cars `r` apart of which one demands the gap
/// `gap`, kept within what a quantity and its negative can hold.
pub(crate) fn push(gap: i64, r: u64) -> (res: i64)
    requires
        r > 0,
    ensures
        res == bound(repulsion(gap as int, r as int)),
{
    let a: u64 = if gap >= 0 {
        gap as u64
    } else {
        (-(gap as i128)) as u64
    };
    let unit: u64 = UNIT as u64;
    let none: Vec<u64> = Vec::new();
    let mut one: Vec<u64> = Vec::new();
    proof {
        lemma_val_push(one@, 1u64);
    }
    one.push(1);
    let weak = mul_add(&mul_add(&mul_add(&one, 24, &none), unit, &none), unit, &none);
    let strong = mul_add(&weak, 2, &none);
    let x = times_sixth(&times_sixth(&strong, a), a);
    let y = times_sixth(&times_sixth(&weak, a), r);
    let d = mul_add(&times_sixth(&times_sixth(&one, r), r), r, &none);
    proof {
        let ga = gap as int;
        let ra = r as int;
        lemma_repulsion_count(ga, ra);
        lemma_negation_squares(ga);
        assert(sixth(a as int) == sixth(ga));
        let s = sixth(ga);
        let q = sixth(ra);
        assert(val(weak@) == 24_000_000_000_000_000_000_000_000);
        assert(val(strong@) == 48_000_000_000_000_000_000_000_000);
        lemma_three_factors(val(strong@), s, s);
        lemma_three_factors(val(weak@), s, q);
        assert(val(x@) == 48_000_000_000_000_000_000_000_000 * (s * s));
        assert(val(y@) == 24_000_000_000_000_000_000_000_000 * (s * q));
        lemma_one_times(val(one@), q);
        assert(val(d@) == q * q * ra);
        lemma_over(s * s, s * q, repulsion_over(ga, ra));
    }
    if at_most(&y, &x) {
        let q = quotient(&x, &y, &d);
        q as i64
    } else {
        let q = quotient(&y, &x, &d);
        -(q as i64)
    }
}

} // verus!
