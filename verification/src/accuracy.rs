//! How close rounded arithmetic stays to exact arithmetic on real numbers.

use vstd::arithmetic::power2::*;
use vstd::prelude::*;

use crate::binary64::Value;
use crate::order;
use crate::rounding;

verus! {

/// The real number that a finite number stands for.
#[verifier::opaque]
pub open spec fn exact(v: Value) -> real {
    v.signed() as real / pow2(1074) as real
}

/// The absolute value of a real number.
pub open spec fn size(x: real) -> real {
    if x < 0real {
        -x
    } else {
        x
    }
}

/// One part in 2 to the power of 53: what rounding changes at most.
pub open spec fn grain() -> real {
    1real / 9007199254740992real
}

/// The least positive number: more than what rounding changes where numbers
/// get tiny.
#[verifier::opaque]
pub open spec fn speck() -> real {
    1real / pow2(1074) as real
}

/// 2 to the power of 900: results up to this size are far from infinite.
pub open spec fn huge() -> real {
    pow2(900) as real
}

/// A greater factor, times what is not negative, gives no less.
pub proof fn lemma_scaled(a: real, b: real, c: real)
    requires
        a <= b,
        c >= 0real,
    ensures
        a * c <= b * c,
        c * a <= c * b,
{
    assert(a * c <= b * c && c * a <= c * b) by (nonlinear_arith)
        requires
            a <= b,
            c >= 0real,
    ;
}

/// What is divided and multiplied by one number is as before.
pub proof fn lemma_divided(a: real, c: real)
    requires
        c != 0real,
    ensures
        (a / c) * c == a,
        c * (a / c) == a,
{
    assert((a / c) * c == a && c * (a / c) == a) by (nonlinear_arith)
        requires
            c != 0real,
    ;
}

/// A positive factor on both sides may be left out.
pub proof fn lemma_cancelled(a: real, b: real, c: real)
    requires
        c > 0real,
    ensures
        a * c <= b * c ==> a <= b,
        a * c == b * c ==> a == b,
        a * c < b * c <==> a < b,
{
    assert(a * c < b * c <==> a < b) by (nonlinear_arith)
        requires
            c > 0real,
    ;
    assert(b * c < a * c <==> b < a) by (nonlinear_arith)
        requires
            c > 0real,
    ;
}

/// A quotient is what gives the dividend back.
pub proof fn lemma_quotient_is(a: real, c: real, q: real)
    requires
        c > 0real,
        q * c == a,
    ensures
        a / c == q,
{
    lemma_divided(a, c);
    lemma_cancelled(a / c, q, c);
}

/// A product of what is positive is positive.
pub proof fn lemma_positive_product(a: real, b: real)
    requires
        a > 0real,
        b > 0real,
    ensures
        a * b > 0real,
{
    assert(a * b > 0real) by (nonlinear_arith)
        requires
            a > 0real,
            b > 0real,
    ;
}

/// A fraction of what is not negative is not negative.
pub proof fn lemma_not_negative(a: real, c: real)
    requires
        a >= 0real,
        c > 0real,
    ensures
        a / c >= 0real,
{
    lemma_divided(a, c);
    lemma_cancelled(a / c, 0real, c);
}

/// Fractions with one denominator are added and subtracted by their
/// numerators, and sign and size carry over.
pub proof fn lemma_common_denominator(a: real, b: real, c: real)
    requires
        c > 0real,
    ensures
        a / c + b / c == (a + b) / c,
        a / c - b / c == (a - b) / c,
        (-a) / c == -(a / c),
        size(a / c) == size(a) / c,
        a / c < b / c <==> a < b,
{
    lemma_divided(a, c);
    lemma_divided(b, c);
    let x = a / c;
    let y = b / c;
    assert((x + y) * c == x * c + y * c) by (nonlinear_arith);
    assert((x - y) * c == x * c - y * c) by (nonlinear_arith);
    assert((-x) * c == -(x * c)) by (nonlinear_arith);
    lemma_quotient_is(a + b, c, x + y);
    lemma_quotient_is(a - b, c, x - y);
    lemma_quotient_is(-a, c, -x);
    lemma_cancelled(x, y, c);
    lemma_cancelled(x, 0real, c);
    lemma_cancelled(0real, x, c);
}

/// Dividing twice is dividing by the product.
pub proof fn lemma_divided_twice(a: real, b: real, c: real)
    requires
        b > 0real,
        c > 0real,
    ensures
        a / b / c == a / (b * c),
{
    lemma_positive_product(b, c);
    lemma_divided(a, b);
    let x = a / b;
    lemma_divided(x, c);
    let y = x / c;
    assert(y * (b * c) == (y * c) * b) by (nonlinear_arith);
    lemma_quotient_is(a, b * c, y);
}

/// Factors of a quotient come before it.
pub proof fn lemma_factored(k: real, a: real, c: real)
    requires
        c > 0real,
    ensures
        (k * a) / c == k * (a / c),
{
    lemma_divided(a, c);
    let x = a / c;
    assert((k * x) * c == k * (x * c)) by (nonlinear_arith);
    lemma_quotient_is(k * a, c, k * x);
}

/// A greater divisor, from one on, gives no greater size.
pub proof fn lemma_smaller_when_divided(a: real, c: real)
    requires
        c >= 1real,
    ensures
        size(a / c) <= size(a),
{
    lemma_common_denominator(a, a, c);
    let m = size(a);
    lemma_divided(m, c);
    lemma_not_negative(m, c);
    lemma_scaled(1real, c, m / c);
}

/// How far rounding takes a fraction, in whole numbers.
proof fn lemma_rounded_error(num: nat, den: nat)
    requires
        den > 0,
    ensures
        order::distance((rounding::rounded(num, den) * den) as int, num as int)
            * rounding::SIGNIFICAND_LIMIT <= num || 2 * order::distance(
            (rounding::rounded(num, den) * den) as int,
            num as int,
        ) <= den,
        den == 1 ==> order::distance(rounding::rounded(num, den) as int, num as int)
            * rounding::SIGNIFICAND_LIMIT <= num,
{
    let s = rounding::spacing(num, den);
    let step = pow2(s);
    let d = den * step;
    let n = rounding::nearest_integer(num, d);
    let limit = rounding::SIGNIFICAND_LIMIT as nat;
    let field = rounding::FIELD as nat;
    lemma_pow2_pos(s);
    lemma2_to64();
    order::lemma_spacing_bounds(num, den);
    assert(d > 0) by (nonlinear_arith)
        requires
            d == den * step,
            den > 0,
            step > 0,
    ;
    order::lemma_within_a_half(num, d);
    assert((2 * n + 1) * d == 2 * (n * d) + d) by (nonlinear_arith);
    assert((2 * n - 1) * d == 2 * (n * d) - d) by (nonlinear_arith);
    assert((n * step) * den == n * d) by (nonlinear_arith)
        requires
            d == den * step,
    ;
    let gap = order::distance((rounding::rounded(num, den) * den) as int, num as int);
    assert(2 * gap <= d);
    if s > 0 {
        assert(gap * limit <= num) by (nonlinear_arith)
            requires
                2 * gap <= d,
                d == den * step,
                num >= den * field * step,
                limit == 2 * field,
        ;
    } else {
        assert(d == den) by (nonlinear_arith)
            requires
                d == den * step,
                step == 1,
        ;
    }
    if den == 1 {
        assert(rounding::rounded(num, den) * 1 == rounding::rounded(num, den));
    }
}

/// A number nearest to a fraction of units, held against that fraction.
proof fn lemma_nearest_error(negative: bool, num: nat, den: nat)
    requires
        den > 0,
        num as real / den as real / pow2(1074) as real <= huge(),
    ensures
        Value::nearest(negative, num, den) is Finite,
        ({
            let x = num as real / den as real / pow2(1074) as real;
            let y = exact(Value::nearest(negative, num, den));
            &&& size(y - (if negative { -x } else { x })) <= grain() * x + speck()
            &&& den == 1 ==> size(y - (if negative { -x } else { x })) <= grain() * x
        }),
{
    reveal(exact);
    reveal(speck);
    let r = rounding::rounded(num, den);
    let unit = pow2(1074);
    let u = unit as real;
    let d = den as real;
    let n = num as real;
    let x = n / d / u;
    let du = d * u;
    lemma_unit_is_positive();
    lemma_rounded_error(num, den);
    lemma_positive_product(d, u);
    lemma_divided_twice(n, d, u);
    lemma_divided(n, du);
    lemma_not_negative(n, du);
    assert(x * du == n);
    let gap = order::distance((r * den) as int, num as int);
    // No overflow.
    let top = pow2(900) * unit;
    lemma_pow2_adds(900, 1074);
    lemma_pow2_strictly_increases(1974, 2098);
    lemma_scaled(x, huge(), du);
    assert(huge() * du == (top * den) as real) by {
        assert(top as real == huge() * u) by (nonlinear_arith)
            requires
                top == pow2(900) * unit,
                huge() == pow2(900) as real,
                u == unit as real,
        ;
        assert((top * den) as real == top as real * d) by (nonlinear_arith)
            requires
                d == den as real,
        ;
        assert(huge() * (d * u) == (huge() * u) * d) by (nonlinear_arith);
    }
    assert(num <= top * den);
    assert(num * 1 <= (1 * top * 1) * den) by (nonlinear_arith)
        requires
            num <= top * den,
    ;
    order::rounding_is_monotone(num, den, 1 * top * 1, 1);
    order::lemma_grid_is_kept(1, 1974, 1);
    assert(1 * pow2(1974) * 1 == 1 * top * 1 && 1 * pow2(1974) == top);
    let v = Value::nearest(negative, num, den);
    assert(v is Finite);
    // The error.
    let y = r as real / u;
    let g = gap as real;
    lemma_divided(r as real, u);
    assert((r * den) as real == r as real * d) by (nonlinear_arith)
        requires
            d == den as real,
    ;
    assert(size(r as real * d - n) == g);
    assert((y - x) * du == (y * u) * d - x * du) by (nonlinear_arith)
        requires
            du == d * u,
    ;
    lemma_size_of_product(y - x, du);
    let off = size(y - x);
    assert(off * du == g);
    let e = grain();
    let h = speck();
    lemma_scaled(0real, e, x);
    if gap * rounding::SIGNIFICAND_LIMIT <= num {
        assert(g * 9007199254740992real <= n);
        assert((e * x) * du == e * (x * du)) by (nonlinear_arith);
        assert(e * n == n / 9007199254740992real) by (nonlinear_arith)
            requires
                e == 1real / 9007199254740992real,
        ;
        lemma_cancelled(off, e * x, du);
    } else {
        assert(2real * g <= d);
        lemma_divided(1real, u);
        assert(h * du == (h * u) * d) by (nonlinear_arith)
            requires
                du == d * u,
        ;
        lemma_cancelled(off, h, du);
    }
    lemma_common_denominator(r as real, r as real, u);
}


pub proof fn lemma_unit_is_positive()
    ensures
        pow2(1074) as real > 0real,
        pow2(1074) > 0,
        grain() > 0real,
        speck() > 0real,
        huge() >= 1real,
{
    reveal(exact);
    reveal(speck);
    lemma_pow2_pos(1074);
    lemma_pow2_pos(900);
    let u = pow2(1074) as real;
    lemma_divided(1real, u);
    lemma_not_negative(1real, u);
    lemma_cancelled(0real, 1real / u, u);
}

/// Finite numbers are ordered as the real numbers that they stand for.
pub proof fn less_means_less(a: Value, b: Value)
    requires
        a is Finite,
        b is Finite,
    ensures
        a.less(b) <==> exact(a) < exact(b),
        b.at_least(a) <==> exact(a) <= exact(b),
{
    reveal(exact);
    reveal(speck);
    lemma_unit_is_positive();
    let u = pow2(1074) as real;
    let x = a.signed() as real;
    let y = b.signed() as real;
    lemma_common_denominator(x, y, u);
    lemma_common_denominator(y, x, u);
}

/// A sum is within one grain of the exact one.
pub proof fn sums_are_close(a: Value, b: Value)
    requires
        a is Finite,
        b is Finite,
        size(exact(a) + exact(b)) <= huge(),
    ensures
        a.plus(b) is Finite,
        size(exact(a.plus(b)) - (exact(a) + exact(b))) <= grain() * size(exact(a) + exact(b)),
{
    reveal(exact);
    reveal(speck);
    lemma_unit_is_positive();
    let u = pow2(1074) as real;
    let total = a.signed() + b.signed();
    let x = total as real / u;
    lemma_common_denominator(a.signed() as real, b.signed() as real, u);
    lemma_common_denominator(total as real, 0real, u);
    lemma_common_denominator(0real, total as real, u);
    lemma_quotient_is(0real, u, 0real);
    assert(x == exact(a) + exact(b));
    if total == 0 {
        assert(grain() * 0real == 0real);
    } else if total > 0 {
        let n = total as nat;
        lemma_quotient_is(n as real, 1real, n as real);
        lemma_nearest_error(false, n, 1);
    } else {
        let n = (-total) as nat;
        lemma_quotient_is(n as real, 1real, n as real);
        lemma_nearest_error(true, n, 1);
    }
}

/// A difference is within one grain of the exact one.
pub proof fn differences_are_close(a: Value, b: Value)
    requires
        a is Finite,
        b is Finite,
        size(exact(a) - exact(b)) <= huge(),
    ensures
        a.minus(b) is Finite,
        size(exact(a.minus(b)) - (exact(a) - exact(b))) <= grain() * size(exact(a) - exact(b)),
{
    lemma_units_give_size(b);
    lemma_units_give_size(b.negated());
    sums_are_close(a, b.negated());
}

/// The size of a finite number, from its units.
pub proof fn lemma_units_give_size(v: Value)
    requires
        v is Finite,
    ensures
        size(exact(v)) == v->units as real / pow2(1074) as real,
        v->Finite_negative ==> exact(v) == -size(exact(v)),
        !v->Finite_negative ==> exact(v) == size(exact(v)),
        v->units == 0 <==> exact(v) == 0real,
{
    reveal(exact);
    reveal(speck);
    lemma_unit_is_positive();
    let u = pow2(1074) as real;
    let n = v->units as real;
    lemma_not_negative(n, u);
    lemma_common_denominator(n, n, u);
    lemma_divided(n, u);
    lemma_quotient_is(0real, u, 0real);
}

/// A product is within one grain and one speck of the exact one.
pub proof fn products_are_close(a: Value, b: Value)
    requires
        a is Finite,
        b is Finite,
        size(exact(a) * exact(b)) <= huge(),
    ensures
        a.times(b) is Finite,
        size(exact(a.times(b)) - exact(a) * exact(b)) <= grain() * size(exact(a) * exact(b))
            + speck(),
{
    lemma_unit_is_positive();
    lemma_units_give_size(a);
    lemma_units_give_size(b);
    let unit = pow2(1074);
    let u = unit as real;
    let m = a->units;
    let n = b->units;
    let x = size(exact(a));
    let y = size(exact(b));
    let negative = a->Finite_negative != b->Finite_negative;
    assert((m * n) as real == m as real * n as real) by (nonlinear_arith);
    lemma_divided(m as real, u);
    lemma_divided(n as real, u);
    lemma_positive_product(u, u);
    lemma_divided_twice(m as real * n as real, u, u);
    assert((x * y) * (u * u) == (x * u) * (y * u)) by (nonlinear_arith);
    lemma_quotient_is(m as real * n as real, u * u, x * y);
    lemma_scaled(0real, x, y);
    let p = exact(a) * exact(b);
    assert((-x) * y == -(x * y) && x * (-y) == -(x * y) && (-x) * (-y) == x * y)
        by (nonlinear_arith);
    assert(p == if negative {
        -(x * y)
    } else {
        x * y
    });
    assert(size(p) == x * y);
    lemma_nearest_error(negative, m * n, unit);
}

/// A quotient is within one grain and one speck of the exact one.
pub proof fn quotients_are_close(a: Value, b: Value)
    requires
        a is Finite,
        b is Finite,
        exact(b) != 0real,
        size(exact(a) / exact(b)) <= huge(),
    ensures
        a.over(b) is Finite,
        size(exact(a.over(b)) - exact(a) / exact(b)) <= grain() * size(exact(a) / exact(b))
            + speck(),
{
    lemma_unit_is_positive();
    lemma_units_give_size(a);
    lemma_units_give_size(b);
    let unit = pow2(1074);
    let u = unit as real;
    let m = a->units;
    let n = b->units;
    let x = size(exact(a));
    let y = size(exact(b));
    let negative = a->Finite_negative != b->Finite_negative;
    assert((m * unit) as real == m as real * u) by (nonlinear_arith)
        requires
            u == unit as real,
    ;
    let c = x / y;
    let nr = n as real;
    lemma_divided(m as real, u);
    lemma_divided(nr, u);
    lemma_divided(x, y);
    lemma_not_negative(x, y);
    lemma_positive_product(nr, u);
    lemma_divided_twice(m as real * u, nr, u);
    assert(c * (nr * u) == ((c * y) * u) * u) by (nonlinear_arith)
        requires
            nr == y * u,
    ;
    lemma_quotient_is(m as real * u, nr * u, c);
    let q = exact(a) / exact(b);
    lemma_divided(exact(a), exact(b));
    assert((-q) * y == -(q * y) && q * (-y) == -(q * y)) by (nonlinear_arith);
    assert((-c) * y == -(c * y)) by (nonlinear_arith);
    lemma_cancelled(q, c, y);
    lemma_cancelled(-q, c, y);
    assert(q == if negative {
        -c
    } else {
        c
    });
    assert(size(q) == x / y);
    lemma_nearest_error(negative, m * unit, n);
}

/// A third is within one grain and one speck of the exact one.
pub proof fn thirds_are_close(a: Value)
    requires
        a is Finite,
        size(exact(a) / 3real) <= huge(),
    ensures
        a.over(Value::ratio(3, 1)) is Finite,
        size(exact(a.over(Value::ratio(3, 1))) - exact(a) / 3real) <= grain() * size(
            exact(a) / 3real,
        ) + speck(),
{
    let three = Value::ratio(3, 1);
    assert(exact(three) == 3real && three is Finite) by {
        order::small_naturals_are_exact(3);
        naturals_are_close(3);
    }
    quotients_are_close(a, three);
}

/// A count taken to the nearest number is within one grain of itself, and
/// just itself up to 2 to the power of 53.
pub proof fn naturals_are_close(n: nat)
    requires
        n <= u64::MAX,
    ensures
        Value::natural(n) is Finite,
        size(exact(Value::natural(n)) - n as real) <= grain() * n as real,
        n <= rounding::SIGNIFICAND_LIMIT ==> exact(Value::natural(n)) == n as real,
        exact(Value::natural(n)) > 0real <==> n > 0,
{
    reveal(exact);
    reveal(speck);
    lemma_unit_is_positive();
    let unit = pow2(1074);
    let u = unit as real;
    lemma_pow2_strictly_increases(64, 900);
    lemma2_to64();
    assert((n * unit) as real == n as real * u) by (nonlinear_arith)
        requires
            u == unit as real,
    ;
    lemma_quotient_is(n as real * u, 1real, n as real * u);
    lemma_quotient_is(n as real * u, u, n as real);
    lemma_nearest_error(false, n * unit, 1);
    if n <= rounding::SIGNIFICAND_LIMIT {
        order::small_naturals_are_exact(n);
    }
    lemma_scaled(grain(), 1real / 1000real, n as real);
    assert(grain() * 0real == 0real);
}

/// A fraction taken to the nearest number is within one grain and one speck
/// of itself.
pub proof fn ratios_are_close(n: nat, d: nat)
    requires
        d > 0,
        n <= u64::MAX,
    ensures
        Value::ratio(n, d) is Finite,
        size(exact(Value::ratio(n, d)) - n as real / d as real) <= grain() * (n as real / d as real)
            + speck(),
{
    reveal(exact);
    reveal(speck);
    lemma_unit_is_positive();
    let unit = pow2(1074);
    let u = unit as real;
    lemma_pow2_strictly_increases(64, 900);
    lemma2_to64();
    assert((n * unit) as real == n as real * u) by (nonlinear_arith)
        requires
            u == unit as real,
    ;
    let x = n as real / d as real;
    lemma_divided(n as real, d as real);
    lemma_positive_product(d as real, u);
    lemma_divided_twice(n as real * u, d as real, u);
    assert(x * (d as real * u) == (x * d as real) * u) by (nonlinear_arith);
    lemma_quotient_is(n as real * u, d as real * u, x);
    lemma_smaller_when_divided(n as real, d as real);
    lemma_not_negative(n as real, d as real);
    lemma_nearest_error(false, n * unit, d);
}

/// The size of a product is the product of the sizes.
pub proof fn lemma_size_of_product(x: real, y: real)
    ensures
        size(x * y) == size(x) * size(y),
{
    let m = size(x);
    let n = size(y);
    assert((-m) * n == -(m * n) && m * (-n) == -(m * n) && (-m) * (-n) == m * n)
        by (nonlinear_arith);
    lemma_scaled(0real, m, n);
}

/// A speck is much less than a grain.
pub proof fn lemma_speck_is_small()
    ensures
        0real < speck(),
        speck() * 1000000real <= grain(),
        grain() == 1real / 9007199254740992real,
        grain() * 1000000real <= 1real,
{
    reveal(exact);
    reveal(speck);
    lemma_unit_is_positive();
    lemma2_to64_rest();
    lemma2_to64();
    lemma_pow2_adds(53, 20);
    lemma_pow2_strictly_increases(73, 1074);
    let u = pow2(1074) as real;
    assert(u >= 9007199254740992real * 1000000real);
    let h = speck();
    lemma_divided(1real, u);
    lemma_scaled(9007199254740992real * 1000000real, u, h);
}

/// A product with a weight that is known up to a grain.
proof fn lemma_weighted(x: real, a: real, w: real, s: real, p: real, e: real, h: real)
    requires
        0real < e,
        e * 1000real <= 1real,
        0real <= h,
        0real <= w <= 1real,
        size(a - x) <= e * size(x) + h,
        size(s - w) <= e,
        size(p - a * s) <= e * size(a * s) + h,
    ensures
        size(p - w * x) <= 4real * e * size(x) + 3real * h,
{
    let m = size(x);
    let n = size(a);
    let em = e * m;
    let en = e * n;
    let eh = e * h;
    lemma_size_of_product(a, s);
    lemma_size_of_product(a, s - w);
    lemma_size_of_product(w, a - x);
    lemma_scaled(e, 1real / 1000real, m);
    lemma_scaled(e, 1real / 1000real, h);
    lemma_scaled(0real, m, e);
    assert(n <= (1001real / 1000real) * m + h);
    lemma_scaled(size(s), 1001real / 1000real, n);
    lemma_scaled(size(s - w), e, n);
    lemma_scaled(w, 1real, size(a - x));
    lemma_scaled(size(a * s), (1001real / 1000real) * n, e);
    assert(e * ((1001real / 1000real) * n) == (1001real / 1000real) * en) by (nonlinear_arith)
        requires
            en == e * n,
    ;
    lemma_scaled(n, (1001real / 1000real) * m + h, e);
    assert(e * ((1001real / 1000real) * m + h) == (1001real / 1000real) * em + eh)
        by (nonlinear_arith)
        requires
            em == e * m,
            eh == e * h,
    ;
    assert(n * e == en) by (nonlinear_arith)
        requires
            en == e * n,
    ;
    assert(p - w * x == (p - a * s) + a * (s - w) + w * (a - x)) by (nonlinear_arith);
    assert(size(p - w * x) <= (1001real / 1000real) * en + h + en + em + h);
    assert(4real * e * m == 4real * em) by (nonlinear_arith)
        requires
            em == e * m,
    ;
}

/// A weighted mean of two numbers, computed with rounding: each number is
/// known up to a grain and a speck, and each weight to a grain.
pub proof fn weighted_means_are_close(
    a: Value,
    b: Value,
    x: real,
    y: real,
    v: nat,
    w: nat,
)
    requires
        a is Finite,
        b is Finite,
        size(exact(a) - x) <= grain() * size(x) + speck(),
        size(exact(b) - y) <= grain() * size(y) + speck(),
        size(x) * 1000real <= huge(),
        size(y) * 1000real <= huge(),
        v <= 10,
        w <= 10,
    ensures
        a.times(Value::ratio(v, 10)).plus(b.times(Value::ratio(w, 10))) is Finite,
        size(
            exact(a.times(Value::ratio(v, 10)).plus(b.times(Value::ratio(w, 10)))) - (v as real * x
                + w as real * y) / 10real,
        ) <= 8real * grain() * (size(x) + size(y)) + 8real * speck(),
{
    let e = grain();
    let h = speck();
    lemma_speck_is_small();
    lemma_unit_is_positive();
    let p = a.times(Value::ratio(v, 10));
    let q = b.times(Value::ratio(w, 10));
    lemma_weighted_term(a, x, v);
    lemma_weighted_term(b, y, w);
    let f = v as real / 10real;
    let g = w as real / 10real;
    lemma_size_of_product(f, x);
    lemma_size_of_product(g, y);
    let m = size(x);
    let n = size(y);
    let em = e * m;
    let en = e * n;
    let eh = e * h;
    lemma_scaled(f, 1real, m);
    lemma_scaled(g, 1real, n);
    lemma_scaled(e, 1real / 1000real, m);
    lemma_scaled(e, 1real / 1000real, n);
    lemma_scaled(e, 1real / 1000real, h);
    lemma_scaled(0real, m, e);
    lemma_scaled(0real, n, e);
    lemma_triples(e, m);
    lemma_triples(e, n);
    let sum = exact(p) + exact(q);
    let most = 2real * m + 2real * n + 6real * h;
    assert(size(sum) <= most);
    sums_are_close(p, q);
    lemma_scaled(size(sum), most, e);
    assert(e * most == 2real * em + 2real * en + 6real * eh) by (nonlinear_arith)
        requires
            most == 2real * m + 2real * n + 6real * h,
            em == e * m,
            en == e * n,
            eh == e * h,
    ;
    let target = (v as real * x + w as real * y) / 10real;
    let vr = v as real;
    let wr = w as real;
    assert(vr * x == 10real * (f * x)) by (nonlinear_arith)
        requires
            vr == 10real * f,
    ;
    assert(wr * y == 10real * (g * y)) by (nonlinear_arith)
        requires
            wr == 10real * g,
    ;
    assert(target == f * x + g * y);
    assert(8real * e * (m + n) == 8real * em + 8real * en) by (nonlinear_arith)
        requires
            em == e * m,
            en == e * n,
    ;
    let r = exact(p.plus(q)) - sum;
    let s = exact(p) - f * x;
    let t = exact(q) - g * y;
    assert(exact(p.plus(q)) - target == r + s + t);
    lemma_three_errors(r, s, t);
}

/// How small factors are gathered.
proof fn lemma_triples(e: real, m: real)
    ensures
        4real * e * m == 4real * (e * m),
{
    assert(4real * e * m == 4real * (e * m)) by (nonlinear_arith);
}

/// Errors add up at most.
pub proof fn lemma_three_errors(r: real, s: real, t: real)
    ensures
        size(r + s + t) <= size(r) + size(s) + size(t),
{
}

proof fn lemma_weighted_term(a: Value, x: real, v: nat)
    requires
        a is Finite,
        size(exact(a) - x) <= grain() * size(x) + speck(),
        size(x) * 1000real <= huge(),
        v <= 10,
    ensures
        a.times(Value::ratio(v, 10)) is Finite,
        size(exact(a.times(Value::ratio(v, 10))) - (v as real / 10real) * x) <= 4real * grain()
            * size(x) + 3real * speck(),
{
    let e = grain();
    let h = speck();
    lemma_speck_is_small();
    lemma_unit_is_positive();
    ratios_are_close(v, 10);
    let w = v as real / 10real;
    let s = exact(Value::ratio(v, 10));
    if v == 10 {
        order::rounding_goes_by_the_fraction(10 * pow2(1074), 10, 1 * pow2(1074), 1);
        order::small_naturals_are_exact(1);
        naturals_are_close(1);
    } else {
        lemma_scaled(w, 9real / 10real, e);
    }
    assert(size(s - w) <= e);
    let m = size(x);
    lemma_scaled(e, 1real / 1000real, m);
    lemma_size_of_product(exact(a), s);
    lemma_scaled(size(s), 2real, size(exact(a)));
    products_are_close(a, Value::ratio(v, 10));
    lemma_weighted(x, exact(a), w, s, exact(a.times(Value::ratio(v, 10))), e, h);
}

/// Several numbers added to a first one, one after the other.
pub open spec fn added(start: Value, list: Seq<Value>) -> Value
    decreases list.len(),
{
    if list.len() == 0 {
        start
    } else {
        added(start, list.drop_last()).plus(list.last())
    }
}

/// The exact sum of several numbers.
pub open spec fn exact_sum(list: Seq<Value>) -> real
    decreases list.len(),
{
    if list.len() == 0 {
        0real
    } else {
        exact_sum(list.drop_last()) + exact(list.last())
    }
}

/// The exact sum of the sizes of several numbers.
pub open spec fn exact_size(list: Seq<Value>) -> real
    decreases list.len(),
{
    if list.len() == 0 {
        0real
    } else {
        exact_size(list.drop_last()) + size(exact(list.last()))
    }
}

/// Whether all numbers of a list are finite.
pub open spec fn all_finite(list: Seq<Value>) -> bool {
    forall|i: int| 0 <= i < list.len() ==> (#[trigger] list[i]) is Finite
}

/// A sum of many numbers is within two grains of the sum of their sizes, for
/// each number that is added.
pub proof fn long_sums_are_close(start: Value, list: Seq<Value>)
    requires
        start is Finite,
        all_finite(list),
        list.len() <= 0x1_0000_0000_0000,
        (size(exact(start)) + exact_size(list)) * 1000real <= huge(),
    ensures
        exact_size(list) >= 0real,
        added(start, list) is Finite,
        size(added_error(start, list)) <= 2real * list.len() as real * grain() * (size(exact(start))
            + exact_size(list)),
    decreases list.len(),
{
    let e = grain();
    lemma_speck_is_small();
    lemma_unit_is_positive();
    if list.len() == 0 {
        assert(2real * 0real * e * (size(exact(start)) + 0real) == 0real) by (nonlinear_arith);
    } else {
        let front = list.drop_last();
        let x = list.last();
        let n = front.len() as real;
        assert(x == list[list.len() - 1]);
        lemma_sizes_are_not_negative(front);
        long_sums_are_close(start, front);
        let acc = added(start, front);
        let small = size(exact(start)) + exact_size(front);
        let big = size(exact(start)) + exact_size(list);
        let err = added_error(start, front);
        assert(small >= 0real && big >= small);
        let ne = n * e;
        lemma_scaled(n, 281474976710656real, e);
        lemma_scaled(0real, n, e);
        lemma_scaled(ne, 1real / 10real, small);
        assert(2real * n * e * small == 2real * (ne * small)) by (nonlinear_arith)
            requires
                ne == n * e,
        ;
        assert(size(exact_sum(front)) <= exact_size(front)) by {
            lemma_sum_within_size(front);
        }
        let sum = exact(acc) + exact(x);
        assert(size(sum) <= 2real * big);
        sums_are_close(acc, x);
        lemma_scaled(size(sum), 2real * big, e);
        lemma_scaled(small, big, ne);
        assert(e * (2real * big) == 2real * (e * big)) by (nonlinear_arith);
        assert(2real * (n + 1real) * e * big == 2real * (ne * big) + 2real * (e * big))
            by (nonlinear_arith)
            requires
                ne == n * e,
        ;
        assert(list.len() as real == n + 1real);
    }
}

/// How far a sum of many numbers is from the exact one.
pub open spec fn added_error(start: Value, list: Seq<Value>) -> real {
    exact(added(start, list)) - (exact(start) + exact_sum(list))
}

proof fn lemma_sizes_are_not_negative(list: Seq<Value>)
    ensures
        exact_size(list) >= 0real,
    decreases list.len(),
{
    if list.len() > 0 {
        lemma_sizes_are_not_negative(list.drop_last());
    }
}

proof fn lemma_sum_within_size(list: Seq<Value>)
    ensures
        size(exact_sum(list)) <= exact_size(list),
    decreases list.len(),
{
    if list.len() > 0 {
        lemma_sum_within_size(list.drop_last());
    }
}

/// A product of two numbers, the first known up to a share `k` of its size
/// and up to `f`, and the second up to a share `l` of its size.
pub proof fn lemma_product_error(
    x: real,
    a: real,
    k: real,
    f: real,
    y: real,
    b: real,
    l: real,
    p: real,
)
    requires
        0real <= k <= 100real * grain(),
        0real <= l <= 100real * grain(),
        0real <= f,
        size(a - x) <= k * size(x) + f,
        size(b - y) <= l * size(y),
        size(p - a * b) <= grain() * size(a * b) + speck(),
    ensures
        size(p - x * y) <= k * size(x * y) + l * size(x * y) + 2real * (grain() * size(x * y))
            + 2real * (f * size(y)) + speck(),
{
    let e = grain();
    let h = speck();
    let m = size(x);
    let n = size(y);
    lemma_speck_is_small();
    lemma_size_of_product(x, y);
    lemma_size_of_product(a, b);
    lemma_size_of_product(a - x, b);
    lemma_size_of_product(x, b - y);
    let ab = size(a * b);
    let g = m * n;
    let fy = f * n;
    let ln = l * n;
    let km = k * m;
    lemma_scaled(0real, m, n);
    lemma_scaled(0real, f, n);
    lemma_scaled(0real, l, n);
    lemma_scaled(0real, k, m);
    let c = size(a);
    let d = size(b);
    let wide = n + ln;
    assert(c <= m + km + f && d <= wide);
    // The three parts of the error.
    assert(p - x * y == (p - a * b) + (a - x) * b + x * (b - y)) by (nonlinear_arith);
    let first = size((a - x) * b);
    let second = size(x * (b - y));
    assert(first <= (km + f) * wide) by {
        lemma_scaled(size(a - x), km + f, d);
        lemma_scaled(d, wide, km + f);
    }
    assert(second <= m * ln) by {
        lemma_scaled(size(b - y), ln, m);
    }
    assert(ab <= (m + km + f) * wide) by {
        lemma_scaled(c, m + km + f, d);
        lemma_scaled(d, wide, m + km + f);
    }
    // All in terms of the exact product.
    let lg = l * g;
    let kg = k * g;
    let klg = k * lg;
    let lf = l * fy;
    assert(m * ln == lg) by (nonlinear_arith)
        requires
            ln == l * n,
            g == m * n,
            lg == l * g,
    ;
    assert(km * n == kg) by (nonlinear_arith)
        requires
            km == k * m,
            g == m * n,
            kg == k * g,
    ;
    assert(km * ln == klg) by (nonlinear_arith)
        requires
            km == k * m,
            ln == l * n,
            g == m * n,
            lg == l * g,
            klg == k * lg,
    ;
    assert(f * ln == lf) by (nonlinear_arith)
        requires
            ln == l * n,
            fy == f * n,
            lf == l * fy,
    ;
    assert((km + f) * wide == km * n + km * ln + f * n + f * ln) by (nonlinear_arith)
        requires
            wide == n + ln,
    ;
    assert((m + km + f) * wide == m * n + m * ln + (km + f) * wide) by (nonlinear_arith)
        requires
            wide == n + ln,
    ;
    lemma_scaled(0real, l, g);
    lemma_scaled(0real, k, g);
    lemma_scaled(l, 100real * e, g);
    lemma_scaled(l, 1real / 1000real, fy);
    lemma_scaled(k, 1real / 1000real, lg);
    lemma_scaled(k, 1real / 1000real, g);
    lemma_scaled(l, 1real / 1000real, g);
    let eg = e * g;
    let ef = e * fy;
    assert((100real * e) * g == 100real * eg) by (nonlinear_arith)
        requires
            eg == e * g,
    ;
    let most = g + lg + kg + klg + fy + lf;
    assert(ab <= most);
    assert(most <= (101real / 100real) * g + (101real / 100real) * fy);
    lemma_scaled(ab, (101real / 100real) * g + (101real / 100real) * fy, e);
    assert(e * ((101real / 100real) * g + (101real / 100real) * fy) == (101real / 100real) * eg + (
    101real / 100real) * ef) by (nonlinear_arith)
        requires
            eg == e * g,
            ef == e * fy,
    ;
    lemma_scaled(e, 1real / 1000real, fy);
    lemma_scaled(0real, e, g);
    assert(size(p - x * y) <= e * ab + h + first + second);
}

/// What is within `n` times `c` is within `c` once it is divided by `n`.
pub proof fn lemma_shared_out(d: real, n: real, c: real)
    requires
        n > 0real,
        size(d) <= n * c,
    ensures
        size(d / n) <= c,
{
    lemma_divided(d, n);
    assert(c * n == n * c && (-c) * n == -(n * c)) by (nonlinear_arith);
    lemma_cancelled(d / n, c, n);
    lemma_cancelled(-c, d / n, n);
}

/// A mean of several numbers, added up one after the other from negative zero
/// and divided by their number, is close to the exact one.
pub proof fn means_are_close(list: Seq<Value>)
    requires
        0 < list.len() <= 0x1_0000_0000_0000,
        all_finite(list),
        exact_size(list) * 1000real <= huge(),
    ensures
        ({
            let mean = added(Value::Finite { negative: true, units: 0 }, list).over(
                Value::natural(list.len()),
            );
            &&& mean is Finite
            &&& size(exact(mean) - exact_sum(list) / list.len() as real) <= 4real * (grain()
                * exact_size(list)) + speck()
        }),
{
    let zero = Value::Finite { negative: true, units: 0 };
    let e = grain();
    let n = list.len() as real;
    let m = exact_size(list);
    let acc = added(zero, list);
    let sum = exact_sum(list);
    lemma_speck_is_small();
    lemma_unit_is_positive();
    lemma_units_give_size(zero);
    long_sums_are_close(zero, list);
    lemma_sum_within_size(list);
    naturals_are_close(list.len());
    let d = exact(acc) - sum;
    let em = e * m;
    assert(2real * n * e * m == n * (2real * em)) by (nonlinear_arith)
        requires
            em == e * m,
    ;
    lemma_shared_out(d, n, 2real * em);
    lemma_scaled(0real, e, m);
    lemma_scaled(e, 1real / 1000real, m);
    let x = sum / n;
    let y = exact(acc) / n;
    lemma_common_denominator(exact(acc), sum, n);
    lemma_scaled(1real, n, m);
    lemma_shared_out(sum, n, m);
    assert(size(y) <= 2real * m);
    lemma_scaled(size(y), 2real * m, e);
    assert(e * (2real * m) == 2real * em) by (nonlinear_arith)
        requires
            em == e * m,
    ;
    quotients_are_close(acc, Value::natural(list.len()));
}

/// A quotient of two counts is close to the exact one.
pub proof fn rates_are_close(after: nat, before: nat)
    requires
        0 < before <= u64::MAX,
        after <= u64::MAX,
    ensures
        Value::natural(after).over(Value::natural(before)) is Finite,
        size(
            exact(Value::natural(after).over(Value::natural(before))) - after as real
                / before as real,
        ) <= 4real * (grain() * (after as real / before as real)) + speck(),
{
    let e = grain();
    let a = exact(Value::natural(after));
    let b = exact(Value::natural(before));
    let m = after as real;
    let n = before as real;
    let x = m / n;
    lemma_speck_is_small();
    lemma_unit_is_positive();
    naturals_are_close(after);
    naturals_are_close(before);
    lemma_pow2_strictly_increases(66, 900);
    lemma_pow2_adds(64, 2);
    lemma2_to64();
    lemma_divided(m, n);
    lemma_not_negative(m, n);
    lemma_smaller_when_divided(m, n);
    let em = e * m;
    let ex = e * x;
    lemma_scaled(0real, e, m);
    lemma_scaled(0real, e, x);
    lemma_scaled(e, 1real / 1000real, n);
    lemma_scaled(e, 1real / 1000real, x);
    assert(b >= n * (999real / 1000real));
    // How far the rounded counts are from the exact ratio.
    let d = a - x * b;
    assert(size(x * (n - b)) <= em) by {
        lemma_size_of_product(x, n - b);
        lemma_scaled(size(n - b), e * n, x);
        assert(x * (e * n) == em) by (nonlinear_arith)
            requires
                x * n == m,
                em == e * m,
        ;
    }
    assert(d == (a - m) + x * (n - b)) by (nonlinear_arith)
        requires
            d == a - x * b,
            x * n == m,
    ;
    assert(size(d) <= 2real * em);
    assert(2real * em <= b * ((21real / 10real) * ex)) by {
        lemma_scaled(n * (999real / 1000real), b, (21real / 10real) * ex);
        assert((n * (999real / 1000real)) * ((21real / 10real) * ex) == (20979real / 10000real)
            * em) by (nonlinear_arith)
            requires
                ex == e * x,
                em == e * m,
                x * n == m,
        ;
    }
    lemma_shared_out(d, b, (21real / 10real) * ex);
    let y = a / b;
    lemma_quotient_is(x * b, b, x);
    lemma_common_denominator(a, x * b, b);
    assert(size(y) <= (11real / 10real) * x);
    lemma_scaled(size(y), (11real / 10real) * x, e);
    assert(e * ((11real / 10real) * x) == (11real / 10real) * ex) by (nonlinear_arith)
        requires
            ex == e * x,
    ;
    quotients_are_close(Value::natural(after), Value::natural(before));
}

} // verus!
