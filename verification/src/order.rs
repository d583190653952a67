//! How rounding respects order: what is on the grid stays as it is, and what
//! is no less does not become less.

use vstd::arithmetic::power2::*;
use vstd::prelude::*;

use crate::binary64;
use crate::binary64::Value;
use crate::rounding;

verus! {

/// The spacing leaves a significand of at most 53 bits, and of no fewer
/// unless it is the finest.
pub proof fn lemma_spacing_bounds(num: nat, den: nat)
    requires
        den > 0,
    ensures
        num < den * rounding::SIGNIFICAND_LIMIT * pow2(rounding::spacing(num, den)),
        rounding::spacing(num, den) > 0 ==> num >= den * rounding::FIELD * pow2(
            rounding::spacing(num, den),
        ),
    decreases num - den,
{
    lemma2_to64();
    let limit = rounding::SIGNIFICAND_LIMIT as nat;
    let field = rounding::FIELD as nat;
    if num < den * limit {
        assert(den * limit * 1 == den * limit) by (nonlinear_arith);
    } else {
        assert(den * limit >= 2 * den) by (nonlinear_arith)
            requires
                limit >= 2,
        ;
        lemma_spacing_bounds(num, 2 * den);
        let s = rounding::spacing(num, 2 * den);
        let p = pow2(s);
        lemma_pow2_unfold(s + 1);
        assert((2 * den) * limit * p == den * limit * (2 * p)) by (nonlinear_arith);
        assert((2 * den) * field * p == den * field * (2 * p)) by (nonlinear_arith);
        if s == 0 {
            assert(den * field * (2 * p) == den * limit) by (nonlinear_arith)
                requires
                    p == 1,
                    limit == 2 * field,
            ;
        }
    }
}

/// The nearest whole number is within a half.
pub proof fn lemma_within_a_half(num: nat, den: nat)
    requires
        den > 0,
    ensures
        2 * num <= (2 * rounding::nearest_integer(num, den) + 1) * den,
        2 * num >= (2 * rounding::nearest_integer(num, den) - 1) * den,
{
    let q = num / den;
    let r = num % den;
    vstd::arithmetic::div_mod::lemma_fundamental_div_mod(num as int, den as int);
    assert(num == q * den + r) by (nonlinear_arith)
        requires
            num == den * q + r,
    ;
    assert((2 * q + 1) * den == 2 * (q * den) + den) by (nonlinear_arith);
    assert((2 * q - 1) * den == 2 * (q * den) - den) by (nonlinear_arith);
    assert((2 * (q + 1) - 1) * den == 2 * (q * den) + den) by (nonlinear_arith);
    assert((2 * (q + 1) + 1) * den == 2 * (q * den) + 3 * den) by (nonlinear_arith);
}

/// Equal fractions have equal nearest whole numbers.
pub proof fn lemma_nearest_of_equal(a: nat, b: nat, c: nat, d: nat)
    requires
        b > 0,
        d > 0,
        a * d == c * b,
    ensures
        rounding::nearest_integer(a, b) == rounding::nearest_integer(c, d),
{
    rounding::lemma_nearest_integer_scaled(a, b, d);
    rounding::lemma_nearest_integer_scaled(c, d, b);
    assert(b * d == d * b) by (nonlinear_arith);
}

/// The nearest whole number of a greater fraction is no less.
pub proof fn lemma_nearest_monotone(a: nat, b: nat, c: nat, d: nat)
    requires
        b > 0,
        d > 0,
        a * d <= c * b,
    ensures
        rounding::nearest_integer(a, b) <= rounding::nearest_integer(c, d),
{
    let m = rounding::nearest_integer(a, b);
    let n = rounding::nearest_integer(c, d);
    if m > n {
        lemma_within_a_half(a, b);
        lemma_within_a_half(c, d);
        assert((2 * m - 1) * b >= (2 * n + 1) * b) by (nonlinear_arith)
            requires
                m >= n + 1,
        ;
        assert(2 * (a * d) >= (2 * n + 1) * (b * d)) by (nonlinear_arith)
            requires
                2 * a >= (2 * n + 1) * b,
                d > 0,
        ;
        assert(2 * (c * b) <= (2 * n + 1) * (b * d)) by (nonlinear_arith)
            requires
                2 * c <= (2 * n + 1) * d,
                b > 0,
        ;
        assert(a * d == c * b);
        lemma_nearest_of_equal(a, b, c, d);
    }
}

/// A significand of at most 53 bits with a shift is on the grid.
pub proof fn lemma_grid_is_kept(significand: nat, shift: nat, den: nat)
    requires
        den > 0,
        significand <= rounding::SIGNIFICAND_LIMIT,
    ensures
        rounding::rounded(significand * pow2(shift) * den, den) == significand * pow2(shift),
{
    let limit = rounding::SIGNIFICAND_LIMIT as nat;
    let field = rounding::FIELD as nat;
    lemma2_to64();
    lemma2_to64_rest();
    lemma_pow2_pos(shift);
    if significand == limit {
        lemma_pow2_unfold(shift + 1);
        assert(limit * pow2(shift) == field * (2 * pow2(shift))) by (nonlinear_arith)
            requires
                limit == 2 * field,
        ;
        lemma_grid_below_limit(field, shift + 1, den);
    } else {
        lemma_grid_below_limit(significand, shift, den);
    }
}

proof fn lemma_grid_below_limit(significand: nat, shift: nat, den: nat)
    requires
        den > 0,
        significand < rounding::SIGNIFICAND_LIMIT,
    ensures
        rounding::rounded(significand * pow2(shift) * den, den) == significand * pow2(shift),
{
    let limit = rounding::SIGNIFICAND_LIMIT as nat;
    let field = rounding::FIELD as nat;
    let u = significand * pow2(shift);
    let num = u * den;
    let s = rounding::spacing(num, den);
    lemma2_to64();
    lemma2_to64_rest();
    lemma_pow2_pos(shift);
    lemma_pow2_pos(s);
    lemma_spacing_bounds(num, den);
    if s > shift {
        // u >= 2^52 * 2^s >= 2^53 * 2^shift > u
        assert(u >= field * pow2(s)) by (nonlinear_arith)
            requires
                u * den >= den * field * pow2(s),
                den > 0,
        ;
        lemma_pow2_unfold(shift + 1);
        if s > shift + 1 {
            lemma_pow2_strictly_increases(shift + 1, s);
        }
        assert(u < field * pow2(s)) by (nonlinear_arith)
            requires
                u == significand * pow2(shift),
                significand < 2 * field,
                pow2(s) >= 2 * pow2(shift),
                pow2(shift) > 0,
        ;
    }
    let k = (shift - s) as nat;
    let n = significand * pow2(k);
    let d = den * pow2(s);
    lemma_pow2_adds(k, s);
    assert(u == n * pow2(s)) by (nonlinear_arith)
        requires
            u == significand * pow2(shift),
            pow2(shift) == pow2(k) * pow2(s),
            n == significand * pow2(k),
    ;
    assert(num == n * d) by (nonlinear_arith)
        requires
            num == u * den,
            u == n * pow2(s),
            d == den * pow2(s),
    ;
    assert(d > 0) by (nonlinear_arith)
        requires
            d == den * pow2(s),
            den > 0,
            pow2(s) > 0,
    ;
    vstd::arithmetic::div_mod::lemma_fundamental_div_mod_converse(
        num as int,
        d as int,
        n as int,
        0,
    );
}

/// A greater fraction has no finer spacing.
proof fn lemma_spacing_monotone(a: nat, b: nat, c: nat, d: nat)
    requires
        b > 0,
        d > 0,
        a * d <= c * b,
    ensures
        rounding::spacing(a, b) <= rounding::spacing(c, d),
{
    let limit = rounding::SIGNIFICAND_LIMIT as nat;
    let field = rounding::FIELD as nat;
    let s = rounding::spacing(a, b);
    let t = rounding::spacing(c, d);
    if s > t {
        lemma_spacing_bounds(a, b);
        lemma_spacing_bounds(c, d);
        lemma_pow2_pos(t);
        lemma_pow2_unfold(t + 1);
        if s > t + 1 {
            lemma_pow2_strictly_increases(t + 1, s);
        }
        let p = pow2(t);
        assert(a >= b * (limit * p)) by (nonlinear_arith)
            requires
                a >= b * field * pow2(s),
                pow2(s) >= 2 * p,
                limit == 2 * field,
        ;
        assert(c < d * (limit * p)) by (nonlinear_arith)
            requires
                c < d * limit * p,
        ;
        assert(a * d > c * b) by (nonlinear_arith)
            requires
                a >= b * (limit * p),
                c < d * (limit * p),
                b > 0,
                d > 0,
        ;
    }
}

/// The rounded units lie between the bounds of their binade.
pub proof fn lemma_rounded_bounds(num: nat, den: nat)
    requires
        den > 0,
    ensures
        rounding::rounded(num, den) <= rounding::SIGNIFICAND_LIMIT * pow2(
            rounding::spacing(num, den),
        ),
        rounding::spacing(num, den) > 0 ==> rounding::rounded(num, den) >= rounding::FIELD * pow2(
            rounding::spacing(num, den),
        ),
{
    let limit = rounding::SIGNIFICAND_LIMIT as nat;
    let field = rounding::FIELD as nat;
    let s = rounding::spacing(num, den);
    let step = pow2(s);
    let n = rounding::nearest_integer(num, den * step);
    lemma_spacing_bounds(num, den);
    lemma_pow2_pos(s);
    assert(den * step > 0) by (nonlinear_arith)
        requires
            den > 0,
            step > 0,
    ;
    lemma_whole_is_nearest(limit);
    assert(num * 1 <= limit * (den * step)) by (nonlinear_arith)
        requires
            num < den * limit * step,
    ;
    lemma_nearest_monotone(num, den * step, limit, 1);
    assert(n * step <= limit * step) by (nonlinear_arith)
        requires
            n <= limit,
    ;
    if s > 0 {
        lemma_whole_is_nearest(field);
        assert(field * (den * step) <= num * 1) by (nonlinear_arith)
            requires
                num >= den * field * step,
        ;
        lemma_nearest_monotone(field, 1, num, den * step);
        assert(n * step >= field * step) by (nonlinear_arith)
            requires
                n >= field,
        ;
    }
}

proof fn lemma_whole_is_nearest(n: nat)
    ensures
        rounding::nearest_integer(n, 1) == n,
{
}

/// Rounding a greater fraction gives no less.
pub proof fn rounding_is_monotone(a: nat, b: nat, c: nat, d: nat)
    requires
        b > 0,
        d > 0,
        a * d <= c * b,
    ensures
        rounding::rounded(a, b) <= rounding::rounded(c, d),
{
    let limit = rounding::SIGNIFICAND_LIMIT as nat;
    let field = rounding::FIELD as nat;
    let s = rounding::spacing(a, b);
    let t = rounding::spacing(c, d);
    lemma_spacing_monotone(a, b, c, d);
    lemma_pow2_pos(s);
    lemma_pow2_pos(t);
    if s == t {
        let step = pow2(s);
        assert(b * step > 0 && d * step > 0) by (nonlinear_arith)
            requires
                b > 0,
                d > 0,
                step > 0,
        ;
        assert(a * (d * step) <= c * (b * step)) by (nonlinear_arith)
            requires
                a * d <= c * b,
        ;
        lemma_nearest_monotone(a, b * step, c, d * step);
        let m = rounding::nearest_integer(a, b * step);
        let n = rounding::nearest_integer(c, d * step);
        assert(m * step <= n * step) by (nonlinear_arith)
            requires
                m <= n,
        ;
    } else {
        lemma_rounded_bounds(a, b);
        lemma_rounded_bounds(c, d);
        lemma_pow2_unfold(s + 1);
        if t > s + 1 {
            lemma_pow2_strictly_increases(s + 1, t);
        }
        assert(limit * pow2(s) <= field * pow2(t)) by (nonlinear_arith)
            requires
                limit == 2 * field,
                pow2(t) >= 2 * pow2(s),
        ;
    }
}

/// Equal fractions are rounded alike.
pub proof fn rounding_goes_by_the_fraction(a: nat, b: nat, c: nat, d: nat)
    requires
        b > 0,
        d > 0,
        a * d == c * b,
    ensures
        rounding::rounded(a, b) == rounding::rounded(c, d),
{
    rounding_is_monotone(a, b, c, d);
    rounding_is_monotone(c, d, a, b);
}

/// Whole numbers of at most 53 bits are numbers themselves.
pub proof fn small_naturals_are_exact(n: nat)
    requires
        n <= rounding::SIGNIFICAND_LIMIT,
    ensures
        Value::natural(n) == (Value::Finite { negative: false, units: n * pow2(1074) }),
        Value::ratio(n, 1) == Value::natural(n),
{
    lemma2_to64();
    lemma2_to64_rest();
    lemma_pow2_pos(1074);
    lemma_grid_is_kept(n, 1074, 1);
    assert(n * pow2(1074) * 1 == n * pow2(1074)) by (nonlinear_arith);
    lemma_pow2_adds(53, 1074);
    lemma_pow2_strictly_increases(53 + 1074, 2098);
    assert(n * pow2(1074) <= rounding::SIGNIFICAND_LIMIT * pow2(1074)) by (nonlinear_arith)
        requires
            n <= rounding::SIGNIFICAND_LIMIT,
    ;
}

/// A half is a number itself.
pub proof fn one_half_is_exact()
    ensures
        Value::ratio(1, 2) == (Value::Finite { negative: false, units: pow2(1073) }),
{
    lemma_grid_is_kept(1, 1073, 2);
    lemma_pow2_unfold(1074);
    assert(1 * pow2(1073) * 2 == 1 * pow2(1074)) by (nonlinear_arith)
        requires
            pow2(1074) == 2 * pow2(1073),
    ;
    assert(1 * pow2(1073) == pow2(1073)) by (nonlinear_arith);
    lemma_pow2_strictly_increases(1073, 2098);
}

/// No whole number is nearer than the nearest one.
proof fn lemma_nearest_integer_is_nearest(num: nat, den: nat, k: int)
    requires
        den > 0,
    ensures
        distance((rounding::nearest_integer(num, den) * den) as int, num as int) <= distance(
            k * den,
            num as int,
        ),
{
    let n = rounding::nearest_integer(num, den);
    lemma_within_a_half(num, den);
    assert((2 * n + 1) * den == 2 * (n * den) + den) by (nonlinear_arith);
    assert((2 * n - 1) * den == 2 * (n * den) - den) by (nonlinear_arith);
    if k > n {
        assert(k * den >= n * den + den) by (nonlinear_arith)
            requires
                k >= n + 1,
                den > 0,
        ;
    } else if k < n {
        assert(k * den <= n * den - den) by (nonlinear_arith)
            requires
                k <= n - 1,
                den > 0,
        ;
    }
}

/// How far apart two numbers are.
pub open spec fn distance(a: int, b: int) -> int {
    if a < b {
        b - a
    } else {
        a - b
    }
}

/// Nothing on the grid is nearer than what rounding gives.
pub proof fn rounding_is_nearest(num: nat, den: nat, significand: nat, shift: nat)
    requires
        den > 0,
        significand < rounding::SIGNIFICAND_LIMIT,
    ensures
        distance((rounding::rounded(num, den) * den) as int, num as int) <= distance(
            (significand * pow2(shift) * den) as int,
            num as int,
        ),
{
    let limit = rounding::SIGNIFICAND_LIMIT as nat;
    let field = rounding::FIELD as nat;
    let s = rounding::spacing(num, den);
    let step = pow2(s);
    let d = den * step;
    let n = rounding::nearest_integer(num, d);
    let y = significand * pow2(shift);
    lemma_spacing_bounds(num, den);
    lemma_pow2_pos(s);
    lemma_pow2_pos(shift);
    assert(d > 0) by (nonlinear_arith)
        requires
            d == den * step,
            den > 0,
            step > 0,
    ;
    assert((n * step) * den == n * d) by (nonlinear_arith)
        requires
            d == den * step,
    ;
    if shift >= s {
        let k = significand * pow2((shift - s) as nat);
        lemma_pow2_adds((shift - s) as nat, s);
        assert(y * den == k * d) by (nonlinear_arith)
            requires
                y == significand * (pow2((shift - s) as nat) * step),
                k == significand * pow2((shift - s) as nat),
                d == den * step,
        ;
        lemma_nearest_integer_is_nearest(num, d, k as int);
    } else {
        // y lies below the binade, and the foot of the binade between y and num.
        lemma_pow2_unfold(shift + 1);
        if s > shift + 1 {
            lemma_pow2_strictly_increases(shift + 1, s);
        }
        assert(y <= field * step) by (nonlinear_arith)
            requires
                y == significand * pow2(shift),
                significand < 2 * field,
                step >= 2 * pow2(shift),
        ;
        assert(y * den <= field * d) by (nonlinear_arith)
            requires
                y <= field * step,
                d == den * step,
        ;
        assert(field * d <= num) by (nonlinear_arith)
            requires
                num >= den * field * step,
                d == den * step,
        ;
        lemma_nearest_integer_is_nearest(num, d, field as int);
    }
}

/// The units of a count.
pub open spec fn natural_units(n: nat) -> nat {
    rounding::rounded(n * pow2(1074), 1)
}

/// Counts of 64 bits are finite, and only zero is zero.
pub proof fn naturals_are_finite(n: nat)
    requires
        n <= u64::MAX,
    ensures
        Value::natural(n) == (Value::Finite { negative: false, units: natural_units(n) }),
        n == 0 <==> natural_units(n) == 0,
{
    lemma2_to64();
    lemma_pow2_pos(1074);
    lemma_pow2_adds(64, 1074);
    lemma_pow2_strictly_increases(64 + 1074, 2098);
    let num = n * pow2(1074);
    assert(num * 1 <= (1 * pow2(64 + 1074) * 1) * 1) by (nonlinear_arith)
        requires
            num == n * pow2(1074),
            n < pow2(64),
            pow2(64 + 1074) == pow2(64) * pow2(1074),
    ;
    rounding_is_monotone(num, 1, 1 * pow2(64 + 1074) * 1, 1);
    lemma_grid_is_kept(1, 64 + 1074, 1);
    assert(1 * pow2(64 + 1074) == pow2(64 + 1074)) by (nonlinear_arith);
    if n == 0 {
        assert(num == 0) by (nonlinear_arith)
            requires
                num == n * pow2(1074),
                n == 0,
        ;
        lemma_grid_is_kept(0, 0, 1);
        assert(0 * pow2(0) * 1 == 0 && 0 * pow2(0) == 0) by (nonlinear_arith);
    } else {
        assert((1 * pow2(1074) * 1) * 1 <= num * 1) by (nonlinear_arith)
            requires
                num == n * pow2(1074),
                n >= 1,
        ;
        rounding_is_monotone(1 * pow2(1074) * 1, 1, num, 1);
        lemma_grid_is_kept(1, 1074, 1);
        assert(1 * pow2(1074) == pow2(1074)) by (nonlinear_arith);
    }
}

/// A greater count has no fewer units.
pub proof fn naturals_keep_order(a: nat, b: nat)
    requires
        a <= b,
    ensures
        natural_units(a) <= natural_units(b),
{
    assert((a * pow2(1074)) * 1 <= (b * pow2(1074)) * 1) by (nonlinear_arith)
        requires
            a <= b,
    ;
    rounding_is_monotone(a * pow2(1074), 1, b * pow2(1074), 1);
}

/// What is rounded from something is something.
proof fn lemma_positive_stays_positive(n: nat)
    requires
        n > 0,
    ensures
        rounding::rounded(n, 1) > 0,
{
    lemma2_to64();
    lemma_grid_is_kept(1, 0, 1);
    assert(1 * pow2(0) * 1 == 1 && 1 * pow2(0) == 1);
    rounding_is_monotone(1, 1, n, 1);
}

/// A difference of counts is negative only where the second has fewer units.
pub proof fn differences_tell_the_order(before: nat, after: nat)
    requires
        before <= u64::MAX,
        after <= u64::MAX,
    ensures
        Value::natural(after).minus(Value::natural(before)).at_least(
            Value::Finite { negative: false, units: 0 },
        ) <==> natural_units(before) <= natural_units(after),
{
    naturals_are_finite(before);
    naturals_are_finite(after);
    let a = natural_units(after);
    let b = natural_units(before);
    if a > b {
        lemma_positive_stays_positive((a - b) as nat);
    } else if a < b {
        lemma_positive_stays_positive((b - a) as nat);
    }
}

/// Two neighbours on the grid are at least one part in 2 to the power of 53
/// of the greater one apart.
proof fn lemma_grid_gap(a: nat, b: nat)
    requires
        natural_units(a) < natural_units(b),
    ensures
        (natural_units(b) - natural_units(a)) * rounding::SIGNIFICAND_LIMIT >= natural_units(b),
{
    let limit = rounding::SIGNIFICAND_LIMIT as nat;
    let field = rounding::FIELD as nat;
    let x = a * pow2(1074);
    let y = b * pow2(1074);
    let s = rounding::spacing(x, 1);
    let t = rounding::spacing(y, 1);
    let p = pow2(s);
    let q = pow2(t);
    let m = rounding::nearest_integer(x, 1 * p);
    let n = rounding::nearest_integer(y, 1 * q);
    let u = natural_units(a);
    let v = natural_units(b);
    if b <= a {
        naturals_keep_order(b, a);
    }
    assert(x * 1 <= y * 1) by (nonlinear_arith)
        requires
            x == a * pow2(1074),
            y == b * pow2(1074),
            a <= b,
    ;
    lemma_spacing_monotone(x, 1, y, 1);
    lemma_rounded_bounds(x, 1);
    lemma_rounded_bounds(y, 1);
    lemma_pow2_pos(s);
    lemma_pow2_pos(t);
    assert(u == m * p && v == n * q);
    if s == t {
        assert((v - u) >= q) by (nonlinear_arith)
            requires
                u == m * q,
                v == n * q,
                u < v,
                q > 0,
        ;
        assert((v - u) * limit >= limit * q) by (nonlinear_arith)
            requires
                v - u >= q,
        ;
    } else {
        lemma_pow2_unfold(s + 1);
        if t > s + 1 {
            lemma_pow2_strictly_increases(s + 1, t);
        }
        assert(u <= field * q) by (nonlinear_arith)
            requires
                u <= limit * p,
                limit == 2 * field,
                q >= 2 * p,
        ;
        assert(n >= field) by (nonlinear_arith)
            requires
                v == n * q,
                v >= field * q,
                q > 0,
        ;
        if n > field {
            assert(v - u >= q) by (nonlinear_arith)
                requires
                    v == n * q,
                    u <= field * q,
                    n >= field + 1,
            ;
            assert((v - u) * limit >= limit * q) by (nonlinear_arith)
                requires
                    v - u >= q,
            ;
        } else if t == s + 1 {
            assert(v == limit * p) by (nonlinear_arith)
                requires
                    v == field * q,
                    q == 2 * p,
                    limit == 2 * field,
            ;
            assert(v - u >= p) by (nonlinear_arith)
                requires
                    u == m * p,
                    v == limit * p,
                    u < v,
                    p > 0,
            ;
            assert((v - u) * limit >= limit * p) by (nonlinear_arith)
                requires
                    v - u >= p,
            ;
        } else {
            lemma_pow2_unfold(s + 2);
            if t > s + 2 {
                lemma_pow2_strictly_increases(s + 2, t);
            }
            assert(2 * u <= v) by (nonlinear_arith)
                requires
                    u <= limit * p,
                    v == field * q,
                    limit == 2 * field,
                    q >= 4 * p,
            ;
            assert((v - u) * limit >= v) by (nonlinear_arith)
                requires
                    2 * u <= v,
                    limit >= 2,
            ;
        }
    }
}

/// A quotient of counts is at least one only where the first has no fewer
/// units.
pub proof fn quotients_tell_the_order(before: nat, after: nat)
    requires
        0 < before <= u64::MAX,
        after <= u64::MAX,
    ensures
        Value::natural(after).over(Value::natural(before)).at_least(Value::ratio(1, 1))
            <==> natural_units(before) <= natural_units(after),
{
    let limit = rounding::SIGNIFICAND_LIMIT as nat;
    let unit = pow2(1074);
    let a = natural_units(after);
    let b = natural_units(before);
    naturals_are_finite(before);
    naturals_are_finite(after);
    small_naturals_are_exact(1);
    lemma_pow2_pos(1074);
    lemma_pow2_pos(1021);
    lemma2_to64_rest();
    assert(1 * unit == unit) by (nonlinear_arith);
    if b <= a {
        assert((unit * b) * b <= (a * unit) * b) by (nonlinear_arith)
            requires
                b <= a,
        ;
        rounding_is_monotone(unit * b, b, a * unit, b);
        lemma_grid_is_kept(1, 1074, b);
        assert(1 * unit * b == unit * b) by (nonlinear_arith);
    } else {
        lemma_grid_gap(after, before);
        let below = (limit - 1) as nat;
        let p = pow2(1021);
        lemma_pow2_adds(53, 1021);
        assert(unit == limit * p);
        assert(a * limit <= below * b) by (nonlinear_arith)
            requires
                (b - a) * limit >= b,
                below == limit - 1,
        ;
        assert((a * unit) * b <= (below * p * b) * b) by (nonlinear_arith)
            requires
                a * limit <= below * b,
                unit == limit * p,
        ;
        rounding_is_monotone(a * unit, b, below * p * b, b);
        lemma_grid_is_kept(below, 1021, b);
        assert(below * p < unit) by (nonlinear_arith)
            requires
                below == limit - 1,
                unit == limit * p,
                p > 0,
        ;
        lemma_pow2_strictly_increases(1074, 2098);
    }
}

/// Up to 2 to the power of 53 the units tell all counts apart.
pub proof fn small_naturals_keep_strict_order(a: nat, b: nat)
    requires
        a <= rounding::SIGNIFICAND_LIMIT,
        b <= rounding::SIGNIFICAND_LIMIT,
    ensures
        natural_units(a) <= natural_units(b) <==> a <= b,
{
    small_naturals_are_exact(a);
    small_naturals_are_exact(b);
    lemma_pow2_pos(1074);
    naturals_are_finite(a);
    naturals_are_finite(b);
    if a > b {
        assert(a * pow2(1074) > b * pow2(1074)) by (nonlinear_arith)
            requires
                a > b,
                pow2(1074) > 0,
        ;
    } else {
        naturals_keep_order(a, b);
    }
}

/// Of two fractions with one denominator, that with the greater numerator is
/// no less a number.
pub proof fn ratios_keep_order(a: nat, b: nat, d: nat)
    requires
        a <= b,
        d > 0,
    ensures
        !Value::ratio(b, d).less(Value::ratio(a, d)),
        Value::ratio(a, d) !is NotANumber,
{
    assert((a * pow2(1074)) * d <= (b * pow2(1074)) * d) by (nonlinear_arith)
        requires
            a <= b,
    ;
    rounding_is_monotone(a * pow2(1074), d, b * pow2(1074), d);
}

/// Tenths up to ten are finite and lie between zero and one.
pub proof fn tenths_are_positive(n: nat)
    requires
        0 < n <= 10,
    ensures
        Value::ratio(n, 10) is Finite,
        Value::ratio(n, 10).signed() > 0,
        Value::ratio(1, 1).at_least(Value::ratio(n, 10)),
{
    lemma2_to64();
    lemma_pow2_unfold(1074);
    lemma_pow2_strictly_increases(4, 1074);
    lemma_grid_is_kept(1, 0, 1);
    assert(1 * pow2(0) * 1 == 1 && 1 * pow2(0) == 1);
    assert(1 * 10 <= (n * pow2(1074)) * 1) by (nonlinear_arith)
        requires
            n >= 1,
            pow2(1074) >= 10,
    ;
    rounding_is_monotone(1, 1, n * pow2(1074), 10);
    small_naturals_are_exact(1);
    assert((n * pow2(1074)) * 1 <= (1 * pow2(1074)) * 10) by (nonlinear_arith)
        requires
            n <= 10,
    ;
    rounding_is_monotone(n * pow2(1074), 10, 1 * pow2(1074), 1);
}

/// What is no less has no lesser nearest number, and no greater one below zero.
proof fn lemma_nearest_keeps_order(x: nat, y: nat, d: nat)
    requires
        x <= y,
        d > 0,
    ensures
        Value::nearest(false, y, d).at_least(Value::nearest(false, x, d)),
        Value::nearest(true, x, d).at_least(Value::nearest(true, y, d)),
{
    assert(x * d <= y * d) by (nonlinear_arith)
        requires
            x <= y,
    ;
    rounding_is_monotone(x, d, y, d);
}

/// A positive factor keeps the order of numbers.
pub proof fn products_keep_order(a: Value, b: Value, factor: Value)
    requires
        b.at_least(a),
        factor is Finite,
        factor.signed() > 0,
    ensures
        b.times(factor).at_least(a.times(factor)),
{
    let unit = pow2(1074);
    lemma_pow2_pos(1074);
    if a is Finite && b is Finite {
        let u = a->units;
        let v = b->units;
        let w = factor->units;
        if u <= v {
            assert(u * w <= v * w) by (nonlinear_arith)
                requires
                    u <= v,
            ;
            lemma_nearest_keeps_order(u * w, v * w, unit);
        } else {
            assert(v * w <= u * w) by (nonlinear_arith)
                requires
                    v <= u,
            ;
            lemma_nearest_keeps_order(v * w, u * w, unit);
        }
        if u == 0 && v == 0 {
            assert(0 * w == 0) by (nonlinear_arith);
            binary64::lemma_zero_rounds_to_zero(unit);
        }
    }
}

/// A positive divisor keeps the order of numbers.
pub proof fn quotients_keep_order(a: Value, b: Value, divisor: Value)
    requires
        b.at_least(a),
        divisor is Finite,
        divisor.signed() > 0,
    ensures
        b.over(divisor).at_least(a.over(divisor)),
{
    let unit = pow2(1074);
    if a is Finite && b is Finite {
        let u = a->units;
        let v = b->units;
        let w = divisor->units;
        if u <= v {
            assert(u * unit <= v * unit) by (nonlinear_arith)
                requires
                    u <= v,
            ;
            lemma_nearest_keeps_order(u * unit, v * unit, w);
        } else {
            assert(v * unit <= u * unit) by (nonlinear_arith)
                requires
                    v <= u,
            ;
            lemma_nearest_keeps_order(v * unit, u * unit, w);
        }
        if u == 0 && v == 0 {
            assert(0 * unit == 0) by (nonlinear_arith);
            binary64::lemma_zero_rounds_to_zero(w);
        }
    }
}

/// Adding what is no less to what is no less does not give less.
pub proof fn sums_keep_order(a: Value, b: Value, c: Value, d: Value)
    requires
        b.at_least(a),
        d.at_least(c),
    ensures
        !b.plus(d).less(a.plus(c)),
{
    if a is Finite && b is Finite && c is Finite && d is Finite {
        let low = a.signed() + c.signed();
        let high = b.signed() + d.signed();
        if low > 0 {
            lemma_nearest_keeps_order(low as nat, high as nat, 1);
        } else if high < 0 {
            lemma_nearest_keeps_order((-high) as nat, (-low) as nat, 1);
        }
    }
}

/// Counts whose sum stays within 2 to the power of 53 are added exactly.
pub proof fn small_naturals_add_up(a: nat, b: nat)
    requires
        a + b <= rounding::SIGNIFICAND_LIMIT,
    ensures
        Value::natural(a).plus(Value::natural(b)) == Value::natural(a + b),
{
    small_naturals_are_exact(a);
    small_naturals_are_exact(b);
    small_naturals_are_exact(a + b);
    assert(a * pow2(1074) + b * pow2(1074) == (a + b) * pow2(1074)) by (nonlinear_arith);
}

/// A count divided by itself is one.
pub proof fn small_naturals_cancel(n: nat)
    requires
        0 < n <= rounding::SIGNIFICAND_LIMIT,
    ensures
        Value::natural(n).over(Value::natural(n)) == Value::ratio(1, 1),
{
    let unit = pow2(1074);
    small_naturals_are_exact(n);
    lemma_pow2_pos(1074);
    assert(n * unit > 0) by (nonlinear_arith)
        requires
            n > 0,
            unit > 0,
    ;
    assert((n * unit * unit) * 1 == (1 * unit) * (n * unit)) by (nonlinear_arith);
    rounding_goes_by_the_fraction(n * unit * unit, n * unit, 1 * unit, 1);
}

/// Below infinity, and without sign, greater bits make a greater number.
pub proof fn greater_bits_are_greater(a: u64, b: u64)
    requires
        a < b <= rounding::INFINITY,
    ensures
        Value::of_bits(a).less(Value::of_bits(b)),
{
    binary64::lemma_units_increase(a as nat, b as nat);
}

/// The bits of the number nearest to `n / d`, where its significand and the
/// exponent of its spacing are known.
pub proof fn ratio_has_bits(n: nat, d: nat, significand: nat, s: nat)
    requires
        d > 0,
        s <= 1074,
        d * rounding::FIELD <= n * pow2((1074 - s) as nat) < d * rounding::SIGNIFICAND_LIMIT,
        rounding::nearest_integer(n * pow2((1074 - s) as nat), d) == significand,
        rounding::FIELD <= significand < rounding::SIGNIFICAND_LIMIT,
    ensures
        Value::ratio(n, d) == Value::of_bits((s * rounding::FIELD + significand) as u64),
{
    let limit = rounding::SIGNIFICAND_LIMIT as nat;
    let field = rounding::FIELD as nat;
    let top = n * pow2((1074 - s) as nat);
    let step = pow2(s);
    let num = n * pow2(1074);
    lemma_pow2_pos(s);
    lemma_pow2_adds((1074 - s) as nat, s);
    assert(num == top * step) by (nonlinear_arith)
        requires
            num == n * (pow2((1074 - s) as nat) * step),
            top == n * pow2((1074 - s) as nat),
    ;
    assert(d * field * step <= top * step < d * limit * step) by (nonlinear_arith)
        requires
            d * field <= top < d * limit,
            step > 0,
    ;
    rounding::lemma_spacing_is(num, d, s);
    rounding::lemma_nearest_integer_scaled(top, d, step);
    rounding::lemma_units_of_parts(significand, s);
    lemma2_to64_rest();
    lemma_pow2_adds(53, s);
    lemma_pow2_strictly_increases(53 + s, 2098);
    assert(significand * step < limit * step) by (nonlinear_arith)
        requires
            significand < limit,
            step > 0,
    ;
    assert(s * field <= 1074 * field) by (nonlinear_arith)
        requires
            s <= 1074,
    ;
}

/// The bits of tenths below one.
pub open spec fn tenth_bits(n: nat) -> u64 {
    if n == 1 {
        0x3FB9_9999_9999_999A
    } else if n == 2 {
        0x3FC9_9999_9999_999A
    } else if n == 3 {
        0x3FD3_3333_3333_3333
    } else if n == 4 {
        0x3FD9_9999_9999_999A
    } else if n == 5 {
        0x3FE0_0000_0000_0000
    } else if n == 6 {
        0x3FE3_3333_3333_3333
    } else if n == 7 {
        0x3FE6_6666_6666_6666
    } else if n == 8 {
        0x3FE9_9999_9999_999A
    } else {
        0x3FEC_CCCC_CCCC_CCCD
    }
}

/// Tenths below one have the bits of their decimal literals.
pub proof fn tenths_have_their_bits(n: nat)
    requires
        0 < n < 10,
    ensures
        Value::ratio(n, 10) == Value::of_bits(tenth_bits(n)),
{
    lemma2_to64_rest();
    if n == 1 {
        ratio_has_bits(1, 10, 0x19_9999_9999_999A, 1018);
    } else if n == 2 {
        ratio_has_bits(2, 10, 0x19_9999_9999_999A, 1019);
    } else if n == 3 {
        ratio_has_bits(3, 10, 0x13_3333_3333_3333, 1020);
    } else if n == 4 {
        ratio_has_bits(4, 10, 0x19_9999_9999_999A, 1020);
    } else if n == 5 {
        ratio_has_bits(5, 10, 0x10_0000_0000_0000, 1021);
    } else if n == 6 {
        ratio_has_bits(6, 10, 0x13_3333_3333_3333, 1021);
    } else if n == 7 {
        ratio_has_bits(7, 10, 0x16_6666_6666_6666, 1021);
    } else if n == 8 {
        ratio_has_bits(8, 10, 0x19_9999_9999_999A, 1021);
    } else {
        ratio_has_bits(9, 10, 0x1C_CCCC_CCCC_CCCD, 1021);
    }
}

} // verus!
