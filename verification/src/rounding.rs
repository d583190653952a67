//! Rounding of a positive rational number to the binary64 grid.
//!
//! Every finite binary64 magnitude is a whole number of *units* of
//! 2 to the power of -1074, the smallest positive magnitude. A magnitude is
//! written as a `u64` without sign bit: the exponent field above the 52 bits
//! of the fraction.

use vstd::arithmetic::power2::*;
use vstd::prelude::*;

verus! {

/// 2 to the power of 52: the weight of the exponent field.
pub const FIELD: u64 = 0x10_0000_0000_0000;

/// 2 to the power of 53: significands lie below it.
pub const SIGNIFICAND_LIMIT: u64 = 0x20_0000_0000_0000;

/// The magnitude of infinity. Finite magnitudes lie below it.
pub const INFINITY: u64 = 0x7FF0_0000_0000_0000;

/// The number of units in a finite magnitude.
pub open spec fn units_of(magnitude: nat) -> nat {
    let exponent = magnitude / (FIELD as nat);
    let fraction = magnitude % (FIELD as nat);
    if exponent == 0 {
        fraction
    } else {
        (FIELD + fraction) as nat * pow2((exponent - 1) as nat)
    }
}

/// The whole number nearest to `num / den`; of two equally near ones, the even one.
pub open spec fn nearest_integer(num: nat, den: nat) -> nat {
    let floor = num / den;
    let rest = num % den;
    if 2 * rest < den || (2 * rest == den && floor % 2 == 0) {
        floor
    } else {
        floor + 1
    }
}

/// The exponent of the spacing of the grid around `num / den` units: the
/// least one with which the quotient has a significand of at most 53 bits.
pub open spec fn spacing(num: nat, den: nat) -> nat
    decreases num - den,
{
    if den == 0 || num < den * SIGNIFICAND_LIMIT {
        0
    } else {
        1 + spacing(num, 2 * den)
    }
}

/// The number of units nearest to `num / den` on the grid, were there no
/// largest magnitude; ties go to the even significand.
pub open spec fn rounded(num: nat, den: nat) -> nat {
    let step = pow2(spacing(num, den));
    nearest_integer(num, den * step) * step
}

/// The number of units at which magnitudes overflow to infinity: 2 to the
/// power of 1024.
pub open spec fn overflow_units() -> nat {
    pow2(2098)
}

pub proof fn lemma_spacing_is(num: nat, den: nat, s: nat)
    requires
        den > 0,
        num < den * SIGNIFICAND_LIMIT * pow2(s),
        s > 0 ==> num >= den * FIELD * pow2(s),
    ensures
        spacing(num, den) == s,
    decreases s,
{
    lemma_pow2_pos(s);
    if s == 0 {
        lemma2_to64();
    } else {
        lemma_pow2_unfold(s);
        let p = pow2((s - 1) as nat);
        lemma_pow2_pos((s - 1) as nat);
        assert(den * FIELD * (2 * p) == den * SIGNIFICAND_LIMIT * p) by (nonlinear_arith)
            requires
                FIELD * 2 == SIGNIFICAND_LIMIT,
        ;
        assert((2 * den) * SIGNIFICAND_LIMIT * p == den * SIGNIFICAND_LIMIT * (2 * p))
            by (nonlinear_arith);
        assert((2 * den) * FIELD * p == den * FIELD * (2 * p)) by (nonlinear_arith);
        assert(den * SIGNIFICAND_LIMIT * p >= den * SIGNIFICAND_LIMIT) by (nonlinear_arith)
            requires
                p >= 1,
        ;
        if s == 1 {
            lemma2_to64();
        } else {
            lemma_pow2_unfold((s - 1) as nat);
        }
        lemma_spacing_is(num, 2 * den, (s - 1) as nat);
    }
}

/// Scaling numerator and denominator alike changes no nearest whole number.
pub proof fn lemma_nearest_integer_scaled(num: nat, den: nat, k: nat)
    requires
        den > 0,
        k > 0,
    ensures
        nearest_integer(num * k, den * k) == nearest_integer(num, den),
{
    let q = num / den;
    let r = num % den;
    assert(num == q * den + r) by {
        vstd::arithmetic::div_mod::lemma_fundamental_div_mod(num as int, den as int);
        assert(den * q == q * den) by (nonlinear_arith);
    }
    assert(num * k == q * (den * k) + r * k) by (nonlinear_arith)
        requires
            num == q * den + r,
    ;
    assert(0 <= r * k < den * k) by (nonlinear_arith)
        requires
            0 <= r < den,
            k > 0,
    ;
    vstd::arithmetic::div_mod::lemma_fundamental_div_mod_converse(
        (num * k) as int,
        (den * k) as int,
        q as int,
        (r * k) as int,
    );
    assert((2 * r < den) <==> 2 * (r * k) < den * k) by (nonlinear_arith)
        requires
            k > 0,
    ;
    assert((2 * r == den) <==> 2 * (r * k) == den * k) by (nonlinear_arith)
        requires
            k > 0,
    ;
}

/// Rounding after a division with rest: `whole` lies within one `grain`
/// below `num`, and `whole == quotient * 2 * half + rest`.
proof fn lemma_nearest_integer_of_parts(
    num: nat,
    grain: nat,
    whole: nat,
    half: nat,
    quotient: nat,
    rest: nat,
)
    requires
        grain > 0,
        half > 0,
        whole == quotient * (2 * half) + rest,
        rest < 2 * half,
        whole * grain <= num < (whole + 1) * grain,
    ensures
        nearest_integer(num, grain * (2 * half)) == (if rest < half || (rest == half && num
            == whole * grain && quotient % 2 == 0) {
            quotient
        } else {
            quotient + 1
        }),
{
    let den = grain * (2 * half);
    let r = num - quotient * den;
    assert(whole * grain == quotient * den + rest * grain) by (nonlinear_arith)
        requires
            whole == quotient * (2 * half) + rest,
            den == grain * (2 * half),
    ;
    assert((whole + 1) * grain == whole * grain + grain) by (nonlinear_arith);
    assert(rest * grain <= r < rest * grain + grain);
    assert(rest * grain + grain <= den) by (nonlinear_arith)
        requires
            rest < 2 * half,
            den == grain * (2 * half),
            grain > 0,
    ;
    assert(0 <= rest * grain) by (nonlinear_arith);
    assert(num == quotient * den + r);
    vstd::arithmetic::div_mod::lemma_fundamental_div_mod_converse(
        num as int,
        den as int,
        quotient as int,
        r,
    );
    assert(den == 2 * (half * grain)) by (nonlinear_arith)
        requires
            den == grain * (2 * half),
    ;
    if rest < half {
        assert(rest * grain + grain <= half * grain) by (nonlinear_arith)
            requires
                rest < half,
                grain > 0,
        ;
    } else if rest > half {
        assert(rest * grain >= half * grain + grain) by (nonlinear_arith)
            requires
                rest > half,
                grain > 0,
        ;
    }
}

/// Whether `magnitude` is the nearest one to `num / den` units.
pub open spec fn rounds_to(num: nat, den: nat, magnitude: u64) -> bool {
    if rounded(num, den) >= overflow_units() {
        magnitude == INFINITY
    } else {
        magnitude < INFINITY && units_of(magnitude as nat) == rounded(num, den)
    }
}

/// What a power of two with exponent `e` multiplies with.
pub open spec fn up(e: int) -> nat {
    if e >= 0 {
        pow2(e as nat)
    } else {
        1
    }
}

/// What a power of two with exponent `e` divides by.
pub open spec fn down(e: int) -> nat {
    if e < 0 {
        pow2((-e) as nat)
    } else {
        1
    }
}

/// `whole` powers of two with exponent `e` are what `num / den` holds,
/// exactly or with less than one more left over.
pub open spec fn holds_whole(num: nat, den: nat, whole: nat, e: int, exact: bool) -> bool {
    &&& whole * (up(e) * den) <= num * down(e)
    &&& num * down(e) < (whole + 1) * (up(e) * den)
    &&& exact <==> whole * (up(e) * den) == num * down(e)
}

/// 2 to the power of `n`.
pub fn power_of_two(n: u32) -> (p: u128)
    requires
        n < 128,
    ensures
        p == pow2(n as nat),
        p > 0,
{
    proof {
        lemma2_to64();
    }
    let mut p: u128 = 1;
    let mut i: u32 = 0;
    while i < n
        invariant
            i <= n < 128,
            p == pow2(i as nat),
        decreases n - i,
    {
        proof {
            lemma_pow2_unfold((i + 1) as nat);
            if i + 1 < 127 {
                lemma_pow2_strictly_increases((i + 1) as nat, 127);
            }
            lemma_pow2_127();
        }
        p = p * 2;
        i = i + 1;
    }
    proof {
        lemma_pow2_pos(n as nat);
    }
    p
}

proof fn lemma_pow2_127()
    ensures
        pow2(127) == 0x8000_0000_0000_0000_0000_0000_0000_0000,
{
    lemma2_to64();
    lemma2_to64_rest();
    lemma_pow2_adds(64, 63);
}

/// The number of bits of `n`.
pub fn bit_length(n: u128) -> (l: u32)
    requires
        0 < n < 0x8000_0000_0000_0000_0000_0000_0000_0000,
    ensures
        1 <= l <= 127,
        pow2((l - 1) as nat) <= n < pow2(l as nat),
{
    proof {
        lemma2_to64();
        lemma_pow2_127();
    }
    let mut l: u32 = 1;
    let mut p: u128 = 2;
    while p <= n
        invariant
            1 <= l <= 127,
            p == pow2(l as nat),
            pow2((l - 1) as nat) <= n,
            pow2(127) == 0x8000_0000_0000_0000_0000_0000_0000_0000,
            n < 0x8000_0000_0000_0000_0000_0000_0000_0000,
        decreases 128 - l,
    {
        proof {
            if l == 127 {
                assert(false);
            }
            lemma_pow2_unfold((l + 1) as nat);
        }
        p = p * 2;
        l = l + 1;
    }
    l
}

/// Shifting the exponent by `t` multiplies by 2 to the power of `t`.
pub(crate) proof fn lemma_up_down_shift(e: int, t: nat)
    ensures
        pow2(t) * up(e) * down(e + t) == up(e + t) * down(e),
{
    if e >= 0 {
        lemma_pow2_adds(t, e as nat);
    } else if e + t >= 0 {
        lemma_pow2_adds((e + t) as nat, (-e) as nat);
        assert(pow2(t) * 1 * 1 == pow2(t)) by (nonlinear_arith);
    } else {
        lemma_pow2_adds(t, (-e - t) as nat);
        assert(pow2(t) * 1 * down(e + t) == pow2(t) * down(e + t)) by (nonlinear_arith);
        assert(1 * down(e) == down(e)) by (nonlinear_arith);
    }
}

pub(crate) proof fn lemma_up_down_positive(e: int)
    ensures
        up(e) > 0,
        down(e) > 0,
{
    if e >= 0 {
        lemma_pow2_pos(e as nat);
    } else {
        lemma_pow2_pos((-e) as nat);
    }
}

/// The spacing around a number of which the leading `length` bits are known.
proof fn lemma_spacing_of_whole(num: nat, den: nat, whole: nat, e: int, exact: bool, length: nat)
    requires
        den > 0,
        holds_whole(num, den, whole, e, exact),
        length >= 1,
        pow2((length - 1) as nat) <= whole < pow2(length),
    ensures
        spacing(num, den) == (if length + e > 53 {
            (length + e - 53) as nat
        } else {
            0
        }),
{
    let s = if length + e > 53 {
        (length + e - 53) as nat
    } else {
        0
    };
    let u = up(e);
    let d = down(e);
    lemma_up_down_positive(e);
    lemma2_to64();
    lemma2_to64_rest();
    // num * d < pow2(length) * u * den <= pow2(53 + s) * d * den
    assert((whole + 1) * (u * den) <= pow2(length) * u * den) by (nonlinear_arith)
        requires
            whole + 1 <= pow2(length),
            u > 0,
            den > 0,
    ;
    assert(pow2(length) * u <= pow2(53 + s) * d) by {
        if e >= 0 {
            lemma_pow2_adds(length, e as nat);
            if length + e < 53 + s {
                lemma_pow2_strictly_increases((length + e) as nat, 53 + s);
            }
        } else {
            lemma_pow2_adds(53 + s, (-e) as nat);
            if length < 53 + s - e {
                lemma_pow2_strictly_increases(length, (53 + s - e) as nat);
            }
        }
    }
    assert(num * d < pow2(53 + s) * d * den) by {
        assert(pow2(length) * u * den <= pow2(53 + s) * d * den) by (nonlinear_arith)
            requires
                pow2(length) * u <= pow2(53 + s) * d,
                den > 0,
        ;
    }
    assert(num < pow2(53 + s) * den) by (nonlinear_arith)
        requires
            num * d < pow2(53 + s) * d * den,
            d > 0,
    ;
    lemma_pow2_adds(53, s);
    assert(den * SIGNIFICAND_LIMIT * pow2(s) == pow2(53 + s) * den) by (nonlinear_arith)
        requires
            pow2(53 + s) == SIGNIFICAND_LIMIT * pow2(s),
    ;
    if s > 0 {
        assert(pow2((length - 1) as nat) * u == pow2(52 + s) * d) by {
            if e >= 0 {
                lemma_pow2_adds((length - 1) as nat, e as nat);
            } else {
                lemma_pow2_adds(52 + s, (-e) as nat);
            }
        }
        assert(whole * (u * den) >= pow2((length - 1) as nat) * u * den) by (nonlinear_arith)
            requires
                whole >= pow2((length - 1) as nat),
                u > 0,
                den > 0,
        ;
        assert(num >= pow2(52 + s) * den) by (nonlinear_arith)
            requires
                num * d >= pow2(52 + s) * d * den,
                d > 0,
        ;
        lemma_pow2_adds(52, s);
        assert(den * FIELD * pow2(s) == pow2(52 + s) * den) by (nonlinear_arith)
            requires
                pow2(52 + s) == FIELD * pow2(s),
        ;
    }
    lemma_spacing_is(num, den, s);
}

/// The significand of a magnitude and its spacing, put into one word.
pub(crate) proof fn lemma_units_of_parts(significand: nat, s: nat)
    requires
        significand <= SIGNIFICAND_LIMIT,
        s > 0 ==> significand >= FIELD,
    ensures
        units_of((s * FIELD + significand) as nat) == significand * pow2(s),
{
    let m = (s * FIELD + significand) as nat;
    lemma2_to64();
    lemma_pow2_unfold(s + 1);
    if significand < FIELD {
        assert(m / (FIELD as nat) == 0);
    } else if significand < SIGNIFICAND_LIMIT {
        vstd::arithmetic::div_mod::lemma_fundamental_div_mod_converse(
            m as int,
            FIELD as int,
            (s + 1) as int,
            significand - FIELD,
        );
    } else {
        vstd::arithmetic::div_mod::lemma_fundamental_div_mod_converse(
            m as int,
            FIELD as int,
            (s + 2) as int,
            0,
        );
        assert(FIELD * (2 * pow2(s)) == SIGNIFICAND_LIMIT * pow2(s)) by (nonlinear_arith)
            requires
                FIELD * 2 == SIGNIFICAND_LIMIT,
        ;
    }
}

/// Where a rounded number passes the largest magnitude.
proof fn lemma_overflow_of_parts(significand: nat, s: nat)
    requires
        significand <= SIGNIFICAND_LIMIT,
        s > 0 ==> significand >= FIELD,
    ensures
        significand * pow2(s) >= overflow_units() <==> s * FIELD + significand >= INFINITY,
{
    lemma2_to64();
    lemma2_to64_rest();
    lemma_pow2_pos(s);
    if s <= 2044 {
        lemma_pow2_adds(53, s);
        lemma_pow2_strictly_increases(53 + s, 2098);
        assert(significand * pow2(s) <= SIGNIFICAND_LIMIT * pow2(s)) by (nonlinear_arith)
            requires
                significand <= SIGNIFICAND_LIMIT,
        ;
    } else if s == 2045 {
        lemma_pow2_adds(53, s);
        if significand < SIGNIFICAND_LIMIT {
            assert(significand * pow2(s) < SIGNIFICAND_LIMIT * pow2(s)) by (nonlinear_arith)
                requires
                    significand < SIGNIFICAND_LIMIT,
                    pow2(s) > 0,
            ;
        }
    } else {
        lemma_pow2_adds(52, s);
        if s > 2046 {
            lemma_pow2_strictly_increases(2098, 52 + s);
        }
        assert(significand * pow2(s) >= FIELD * pow2(s)) by (nonlinear_arith)
            requires
                significand >= FIELD,
        ;
        assert(s * FIELD >= 2046 * FIELD) by (nonlinear_arith)
            requires
                s >= 2046,
        ;
    }
}

/// Rounds `num / den` units, of which `whole` holds the leading bits, to the
/// nearest magnitude; ties go to the even significand.
pub(crate) fn round_magnitude(
    whole: u128,
    e: i32,
    exact: bool,
    Ghost(num): Ghost<nat>,
    Ghost(den): Ghost<nat>,
) -> (magnitude: u64)
    requires
        den > 0,
        0 < whole < 0x8000_0000_0000_0000_0000_0000_0000_0000,
        -100_000 <= e <= 100_000,
        holds_whole(num, den, whole as nat, e as int, exact),
        !exact ==> whole >= 0x40_0000_0000_0000,
    ensures
        rounds_to(num, den, magnitude),
{
    let length: u32 = bit_length(whole);
    let lead: i32 = length as i32 + e - 53;
    let s: i32 = if lead > 0 {
        lead
    } else {
        0
    };
    proof {
        lemma_spacing_of_whole(num, den, whole as nat, e as int, exact, length as nat);
        lemma_pow2_pos(s as nat);
        lemma2_to64();
        lemma2_to64_rest();
    }
    let t: i32 = s - e;
    let ghost step = pow2(s as nat);
    let significand: u64;
    if t <= 0 {
        proof {
            if !exact {
                if length <= 54 {
                    if length < 54 {
                        lemma_pow2_strictly_increases(length as nat, 54);
                    }
                    assert(false);
                }
            }
        }
        let factor: u128 = power_of_two((-t) as u32);
        proof {
            lemma_exact_significand(num, den, whole as nat, e as int, s as nat, length as nat);
        }
        significand = (whole * factor) as u64;
    } else if t >= 128 {
        significand = 0;
        proof {
            lemma_pow2_adds(1, (t - 1) as nat);
            lemma_pow2_unfold(t as nat);
            lemma_pow2_127();
            if t > 128 {
                lemma_pow2_strictly_increases(127, (t - 1) as nat);
            }
            lemma_shifted_significand(
                num,
                den,
                whole as nat,
                e as int,
                exact,
                s as nat,
                t as nat,
                0,
                whole as nat,
            );
            if s > 0 {
                assert(false);
            }
        }
    } else {
        let divisor: u128 = power_of_two(t as u32);
        let half: u128 = power_of_two((t - 1) as u32);
        let quotient: u128 = whole / divisor;
        let rest: u128 = whole % divisor;
        proof {
            lemma_pow2_unfold(t as nat);
            vstd::arithmetic::div_mod::lemma_fundamental_div_mod(whole as int, divisor as int);
            assert(divisor * quotient == quotient * divisor) by (nonlinear_arith);
            lemma_shifted_significand(
                num,
                den,
                whole as nat,
                e as int,
                exact,
                s as nat,
                t as nat,
                quotient as nat,
                rest as nat,
            );
            lemma_quotient_range(whole as nat, length as nat, t as nat, s as nat, quotient as nat);
        }
        if rest < half || (rest == half && exact && quotient % 2 == 0) {
            significand = quotient as u64;
        } else {
            significand = (quotient + 1) as u64;
        }
    }
    proof {
        lemma_units_of_parts(significand as nat, s as nat);
        lemma_overflow_of_parts(significand as nat, s as nat);
    }
    if s >= 2046 {
        proof {
            assert(s * FIELD >= 2046 * FIELD) by (nonlinear_arith)
                requires
                    s >= 2046,
            ;
        }
        return INFINITY;
    }
    let magnitude: u64 = s as u64 * FIELD + significand;
    if magnitude >= INFINITY {
        INFINITY
    } else {
        magnitude
    }
}

/// A whole number with at most 53 bits is its own significand, shifted up.
proof fn lemma_exact_significand(num: nat, den: nat, whole: nat, e: int, s: nat, length: nat)
    requires
        den > 0,
        holds_whole(num, den, whole, e, true),
        length >= 1,
        pow2((length - 1) as nat) <= whole < pow2(length),
        s <= e,
        s == (if length + e > 53 {
            (length + e - 53) as nat
        } else {
            0
        }),
    ensures
        nearest_integer(num, den * pow2(s)) == whole * pow2((e - s) as nat),
        whole * pow2((e - s) as nat) < SIGNIFICAND_LIMIT,
        s > 0 ==> whole * pow2((e - s) as nat) >= FIELD,
{
    let k = (e - s) as nat;
    let d = den * pow2(s);
    let n = whole * pow2(k);
    lemma2_to64();
    lemma2_to64_rest();
    lemma_pow2_pos(s);
    lemma_pow2_pos(k);
    lemma_pow2_adds(s, k);
    assert(num == n * d) by (nonlinear_arith)
        requires
            num == whole * (pow2(e as nat) * den),
            pow2(e as nat) == pow2(s) * pow2(k),
            n == whole * pow2(k),
            d == den * pow2(s),
    ;
    assert(d > 0) by (nonlinear_arith)
        requires
            d == den * pow2(s),
            den > 0,
            pow2(s) > 0,
    ;
    vstd::arithmetic::div_mod::lemma_fundamental_div_mod_converse(
        num as int,
        d as int,
        n as int,
        0,
    );
    assert(n < pow2(length) * pow2(k)) by (nonlinear_arith)
        requires
            n == whole * pow2(k),
            whole < pow2(length),
            pow2(k) > 0,
    ;
    lemma_pow2_adds(length, k);
    if length + k < 53 {
        lemma_pow2_strictly_increases(length + k, 53);
    }
    if s > 0 {
        lemma_pow2_adds((length - 1) as nat, k);
        assert(n >= pow2((length - 1) as nat) * pow2(k)) by (nonlinear_arith)
            requires
                n == whole * pow2(k),
                whole >= pow2((length - 1) as nat),
        ;
    }
}

/// The significand that is left when `t` bits are rounded off.
proof fn lemma_shifted_significand(
    num: nat,
    den: nat,
    whole: nat,
    e: int,
    exact: bool,
    s: nat,
    t: nat,
    quotient: nat,
    rest: nat,
)
    requires
        den > 0,
        holds_whole(num, den, whole, e, exact),
        t > 0,
        s == e + t,
        whole == quotient * pow2(t) + rest,
        rest < pow2(t),
    ensures
        nearest_integer(num, den * pow2(s)) == (if rest < pow2((t - 1) as nat) || (rest == pow2(
            (t - 1) as nat,
        ) && exact && quotient % 2 == 0) {
            quotient
        } else {
            quotient + 1
        }),
{
    let grain = up(e) * den;
    let half = pow2((t - 1) as nat);
    lemma_pow2_unfold(t);
    lemma_pow2_pos((t - 1) as nat);
    lemma_pow2_pos(s);
    lemma_up_down_positive(e);
    lemma_up_down_shift(e, t);
    assert(grain > 0) by (nonlinear_arith)
        requires
            grain == up(e) * den,
            up(e) > 0,
            den > 0,
    ;
    lemma_nearest_integer_of_parts(num * down(e), grain, whole, half, quotient, rest);
    assert(den * pow2(s) > 0) by (nonlinear_arith)
        requires
            den > 0,
            pow2(s) > 0,
    ;
    lemma_nearest_integer_scaled(num, den * pow2(s), down(e));
    assert(den * pow2(s) * down(e) == grain * pow2(t)) by (nonlinear_arith)
        requires
            pow2(t) * up(e) * 1 == pow2(s) * down(e),
            grain == up(e) * den,
    ;
}

/// The quotient that is left when `t` bits are taken off has at most 53 bits.
proof fn lemma_quotient_range(whole: nat, length: nat, t: nat, s: nat, quotient: nat)
    requires
        length >= 1,
        pow2((length - 1) as nat) <= whole < pow2(length),
        t > 0,
        length <= t + 53,
        s > 0 ==> length == t + 53,
        quotient == whole / pow2(t),
    ensures
        quotient < SIGNIFICAND_LIMIT,
        s > 0 ==> quotient >= FIELD,
{
    lemma2_to64();
    lemma2_to64_rest();
    lemma_pow2_pos(t);
    vstd::arithmetic::div_mod::lemma_fundamental_div_mod(whole as int, pow2(t) as int);
    lemma_pow2_adds(53, t);
    lemma_pow2_adds(52, t);
    if length < 53 + t {
        lemma_pow2_strictly_increases(length, 53 + t);
    }
    assert(quotient < SIGNIFICAND_LIMIT) by (nonlinear_arith)
        requires
            pow2(t) * quotient <= whole,
            whole < SIGNIFICAND_LIMIT * pow2(t),
            pow2(t) > 0,
    ;
    if s > 0 {
        assert(quotient >= FIELD) by (nonlinear_arith)
            requires
                whole < pow2(t) * quotient + pow2(t),
                whole >= FIELD * pow2(t),
                pow2(t) > 0,
        ;
    }
}

} // verus!
