//! IEEE 754 binary64 numbers on integer arithmetic.
//!
//! Scores, rates and sums of surprise are binary64 numbers. A [`Binary64`]
//! holds the 64 bits of one; its view is the number that they stand for, and
//! each operation is proved to return the exact result rounded to the nearest
//! number, ties to even.

use vstd::arithmetic::power2::*;
use vstd::prelude::*;

use crate::rounding;

verus! {

/// The weight of the sign bit.
pub const SIGN: u64 = 0x8000_0000_0000_0000;

/// What a binary64 number stands for. Finite numbers are counted in units of
/// 2 to the power of -1074; zero has a sign.
pub enum Value {
    NotANumber,
    Infinite { negative: bool },
    Finite { negative: bool, units: nat },
}

impl Value {
    /// The number with the given bits.
    pub open spec fn of_bits(bits: u64) -> Value {
        let negative = bits >= SIGN;
        let magnitude = (bits % SIGN) as nat;
        if magnitude > rounding::INFINITY {
            Value::NotANumber
        } else if magnitude == rounding::INFINITY {
            Value::Infinite { negative }
        } else {
            Value::Finite { negative, units: rounding::units_of(magnitude) }
        }
    }

    /// The number nearest to `num / den` units: ties to even, and infinite
    /// from the first magnitude on that has no number.
    pub open spec fn nearest(negative: bool, num: nat, den: nat) -> Value {
        let units = rounding::rounded(num, den);
        if units >= rounding::overflow_units() {
            Value::Infinite { negative }
        } else {
            Value::Finite { negative, units }
        }
    }

    /// The number nearest to the whole number `n`.
    pub open spec fn natural(n: nat) -> Value {
        Value::nearest(false, n * pow2(1074), 1)
    }

    /// The number nearest to the fraction `n / d`.
    pub open spec fn ratio(n: nat, d: nat) -> Value {
        Value::nearest(false, n * pow2(1074), d)
    }

    /// The units of a finite number, with its sign.
    pub open spec fn signed(self) -> int {
        match self {
            Value::Finite { negative, units } => if negative {
                -(units as int)
            } else {
                units as int
            },
            _ => 0,
        }
    }

    pub open spec fn negated(self) -> Value {
        match self {
            Value::NotANumber => Value::NotANumber,
            Value::Infinite { negative } => Value::Infinite { negative: !negative },
            Value::Finite { negative, units } => Value::Finite { negative: !negative, units },
        }
    }

    pub open spec fn plus(self, other: Value) -> Value {
        match (self, other) {
            (Value::NotANumber, _) => Value::NotANumber,
            (_, Value::NotANumber) => Value::NotANumber,
            (Value::Infinite { negative: a }, Value::Infinite { negative: b }) => if a == b {
                self
            } else {
                Value::NotANumber
            },
            (Value::Infinite { .. }, _) => self,
            (_, Value::Infinite { .. }) => other,
            (Value::Finite { negative: a, .. }, Value::Finite { negative: b, .. }) => {
                let total = self.signed() + other.signed();
                if total == 0 {
                    Value::Finite { negative: a && b, units: 0 }
                } else if total < 0 {
                    Value::nearest(true, (-total) as nat, 1)
                } else {
                    Value::nearest(false, total as nat, 1)
                }
            },
        }
    }

    pub open spec fn minus(self, other: Value) -> Value {
        self.plus(other.negated())
    }

    pub open spec fn times(self, other: Value) -> Value {
        match (self, other) {
            (Value::NotANumber, _) => Value::NotANumber,
            (_, Value::NotANumber) => Value::NotANumber,
            (Value::Infinite { negative: a }, Value::Infinite { negative: b }) => Value::Infinite {
                negative: a != b,
            },
            (Value::Infinite { negative: a }, Value::Finite { negative: b, units }) => if units
                == 0 {
                Value::NotANumber
            } else {
                Value::Infinite { negative: a != b }
            },
            (Value::Finite { negative: a, units }, Value::Infinite { negative: b }) => if units
                == 0 {
                Value::NotANumber
            } else {
                Value::Infinite { negative: a != b }
            },
            (
                Value::Finite { negative: a, units: u },
                Value::Finite { negative: b, units: v },
            ) => Value::nearest(a != b, u * v, pow2(1074)),
        }
    }

    pub open spec fn over(self, other: Value) -> Value {
        match (self, other) {
            (Value::NotANumber, _) => Value::NotANumber,
            (_, Value::NotANumber) => Value::NotANumber,
            (Value::Infinite { .. }, Value::Infinite { .. }) => Value::NotANumber,
            (Value::Infinite { negative: a }, Value::Finite { negative: b, .. }) => Value::Infinite {
                negative: a != b,
            },
            (Value::Finite { negative: a, .. }, Value::Infinite { negative: b }) => Value::Finite {
                negative: a != b,
                units: 0,
            },
            (
                Value::Finite { negative: a, units: u },
                Value::Finite { negative: b, units: v },
            ) => if v > 0 {
                Value::nearest(a != b, u * pow2(1074), v)
            } else if u > 0 {
                Value::Infinite { negative: a != b }
            } else {
                Value::NotANumber
            },
        }
    }

    /// Whether `self < other`. Nothing is less or greater than `NotANumber`,
    /// and both zeros are equal.
    pub open spec fn less(self, other: Value) -> bool {
        match (self, other) {
            (Value::NotANumber, _) => false,
            (_, Value::NotANumber) => false,
            (Value::Infinite { negative: a }, Value::Infinite { negative: b }) => a && !b,
            (Value::Infinite { negative: a }, _) => a,
            (_, Value::Infinite { negative: b }) => !b,
            _ => self.signed() < other.signed(),
        }
    }

    /// Whether `self >= other`.
    pub open spec fn at_least(self, other: Value) -> bool {
        &&& self !is NotANumber
        &&& other !is NotANumber
        &&& !self.less(other)
    }

    /// The greater number; the other one where one is `NotANumber`.
    pub open spec fn max(self, other: Value) -> Value {
        if self is NotANumber || self.less(other) {
            other
        } else {
            self
        }
    }

    /// The lesser number; the other one where one is `NotANumber`.
    pub open spec fn min(self, other: Value) -> Value {
        if self is NotANumber || other.less(self) {
            other
        } else {
            self
        }
    }
}

/// A binary64 number.
#[derive(Debug, Clone, Copy)]
pub struct Binary64 {
    pub bits: u64,
}

impl View for Binary64 {
    type V = Value;

    open spec fn view(&self) -> Value {
        Value::of_bits(self.bits)
    }
}

/// Greater magnitudes have more units.
pub(crate) proof fn lemma_units_increase(a: nat, b: nat)
    requires
        a < b,
    ensures
        rounding::units_of(a) < rounding::units_of(b),
{
    let field = rounding::FIELD as nat;
    let ea = a / field;
    let eb = b / field;
    let fa = a % field;
    let fb = b % field;
    lemma2_to64();
    if ea == eb {
        if ea > 0 {
            lemma_pow2_pos((ea - 1) as nat);
            assert((field + fa) * pow2((ea - 1) as nat) < (field + fb) * pow2((ea - 1) as nat))
                by (nonlinear_arith)
                requires
                    fa < fb,
                    pow2((ea - 1) as nat) > 0,
            ;
        }
    } else {
        assert(ea < eb);
        let pb = pow2((eb - 1) as nat);
        lemma_pow2_pos((eb - 1) as nat);
        assert((field + fb) * pb >= field * pb) by (nonlinear_arith);
        if ea == 0 {
            assert(field * pb >= field) by (nonlinear_arith)
                requires
                    pb >= 1,
            ;
        } else {
            let pa = pow2((ea - 1) as nat);
            lemma_pow2_pos((ea - 1) as nat);
            lemma_pow2_unfold(ea);
            if ea < eb - 1 {
                lemma_pow2_strictly_increases(ea, (eb - 1) as nat);
            }
            assert((field + fa) * pa < field * pb) by (nonlinear_arith)
                requires
                    fa < field,
                    pa > 0,
                    pb >= 2 * pa,
            ;
        }
    }
}

/// The significand of a finite magnitude.
fn significand(magnitude: u64) -> (s: u64)
    ensures
        s < rounding::SIGNIFICAND_LIMIT,
        magnitude > 0 ==> s > 0,
        magnitude >= rounding::FIELD ==> s >= rounding::FIELD,
        magnitude / rounding::FIELD == 0 ==> s == magnitude % rounding::FIELD,
        magnitude / rounding::FIELD > 0 ==> s == rounding::FIELD + magnitude % rounding::FIELD,
{
    if magnitude < rounding::FIELD {
        magnitude
    } else {
        rounding::FIELD + magnitude % rounding::FIELD
    }
}

/// The exponent of the spacing at a finite magnitude.
fn shift(magnitude: u64) -> (e: u32)
    requires
        magnitude < rounding::INFINITY,
    ensures
        e <= 2045,
        e > 0 ==> magnitude >= rounding::FIELD,
        e == (if magnitude / rounding::FIELD == 0 {
            0
        } else {
            magnitude / rounding::FIELD - 1
        }),
{
    if magnitude < rounding::FIELD {
        0
    } else {
        (magnitude / rounding::FIELD - 1) as u32
    }
}

proof fn lemma_units_split(magnitude: u64, s: u64, e: u32)
    requires
        magnitude / rounding::FIELD == 0 ==> s == magnitude % rounding::FIELD && e == 0,
        magnitude / rounding::FIELD > 0 ==> s == rounding::FIELD + magnitude % rounding::FIELD && e
            == magnitude / rounding::FIELD - 1,
    ensures
        rounding::units_of(magnitude as nat) == s * pow2(e as nat),
{
    lemma2_to64();
    assert(pow2(e as nat) == 1 ==> s * pow2(e as nat) == s) by (nonlinear_arith);
}

impl Binary64 {
    pub fn from_bits(bits: u64) -> (r: Binary64)
        ensures
            r.bits == bits,
    {
        Binary64 { bits }
    }

    pub fn to_bits(self) -> (bits: u64)
        ensures
            bits == self.bits,
    {
        self.bits
    }

    fn from_parts(negative: bool, magnitude: u64) -> (r: Binary64)
        requires
            magnitude < SIGN,
        ensures
            r.bits % SIGN == magnitude,
            r.bits >= SIGN <==> negative,
    {
        if negative {
            Binary64 { bits: SIGN + magnitude }
        } else {
            Binary64 { bits: magnitude }
        }
    }

    fn magnitude(self) -> (m: u64)
        ensures
            m == self.bits % SIGN,
            m < SIGN,
    {
        self.bits % SIGN
    }

    pub fn is_negative(self) -> (negative: bool)
        ensures
            negative == (self.bits >= SIGN),
    {
        self.bits >= SIGN
    }

    pub fn is_nan(self) -> (nan: bool)
        ensures
            nan == (self@ is NotANumber),
    {
        self.magnitude() > rounding::INFINITY
    }

    pub fn nan() -> (r: Binary64)
        ensures
            r@ is NotANumber,
    {
        Binary64 { bits: 0x7FF8_0000_0000_0000 }
    }

    pub fn zero() -> (r: Binary64)
        ensures
            r@ == (Value::Finite { negative: false, units: 0 }),
    {
        Binary64 { bits: 0 }
    }

    pub fn neg(self) -> (r: Binary64)
        ensures
            r@ == self@.negated(),
    {
        Binary64::from_parts(!self.is_negative(), self.magnitude())
    }

    /// Whether `self < other`.
    pub fn lt(self, other: Binary64) -> (r: bool)
        ensures
            r == self@.less(other@),
    {
        if self.is_nan() || other.is_nan() {
            return false;
        }
        let a: u64 = self.magnitude();
        let b: u64 = other.magnitude();
        proof {
            if a < b {
                lemma_units_increase(a as nat, b as nat);
            } else if b < a {
                lemma_units_increase(b as nat, a as nat);
            }
            if a > 0 {
                lemma_units_increase(0, a as nat);
            }
            if b > 0 {
                lemma_units_increase(0, b as nat);
            }
        }
        if a == 0 && b == 0 {
            false
        } else if self.is_negative() != other.is_negative() {
            self.is_negative()
        } else if self.is_negative() {
            b < a
        } else {
            a < b
        }
    }

    /// Whether `self >= other`.
    pub fn ge(self, other: Binary64) -> (r: bool)
        ensures
            r == self@.at_least(other@),
    {
        !self.is_nan() && !other.is_nan() && !self.lt(other)
    }

    pub fn max(self, other: Binary64) -> (r: Binary64)
        ensures
            r@ == self@.max(other@),
    {
        if self.is_nan() || self.lt(other) {
            other
        } else {
            self
        }
    }

    pub fn min(self, other: Binary64) -> (r: Binary64)
        ensures
            r@ == self@.min(other@),
    {
        if self.is_nan() || other.lt(self) {
            other
        } else {
            self
        }
    }
}

/// The nearest magnitude to the sum of two magnitudes.
fn add_magnitudes(a: u64, b: u64) -> (m: u64)
    requires
        b <= a < rounding::INFINITY,
        a > 0,
    ensures
        rounding::rounds_to(
            rounding::units_of(a as nat) + rounding::units_of(b as nat),
            1,
            m,
        ),
{
    let sa: u64 = significand(a);
    let sb: u64 = significand(b);
    let ea: u32 = shift(a);
    let eb: u32 = shift(b);
    let ghost num = rounding::units_of(a as nat) + rounding::units_of(b as nat);
    proof {
        lemma_units_split(a, sa, ea);
        lemma_units_split(b, sb, eb);
        lemma_exponents_ordered(a, b);
    }
    let d: u32 = ea - eb;
    if d <= 70 {
        let scale: u128 = rounding::power_of_two(d);
        proof {
            lemma_scaled_significand(sa, d);
            lemma_aligned(sa, ea as nat, d as nat, eb as nat);
            let whole = (sa * scale + sb) as nat;
            assert(whole * pow2(eb as nat) == num) by (nonlinear_arith)
                requires
                    whole == sa * scale + sb,
                    num == sa * pow2(ea as nat) + sb * pow2(eb as nat),
                    sa * pow2(ea as nat) == sa * scale * pow2(eb as nat),
            ;
            lemma_holds_exactly(num, whole, eb as nat);
        }
        let whole: u128 = sa as u128 * scale + sb as u128;
        rounding::round_magnitude(whole, eb as i32, true, Ghost(num), Ghost(1))
    } else {
        proof {
            lemma_far_apart(sa, sb, ea as nat, eb as nat);
        }
        let whole: u128 = sa as u128 * 1024;
        rounding::round_magnitude(whole, ea as i32 - 10, sb == 0, Ghost(num), Ghost(1))
    }
}

/// The nearest magnitude to the difference of two magnitudes.
fn subtract_magnitudes(a: u64, b: u64) -> (m: u64)
    requires
        b < a < rounding::INFINITY,
    ensures
        rounding::rounds_to(
            (rounding::units_of(a as nat) - rounding::units_of(b as nat)) as nat,
            1,
            m,
        ),
{
    let sa: u64 = significand(a);
    let sb: u64 = significand(b);
    let ea: u32 = shift(a);
    let eb: u32 = shift(b);
    let ghost num = (rounding::units_of(a as nat) - rounding::units_of(b as nat)) as nat;
    proof {
        lemma_units_increase(b as nat, a as nat);
        lemma_units_split(a, sa, ea);
        lemma_units_split(b, sb, eb);
        lemma_exponents_ordered(a, b);
    }
    let d: u32 = ea - eb;
    if d <= 70 {
        let scale: u128 = rounding::power_of_two(d);
        proof {
            lemma_scaled_significand(sa, d);
            lemma_aligned(sa, ea as nat, d as nat, eb as nat);
            lemma_pow2_pos(eb as nat);
            assert(sa * scale > sb) by (nonlinear_arith)
                requires
                    sa * pow2(ea as nat) > sb * pow2(eb as nat),
                    sa * pow2(ea as nat) == sa * scale * pow2(eb as nat),
                    pow2(eb as nat) > 0,
            ;
            let whole = (sa * scale - sb) as nat;
            assert(whole * pow2(eb as nat) == num) by (nonlinear_arith)
                requires
                    whole == sa * scale - sb,
                    num == sa * pow2(ea as nat) - sb * pow2(eb as nat),
                    sa * pow2(ea as nat) == sa * scale * pow2(eb as nat),
            ;
            lemma_holds_exactly(num, whole, eb as nat);
        }
        let whole: u128 = sa as u128 * scale - sb as u128;
        rounding::round_magnitude(whole, eb as i32, true, Ghost(num), Ghost(1))
    } else {
        proof {
            lemma_far_apart(sa, sb, ea as nat, eb as nat);
        }
        let whole: u128 = if sb == 0 {
            sa as u128 * 1024
        } else {
            sa as u128 * 1024 - 1
        };
        rounding::round_magnitude(whole, ea as i32 - 10, sb == 0, Ghost(num), Ghost(1))
    }
}

proof fn lemma_exponents_ordered(a: u64, b: u64)
    requires
        b <= a,
    ensures
        b / rounding::FIELD <= a / rounding::FIELD,
{
}

proof fn lemma_scaled_significand(s: u64, d: u32)
    requires
        s < rounding::SIGNIFICAND_LIMIT,
        d <= 70,
    ensures
        s * pow2(d as nat) < 0x800_0000_0000_0000_0000_0000_0000_0000,
        s > 0 ==> s * pow2(d as nat) > 0,
{
    lemma2_to64();
    lemma2_to64_rest();
    lemma_pow2_adds(64, 59);
    lemma_pow2_adds(53, 70);
    lemma_pow2_pos(d as nat);
    if d < 70 {
        lemma_pow2_strictly_increases(d as nat, 70);
    }
    assert(s * pow2(d as nat) < rounding::SIGNIFICAND_LIMIT * pow2(70)) by (nonlinear_arith)
        requires
            s < rounding::SIGNIFICAND_LIMIT,
            pow2(d as nat) <= pow2(70),
            pow2(d as nat) > 0,
    ;
    assert(s > 0 ==> s * pow2(d as nat) > 0) by (nonlinear_arith)
        requires
            pow2(d as nat) > 0,
    ;
}

proof fn lemma_aligned(s: u64, high: nat, d: nat, low: nat)
    requires
        high == low + d,
    ensures
        s * pow2(high) == s * pow2(d) * pow2(low),
{
    lemma_pow2_adds(d, low);
    assert(s * (pow2(d) * pow2(low)) == s * pow2(d) * pow2(low)) by (nonlinear_arith);
}

proof fn lemma_holds_exactly(num: nat, whole: nat, e: nat)
    requires
        whole * pow2(e) == num,
    ensures
        rounding::holds_whole(num, 1, whole, e as int, true),
{
    lemma_pow2_pos(e);
    assert((whole + 1) * (pow2(e) * 1) > num * 1) by (nonlinear_arith)
        requires
            whole * pow2(e) == num,
            pow2(e) > 0,
    ;
}

/// Of two numbers with far exponents, the lesser does not reach one part in
/// 1024 of the last digit of the greater.
proof fn lemma_far_apart(sa: u64, sb: u64, ea: nat, eb: nat)
    requires
        ea > eb + 70,
        rounding::FIELD <= sa,
        sb < rounding::SIGNIFICAND_LIMIT,
    ensures
        rounding::holds_whole(
            (sa * pow2(ea) + sb * pow2(eb)) as nat,
            1,
            (sa * 1024) as nat,
            ea - 10,
            sb == 0,
        ),
        sb == 0 ==> rounding::holds_whole(
            (sa * pow2(ea) - sb * pow2(eb)) as nat,
            1,
            (sa * 1024) as nat,
            ea - 10,
            true,
        ),
        sb > 0 ==> rounding::holds_whole(
            (sa * pow2(ea) - sb * pow2(eb)) as nat,
            1,
            (sa * 1024 - 1) as nat,
            ea - 10,
            false,
        ),
{
    let g = pow2((ea - 10) as nat);
    let low = sb * pow2(eb);
    lemma2_to64();
    lemma2_to64_rest();
    lemma_pow2_pos((ea - 10) as nat);
    lemma_pow2_pos(eb);
    lemma_pow2_adds(10, (ea - 10) as nat);
    lemma_pow2_adds(53, eb);
    lemma_pow2_strictly_increases(53 + eb, (ea - 10) as nat);
    assert(low < g) by (nonlinear_arith)
        requires
            low == sb * pow2(eb),
            sb < rounding::SIGNIFICAND_LIMIT,
            pow2(eb) > 0,
            rounding::SIGNIFICAND_LIMIT * pow2(eb) < g,
    ;
    assert(low >= 0) by (nonlinear_arith)
        requires
            low == sb * pow2(eb),
    ;
    assert(low == 0 <==> sb == 0) by (nonlinear_arith)
        requires
            low == sb * pow2(eb),
            pow2(eb) > 0,
    ;
    assert(sa * pow2(ea) == (sa * 1024) * (g * 1)) by (nonlinear_arith)
        requires
            pow2(ea) == 1024 * g,
    ;
    assert((sa * 1024 + 1) * (g * 1) == (sa * 1024) * (g * 1) + g) by (nonlinear_arith);
    assert((sa * 1024 - 1) * (g * 1) == (sa * 1024) * (g * 1) - g) by (nonlinear_arith);
}

/// The nearest magnitude to the product of two numbers.
fn multiply_magnitudes(a: u64, b: u64) -> (m: u64)
    requires
        0 < a < rounding::INFINITY,
        0 < b < rounding::INFINITY,
    ensures
        rounding::rounds_to(
            rounding::units_of(a as nat) * rounding::units_of(b as nat),
            pow2(1074),
            m,
        ),
{
    let sa: u64 = significand(a);
    let sb: u64 = significand(b);
    let ea: u32 = shift(a);
    let eb: u32 = shift(b);
    let ghost num = rounding::units_of(a as nat) * rounding::units_of(b as nat);
    let ghost e = ea + eb - 1074;
    proof {
        lemma_units_split(a, sa, ea);
        lemma_units_split(b, sb, eb);
        lemma_pow2_pos(1074);
        assert(0 < sa * sb < 0x4_0000_0000_0000_0000_0000_0000_0000) by (nonlinear_arith)
            requires
                0 < sa < rounding::SIGNIFICAND_LIMIT,
                0 < sb < rounding::SIGNIFICAND_LIMIT,
        ;
        let whole = (sa * sb) as nat;
        lemma_pow2_adds(ea as nat, eb as nat);
        assert(num == whole * pow2((ea + eb) as nat)) by (nonlinear_arith)
            requires
                num == (sa * pow2(ea as nat)) * (sb * pow2(eb as nat)),
                whole == sa * sb,
                pow2((ea + eb) as nat) == pow2(ea as nat) * pow2(eb as nat),
        ;
        rounding::lemma_up_down_shift(e, 1074);
        rounding::lemma_up_down_positive(e);
        let u = rounding::up(e);
        let d = rounding::down(e);
        assert(whole * (u * pow2(1074)) == num * d) by (nonlinear_arith)
            requires
                num == whole * pow2((ea + eb) as nat),
                pow2(1074) * u * 1 == pow2((ea + eb) as nat) * d,
        ;
        assert((whole + 1) * (u * pow2(1074)) > whole * (u * pow2(1074))) by (nonlinear_arith)
            requires
                u > 0,
                pow2(1074) > 0,
        ;
    }
    let whole: u128 = sa as u128 * sb as u128;
    rounding::round_magnitude(
        whole,
        ea as i32 + eb as i32 - 1074,
        true,
        Ghost(num),
        Ghost(pow2(1074)),
    )
}

/// The nearest magnitude to `sa` times 2 to the power of `ea`, divided by
/// `sb` times 2 to the power of `eb`.
fn divide_scaled(sa: u64, ea: u32, sb: u64, eb: u32) -> (m: u64)
    requires
        0 < sa < rounding::SIGNIFICAND_LIMIT,
        0 < sb < rounding::SIGNIFICAND_LIMIT,
        ea <= 10_000,
        eb <= 10_000,
    ensures
        rounding::rounds_to(
            (sa * pow2(ea as nat)) as nat,
            (sb * pow2(eb as nat)) as nat,
            m,
        ),
{
    let mut top: u64 = sa;
    let mut j: u32 = 0;
    proof {
        lemma2_to64();
        assert(sa * 1 == sa) by (nonlinear_arith);
    }
    while top < rounding::FIELD
        invariant
            0 < top < rounding::SIGNIFICAND_LIMIT,
            j <= 64,
            top == sa * pow2(j as nat),
            pow2(j as nat) <= top,
            pow2(64) > rounding::SIGNIFICAND_LIMIT,
            0 < sa,
        decreases rounding::SIGNIFICAND_LIMIT - top,
    {
        proof {
            lemma_pow2_unfold((j + 1) as nat);
            assert(sa * (2 * pow2(j as nat)) == 2 * (sa * pow2(j as nat))) by (nonlinear_arith);
            if j == 64 {
                assert(false);
            }
        }
        top = top * 2;
        j = j + 1;
    }
    let numerator: u128 = top as u128 * 0x1_0000_0000_0000_0000;
    let quotient: u128 = numerator / sb as u128;
    let rest: u128 = numerator % sb as u128;
    let ghost num = (sa * pow2(ea as nat)) as nat;
    let ghost den = (sb * pow2(eb as nat)) as nat;
    let ghost e = ea - j - 64 - eb;
    proof {
        lemma_pow2_pos(eb as nat);
        assert(den > 0) by (nonlinear_arith)
            requires
                den == sb * pow2(eb as nat),
                sb > 0,
                pow2(eb as nat) > 0,
        ;
        vstd::arithmetic::div_mod::lemma_fundamental_div_mod(numerator as int, sb as int);
        assert(quotient >= 0x40_0000_0000_0000) by (nonlinear_arith)
            requires
                numerator == sb * quotient + rest,
                rest < sb,
                sb < rounding::SIGNIFICAND_LIMIT,
                numerator >= rounding::FIELD * 0x1_0000_0000_0000_0000,
        ;
        assert(quotient <= numerator) by (nonlinear_arith)
            requires
                numerator == sb * quotient + rest,
                sb >= 1,
                rest >= 0,
        ;
        lemma_quotient_holds(
            sa as nat,
            ea as nat,
            sb as nat,
            eb as nat,
            j as nat,
            quotient as nat,
            rest as nat,
        );
    }
    rounding::round_magnitude(
        quotient,
        ea as i32 - j as i32 - 64 - eb as i32,
        rest == 0,
        Ghost(num),
        Ghost(den),
    )
}

proof fn lemma_quotient_holds(
    sa: nat,
    ea: nat,
    sb: nat,
    eb: nat,
    j: nat,
    quotient: nat,
    rest: nat,
)
    requires
        sb > 0,
        sa * pow2(j) * pow2(64) == sb * quotient + rest,
        rest < sb,
    ensures
        rounding::holds_whole(
            sa * pow2(ea),
            sb * pow2(eb),
            quotient,
            ea - j - 64 - eb,
            rest == 0,
        ),
{
    let e = ea - j - 64 - eb;
    let num = sa * pow2(ea);
    let den = sb * pow2(eb);
    let u = rounding::up(e);
    let d = rounding::down(e);
    let k = pow2(eb) * u;
    rounding::lemma_up_down_shift(e, j + 64 + eb);
    rounding::lemma_up_down_positive(e);
    lemma_pow2_pos(eb);
    lemma_pow2_adds(j, 64);
    lemma_pow2_adds(j + 64, eb);
    assert(k > 0) by (nonlinear_arith)
        requires
            k == pow2(eb) * u,
            pow2(eb) > 0,
            u > 0,
    ;
    assert(num * d == (sb * quotient + rest) * k) by (nonlinear_arith)
        requires
            num == sa * pow2(ea),
            pow2(j + 64 + eb) * u * 1 == pow2(ea) * d,
            pow2(j + 64 + eb) == (pow2(j) * pow2(64)) * pow2(eb),
            sa * pow2(j) * pow2(64) == sb * quotient + rest,
            k == pow2(eb) * u,
    ;
    assert(u * den == sb * k) by (nonlinear_arith)
        requires
            den == sb * pow2(eb),
            k == pow2(eb) * u,
    ;
    assert(quotient * (sb * k) == (sb * quotient) * k) by (nonlinear_arith);
    assert((quotient + 1) * (sb * k) == (sb * quotient) * k + sb * k) by (nonlinear_arith);
    assert((sb * quotient + rest) * k == (sb * quotient) * k + rest * k) by (nonlinear_arith);
    assert(rest * k < sb * k) by (nonlinear_arith)
        requires
            rest < sb,
            k > 0,
    ;
    assert(rest * k == 0 <==> rest == 0) by (nonlinear_arith)
        requires
            k > 0,
    ;
    assert(rest * k >= 0) by (nonlinear_arith);
}

/// Nothing to round: zero stays zero.
pub(crate) proof fn lemma_zero_rounds_to_zero(den: nat)
    requires
        den > 0,
    ensures
        rounding::rounded(0, den) == 0,
        rounding::overflow_units() > 0,
{
    let step = pow2(rounding::spacing(0, den));
    lemma_pow2_pos(rounding::spacing(0, den));
    lemma_pow2_pos(2098);
    assert(den * step > 0) by (nonlinear_arith)
        requires
            den > 0,
            step > 0,
    ;
    assert(0nat / (den * step) == 0 && 0nat % (den * step) == 0) by {
        vstd::arithmetic::div_mod::lemma_fundamental_div_mod_converse(
            0,
            (den * step) as int,
            0,
            0,
        );
    }
}

impl Binary64 {
    /// The number with the given sign and magnitude, which may be infinite.
    fn of_magnitude(negative: bool, magnitude: u64) -> (r: Binary64)
        requires
            magnitude <= rounding::INFINITY,
        ensures
            magnitude == rounding::INFINITY ==> r@ == (Value::Infinite { negative }),
            magnitude < rounding::INFINITY ==> r@ == (Value::Finite {
                negative,
                units: rounding::units_of(magnitude as nat),
            }),
    {
        Binary64::from_parts(negative, magnitude)
    }

    /// The number nearest to `n`.
    pub fn from_u64(n: u64) -> (r: Binary64)
        ensures
            r@ == Value::natural(n as nat),
    {
        if n == 0 {
            proof {
                lemma_zero_rounds_to_zero(1);
                assert(0 * pow2(1074) == 0) by (nonlinear_arith);
            }
            return Binary64::zero();
        }
        let ghost num = n as nat * pow2(1074);
        proof {
            lemma_holds_exactly(num, n as nat, 1074);
        }
        let m: u64 = rounding::round_magnitude(n as u128, 1074, true, Ghost(num), Ghost(1));
        Binary64::of_magnitude(false, m)
    }

    /// The number nearest to `n / d`: what a decimal fraction stands for.
    pub fn ratio(n: u32, d: u32) -> (r: Binary64)
        requires
            d > 0,
        ensures
            r@ == Value::ratio(n as nat, d as nat),
    {
        if n == 0 {
            proof {
                lemma_zero_rounds_to_zero(d as nat);
                assert(0 * pow2(1074) == 0) by (nonlinear_arith);
            }
            return Binary64::zero();
        }
        proof {
            lemma2_to64();
            assert(d * pow2(0) == d) by (nonlinear_arith)
                requires
                    pow2(0) == 1,
            ;
        }
        let m: u64 = divide_scaled(n as u64, 1074, d as u64, 0);
        Binary64::of_magnitude(false, m)
    }

    pub fn add(self, other: Binary64) -> (r: Binary64)
        ensures
            r@ == self@.plus(other@),
    {
        if self.is_nan() || other.is_nan() {
            return Binary64::nan();
        }
        let a: u64 = self.magnitude();
        let b: u64 = other.magnitude();
        let negative_a: bool = self.is_negative();
        let negative_b: bool = other.is_negative();
        if a == rounding::INFINITY {
            if b == rounding::INFINITY && negative_a != negative_b {
                return Binary64::nan();
            }
            return self;
        }
        if b == rounding::INFINITY {
            return other;
        }
        proof {
            if a < b {
                lemma_units_increase(a as nat, b as nat);
            } else if b < a {
                lemma_units_increase(b as nat, a as nat);
            }
            if a > 0 {
                lemma_units_increase(0, a as nat);
            }
            if b > 0 {
                lemma_units_increase(0, b as nat);
            }
        }
        if negative_a == negative_b {
            if a == 0 && b == 0 {
                return Binary64::from_parts(negative_a, 0);
            }
            let m: u64 = if b <= a {
                add_magnitudes(a, b)
            } else {
                add_magnitudes(b, a)
            };
            Binary64::of_magnitude(negative_a, m)
        } else if a == b {
            Binary64::zero()
        } else if b < a {
            let m: u64 = subtract_magnitudes(a, b);
            Binary64::of_magnitude(negative_a, m)
        } else {
            let m: u64 = subtract_magnitudes(b, a);
            Binary64::of_magnitude(negative_b, m)
        }
    }

    pub fn sub(self, other: Binary64) -> (r: Binary64)
        ensures
            r@ == self@.minus(other@),
    {
        self.add(other.neg())
    }

    pub fn mul(self, other: Binary64) -> (r: Binary64)
        ensures
            r@ == self@.times(other@),
    {
        if self.is_nan() || other.is_nan() {
            return Binary64::nan();
        }
        let a: u64 = self.magnitude();
        let b: u64 = other.magnitude();
        let negative: bool = self.is_negative() != other.is_negative();
        proof {
            lemma_pow2_pos(1074);
            lemma_zero_rounds_to_zero(pow2(1074));
            if a > 0 {
                lemma_units_increase(0, a as nat);
            }
            if b > 0 {
                lemma_units_increase(0, b as nat);
            }
        }
        if a == rounding::INFINITY || b == rounding::INFINITY {
            if a == 0 || b == 0 {
                return Binary64::nan();
            }
            return Binary64::of_magnitude(negative, rounding::INFINITY);
        }
        if a == 0 || b == 0 {
            proof {
                let u = rounding::units_of(a as nat);
                let v = rounding::units_of(b as nat);
                assert(u * v == 0) by (nonlinear_arith)
                    requires
                        u == 0 || v == 0,
                ;
            }
            return Binary64::of_magnitude(negative, 0);
        }
        let m: u64 = multiply_magnitudes(a, b);
        Binary64::of_magnitude(negative, m)
    }

    pub fn div(self, other: Binary64) -> (r: Binary64)
        ensures
            r@ == self@.over(other@),
    {
        if self.is_nan() || other.is_nan() {
            return Binary64::nan();
        }
        let a: u64 = self.magnitude();
        let b: u64 = other.magnitude();
        let negative: bool = self.is_negative() != other.is_negative();
        proof {
            if a > 0 {
                lemma_units_increase(0, a as nat);
            }
            if b > 0 {
                lemma_units_increase(0, b as nat);
                lemma_zero_rounds_to_zero(rounding::units_of(b as nat));
            }
            assert(0 * pow2(1074) == 0) by (nonlinear_arith);
        }
        if a == rounding::INFINITY {
            if b == rounding::INFINITY {
                return Binary64::nan();
            }
            return Binary64::of_magnitude(negative, rounding::INFINITY);
        }
        if b == rounding::INFINITY {
            return Binary64::of_magnitude(negative, 0);
        }
        if b == 0 {
            if a == 0 {
                return Binary64::nan();
            }
            return Binary64::of_magnitude(negative, rounding::INFINITY);
        }
        if a == 0 {
            return Binary64::of_magnitude(negative, 0);
        }
        let sa: u64 = significand(a);
        let sb: u64 = significand(b);
        let ea: u32 = shift(a);
        let eb: u32 = shift(b);
        proof {
            lemma_units_split(a, sa, ea);
            lemma_units_split(b, sb, eb);
            lemma_pow2_adds(ea as nat, 1074);
            assert(sa * pow2((ea + 1074) as nat) == sa * pow2(ea as nat) * pow2(1074))
                by (nonlinear_arith)
                requires
                    pow2((ea + 1074) as nat) == pow2(ea as nat) * pow2(1074),
            ;
        }
        let m: u64 = divide_scaled(sa, ea + 1074, sb, eb);
        Binary64::of_magnitude(negative, m)
    }
}

} // verus!
