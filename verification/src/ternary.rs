//! Balanced ternary digits and their packed encoding, two bits to a digit.

use vstd::prelude::*;

verus! {

/// A balanced ternary digit. Its number is [`Trit::to_i8`]; a cast gives its
/// place in this list.
#[derive(Debug, Clone, Copy, PartialEq, Eq, Hash, Structural)]
pub enum Trit {
    Neg,
    Zero,
    Pos,
}

impl Trit {
    /// The digit as a number.
    pub open spec fn number(self) -> int {
        match self {
            Trit::Neg => -1,
            Trit::Zero => 0,
            Trit::Pos => 1,
        }
    }

    /// The two-bit code of the digit.
    pub open spec fn code(self) -> u8 {
        match self {
            Trit::Neg => 0,
            Trit::Zero => 1,
            Trit::Pos => 2,
        }
    }

    pub fn to_i8(self) -> (v: i8)
        ensures
            v == self.number(),
    {
        match self {
            Trit::Neg => -1,
            Trit::Zero => 0,
            Trit::Pos => 1,
        }
    }

    pub fn from_i8(v: i8) -> (t: Option<Trit>)
        ensures
            match t {
                Some(t) => v == t.number(),
                None => v < -1 || v > 1,
            },
    {
        if v == -1 {
            Some(Trit::Neg)
        } else if v == 0 {
            Some(Trit::Zero)
        } else if v == 1 {
            Some(Trit::Pos)
        } else {
            None
        }
    }

    pub fn pack_bits(self) -> (b: u8)
        ensures
            b == self.code(),
    {
        match self {
            Trit::Neg => 0,
            Trit::Zero => 1,
            Trit::Pos => 2,
        }
    }

    /// The digit that the low two bits of `b` encode; the code that no digit
    /// has stands for zero.
    pub open spec fn decoded(b: u8) -> Trit {
        if b % 4 == 0 {
            Trit::Neg
        } else if b % 4 == 2 {
            Trit::Pos
        } else {
            Trit::Zero
        }
    }

    pub fn unpack_bits(b: u8) -> (t: Trit)
        ensures
            t == Trit::decoded(b),
    {
        assert(b & 3 == b % 4) by (bit_vector);
        let low: u8 = b & 3;
        if low == 0 {
            Trit::Neg
        } else if low == 1 {
            Trit::Zero
        } else if low == 2 {
            Trit::Pos
        } else {
            Trit::Zero
        }
    }
}

/// The two-bit field number `i` of a packed word.
pub open spec fn field(packed: u32, i: int) -> u8 {
    ((packed >> ((2 * i) as u32)) & 3) as u8
}

/// Whether `packed` holds the codes of the first 16 digits, the first one
/// lowest, and zero in the fields for which there is no digit.
pub open spec fn packs(packed: u32, trits: Seq<Trit>) -> bool {
    forall|i: int|
        0 <= i < 16 ==> #[trigger] field(packed, i) == (if i < trits.len() {
            trits[i].code()
        } else {
            0
        })
}

/// Packs the first 16 digits into one word, the first one lowest. Fields for
/// which there is no digit are zero.
pub fn pack_16(trits: &[Trit]) -> (packed: u32)
    ensures
        packs(packed, trits@),
{
    let mut packed: u32 = 0;
    let mut i: usize = 0;
    assert forall|j: int| 0 <= j < 16 implies #[trigger] field(packed, j) == 0 by {
        let at = (2 * j) as u32;
        assert((0u32 >> at) & 3 == 0) by (bit_vector);
    }
    while i < trits.len() && i < 16
        invariant
            i <= trits@.len(),
            i <= 16,
            forall|j: int|
                0 <= j < 16 ==> #[trigger] field(packed, j) == (if j < i {
                    trits@[j].code()
                } else {
                    0
                }),
        decreases 16 - i,
    {
        let code: u32 = trits[i].pack_bits() as u32;
        let at: u32 = (i * 2) as u32;
        let next: u32 = packed | (code << at);
        assert forall|j: int| 0 <= j < 16 implies #[trigger] field(next, j) == (if j < i + 1 {
            trits@[j].code()
        } else {
            0
        }) by {
            let k = (2 * j) as u32;
            let old_field = (packed >> k) & 3;
            assert(field(packed, j) == old_field as u8);
            assert(old_field < 4) by (bit_vector)
                requires
                    old_field == (packed >> k) & 3,
            ;
            if j == i {
                assert(((packed | (code << at)) >> at) & 3 == code) by (bit_vector)
                    requires
                        at < 32,
                        code < 4,
                        (packed >> at) & 3 == 0,
                        at % 2 == 0,
                ;
            } else {
                assert(((packed | (code << at)) >> k) & 3 == (packed >> k) & 3) by (bit_vector)
                    requires
                        at < 32,
                        k < 32,
                        code < 4,
                        at % 2 == 0,
                        k % 2 == 0,
                        at != k,
                ;
            }
        }
        packed = next;
        i = i + 1;
    }
    packed
}

/// A digit survives the way through its code.
pub proof fn digit_survives_its_code(t: Trit)
    ensures
        Trit::decoded(t.code()) == t,
{
}

/// No two digits share a code, and no two share a number.
pub proof fn codes_and_numbers_tell_digits_apart(a: Trit, b: Trit)
    ensures
        a.code() == b.code() <==> a == b,
        a.number() == b.number() <==> a == b,
{
}

/// Every packed digit is read back from its field.
pub proof fn packed_digits_are_read_back(trits: Seq<Trit>, packed: u32, i: int)
    requires
        0 <= i < trits.len(),
        i < 16,
        packs(packed, trits),
    ensures
        Trit::decoded(field(packed, i)) == trits[i],
{
    digit_survives_its_code(trits[i]);
}

/// The digits determine the packed word.
pub proof fn digits_determine_the_word(trits: Seq<Trit>, a: u32, b: u32)
    requires
        packs(a, trits),
        packs(b, trits),
    ensures
        a == b,
{
    assert forall|i: int| 0 <= i < 16 implies (a >> #[trigger] ((2 * i) as u32)) & 3 == (b >> ((2
        * i) as u32)) & 3 by {
        let k = (2 * i) as u32;
        let x = (a >> k) & 3;
        let y = (b >> k) & 3;
        assert(x < 4 && y < 4) by (bit_vector)
            requires
                x == (a >> k) & 3,
                y == (b >> k) & 3,
        ;
        assert(field(a, i) == field(b, i));
    }
    assert(((2 * 0) as u32) == 0 && ((2 * 1) as u32) == 2 && ((2 * 2) as u32) == 4);
    assert(((2 * 3) as u32) == 6 && ((2 * 4) as u32) == 8 && ((2 * 5) as u32) == 10);
    assert(((2 * 6) as u32) == 12 && ((2 * 7) as u32) == 14 && ((2 * 8) as u32) == 16);
    assert(((2 * 9) as u32) == 18 && ((2 * 10) as u32) == 20 && ((2 * 11) as u32) == 22);
    assert(((2 * 12) as u32) == 24 && ((2 * 13) as u32) == 26 && ((2 * 14) as u32) == 28);
    assert(((2 * 15) as u32) == 30);
    assert(a == b) by (bit_vector)
        requires
            (a >> 0) & 3 == (b >> 0) & 3,
            (a >> 2) & 3 == (b >> 2) & 3,
            (a >> 4) & 3 == (b >> 4) & 3,
            (a >> 6) & 3 == (b >> 6) & 3,
            (a >> 8) & 3 == (b >> 8) & 3,
            (a >> 10) & 3 == (b >> 10) & 3,
            (a >> 12) & 3 == (b >> 12) & 3,
            (a >> 14) & 3 == (b >> 14) & 3,
            (a >> 16) & 3 == (b >> 16) & 3,
            (a >> 18) & 3 == (b >> 18) & 3,
            (a >> 20) & 3 == (b >> 20) & 3,
            (a >> 22) & 3 == (b >> 22) & 3,
            (a >> 24) & 3 == (b >> 24) & 3,
            (a >> 26) & 3 == (b >> 26) & 3,
            (a >> 28) & 3 == (b >> 28) & 3,
            (a >> 30) & 3 == (b >> 30) & 3,
    ;
}

/// Only the low two bits of a code count, and each code is read as one digit.
pub proof fn only_the_low_bits_count(a: u8, b: u8)
    requires
        a % 4 == b % 4,
    ensures
        Trit::decoded(a) == Trit::decoded(b),
        a % 4 == 3 ==> Trit::decoded(a) == Trit::Zero,
        a % 4 < 3 ==> Trit::decoded(a).code() == a % 4,
{
}

/// Codes rise with the numbers of their digits, by one for each.
pub proof fn codes_rise_with_numbers(a: Trit, b: Trit)
    ensures
        a.code() - b.code() == a.number() - b.number(),
        -1 <= a.number() <= 1,
        a.code() == a.number() + 1,
{
}

/// Digits behind the sixteenth are left out, and where there is no digit the
/// field is zero.
pub proof fn words_hold_sixteen_digits(trits: Seq<Trit>, packed: u32, i: int)
    requires
        packs(packed, trits),
        0 <= i < 16,
    ensures
        i >= trits.len() ==> field(packed, i) == 0,
        trits.len() > 16 ==> packs(packed, trits.take(16)),
{
    assert(field(packed, i) == field(packed, i));
    if trits.len() > 16 {
        assert forall|j: int| 0 <= j < 16 implies #[trigger] field(packed, j) == (if j
            < trits.take(16).len() {
            trits.take(16)[j].code()
        } else {
            0
        }) by {}
    }
}

} // verus!
