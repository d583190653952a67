use agent_riff_v3::{pack_16, Trit};

#[test]
fn trit_pack_unpack() {
    let trits = vec![Trit::Pos, Trit::Neg, Trit::Zero, Trit::Pos];
    let packed = pack_16(&trits);
    assert_eq!(Trit::unpack_bits((packed & 0x3) as u8), Trit::Pos);
    assert_eq!(Trit::unpack_bits(((packed >> 2) & 0x3) as u8), Trit::Neg);
}

#[test]
fn digits_and_numbers() {
    assert_eq!(Trit::Neg.to_i8(), -1);
    assert_eq!(Trit::Zero.to_i8(), 0);
    assert_eq!(Trit::Pos.to_i8(), 1);
    assert_eq!(Trit::from_i8(-1), Some(Trit::Neg));
    assert_eq!(Trit::from_i8(0), Some(Trit::Zero));
    assert_eq!(Trit::from_i8(1), Some(Trit::Pos));
    assert_eq!(Trit::from_i8(2), None);
    assert_eq!(Trit::from_i8(-2), None);
    assert_eq!(Trit::from_i8(i8::MIN), None);
}

#[test]
fn digits_survive_their_codes() {
    for t in [Trit::Neg, Trit::Zero, Trit::Pos] {
        assert_eq!(Trit::unpack_bits(t.pack_bits()), t);
        // Only the low two bits count.
        assert_eq!(Trit::unpack_bits(t.pack_bits() | 0xFC), t);
    }
    assert_eq!(Trit::unpack_bits(3), Trit::Zero);
}

#[test]
fn packed_words() {
    assert_eq!(pack_16(&[]), 0);
    assert_eq!(pack_16(&[Trit::Neg]), 0);
    assert_eq!(pack_16(&[Trit::Zero]), 1);
    assert_eq!(pack_16(&[Trit::Pos, Trit::Neg, Trit::Zero, Trit::Pos]), 0b10_01_00_10);
    assert_eq!(pack_16(&[Trit::Pos; 16]), 0xAAAA_AAAA);
    // Digits after the sixteenth are left out.
    assert_eq!(pack_16(&[Trit::Zero; 40]), 0x5555_5555);
}

#[test]
fn packed_digits_come_back() {
    let mut trits = Vec::new();
    for i in 0..16usize {
        trits.push(match i % 3 {
            0 => Trit::Pos,
            1 => Trit::Neg,
            _ => Trit::Zero,
        });
    }
    let packed = pack_16(&trits);
    for i in 0..16usize {
        assert_eq!(Trit::unpack_bits(((packed >> (2 * i)) & 3) as u8), trits[i]);
    }
}
