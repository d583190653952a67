use agent_riff_v3::Binary64;

fn num(x: f64) -> Binary64 {
    Binary64::from_bits(x.to_bits())
}

fn float(x: Binary64) -> f64 {
    f64::from_bits(x.to_bits())
}

fn same(ours: Binary64, theirs: f64) -> bool {
    if theirs.is_nan() {
        ours.is_nan()
    } else {
        ours.to_bits() == theirs.to_bits()
    }
}

fn samples() -> Vec<f64> {
    let mut list = vec![
        0.0,
        -0.0,
        1.0,
        -1.0,
        0.5,
        0.1,
        0.2,
        0.3,
        0.6,
        0.7,
        0.8,
        0.9,
        2.0,
        3.0,
        5.0,
        1.0 / 3.0,
        f64::MAX,
        f64::MIN,
        f64::MIN_POSITIVE,
        -f64::MIN_POSITIVE,
        f64::EPSILON,
        f64::INFINITY,
        f64::NEG_INFINITY,
        f64::NAN,
        9007199254740991.0,
        9007199254740992.0,
        9007199254740994.0,
        1e308,
        1e-308,
        1e-320,
        -1e-320,
        f64::from_bits(1),
        f64::from_bits(0x000F_FFFF_FFFF_FFFF),
        f64::from_bits(0x0010_0000_0000_0001),
        f64::from_bits(0x3FEF_FFFF_FFFF_FFFF),
        f64::from_bits(0x3FF0_0000_0000_0001),
        f64::from_bits(0x7FEF_FFFF_FFFF_FFFE),
    ];
    let mut state: u64 = 0x9E37_79B9_7F4A_7C15;
    for i in 0..160u64 {
        state = state.wrapping_mul(6364136223846793005).wrapping_add(1442695040888963407);
        let bits = state ^ (state >> 29);
        list.push(f64::from_bits(bits));
        // Numbers with exponents near each other, where rounding matters most.
        let near = (bits & 0x800F_FFFF_FFFF_FFFF) | ((1000 + (i % 60)) << 52);
        list.push(f64::from_bits(near));
    }
    list
}

#[test]
fn sums_and_differences_are_those_of_the_hardware() {
    let list = samples();
    for &a in &list {
        for &b in &list {
            assert!(same(num(a).add(num(b)), a + b), "{:e} + {:e}", a, b);
            assert!(same(num(a).sub(num(b)), a - b), "{:e} - {:e}", a, b);
        }
    }
}

#[test]
fn products_are_those_of_the_hardware() {
    let list = samples();
    for &a in &list {
        for &b in &list {
            assert!(same(num(a).mul(num(b)), a * b), "{:e} * {:e}", a, b);
        }
    }
}

#[test]
fn quotients_are_those_of_the_hardware() {
    let list = samples();
    for &a in &list {
        for &b in &list {
            assert!(same(num(a).div(num(b)), a / b), "{:e} / {:e}", a, b);
        }
    }
}

#[test]
fn comparisons_are_those_of_the_hardware() {
    let list = samples();
    for &a in &list {
        for &b in &list {
            assert_eq!(num(a).lt(num(b)), a < b, "{:e} < {:e}", a, b);
            assert_eq!(num(a).ge(num(b)), a >= b, "{:e} >= {:e}", a, b);
            let max = float(num(a).max(num(b)));
            let min = float(num(a).min(num(b)));
            if a.is_nan() && b.is_nan() {
                assert!(max.is_nan() && min.is_nan());
            } else {
                assert!(max == a.max(b), "max {:e} {:e}", a, b);
                assert!(min == a.min(b), "min {:e} {:e}", a, b);
            }
        }
    }
}

#[test]
fn counts_become_the_nearest_number() {
    let mut counts: Vec<u64> = vec![
        0,
        1,
        2,
        3,
        100,
        9007199254740991,
        9007199254740992,
        9007199254740993,
        9007199254740994,
        9007199254740995,
        u64::MAX,
        u64::MAX - 1023,
        u64::MAX - 1024,
        u64::MAX - 1025,
    ];
    let mut state: u64 = 7;
    for i in 0..500 {
        state = state.wrapping_mul(6364136223846793005).wrapping_add(1442695040888963407);
        counts.push(state >> (i % 64));
    }
    for &n in &counts {
        assert_eq!(Binary64::from_u64(n).to_bits(), (n as f64).to_bits(), "{}", n);
    }
}

#[test]
fn fractions_become_their_decimal_literals() {
    assert_eq!(Binary64::ratio(2, 10).to_bits(), 0.2f64.to_bits());
    assert_eq!(Binary64::ratio(3, 10).to_bits(), 0.3f64.to_bits());
    assert_eq!(Binary64::ratio(4, 10).to_bits(), 0.4f64.to_bits());
    assert_eq!(Binary64::ratio(6, 10).to_bits(), 0.6f64.to_bits());
    assert_eq!(Binary64::ratio(7, 10).to_bits(), 0.7f64.to_bits());
    assert_eq!(Binary64::ratio(8, 10).to_bits(), 0.8f64.to_bits());
    assert_eq!(Binary64::ratio(9, 10).to_bits(), 0.9f64.to_bits());
    assert_eq!(Binary64::ratio(1, 2).to_bits(), 0.5f64.to_bits());
    assert_eq!(Binary64::ratio(1, 1).to_bits(), 1.0f64.to_bits());
    assert_eq!(Binary64::ratio(5, 1).to_bits(), 5.0f64.to_bits());
    assert_eq!(Binary64::ratio(0, 7).to_bits(), 0.0f64.to_bits());
    assert_eq!(Binary64::ratio(1, 3).to_bits(), (1.0f64 / 3.0).to_bits());
    assert_eq!(Binary64::ratio(u32::MAX, 7).to_bits(), (4294967295.0f64 / 7.0).to_bits());
}

#[test]
fn signs_flip() {
    assert_eq!(Binary64::zero().neg().to_bits(), (-0.0f64).to_bits());
    assert_eq!(num(-2.5).neg().to_bits(), 2.5f64.to_bits());
    assert_eq!(num(f64::INFINITY).neg().to_bits(), f64::NEG_INFINITY.to_bits());
    assert!(num(f64::NAN).neg().is_nan());
    assert!(Binary64::nan().is_nan());
    assert!(!num(f64::INFINITY).is_nan());
    assert!(num(-0.0).is_negative());
    assert!(!num(0.0).is_negative());
}

#[test]
fn ties_go_to_even() {
    // One half of the last digit away from one, and from its upper neighbour.
    let half_digit = f64::from_bits(0x3CA0_0000_0000_0000);
    let upper = f64::from_bits(0x3FF0_0000_0000_0001);
    assert_eq!(num(1.0).add(num(half_digit)).to_bits(), 1.0f64.to_bits());
    assert_eq!(num(upper).add(num(half_digit)).to_bits(), 0x3FF0_0000_0000_0002);
}

#[test]
fn sums_start_from_negative_zero() {
    let negative_zeros = [-0.0f64, -0.0];
    assert_eq!(negative_zeros.iter().sum::<f64>().to_bits(), (-0.0f64).to_bits());
}
