use dimensions::binary32::{binary32_of_i32, binary32_to_i32};
use dimensions::Dimensions;

const INTEGERS: [i32; 22] = [
    0,
    1,
    -1,
    2,
    3,
    10,
    -20,
    255,
    8_388_607,
    8_388_608,
    16_777_215,
    16_777_216,
    -16_777_216,
    16_777_217,
    16_777_218,
    16_777_219,
    33_554_435,
    -33_554_437,
    123_456_789,
    -987_654_321,
    i32::MAX,
    i32::MIN,
];

#[test]
fn integer_to_binary32_matches_cast() {
    for n in INTEGERS {
        assert_eq!(binary32_of_i32(n), (n as f32).to_bits(), "n = {}", n);
    }
}

#[test]
fn integer_to_binary32_rounds_ties_to_even() {
    // 2^24 + 1 lies halfway between 2^24 and 2^24 + 2: the even one wins.
    assert_eq!(f32::from_bits(binary32_of_i32(16_777_217)), 16_777_216.0);
    // 2^24 + 3 lies halfway between 2^24 + 2 and 2^24 + 4: the even one wins.
    assert_eq!(f32::from_bits(binary32_of_i32(16_777_219)), 16_777_220.0);
    // The largest i32 rounds up to 2^31.
    assert_eq!(f32::from_bits(binary32_of_i32(i32::MAX)), 2_147_483_648.0);
}

#[test]
fn exact_values_of_small_integers() {
    assert_eq!(binary32_of_i32(0), 0);
    assert_eq!(binary32_of_i32(1), 0x3f80_0000);
    assert_eq!(binary32_of_i32(-1), 0xbf80_0000);
    assert_eq!(binary32_of_i32(10), 0x4120_0000);
    assert_eq!(binary32_of_i32(-20), 0xc1a0_0000);
}

#[test]
fn binary32_to_integer_matches_cast() {
    let values: [f32; 20] = [
        0.0,
        -0.0,
        0.5,
        -0.99,
        1.0,
        3.7,
        -3.7,
        123_456.78,
        -8_388_607.5,
        16_777_216.0,
        2_147_483_520.0,
        -2_147_483_648.0,
        2_147_483_648.0,
        3.0e9,
        -3.0e9,
        1.0e-45,
        f32::MAX,
        f32::INFINITY,
        f32::NEG_INFINITY,
        f32::NAN,
    ];
    for v in values {
        assert_eq!(binary32_to_i32(v.to_bits()), v as i32, "v = {}", v);
    }
}

#[test]
fn binary32_to_integer_edge_cases() {
    assert_eq!(binary32_to_i32(f32::NAN.to_bits()), 0);
    assert_eq!(binary32_to_i32(f32::INFINITY.to_bits()), i32::MAX);
    assert_eq!(binary32_to_i32(f32::NEG_INFINITY.to_bits()), i32::MIN);
    assert_eq!(binary32_to_i32(5.0e9f32.to_bits()), i32::MAX);
    assert_eq!(binary32_to_i32((-5.0e9f32).to_bits()), i32::MIN);
    assert_eq!(binary32_to_i32(0.999f32.to_bits()), 0);
    assert_eq!(binary32_to_i32(96.0f32.to_bits()), 96);
    assert_eq!(binary32_to_i32(1.5e9f32.to_bits()), 1_500_000_000);
}

#[test]
fn truncation_toward_zero() {
    let d = Dimensions::from_bits(3.7f32.to_bits(), (-3.7f32).to_bits());
    assert_eq!(d.i32_width(), 3);
    assert_eq!(d.i32_height(), -3);
}

#[test]
fn zero_agrees_with_integer_and_float_zero() {
    let z = Dimensions::zero();
    let i = Dimensions::from(0i32);
    let f = Dimensions::splat(0.0f32.to_bits());
    assert_eq!((z.x, z.y), (i.x, i.y));
    assert_eq!((z.x, z.y), (f.x, f.y));
    assert_eq!(f32::from_bits(z.width()), 0.0);
    assert_eq!(f32::from_bits(z.height()), 0.0);
}

#[test]
fn pair_conversion_gives_width_and_height() {
    for (a, b) in [(0, 0), (10, -20), (7, 16_777_217), (i32::MIN, i32::MAX), (-3, 3)] {
        let d = Dimensions::from((a, b));
        assert_eq!(d.width(), (a as f32).to_bits());
        assert_eq!(d.height(), (b as f32).to_bits());
    }
}

#[test]
fn new_matches_pair_conversion() {
    let d = Dimensions::new(3, -3);
    let e = Dimensions::from((3, -3));
    assert_eq!((d.x, d.y), (e.x, e.y));
    assert_eq!(f32::from_bits(d.width()), 3.0);
    assert_eq!(f32::from_bits(d.height()), -3.0);
}

#[test]
fn integer_broadcast() {
    let d = Dimensions::from(-7i32);
    assert_eq!(f32::from_bits(d.x), -7.0);
    assert_eq!(f32::from_bits(d.y), -7.0);
    let s = Dimensions::splat(2.5f32.to_bits());
    assert_eq!(f32::from_bits(s.width()), 2.5);
    assert_eq!(f32::from_bits(s.height()), 2.5);
}

#[test]
fn integer_pair_round_trip() {
    let d = Dimensions::from((10, -20));
    assert_eq!(f32::from_bits(d.width()), 10.0);
    assert_eq!(f32::from_bits(d.height()), -20.0);
    assert_eq!((d.i32_width(), d.i32_height()), (10, -20));
    for (a, b) in [(16_777_216, -16_777_216), (0, 1), (1 << 30, -(1 << 30)), (i32::MIN, 0)] {
        let d = Dimensions::from((a, b));
        assert_eq!((d.i32_width(), d.i32_height()), (a, b));
    }
}

#[test]
fn inexact_integers_do_not_round_trip() {
    let d = Dimensions::new(16_777_217, i32::MAX);
    assert_eq!(d.i32_width(), 16_777_216);
    assert_eq!(d.i32_height(), i32::MAX);
}
