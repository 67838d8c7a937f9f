use spatial_transforms::binary32;
use spatial_transforms::binary64;

const SINGLES: [f32; 22] = [
    0.0,
    -0.0,
    1.0,
    -1.0,
    0.5,
    1.5,
    3.1415927,
    -2.7182817,
    1.0e-10,
    -6.25e12,
    f32::MAX,
    f32::MIN,
    f32::MIN_POSITIVE,
    -f32::MIN_POSITIVE,
    f32::EPSILON,
    1.0e-40,
    -1.0e-44,
    1.4e-45,
    5.877472e-39,
    f32::INFINITY,
    f32::NEG_INFINITY,
    16777216.0,
];

#[test]
fn widening_agrees_with_the_machine() {
    for x in SINGLES {
        assert_eq!(binary32::widen(x.to_bits()), (x as f64).to_bits(), "{:e}", x);
    }
}

#[test]
fn widening_every_subnormal_exponent() {
    for shift in 0..23 {
        for bits in [1u32 << shift, (1u32 << shift) | 1, (1u32 << shift) - 1] {
            let x = f32::from_bits(bits);
            assert_eq!(binary32::widen(bits), (x as f64).to_bits(), "{:#x}", bits);
            let y = f32::from_bits(bits | 0x8000_0000);
            assert_eq!(binary32::widen(bits | 0x8000_0000), (y as f64).to_bits(), "{:#x}", bits);
        }
    }
}

#[test]
fn widening_exact_patterns() {
    assert_eq!(binary32::widen(0x3f80_0000), 0x3ff0_0000_0000_0000);
    assert_eq!(binary32::widen(0xc000_0000), 0xc000_0000_0000_0000);
    assert_eq!(binary32::widen(0x0000_0001), 0x36a0_0000_0000_0000);
    assert_eq!(binary32::widen(0x7f80_0000), 0x7ff0_0000_0000_0000);
    assert_eq!(binary32::widen(0x8000_0000), 0x8000_0000_0000_0000);
    assert_eq!(binary32::widen(0x3eaa_aaab), 0x3fd5_5555_6000_0000);
}

#[test]
fn widening_keeps_not_a_number() {
    for bits in [0x7fc0_0000u32, 0xffc0_0000, 0x7f80_0001, 0x7fff_ffff, 0xff80_0001, 0x7fa0_0000] {
        let wide = binary32::widen(bits);
        assert!(f64::from_bits(wide).is_nan(), "{:#x}", bits);
        assert!(binary64::is_nan_bits(wide));
        assert_eq!(wide >> 63, (bits >> 31) as u64);
    }
    assert_eq!(binary32::widen(0x7fc0_0000), 0x7ff8_0000_0000_0000);
    assert_eq!(binary32::widen(0x7f80_0001), 0x7ff8_0000_2000_0000);
    assert_eq!(binary32::widen(0xffc0_0001), 0xfff8_0000_2000_0000);
}

#[test]
fn not_a_number_is_told_from_its_bits() {
    for x in SINGLES {
        assert_eq!(binary32::is_nan_bits(x.to_bits()), x.is_nan());
        assert_eq!(binary64::is_nan_bits((x as f64).to_bits()), x.is_nan());
    }
    assert!(binary32::is_nan_bits(f32::NAN.to_bits()));
    assert!(binary32::is_nan_bits(0x7f80_0001));
    assert!(binary32::is_nan_bits(0xffff_ffff));
    assert!(!binary32::is_nan_bits(0x7f80_0000));
    assert!(!binary32::is_nan_bits(0xff80_0000));
    assert!(binary64::is_nan_bits(f64::NAN.to_bits()));
    assert!(binary64::is_nan_bits(binary64::NAN));
    assert!(binary64::is_nan_bits(0x7ff0_0000_0000_0001));
    assert!(binary64::is_nan_bits(0xffff_ffff_ffff_ffff));
    assert!(!binary64::is_nan_bits(f64::INFINITY.to_bits()));
    assert!(!binary64::is_nan_bits(f64::NEG_INFINITY.to_bits()));
    assert!(!binary64::is_nan_bits(f64::MAX.to_bits()));
    assert!(f64::from_bits(binary64::NAN).is_nan());
}

fn expected(x: f64, bound: u32) -> Option<u32> {
    if x >= 0.0 && x < bound as f64 {
        Some(x as u32)
    } else {
        None
    }
}

#[test]
fn whole_part_agrees_with_the_machine() {
    let values = [
        0.0,
        -0.0,
        0.25,
        0.9999999999999999,
        1.0,
        1.5,
        2.0,
        3.9999999999999996,
        4.0,
        4.000000000000001,
        100.75,
        447.99999,
        448.0,
        2147483646.5,
        2147483647.0,
        2147483648.0,
        4294967294.5,
        4294967295.0,
        4294967296.0,
        1.0e300,
        f64::MAX,
        f64::MIN_POSITIVE,
        5.0e-324,
        -5.0e-324,
        -0.5,
        -1.0,
        -1.0e300,
        f64::INFINITY,
        f64::NEG_INFINITY,
        f64::NAN,
    ];
    for x in values {
        for bound in [0u32, 1, 2, 4, 448, 0x7fff_ffff, 0xffff_ffff] {
            assert_eq!(
                binary64::whole_below(x.to_bits(), bound),
                expected(x, bound),
                "{:e} below {}",
                x,
                bound
            );
        }
    }
}

#[test]
fn whole_part_of_every_binade() {
    for exponent in -5..40 {
        let base = 2f64.powi(exponent);
        for x in [base, base * 1.25, base * 1.9999999999999998, -base] {
            for bound in [1u32, 3, 1 << 20, 0x7fff_ffff, 0xffff_ffff] {
                assert_eq!(binary64::whole_below(x.to_bits(), bound), expected(x, bound));
            }
        }
    }
}

#[test]
fn whole_part_exact_values() {
    assert_eq!(binary64::whole_below(0x4008_0000_0000_0000, 4), Some(3));
    assert_eq!(binary64::whole_below(0x400c_0000_0000_0000, 4), Some(3));
    assert_eq!(binary64::whole_below(0x4010_0000_0000_0000, 4), None);
    assert_eq!(binary64::whole_below(0x8000_0000_0000_0000, 4), Some(0));
    assert_eq!(binary64::whole_below(0x8000_0000_0000_0001, 4), None);
    assert_eq!(binary64::whole_below(0, 0), None);
}

fn patterns(seed: u64, count: usize) -> Vec<u64> {
    let mut state = seed;
    (0..count)
        .map(|_| {
            state ^= state << 13;
            state ^= state >> 7;
            state ^= state << 17;
            state
        })
        .collect()
}

#[test]
fn widening_agrees_with_the_machine_on_any_pattern() {
    for pattern in patterns(0x9e37_79b9_7f4a_7c15, 400_000) {
        let bits = (pattern >> 17) as u32;
        let x = f32::from_bits(bits);
        let wide = binary32::widen(bits);
        if x.is_nan() {
            assert!(f64::from_bits(wide).is_nan(), "{:#x}", bits);
            assert_eq!(wide >> 63, (bits >> 31) as u64, "{:#x}", bits);
        } else {
            assert_eq!(wide, (x as f64).to_bits(), "{:#x}", bits);
        }
    }
}

#[test]
fn whole_part_agrees_with_the_machine_on_any_pattern() {
    for pattern in patterns(0x2545_f491_4f6c_dd1d, 200_000) {
        // Any pattern at all, and the same fraction with an exponent near zero.
        let near = (pattern & 0x800f_ffff_ffff_ffff) | ((1000 + (pattern >> 52) % 70) << 52);
        for bits in [pattern, near] {
            let x = f64::from_bits(bits);
            for bound in [1u32, 100, 1 << 20, 0x7fff_ffff, 0xffff_ffff] {
                assert_eq!(
                    binary64::whole_below(bits, bound),
                    expected(x, bound),
                    "{:#x} below {}",
                    bits,
                    bound
                );
            }
        }
    }
}
