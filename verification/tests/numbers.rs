use tensor_kernels::binary32::Binary32;

fn b(x: f32) -> Binary32 {
    Binary32::from_bits(x.to_bits())
}

fn samples() -> Vec<f32> {
    vec![
        0.0,
        -0.0,
        1.0,
        -1.0,
        0.5,
        -0.5,
        2.0,
        3.5,
        -3.5,
        1.0e-40,
        -1.0e-40,
        f32::MIN_POSITIVE,
        f32::MAX,
        f32::MIN,
        f32::INFINITY,
        f32::NEG_INFINITY,
        f32::NAN,
        -f32::NAN,
        f32::from_bits(0x7f80_0001),
        f32::from_bits(0xffff_ffff),
    ]
}

#[test]
fn constants_are_zero_and_one() {
    assert_eq!(Binary32::zero().to_bits(), 0.0f32.to_bits());
    assert_eq!(Binary32::one().to_bits(), 1.0f32.to_bits());
    assert_eq!(Binary32::from_bits(0x4000_0000).to_bits(), 2.0f32.to_bits());
}

#[test]
fn nan_is_told_apart() {
    for x in samples() {
        assert_eq!(b(x).is_nan(), x.is_nan(), "{x}");
    }
    assert!(!b(f32::INFINITY).is_nan());
    assert!(b(f32::from_bits(0x7f80_0001)).is_nan());
}

#[test]
fn comparisons_agree_with_the_hardware() {
    for x in samples() {
        for y in samples() {
            assert_eq!(b(x).lt(b(y)), x < y, "{x} < {y}");
            assert_eq!(b(x).le(b(y)), x <= y, "{x} <= {y}");
            assert_eq!(b(x).gt(b(y)), x > y, "{x} > {y}");
            assert_eq!(b(x).ge(b(y)), x >= y, "{x} >= {y}");
        }
    }
}

#[test]
fn zeros_compare_equal_and_nan_to_nothing() {
    assert!(b(0.0).le(b(-0.0)));
    assert!(b(-0.0).le(b(0.0)));
    assert!(!b(-0.0).lt(b(0.0)));
    assert!(!b(f32::NAN).le(b(f32::NAN)));
    assert!(!b(f32::NAN).ge(b(1.0)));
    assert!(!b(1.0).ge(b(f32::NAN)));
}

#[test]
fn total_key_agrees_with_the_total_order() {
    for x in samples() {
        for y in samples() {
            let keys = b(x).total_key().cmp(&b(y).total_key());
            assert_eq!(keys, x.total_cmp(&y), "{x} against {y}");
        }
    }
    assert!(b(-0.0).total_key() < b(0.0).total_key());
    assert_eq!(b(0.0).total_key(), 0x8000_0000);
    assert_eq!(b(-0.0).total_key(), 0x7fff_ffff);
    assert_eq!(b(f32::from_bits(0xffff_ffff)).total_key(), 0);
    assert_eq!(b(f32::from_bits(0x7fff_ffff)).total_key(), 0xffff_ffff);
}

#[test]
fn max_and_min_agree_with_the_hardware() {
    for x in samples() {
        for y in samples() {
            if x.is_nan() && y.is_nan() {
                assert!(b(x).max(b(y)).is_nan());
                assert!(b(x).min(b(y)).is_nan());
            } else if x == y {
                assert_eq!(b(x).max(b(y)).to_bits(), x.to_bits());
                assert_eq!(b(x).min(b(y)).to_bits(), x.to_bits());
            } else {
                assert_eq!(b(x).max(b(y)).to_bits(), x.max(y).to_bits(), "max {x} {y}");
                assert_eq!(b(x).min(b(y)).to_bits(), x.min(y).to_bits(), "min {x} {y}");
            }
        }
    }
}

#[test]
fn max_ignores_nan() {
    assert_eq!(b(f32::NAN).max(b(2.0)).to_bits(), 2.0f32.to_bits());
    assert_eq!(b(2.0).max(b(f32::NAN)).to_bits(), 2.0f32.to_bits());
    assert_eq!(b(f32::NAN).min(b(2.0)).to_bits(), 2.0f32.to_bits());
    assert_eq!(b(2.0).min(b(f32::NAN)).to_bits(), 2.0f32.to_bits());
    assert_eq!(b(1.0).max(b(2.0)).to_bits(), 2.0f32.to_bits());
    assert_eq!(b(1.0).min(b(2.0)).to_bits(), 1.0f32.to_bits());
}

#[test]
fn neg_flips_the_sign_only() {
    for x in samples() {
        assert_eq!(b(x).neg().to_bits(), (-x).to_bits(), "{x}");
    }
    assert_eq!(b(0.0).neg().to_bits(), 0x8000_0000);
    assert_eq!(b(1.5).neg().neg().to_bits(), 1.5f32.to_bits());
}
