use burn_autogaze::{Binary32, Binary64};

fn next(seed: &mut u64) -> u64 {
    *seed = seed.wrapping_mul(6364136223846793005).wrapping_add(1442695040888963407);
    let x = *seed ^ (*seed >> 33);
    x.wrapping_mul(0xff51afd7ed558ccd) ^ (x >> 29)
}

fn singles() -> Vec<f32> {
    let mut values = vec![
        0.0,
        -0.0,
        1.0,
        -1.0,
        0.5,
        1.5,
        2.5,
        -2.5,
        0.1,
        1.0 / 3.0,
        16777216.0,
        16777217.0,
        f32::MAX,
        f32::MIN,
        f32::MIN_POSITIVE,
        f32::from_bits(1),
        f32::from_bits(0x007f_ffff),
        f32::from_bits(0x8000_0001),
        f32::EPSILON,
        f32::INFINITY,
        f32::NEG_INFINITY,
        f32::NAN,
        9.223372e18,
        -9.223372e18,
        1.8446744e19,
    ];
    let mut seed = 11;
    for _ in 0..60 {
        values.push(f32::from_bits(next(&mut seed) as u32));
        // Numbers of like size, where sums cancel and quotients are near one.
        values.push(f32::from_bits(0x3f80_0000 + (next(&mut seed) % 0x0100_0000) as u32));
    }
    values
}

fn doubles() -> Vec<f64> {
    let mut values = vec![
        0.0,
        -0.0,
        1.0,
        -1.0,
        0.5,
        1.5,
        2.5,
        -2.5,
        0.1,
        1.0 / 3.0,
        9007199254740992.0,
        f64::MAX,
        f64::MIN,
        f64::MIN_POSITIVE,
        f64::from_bits(1),
        f64::from_bits(0x000f_ffff_ffff_ffff),
        f64::EPSILON,
        f64::INFINITY,
        f64::NEG_INFINITY,
        f64::NAN,
        9.223372036854775e18,
        1.8446744073709552e19,
    ];
    let mut seed = 23;
    for _ in 0..40 {
        values.push(f64::from_bits(next(&mut seed)));
        values.push(f64::from_bits(0x3ff0_0000_0000_0000 + next(&mut seed) % 0x0020_0000_0000_0000));
    }
    values
}

fn b32(x: f32) -> Binary32 {
    Binary32::from_bits(x.to_bits())
}

fn b64(x: f64) -> Binary64 {
    Binary64::from_bits(x.to_bits())
}

fn same32(ours: Binary32, theirs: f32) -> bool {
    if theirs.is_nan() {
        ours.is_nan()
    } else {
        ours.to_bits() == theirs.to_bits()
    }
}

fn same64(ours: Binary64, theirs: f64) -> bool {
    if theirs.is_nan() {
        ours.is_nan()
    } else {
        ours.to_bits() == theirs.to_bits()
    }
}

#[test]
fn single_arithmetic_is_exact_to_the_bit() {
    let values = singles();
    for x in values.iter().copied() {
        for y in values.iter().copied() {
            assert!(same32(b32(x).plus(b32(y)), x + y), "{x:e} + {y:e}");
            assert!(same32(b32(x).minus(b32(y)), x - y), "{x:e} - {y:e}");
            assert!(same32(b32(x).times(b32(y)), x * y), "{x:e} * {y:e}");
            assert!(same32(b32(x).over(b32(y)), x / y), "{x:e} / {y:e}");
            assert_eq!(b32(x).lt(b32(y)), x < y, "{x:e} < {y:e}");
            assert_eq!(b32(x).le(b32(y)), x <= y, "{x:e} <= {y:e}");
            assert_eq!(
                b32(x).total_before(b32(y)),
                x.total_cmp(&y) == std::cmp::Ordering::Less,
                "{x:e} before {y:e}"
            );
            if x != 0.0 || y != 0.0 {
                assert!(same32(b32(x).larger(b32(y)), x.max(y)), "max {x:e} {y:e}");
                assert!(same32(b32(x).smaller(b32(y)), x.min(y)), "min {x:e} {y:e}");
            }
        }
        assert!(same32(b32(x).negated(), -x));
        assert!(same32(b32(x).clamped(b32(0.0), b32(1.0)), x.clamp(0.0, 1.0)));
        assert_eq!(b32(x).is_finite(), x.is_finite());
        assert_eq!(b32(x).is_nan(), x.is_nan());
        assert_eq!(b32(x).floor_i64(), x.floor() as i64, "floor {x:e}");
        assert_eq!(b32(x).ceil_i64(), x.ceil() as i64, "ceil {x:e}");
        assert_eq!(b32(x).round_i64(), x.round() as i64, "round {x:e}");
        assert_eq!(b32(x).floor_usize(), x.floor() as usize, "floor {x:e}");
        assert_eq!(b32(x).ceil_usize(), x.ceil() as usize, "ceil {x:e}");
        assert_eq!(b32(x).round_usize(), x.round() as usize, "round {x:e}");
    }
}

#[test]
fn double_arithmetic_is_exact_to_the_bit() {
    let values = doubles();
    for x in values.iter().copied() {
        for y in values.iter().copied() {
            assert!(same64(b64(x).plus(b64(y)), x + y), "{x:e} + {y:e}");
            assert!(same64(b64(x).minus(b64(y)), x - y), "{x:e} - {y:e}");
            assert!(same64(b64(x).times(b64(y)), x * y), "{x:e} * {y:e}");
            assert!(same64(b64(x).over(b64(y)), x / y), "{x:e} / {y:e}");
            assert_eq!(b64(x).lt(b64(y)), x < y, "{x:e} < {y:e}");
            assert_eq!(b64(x).le(b64(y)), x <= y, "{x:e} <= {y:e}");
            if x != 0.0 || y != 0.0 {
                assert!(same64(b64(x).larger(b64(y)), x.max(y)), "max {x:e} {y:e}");
                assert!(same64(b64(x).smaller(b64(y)), x.min(y)), "min {x:e} {y:e}");
            }
        }
        assert!(same64(b64(x).negated(), -x));
        assert!(same64(b64(x).clamped(b64(0.0), b64(1.0)), x.clamp(0.0, 1.0)));
        assert_eq!(b64(x).floor_i64(), x.floor() as i64, "floor {x:e}");
        assert_eq!(b64(x).ceil_i64(), x.ceil() as i64, "ceil {x:e}");
        assert_eq!(b64(x).round_i64(), x.round() as i64, "round {x:e}");
        assert_eq!(b64(x).round_usize(), x.round() as usize, "round {x:e}");
    }
}

#[test]
fn counts_are_rounded_to_the_nearest_number() {
    let mut counts = vec![0, 1, 2, 224, 16777215, 16777216, 16777217, 16777219, usize::MAX];
    let mut seed = 5;
    for shift in 0..60 {
        counts.push((next(&mut seed) >> shift) as usize);
    }
    for n in counts {
        assert_eq!(Binary32::from_usize(n).to_bits(), (n as f32).to_bits(), "{n}");
        assert_eq!(Binary64::from_usize(n).to_bits(), (n as f64).to_bits(), "{n}");
    }
}
