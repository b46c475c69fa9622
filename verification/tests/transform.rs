use openbim_icdd::transform::validate_transform;
use openbim_icdd::IcddError;

fn check(transform: [f64; 16]) -> Result<(), IcddError> {
    validate_transform(&transform.map(f64::to_bits))
}

fn message(result: Result<(), IcddError>) -> String {
    result.unwrap_err().message()
}

#[test]
fn exact_invertibility_matches_small_integer_oracle() {
    let mut state = 0x6a09_e667_f3bc_c909_u64;
    for case in 0..1_024 {
        let mut coefficients = [0_i64; 9];
        for coefficient in &mut coefficients {
            state = state
                .wrapping_mul(6_364_136_223_846_793_005)
                .wrapping_add(1_442_695_040_888_963_407);
            *coefficient = ((state >> 32) % 201) as i64 - 100;
        }
        let [a, b, c, d, e, f, g, h, i] = coefficients;
        let determinant = i128::from(a)
            * (i128::from(e) * i128::from(i) - i128::from(f) * i128::from(h))
            - i128::from(b) * (i128::from(d) * i128::from(i) - i128::from(f) * i128::from(g))
            + i128::from(c) * (i128::from(d) * i128::from(h) - i128::from(e) * i128::from(g));
        let transform = [
            a as f64, b as f64, c as f64, 0.0, d as f64, e as f64, f as f64, 0.0, g as f64,
            h as f64, i as f64, 0.0, 0.0, 0.0, 0.0, 1.0,
        ];
        assert_eq!(
            check(transform).is_ok(),
            determinant != 0,
            "integer determinant mismatch in case {case}: {coefficients:?}"
        );
    }
}

#[test]
fn transforms_are_refused_for_each_reason() {
    let identity = [
        1.0, 0.0, 0.0, 0.0, 0.0, 1.0, 0.0, 0.0, 0.0, 0.0, 1.0, 0.0, 0.0, 0.0, 0.0, 1.0,
    ];
    assert!(check(identity).is_ok());
    let mut negative_zero = identity;
    negative_zero[12] = -0.0;
    assert!(check(negative_zero).is_ok());

    let mut not_finite = identity;
    not_finite[3] = f64::NAN;
    assert_eq!(
        message(check(not_finite)),
        "not a conformant ICDD container: federation member transform must contain finite numbers"
    );
    let mut projective = identity;
    projective[14] = 0.5;
    assert_eq!(
        message(check(projective)),
        "not a conformant ICDD container: federation member transform must be an affine 4x4 matrix"
    );
    let mut singular = identity;
    singular[10] = 0.0;
    assert_eq!(
        message(check(singular)),
        "not a conformant ICDD container: federation member transform must be invertible"
    );

    // The inverse of the smallest subnormal scale, 2^1074, is beyond f64::MAX;
    // that of 2^-1000 is not.
    let mut tiny = identity;
    for k in [0, 5, 10] {
        tiny[k] = f64::from_bits(1);
    }
    assert_eq!(
        message(check(tiny)),
        "not a conformant ICDD container: federation member transform must be invertible"
    );
    let mut small = identity;
    for k in [0, 5, 10] {
        small[k] = 2f64.powi(-1000);
    }
    assert!(check(small).is_ok());
}
