use montgomery_form::cubic::find_cubic_root;
use montgomery_form::curve::{convert, short_weierstrass_to_montgomery, ConversionFailure};
use montgomery_form::modular::{modular_inverse, modular_sqrt};

#[test]
fn example_curve_has_montgomery_parameters() {
    assert_eq!(short_weierstrass_to_montgomery(8, 8, 13), Some((6, 7)));
    assert_eq!(convert(8, 8, 13), Ok((6, 7)));
}

#[test]
fn example_curve_step_by_step() {
    assert_eq!(find_cubic_root(8, 8, 13), Some(4));
    assert_eq!((3 * 4 * 4 + 8) % 13, 4);
    assert_eq!(modular_sqrt(4, 13), Some(2));
    assert_eq!(modular_inverse(2, 13), Some(7));
    assert_eq!((3 * 4 * 7) % 13, 6);
}

#[test]
fn cubic_without_root_has_no_montgomery_form() {
    assert_eq!(short_weierstrass_to_montgomery(0, 2, 13), None);
    assert_eq!(convert(0, 2, 13), Err(ConversionFailure::NoCubicRoot));
}

#[test]
fn cubes_modulo_thirteen_miss_eleven() {
    let mut cubes: Vec<i64> = (0..13).map(|z: i64| (z * z * z) % 13).collect();
    cubes.sort();
    cubes.dedup();
    assert_eq!(cubes, vec![0, 1, 5, 8, 12]);
    assert!(!cubes.contains(&11));
}

#[test]
fn slope_term_that_is_no_square() {
    assert_eq!(find_cubic_root(2, 0, 13), Some(0));
    assert_eq!(modular_sqrt(2, 13), None);
    assert_eq!(convert(2, 0, 13), Err(ConversionFailure::NonResidueTerm));
    assert_eq!(short_weierstrass_to_montgomery(2, 0, 13), None);
}

#[test]
fn slope_term_zero_has_no_inverse() {
    assert_eq!(find_cubic_root(0, 0, 13), Some(0));
    assert_eq!(modular_sqrt(0, 13), Some(0));
    assert_eq!(modular_inverse(0, 13), None);
    assert_eq!(convert(0, 0, 13), Err(ConversionFailure::NonInvertibleRoot));
    assert_eq!(short_weierstrass_to_montgomery(0, 0, 13), None);
    assert_eq!(convert(1, 3, 13), Err(ConversionFailure::NonInvertibleRoot));
}

#[test]
fn characteristic_two_terminates() {
    assert_eq!(convert(0, 0, 2), Err(ConversionFailure::NonInvertibleRoot));
    assert_eq!(convert(0, 1, 2), Ok((1, 1)));
    assert_eq!(convert(1, 0, 2), Ok((0, 1)));
    assert_eq!(convert(1, 1, 2), Err(ConversionFailure::NoCubicRoot));
    assert_eq!(short_weierstrass_to_montgomery(1, 1, 2), None);
    assert_eq!(short_weierstrass_to_montgomery(0, 1, 2), Some((1, 1)));
}

#[test]
fn characteristic_three_terminates() {
    assert_eq!(convert(1, 1, 3), Ok((0, 1)));
    assert_eq!(convert(0, 1, 3), Err(ConversionFailure::NonInvertibleRoot));
    assert_eq!(convert(1, 0, 3), Ok((0, 1)));
    assert_eq!(convert(2, 1, 3), Err(ConversionFailure::NoCubicRoot));
    for a in 0..3 {
        for b in 0..3 {
            let parameters = short_weierstrass_to_montgomery(a, b, 3);
            assert_eq!(parameters, convert(a, b, 3).ok());
        }
    }
}

#[test]
fn conversion_is_deterministic() {
    for p in [2, 3, 5, 7, 11, 13] {
        for a in 0..p {
            for b in 0..p {
                assert_eq!(convert(a, b, p), convert(a, b, p));
                assert_eq!(
                    short_weierstrass_to_montgomery(a, b, p),
                    short_weierstrass_to_montgomery(a, b, p)
                );
            }
        }
    }
}

#[test]
fn conversion_starts_from_a_point_of_the_curve() {
    for p in [2, 3, 5, 7, 11, 13, 17, 19, 23] {
        for a in 0..p {
            for b in 0..p {
                if let Some((a_montgomery, b_montgomery)) = short_weierstrass_to_montgomery(a, b, p)
                {
                    let z0 = find_cubic_root(a, b, p).unwrap();
                    assert_eq!((z0 * z0 * z0 + a * z0 + b) % p, 0);
                    assert_ne!(b_montgomery % p, 0);
                    assert!(0 <= a_montgomery && a_montgomery < p);
                    assert!(0 < b_montgomery && b_montgomery < p);
                }
            }
        }
    }
}

#[test]
fn parameters_follow_from_root_and_scaling_factor() {
    for p in [5, 7, 11, 13, 17] {
        for a in 0..p {
            for b in 0..p {
                if let Some((a_montgomery, b_montgomery)) = short_weierstrass_to_montgomery(a, b, p)
                {
                    let z0 = find_cubic_root(a, b, p).unwrap();
                    let root = modular_sqrt((3 * z0 * z0 + a) % p, p).unwrap();
                    assert_eq!((root * b_montgomery) % p, 1);
                    assert_eq!(a_montgomery, (3 * z0 * b_montgomery) % p);
                }
            }
        }
    }
}

#[test]
fn option_is_the_outcome_without_its_reason() {
    for p in -2..20 {
        for a in -20..20 {
            for b in -20..20 {
                assert_eq!(short_weierstrass_to_montgomery(a, b, p), convert(a, b, p).ok());
            }
        }
    }
}

#[test]
fn conversions_modulo_thirteen_with_b_one() {
    let no_root = Err(ConversionFailure::NoCubicRoot);
    let no_square = Err(ConversionFailure::NonResidueTerm);
    let expected = [
        Ok((4, 9)),
        no_square,
        Ok((6, 1)),
        no_square,
        no_root,
        Ok((6, 9)),
        Ok((7, 10)),
        Ok((10, 10)),
        Ok((3, 9)),
        no_square,
        no_root,
        Ok((3, 1)),
        no_root,
    ];
    for a in 0..13 {
        assert_eq!(convert(a, 1, 13), expected[a as usize]);
    }
}

#[test]
fn number_of_convertible_curves_modulo_thirteen() {
    let mut convertible = 0;
    for a in 0..13 {
        for b in 0..13 {
            if short_weierstrass_to_montgomery(a, b, 13).is_some() {
                convertible += 1;
            }
        }
    }
    assert_eq!(convertible, 57);
}

#[test]
fn conversion_over_other_fields() {
    assert_eq!(convert(1, 5, 7), Ok((5, 4)));
    assert_eq!(convert(2, 3, 97), Err(ConversionFailure::NonResidueTerm));
    assert_eq!(convert(2, 3, 101), Ok((74, 9)));
}

#[test]
fn conversion_depends_on_the_residues_alone() {
    assert_eq!(convert(-5, 8, 13), Ok((6, 7)));
    assert_eq!(convert(8, -5, 13), Ok((6, 7)));
    assert_eq!(convert(-5, -5, 13), Ok((6, 7)));
    assert_eq!(convert(21, -18, 13), Ok((6, 7)));
    assert_eq!(convert(-1, 0, 13), Ok((0, 8)));
}

#[test]
fn conversion_of_coefficients_at_the_ends_of_the_integer_range() {
    assert_eq!(convert(i64::MAX, i64::MIN, 13), Ok((7, 11)));
    assert_eq!(convert(i64::MIN, i64::MAX, 13), Err(ConversionFailure::NonResidueTerm));
}

#[test]
fn conversion_with_the_largest_modulus() {
    assert_eq!(convert(0, 0, i64::MAX), Err(ConversionFailure::NonInvertibleRoot));
    assert_eq!(convert(1, 0, i64::MAX), Ok((0, 1)));
}

#[test]
fn conversion_modulo_one() {
    assert_eq!(convert(0, 0, 1), Ok((0, 0)));
    assert_eq!(convert(5, 7, 1), Ok((0, 0)));
    assert_eq!(short_weierstrass_to_montgomery(5, 7, 1), Some((0, 0)));
}

#[test]
fn conversion_without_a_field() {
    assert_eq!(convert(8, 8, 0), Err(ConversionFailure::NoCubicRoot));
    assert_eq!(convert(8, 8, -13), Err(ConversionFailure::NoCubicRoot));
    assert_eq!(short_weierstrass_to_montgomery(8, 8, 0), None);
}
