use continued_fraction::{ContinuedFraction, Error};

fn expand(p: i32, q: i32) -> ContinuedFraction {
    ContinuedFraction::from_rational(p, q).unwrap()
}

#[test]
fn test_continued_fraction() {
    let cf = ContinuedFraction::from_rational(3, 1).unwrap();
    assert_eq!(cf.coefficients(), &[3]);

    let cf = ContinuedFraction::from_rational(1, 2).unwrap();
    assert_eq!(cf.coefficients(), &[0, 2]);

    let cf = ContinuedFraction::from_rational(89, 55).unwrap();
    assert_eq!(cf.coefficients(), &[1, 1, 1, 1, 1, 1, 1, 1, 2]);

    let test_cases = [(3, 7), (22, 7), (1, 3), (5, 1), (89, 55)];

    for (p, q) in test_cases {
        let cf = ContinuedFraction::from_rational(p, q).unwrap();
        let (num, den) = cf.to_rational();

        assert_eq!(p * den, num * q, "Roundtrip failed for {}/{}", p, q);
    }

    let cf = ContinuedFraction::from_rational(22, 7).unwrap();
    let conv = cf.convergents();
    assert_eq!(conv, vec![(3, 1), (22, 7)]);
}

#[test]
fn zero_over_one_has_the_single_coefficient_zero() {
    let cf = expand(0, 1);
    assert_eq!(cf.coefficients(), &[0]);
    assert_eq!(cf.to_rational(), (0, 1));
    assert_eq!(cf.convergents(), vec![(0, 1)]);
}

#[test]
fn zero_over_anything_is_zero_over_one() {
    assert_eq!(expand(0, 5).coefficients(), &[0]);
    assert_eq!(expand(0, -5).coefficients(), &[0]);
    assert_eq!(expand(0, i32::MAX).coefficients(), &[0]);
}

#[test]
fn zero_over_zero_is_degenerate() {
    assert_eq!(ContinuedFraction::from_rational(0, 0).err(), Some(Error::DegenerateRational));
}

#[test]
fn zero_denominator_gives_no_coefficients() {
    for p in [5, -5, 1, i32::MAX, -i32::MAX, i32::MIN] {
        let cf = expand(p, 0);
        assert!(cf.coefficients().is_empty());
        assert_eq!(cf.to_rational(), (0, 1));
        assert!(cf.convergents().is_empty());
    }
}

#[test]
fn lowest_terms_that_do_not_fit_overflow() {
    let cases = [
        (i32::MIN, 1),
        (i32::MIN, -1),
        (i32::MIN, 3),
        (i32::MIN, i32::MAX),
        (1, i32::MIN),
        (-1, i32::MIN),
        (i32::MAX, i32::MIN),
    ];
    for (p, q) in cases {
        assert_eq!(ContinuedFraction::from_rational(p, q).err(), Some(Error::Overflow));
    }
}

#[test]
fn the_smallest_integer_is_expanded_where_it_reduces() {
    assert_eq!(expand(i32::MIN, 2).coefficients(), &[-(1 << 30)]);
    assert_eq!(expand(i32::MIN, -2).coefficients(), &[1 << 30]);
    assert_eq!(expand(i32::MIN, i32::MIN).coefficients(), &[1]);
    assert_eq!(expand(2, i32::MIN).coefficients(), &[0, -(1 << 30)]);
    assert_eq!(expand(i32::MIN, 6).coefficients(), &[-357913941, -3]);
}

#[test]
fn every_pair_without_the_smallest_integer_is_expanded() {
    let values = [-i32::MAX, -7, -1, 0, 1, 2, 3, 55, 89, i32::MAX - 1, i32::MAX];
    for p in values {
        for q in values {
            let result = ContinuedFraction::from_rational(p, q);
            if p == 0 && q == 0 {
                assert_eq!(result.err(), Some(Error::DegenerateRational));
            } else {
                assert!(result.is_ok());
            }
        }
    }
}

#[test]
fn the_fraction_is_reduced_before_it_is_expanded() {
    assert_eq!(expand(6, 4).coefficients(), &[1, 2]);
    assert_eq!(expand(6, 4).to_rational(), (3, 2));
    assert_eq!(expand(178, 110).coefficients(), &[1, 1, 1, 1, 1, 1, 1, 1, 2]);
    assert_eq!(expand(178, 110).to_rational(), (89, 55));
    assert_eq!(expand(10, 5).coefficients(), &[2]);
}

#[test]
fn a_negative_denominator_moves_its_sign_to_the_numerator() {
    assert_eq!(expand(3, -6).coefficients(), &[0, -2]);
    assert_eq!(expand(-3, -6).coefficients(), &[0, 2]);
    assert_eq!(expand(-22, -7).coefficients(), &[3, 7]);
    assert_eq!(expand(22, -7).coefficients(), expand(-22, 7).coefficients());
}

#[test]
fn a_negative_fraction_has_the_negated_coefficients_of_its_magnitude() {
    assert_eq!(expand(-7, 3).coefficients(), &[-2, -3]);
    assert_eq!(expand(7, 3).coefficients(), &[2, 3]);
    assert_eq!(expand(-89, 55).coefficients(), &[-1, -1, -1, -1, -1, -1, -1, -1, -2]);
    assert_eq!(expand(-1, 2).coefficients(), &[0, -2]);
    let pairs = [(7, 3), (22, 7), (1, 3), (89, 55), (355, 113), (i32::MAX, 1000)];
    for (p, q) in pairs {
        let positive = expand(p, q);
        let negative = expand(-p, q);
        let negated: Vec<i32> = positive.coefficients().iter().map(|a| -a).collect();
        assert_eq!(negative.coefficients(), &negated[..]);
    }
}

#[test]
fn to_rational_folds_from_the_last_coefficient() {
    assert_eq!(expand(3, 1).to_rational(), (3, 1));
    assert_eq!(expand(1, 2).to_rational(), (1, 2));
    assert_eq!(expand(22, 7).to_rational(), (22, 7));
    assert_eq!(expand(89, 55).to_rational(), (89, 55));
    assert_eq!(expand(355, 113).to_rational(), (355, 113));
    assert_eq!(expand(-7, 3).to_rational(), (7, -3));
    assert_eq!(expand(-1, 2).to_rational(), (1, -2));
    assert_eq!(expand(-22, 7).to_rational(), (22, -7));
    assert_eq!(expand(-8, 3).to_rational(), (-8, 3));
}

#[test]
fn round_trip_is_cross_multiplication_equal() {
    let values = [-89, -55, -22, -7, -3, -1, 0, 1, 2, 3, 5, 7, 22, 55, 89, 113, 355];
    for p in values {
        for q in values {
            if q == 0 {
                continue;
            }
            let (num, den) = expand(p, q).to_rational();
            assert_eq!(p * den, num * q);
            assert!(den != 0);
        }
    }
}

#[test]
fn round_trip_of_a_reduced_fraction_that_is_not_negative_is_exact() {
    let pairs = [(3, 7), (22, 7), (1, 3), (5, 1), (89, 55), (0, 1), (i32::MAX, 2), (1, i32::MAX)];
    for (p, q) in pairs {
        assert_eq!(expand(p, q).to_rational(), (p, q));
    }
}

#[test]
fn convergents_follow_the_recurrence() {
    assert_eq!(expand(3, 1).convergents(), vec![(3, 1)]);
    assert_eq!(expand(1, 2).convergents(), vec![(0, 1), (1, 2)]);
    assert_eq!(
        expand(89, 55).convergents(),
        vec![(1, 1), (2, 1), (3, 2), (5, 3), (8, 5), (13, 8), (21, 13), (34, 21), (89, 55)]
    );
    assert_eq!(expand(355, 113).convergents(), vec![(3, 1), (22, 7), (355, 113)]);
    assert_eq!(expand(-7, 3).convergents(), vec![(-2, 1), (7, -3)]);
}

#[test]
fn there_is_one_convergent_for_each_coefficient() {
    let pairs = [(3, 1), (1, 2), (89, 55), (22, 7), (-7, 3), (5, 0), (0, 9), (i32::MAX, 3)];
    for (p, q) in pairs {
        let cf = expand(p, q);
        assert_eq!(cf.convergents().len(), cf.coefficients().len());
    }
}

#[test]
fn the_last_convergent_is_the_fraction() {
    let values = [-89, -55, -22, -7, -3, -1, 0, 1, 2, 3, 5, 7, 22, 55, 89, 113, 355];
    for p in values {
        for q in values {
            if q == 0 {
                continue;
            }
            let cf = expand(p, q);
            let (h, k) = *cf.convergents().last().unwrap();
            assert_eq!(h * q, p * k);
            assert_eq!((h, k), cf.to_rational());
        }
    }
}

#[test]
fn each_convergent_is_the_value_of_a_prefix() {
    let cf = expand(89, 55);
    for (h, k) in cf.convergents() {
        let prefix = expand(h, k);
        let n = prefix.coefficients().len();
        let head = &cf.coefficients()[..n.min(cf.coefficients().len())];
        assert_eq!(prefix.to_rational(), (h, k));
        if n >= 2 {
            assert_eq!(&prefix.coefficients()[..n - 1], &head[..n - 1]);
        }
    }
}

#[test]
fn nothing_overflows_at_the_ends_of_the_range() {
    let pairs = [
        (i32::MAX, 1),
        (1, i32::MAX),
        (i32::MAX, i32::MAX - 1),
        (i32::MAX - 1, i32::MAX),
        (-i32::MAX, 2),
        (-i32::MAX, i32::MAX - 1),
        (i32::MAX, -2),
        (2, -i32::MAX),
        (i32::MAX, 1 << 16),
        (-i32::MAX, 65537),
        (1836311903, 1134903170),
        (-1836311903, 1134903170),
    ];
    for (p, q) in pairs {
        let cf = expand(p, q);
        let (num, den) = cf.to_rational();
        assert_eq!(p as i64 * den as i64, num as i64 * q as i64);
        let (h, k) = *cf.convergents().last().unwrap();
        assert_eq!((h, k), (num, den));
    }
    assert_eq!(expand(i32::MAX, 1).coefficients(), &[i32::MAX]);
    assert_eq!(expand(1, i32::MAX).coefficients(), &[0, i32::MAX]);
    assert_eq!(expand(i32::MAX, i32::MAX - 1).coefficients(), &[1, i32::MAX - 1]);
    assert_eq!(expand(1836311903, 1134903170).coefficients().len(), 44);
}

#[test]
fn after_the_first_no_coefficient_is_zero_and_the_last_is_not_a_unit() {
    let values = [-355, -89, -55, -22, -7, -3, -1, 1, 2, 3, 5, 7, 22, 55, 89, 113, 355];
    for p in values {
        for q in values {
            let cf = expand(p, q);
            let c = cf.coefficients();
            for a in &c[1..] {
                assert!(*a != 0);
            }
            if c.len() > 1 {
                assert!(c[c.len() - 1].abs() >= 2);
            }
        }
    }
}

#[test]
fn equal_fractions_have_the_same_coefficients() {
    let groups = [
        vec![(1, 2), (2, 4), (-3, -6), (50, 100), (-1073741823, -2147483646)],
        vec![(22, 7), (44, 14), (-22, -7), (2200, 700)],
        vec![(-7, 3), (7, -3), (-14, 6), (700, -300)],
        vec![(0, 1), (0, -1), (0, 77)],
        vec![(5, 1), (10, 2), (-5, -1), (i32::MIN, i32::MIN / 5 - 1)],
    ];
    for group in groups {
        let (first_p, first_q) = group[0];
        let first = expand(first_p, first_q);
        for (p, q) in group {
            if p as i64 * first_q as i64 == first_p as i64 * q as i64 {
                assert_eq!(expand(p, q).coefficients(), first.coefficients());
            }
        }
    }
}

#[test]
fn expanding_the_folded_fraction_gives_the_same_coefficients() {
    let values = [-355, -89, -55, -22, -7, -3, -1, 0, 1, 2, 3, 5, 7, 22, 55, 89, 113, 355];
    for p in values {
        for q in values {
            if q == 0 {
                continue;
            }
            let cf = expand(p, q);
            let (num, den) = cf.to_rational();
            assert_eq!(expand(num, den).coefficients(), cf.coefficients());
        }
    }
}

#[test]
fn neighbouring_convergents_have_cross_product_one() {
    let pairs = [(89, 55), (355, 113), (22, 7), (-7, 3), (-89, 55), (1, 2), (i32::MAX, 65536)];
    for (p, q) in pairs {
        let conv = expand(p, q).convergents();
        let mut before: (i64, i64) = (1, 0);
        for (i, (h, k)) in conv.iter().enumerate() {
            let cross = *h as i64 * before.1 - before.0 * *k as i64;
            assert_eq!(cross, if i % 2 == 0 { -1 } else { 1 });
            before = (*h as i64, *k as i64);
        }
    }
}

#[test]
fn no_expansion_is_longer_than_sixty_two() {
    let pairs = [
        (1836311903, 1134903170),
        (1134903170, 1836311903),
        (-1836311903, 1134903170),
        (i32::MAX, i32::MAX - 1),
        (i32::MAX, 3),
        (1, i32::MAX),
    ];
    for (p, q) in pairs {
        assert!(expand(p, q).coefficients().len() <= 62);
    }
    assert_eq!(expand(1134903170, 1836311903).coefficients().len(), 45);
}

#[test]
fn coefficients_are_truncating_quotients() {
    assert_eq!(expand(7, 2).coefficients(), &[3, 2]);
    assert_eq!(expand(-7, 2).coefficients(), &[-3, -2]);
    assert_eq!(expand(355, 113).coefficients(), &[3, 7, 16]);
    assert_eq!(expand(-355, 113).coefficients(), &[-3, -7, -16]);
    assert_eq!(expand(13, 8).coefficients(), &[1, 1, 1, 1, 2]);
}

#[test]
fn every_convergent_is_closer_than_the_one_before() {
    let pairs = [(89, 55), (355, 113), (22, 7), (103993, 33102), (i32::MAX, 65536), (3, 7)];
    for (p, q) in pairs {
        let conv = expand(p, q).convergents();
        let mut before: Option<i64> = None;
        for (i, (h, k)) in conv.iter().enumerate() {
            let cross = p as i64 * *k as i64 - *h as i64 * q as i64;
            if i % 2 == 0 {
                assert!(cross >= 0);
            } else {
                assert!(cross <= 0);
            }
            if let Some(wider) = before {
                assert!(cross.abs() < wider);
            }
            assert_eq!(cross == 0, i + 1 == conv.len());
            before = Some(cross.abs());
        }
    }
}

#[test]
fn the_first_errors_of_a_known_fraction() {
    let conv = expand(355, 113).convergents();
    assert_eq!(conv, vec![(3, 1), (22, 7), (355, 113)]);
    assert_eq!(355 * 1 - 3 * 113, 16);
    assert_eq!(355 * 7 - 22 * 113, -1);
    assert_eq!(expand(355, 113).coefficients(), &[3, 7, 16]);
}

#[test]
fn no_fraction_with_a_smaller_denominator_is_closer_than_a_convergent() {
    let pairs = [(89, 55), (355, 113), (103993, 33102), (3, 7), (1457, 1000)];
    for (p, q) in pairs {
        let conv = expand(p, q).convergents();
        for i in 0..conv.len() - 1 {
            let (h, k) = conv[i];
            let (_, next) = conv[i + 1];
            let error = (p as i64 * k as i64 - h as i64 * q as i64).abs();
            for b in 1..next.min(400) {
                let nearest = (p as i64 * b as i64) / q as i64;
                for a in [nearest - 1, nearest, nearest + 1, nearest + 2] {
                    assert!((p as i64 * b as i64 - a * q as i64).abs() >= error);
                }
            }
        }
    }
}
