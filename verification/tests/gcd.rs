use continued_fraction::gcd;

#[test]
fn test_gcd() {
    assert_eq!(gcd(9, 3), 3);
    assert_eq!(gcd(48, 18), 6);
    assert_eq!(gcd(7, 7), 7);
    assert_eq!(gcd(100, 25), 25);
    assert_eq!(gcd(17, 13), 1);
}

#[test]
fn gcd_does_not_depend_on_argument_order() {
    let pairs = [(48, 18), (18, 48), (0, 5), (5, 0), (1, 1), (270, 192), (13, 17), (0, 0)];
    for (a, b) in pairs {
        assert_eq!(gcd(a, b), gcd(b, a));
    }
}

#[test]
fn gcd_with_zero_is_the_other_argument() {
    for a in [0, 1, 2, 7, 1000, i32::MAX] {
        assert_eq!(gcd(a, 0), a);
        assert_eq!(gcd(0, a), a);
    }
}

#[test]
fn gcd_divides_both_arguments() {
    let pairs = [(48, 18), (17, 13), (7, 7), (100, 25), (270, 192), (i32::MAX, 2), (6, 0)];
    for (a, b) in pairs {
        let g = gcd(a, b);
        assert!(g > 0);
        assert_eq!(a % g, 0);
        assert_eq!(b % g, 0);
    }
}

#[test]
fn gcd_is_the_greatest_common_divisor() {
    let pairs = [(48, 18), (17, 13), (7, 7), (100, 25), (270, 192), (36, 0)];
    for (a, b) in pairs {
        let g = gcd(a, b);
        for d in 1..=300 {
            if a % d == 0 && b % d == 0 {
                assert_eq!(g % d, 0);
            }
        }
    }
}

#[test]
fn gcd_of_zero_and_zero_is_zero() {
    assert_eq!(gcd(0, 0), 0);
}

#[test]
fn gcd_is_zero_only_for_zero_and_zero() {
    for a in -3..=3 {
        for b in -3..=3 {
            assert_eq!(gcd(a, b) == 0, a == 0 && b == 0);
        }
    }
}

#[test]
fn gcd_takes_magnitudes_of_negative_arguments() {
    assert_eq!(gcd(-48, 18), 6);
    assert_eq!(gcd(48, -18), 6);
    assert_eq!(gcd(-48, -18), 6);
    assert_eq!(gcd(-5, 0), 5);
    assert_eq!(gcd(0, -5), 5);
}

#[test]
fn gcd_at_the_ends_of_the_range() {
    assert_eq!(gcd(i32::MAX, i32::MAX), i32::MAX);
    assert_eq!(gcd(i32::MAX, 1), 1);
    assert_eq!(gcd(i32::MIN, 6), 2);
    assert_eq!(gcd(6, i32::MIN), 2);
    assert_eq!(gcd(i32::MIN, 1 << 30), 1 << 30);
    assert_eq!(gcd(i32::MIN, i32::MAX), 1);
    assert_eq!(gcd(-i32::MAX, i32::MAX), i32::MAX);
}
