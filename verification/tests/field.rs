use ec_points::{check_prime, extended_gcd, mul_mod, reduce, Point};

#[test]
fn reduce_keeps_small_values() {
    assert_eq!(reduce(0, 599), 0);
    assert_eq!(reduce(5, 599), 5);
    assert_eq!(reduce(598, 599), 598);
}

#[test]
fn reduce_wraps_large_values() {
    assert_eq!(reduce(599, 599), 0);
    assert_eq!(reduce(600, 599), 1);
    assert_eq!(reduce(1434, 599), 236);
}

#[test]
fn reduce_normalises_negative_values() {
    assert_eq!(reduce(-1, 599), 598);
    assert_eq!(reduce(-599, 599), 0);
    assert_eq!(reduce(-8779, 599), 206);
    assert_eq!(reduce(-7, 1), 0);
}

#[test]
fn reduce_handles_the_extremes_of_the_wide_type() {
    let p: i64 = i64::MAX;
    assert_eq!(reduce(i128::MAX, p) as i128, i128::MAX % (p as i128));
    assert_eq!(reduce(i128::MIN, p) as i128, i128::MIN.rem_euclid(p as i128));
    assert_eq!(reduce(i128::MAX, 1), 0);
    assert_eq!(reduce(i128::MIN, 2), 0);
}

#[test]
fn mul_mod_multiplies_then_reduces() {
    assert_eq!(mul_mod(76, 300, 599), 38);
    assert_eq!(mul_mod(-3, 5, 7), 6);
    assert_eq!(mul_mod(i64::MAX, i64::MAX, 9223372036854775783), 576);
    assert_eq!(mul_mod(i64::MIN, i64::MIN, 9223372036854775783), 625);
}

#[test]
fn extended_gcd_base_cases() {
    assert_eq!(extended_gcd(0, 5), (5, 0, 1));
    assert_eq!(extended_gcd(5, 0), (5, 1, 0));
    assert_eq!(extended_gcd(0, 0), (0, 0, 1));
    assert_eq!(extended_gcd(17, 17), (17, 1, 0));
}

#[test]
fn extended_gcd_gives_bezout_coefficients() {
    assert_eq!(extended_gcd(240, 46), (2, -9, 47));
    assert_eq!(extended_gcd(46, 240), (2, 47, -9));
    assert_eq!(extended_gcd(2, 599), (1, -299, 1));
}

#[test]
fn extended_gcd_identity_holds_on_a_grid() {
    for a in 0..60i64 {
        for b in 0..60i64 {
            let (g, x, y) = extended_gcd(a, b);
            assert_eq!(a * x + b * y, g);
            if a != 0 || b != 0 {
                assert!(g > 0);
                assert_eq!(a % g, 0);
                assert_eq!(b % g, 0);
            }
        }
    }
}

#[test]
fn extended_gcd_on_the_largest_words() {
    let (g, x, y) = extended_gcd(i64::MAX, i64::MAX - 1);
    assert_eq!(g, 1);
    assert_eq!((i64::MAX as i128) * (x as i128) + ((i64::MAX - 1) as i128) * (y as i128), 1);
}

#[test]
fn mod_inverse_of_two_modulo_599() {
    assert_eq!(Point::mod_inverse(2, 599), 300);
}

#[test]
fn mod_inverse_small_examples() {
    assert_eq!(Point::mod_inverse(3, 7), 5);
    assert_eq!(Point::mod_inverse(1, 599), 1);
    assert_eq!(Point::mod_inverse(598, 599), 598);
    assert_eq!(Point::mod_inverse(601, 599), 300);
}

#[test]
fn mod_inverse_of_negative_numbers() {
    assert_eq!(Point::mod_inverse(-1, 599), 598);
    assert_eq!(Point::mod_inverse(-2, 599), 299);
    assert_eq!(Point::mod_inverse(-5, 9223372036854775783), 3689348814741910313);
}

#[test]
fn mod_inverse_inverts_every_unit_modulo_599() {
    for a in 1..599i64 {
        let r = Point::mod_inverse(a, 599);
        assert!(0 <= r && r < 599);
        assert_eq!((a * r) % 599, 1);
        let s = Point::mod_inverse(-a, 599);
        assert_eq!((a * s) % 599, 598);
    }
}

#[test]
fn mod_inverse_modulo_a_composite_inverts_the_units() {
    for a in 0..36i64 {
        let r = Point::mod_inverse(a, 36);
        assert!(0 <= r && r < 36);
        if a % 2 != 0 && a % 3 != 0 {
            assert_eq!((a * r) % 36, 1);
        }
    }
}

#[test]
fn mod_inverse_without_an_inverse_stays_in_range() {
    assert_eq!(Point::mod_inverse(0, 599), 0);
    assert_eq!(Point::mod_inverse(6, 9), 8);
    assert_eq!(Point::mod_inverse(4, 8), 1);
    assert_eq!(Point::mod_inverse(5, 1), 0);
}

#[test]
fn mod_inverse_with_a_large_modulus() {
    let p: i64 = 9223372036854775783;
    assert_eq!(Point::mod_inverse(p - 1, p), 9223372036854775782);
    assert_eq!(Point::mod_inverse(1 << 62, p), 2213609288845146188);
    let r = Point::mod_inverse(i64::MIN, p);
    assert_eq!(((i64::MIN as i128) * (r as i128)).rem_euclid(p as i128), 1);
}

#[test]
fn check_prime_rejects_everything_below_two() {
    assert!(!check_prime(1));
    assert!(!check_prime(0));
    assert!(!check_prime(-1));
    assert!(!check_prime(-599));
    assert!(!check_prime(i64::MIN));
}

#[test]
fn check_prime_on_small_numbers() {
    let primes: [i64; 15] = [2, 3, 5, 7, 11, 13, 17, 19, 23, 29, 31, 37, 41, 43, 47];
    for n in 2..50i64 {
        assert_eq!(check_prime(n), primes.contains(&n));
    }
}

#[test]
fn check_prime_accepts_599() {
    assert!(check_prime(599));
    assert!(!check_prime(598));
    assert!(!check_prime(600));
    assert!(!check_prime(601 * 599));
}

#[test]
fn check_prime_rejects_squares_of_primes() {
    assert!(!check_prime(4));
    assert!(!check_prime(9));
    assert!(!check_prime(25));
    assert!(!check_prime(599 * 599));
    assert!(!check_prime(1000003 * 1000003));
}

#[test]
fn check_prime_on_larger_numbers() {
    assert!(check_prime(1000003));
    assert!(check_prime(2147483647));
    assert!(check_prime(999999999989));
    assert!(!check_prime(999999999987));
    assert!(!check_prime(1000003 * 999983));
}
