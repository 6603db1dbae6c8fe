use ec_points::{find_points, Point};

fn on_curve(pt: Point) -> bool {
    match pt {
        Point::Infinity { .. } => true,
        Point::Affine { x, y, a, b, p } => {
            let (x, y, a, b, p) = (x as i128, y as i128, a as i128, b as i128, p as i128);
            let cube = (x * x).rem_euclid(p) * x;
            let rhs = (cube.rem_euclid(p) + (a * x).rem_euclid(p) + b).rem_euclid(p);
            0 <= x && x < p && 0 <= y && y < p && (y * y).rem_euclid(p) == rhs
        }
    }
}

#[test]
fn new_keeps_coordinates_in_range() {
    let pt = Point::new(5, 1, 1, 1, 599);
    assert_eq!(pt, Point::Affine { x: 5, y: 1, a: 1, b: 1, p: 599 });
}

#[test]
fn new_normalises_negative_coordinates() {
    let pt = Point::new(-1, 1, 1, 1, 599);
    assert_eq!(pt, Point::Affine { x: 598, y: 1, a: 1, b: 1, p: 599 });
    let pt = Point::new(3, -598, 1, 1, 599);
    assert_eq!(pt, Point::Affine { x: 3, y: 1, a: 1, b: 1, p: 599 });
    let pt = Point::new(i64::MIN, i64::MIN, 1, 1, 599);
    assert_eq!(pt, Point::Affine { x: 274, y: 274, a: 1, b: 1, p: 599 });
}

#[test]
fn new_normalises_coordinates_above_the_modulus() {
    let pt = Point::new(599, 1200, 1, 1, 599);
    assert_eq!(pt, Point::Affine { x: 0, y: 2, a: 1, b: 1, p: 599 });
    let pt = Point::new(i64::MAX, 600, -4, 9, 599);
    assert_eq!(pt, Point::Affine { x: 324, y: 1, a: -4, b: 9, p: 599 });
}

#[test]
fn infinity_carries_the_curve() {
    assert_eq!(Point::infinity(1, 1, 599), Point::Infinity { a: 1, b: 1, p: 599 });
    assert_ne!(Point::infinity(1, 1, 599), Point::infinity(1, 2, 599));
    assert_ne!(Point::infinity(1, 1, 599), Point::new(0, 0, 1, 1, 599));
}

#[test]
fn points_are_equal_by_variant_coordinates_and_curve() {
    assert_eq!(Point::new(5, 1, 1, 1, 599), Point::new(604, -598, 1, 1, 599));
    assert_ne!(Point::new(5, 1, 1, 1, 599), Point::new(5, 2, 1, 1, 599));
    assert_ne!(Point::new(5, 1, 1, 1, 599), Point::new(5, 1, 2, 1, 599));
    assert_ne!(Point::new(5, 1, 1, 1, 599), Point::new(5, 1, 1, 1, 601));
}

#[test]
fn adding_infinity_on_the_right_changes_nothing() {
    let zero = Point::infinity(1, 1, 599);
    for pt in find_points(1, 1, 599) {
        assert_eq!(pt + zero, pt);
    }
    assert_eq!(zero + zero, zero);
}

#[test]
fn adding_infinity_on_the_left_changes_nothing() {
    let zero = Point::infinity(1, 1, 599);
    for pt in find_points(1, 1, 599) {
        assert_eq!(zero + pt, pt);
    }
}

#[test]
fn a_point_and_its_reflection_add_to_infinity() {
    let zero = Point::infinity(1, 1, 599);
    let mut seen = 0;
    for pt in find_points(1, 1, 599) {
        if let Point::Affine { x, y, .. } = pt {
            if y != 0 {
                assert_eq!(pt + Point::new(x, 599 - y, 1, 1, 599), zero);
                assert_eq!(Point::new(x, 599 - y, 1, 1, 599) + pt, zero);
                seen += 1;
            }
        }
    }
    assert!(seen > 0);
}

#[test]
fn a_point_of_order_two_doubles_to_infinity() {
    // (0, 0) lies on y^2 = x^3 - x modulo 7
    let pt = Point::new(0, 0, -1, 0, 7);
    assert_eq!(pt + pt, Point::infinity(-1, 0, 7));
    assert_eq!(pt + Point::new(0, 7, -1, 0, 7), Point::infinity(-1, 0, 7));
}

#[test]
fn doubling_the_base_point_modulo_599() {
    let pt = Point::new(5, 1, 1, 1, 599);
    assert_eq!(pt + pt, Point::new(236, 206, 1, 1, 599));
}

#[test]
fn multiples_of_a_generator_modulo_17() {
    // y^2 = x^3 + 2x + 2 modulo 17 has 19 points, all multiples of (5, 1)
    let expected: [(i64, i64); 18] = [
        (5, 1), (6, 3), (10, 6), (3, 1), (9, 16), (16, 13), (0, 6), (13, 7), (7, 6),
        (7, 11), (13, 10), (0, 11), (16, 4), (9, 1), (3, 16), (10, 11), (6, 14), (5, 16),
    ];
    let base = Point::new(5, 1, 2, 2, 17);
    let mut current = base;
    for k in 0..18 {
        assert_eq!(current, Point::new(expected[k].0, expected[k].1, 2, 2, 17));
        current = current + base;
    }
    assert_eq!(current, Point::infinity(2, 2, 17));
    assert_eq!(current + base, base);
}

#[test]
fn addition_commutes_modulo_17() {
    let points = find_points(2, 2, 17);
    assert_eq!(points.len(), 18);
    for &lhs in &points {
        for &rhs in &points {
            assert_eq!(lhs + rhs, rhs + lhs);
        }
    }
}

#[test]
fn addition_commutes_modulo_599() {
    let points = find_points(1, 1, 599);
    for &lhs in points.iter().step_by(7) {
        for &rhs in points.iter().step_by(5) {
            assert_eq!(lhs + rhs, rhs + lhs);
        }
    }
}

#[test]
fn addition_with_a_smaller_second_abscissa() {
    // the difference of the abscissas is negative here
    let lhs = Point::new(10, 6, 2, 2, 17);
    let rhs = Point::new(5, 1, 2, 2, 17);
    assert_eq!(lhs + rhs, Point::new(3, 1, 2, 2, 17));
    assert_eq!(rhs + lhs, Point::new(3, 1, 2, 2, 17));
}

#[test]
fn sums_stay_on_the_curve_modulo_17() {
    let points = find_points(2, 2, 17);
    for &lhs in &points {
        for &rhs in &points {
            assert!(on_curve(lhs + rhs));
        }
    }
}

#[test]
fn sums_stay_on_the_curve_modulo_599() {
    let points = find_points(1, 1, 599);
    for &lhs in points.iter().step_by(3) {
        for &rhs in points.iter().step_by(11) {
            assert!(on_curve(lhs + rhs));
        }
    }
}

#[test]
fn sums_have_normalised_coordinates() {
    let points = find_points(-3, -5, 11);
    for &lhs in &points {
        for &rhs in &points {
            if let Point::Affine { x, y, a, b, p } = lhs + rhs {
                assert!(0 <= x && x < 11 && 0 <= y && y < 11);
                assert_eq!((a, b, p), (-3, -5, 11));
            }
        }
    }
}

#[test]
fn the_sum_takes_the_curve_of_the_left_operand() {
    let lhs = Point::new(5, 1, 2, 2, 17);
    let rhs = Point::new(5, 16, 9, 9, 17);
    assert_eq!(lhs + rhs, Point::infinity(2, 2, 17));
    assert_eq!(Point::infinity(1, 1, 599) + rhs, rhs);
}

#[test]
fn addition_with_a_modulus_near_the_word_size() {
    let p: i64 = 9223372036854775783;
    let base = Point::new(2, 9223372036854775780, -3, 7, p);
    let double = base + base;
    assert_eq!(double, Point::new(2305843009213693944, 3458764513820540916, -3, 7, p));
    let triple = double + base;
    assert_eq!(triple, Point::new(2582544170319337219, 1180591620717411303, -3, 7, p));
    assert_eq!(base + double, triple);
    assert!(on_curve(double) && on_curve(triple));
    assert_eq!(base + Point::new(2, 3, -3, 7, p), Point::infinity(-3, 7, p));
}
