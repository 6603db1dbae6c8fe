use ec_points::{doubling_steps, find_points, Point};

fn coordinates(points: &[Point]) -> Vec<(i64, i64)> {
    let mut out = Vec::new();
    for pt in points {
        match *pt {
            Point::Affine { x, y, .. } => out.push((x, y)),
            Point::Infinity { .. } => panic!("the point at infinity is no affine solution"),
        }
    }
    out
}

#[test]
fn find_points_modulo_17() {
    let points = find_points(2, 2, 17);
    assert_eq!(
        coordinates(&points),
        vec![
            (0, 6), (0, 11), (3, 1), (3, 16), (5, 1), (5, 16), (6, 3), (6, 14), (7, 6),
            (7, 11), (9, 1), (9, 16), (10, 6), (10, 11), (13, 7), (13, 10), (16, 4), (16, 13),
        ]
    );
    for pt in points {
        assert!(matches!(pt, Point::Affine { a: 2, b: 2, p: 17, .. }));
    }
}

#[test]
fn find_points_modulo_599_returns_only_solutions() {
    let points = find_points(1, 1, 599);
    for (x, y) in coordinates(&points) {
        assert!(0 <= x && x < 599 && 0 <= y && y < 599);
        assert_eq!((y * y) % 599, (x * x * x + x + 1) % 599);
    }
}

#[test]
fn find_points_modulo_599_returns_every_solution() {
    let found = coordinates(&find_points(1, 1, 599));
    let mut expected = Vec::new();
    for x in 0..599i64 {
        for y in 0..599i64 {
            if (y * y) % 599 == (x * x * x + x + 1) % 599 {
                expected.push((x, y));
            }
        }
    }
    assert_eq!(found, expected);
    assert_eq!(found.len(), 596);
    assert_eq!(&found[..6], &[(0, 1), (0, 598), (1, 188), (1, 411), (7, 146), (7, 453)]);
    assert_eq!(&found[593..], &[(594, 371), (596, 279), (596, 320)]);
}

#[test]
fn find_points_modulo_599_is_ordered_without_duplicates() {
    let found = coordinates(&find_points(1, 1, 599));
    for k in 1..found.len() {
        assert!(found[k - 1].0 <= found[k].0);
        assert!(found[k - 1] < found[k]);
    }
}

#[test]
fn find_points_with_negative_coefficients() {
    assert_eq!(
        coordinates(&find_points(-1, 0, 7)),
        vec![(0, 0), (1, 0), (4, 2), (4, 5), (5, 1), (5, 6), (6, 0)]
    );
    assert_eq!(
        coordinates(&find_points(-3, -5, 11)),
        vec![(1, 2), (1, 9), (4, 5), (4, 6), (7, 3), (7, 8), (9, 2), (9, 9)]
    );
}

#[test]
fn find_points_with_large_coefficients() {
    // the coefficients are congruent to 0 and 6 modulo 7
    let points = find_points(i64::MAX, i64::MIN, 7);
    assert_eq!(coordinates(&points), vec![(1, 0), (2, 0), (4, 0)]);
    assert_eq!(coordinates(&points), coordinates(&find_points(0, 6, 7)));
    assert_eq!(points[0], Point::Affine { x: 1, y: 0, a: i64::MAX, b: i64::MIN, p: 7 });
}

#[test]
fn find_points_without_a_positive_modulus_finds_nothing() {
    assert!(find_points(1, 1, 0).is_empty());
    assert!(find_points(1, 1, -599).is_empty());
}

#[test]
fn find_points_modulo_one_and_two() {
    assert_eq!(coordinates(&find_points(1, 1, 1)), vec![(0, 0)]);
    assert_eq!(coordinates(&find_points(1, 1, 2)), vec![(0, 1), (1, 1)]);
}

#[test]
fn doubling_steps_from_the_base_point() {
    let steps = doubling_steps(Point::new(5, 1, 1, 1, 599), 21);
    let expected: [(i64, i64); 21] = [
        (236, 206), (369, 130), (130, 470), (119, 296), (439, 214), (490, 455), (397, 589),
        (56, 593), (5, 1), (236, 206), (369, 130), (130, 470), (119, 296), (439, 214),
        (490, 455), (397, 589), (56, 593), (5, 1), (236, 206), (369, 130), (130, 470),
    ];
    assert_eq!(coordinates(&steps), expected.to_vec());
    for pt in steps {
        assert!(matches!(pt, Point::Affine { a: 1, b: 1, p: 599, .. }));
    }
}

#[test]
fn doubling_steps_are_reproducible() {
    let first = doubling_steps(Point::new(5, 1, 1, 1, 599), 20);
    let second = doubling_steps(Point::new(5, 1, 1, 1, 599), 20);
    assert_eq!(first.len(), 20);
    assert_eq!(first, second);
}

#[test]
fn doubling_steps_double_rather_than_count() {
    // the entries are 2P, 4P, 8P, 16P: not 2P, 3P, 4P, 5P
    let base = Point::new(5, 1, 2, 2, 17);
    let steps = doubling_steps(base, 4);
    assert_eq!(
        coordinates(&steps),
        vec![(6, 3), (3, 1), (13, 7), (10, 11)]
    );
}

#[test]
fn doubling_steps_of_length_zero() {
    assert!(doubling_steps(Point::new(5, 1, 1, 1, 599), 0).is_empty());
}

#[test]
fn doubling_steps_stay_at_infinity() {
    let zero = Point::infinity(1, 1, 599);
    assert_eq!(doubling_steps(zero, 3), vec![zero, zero, zero]);
    let pt = Point::new(0, 0, -1, 0, 7);
    let zero = Point::infinity(-1, 0, 7);
    assert_eq!(doubling_steps(pt, 3), vec![zero, zero, zero]);
}
