use gav::common::{cmp_by_x, cmp_by_xy, cmp_by_y, is_number, isqrt, rotation, IndexBorders, Pair,
    Point};

fn p(x: i64, y: i64) -> Point {
    Point::new(x, y)
}

#[test]
fn rotation_signs() {
    // counter-clockwise turn is positive, clockwise negative, collinear zero
    assert!(rotation(&p(0, 0), &p(1, 0), &p(1, 1)) > 0);
    assert!(rotation(&p(0, 0), &p(1, 0), &p(1, -1)) < 0);
    assert_eq!(rotation(&p(0, 0), &p(1, 1), &p(2, 2)), 0);
}

#[test]
fn rotation_exact_value() {
    // twice the triangle area: unit right triangle gives 1
    assert_eq!(rotation(&p(0, 0), &p(1, 0), &p(0, 1)), 1);
    assert_eq!(rotation(&p(0, 0), &p(3, 0), &p(0, 4)), 12);
}

#[test]
fn pair_square_len() {
    assert_eq!(Pair::new(p(0, 0), p(1, 1)).square_len(), 2);
    assert_eq!(Pair::new(p(2, 0), p(0, 0)).square_len(), 4);
    assert_eq!(Pair::new(p(-3, 0), p(0, 4)).square_len(), 25);
    assert!(Pair::inf().square_len() > Pair::new(p(0, 0), p(1, 1)).square_len());
    assert_eq!(Pair::inf().square_len(), i128::MAX);
}

#[test]
fn index_borders_split() {
    let b = IndexBorders { l: 0, r: 10 };
    assert_eq!(b.left(), IndexBorders { l: 0, r: 5 });
    assert_eq!(b.right(), IndexBorders { l: 5, r: 10 });
    let odd = IndexBorders { l: 3, r: 8 };
    assert_eq!(odd.left(), IndexBorders { l: 3, r: 5 });
    assert_eq!(odd.right(), IndexBorders { l: 5, r: 8 });
}

use core::cmp::Ordering;

#[test]
fn comparators() {
    assert_eq!(cmp_by_x(&p(1, 5), &p(2, 0)), Ordering::Less);
    assert_eq!(cmp_by_x(&p(2, 5), &p(2, 0)), Ordering::Equal);
    assert_eq!(cmp_by_y(&p(1, 5), &p(2, 0)), Ordering::Greater);
    assert_eq!(cmp_by_xy(&p(2, 1), &p(2, 3)), Ordering::Less);
    assert_eq!(cmp_by_xy(&p(2, 3), &p(2, 3)), Ordering::Equal);
    assert_eq!(cmp_by_xy(&p(3, 0), &p(2, 9)), Ordering::Greater);
}

#[test]
fn isqrt_values() {
    assert_eq!(isqrt(0), 0);
    assert_eq!(isqrt(1), 1);
    assert_eq!(isqrt(2), 1);
    assert_eq!(isqrt(16), 4);
    assert_eq!(isqrt(17), 4);
    assert_eq!(isqrt(24), 4);
    assert_eq!(isqrt(25), 5);
}

#[test]
fn is_number_accepts_large_counts() {
    assert!(is_number(String::from("4")).is_ok());
    assert!(is_number(String::from("50")).is_ok());
    assert!(is_number(String::from("+10")).is_ok());
}

#[test]
fn is_number_rejects_small_counts() {
    assert!(is_number(String::from("3")).is_err());
    assert!(is_number(String::from("0")).is_err());
}

#[test]
fn is_number_rejects_garbage() {
    assert!(is_number(String::from("")).is_err());
    assert!(is_number(String::from("abc")).is_err());
    assert!(is_number(String::from("12x")).is_err());
    assert!(is_number(String::from("-5")).is_err());
    assert!(is_number(String::from("+")).is_err());
    assert!(is_number(String::from("999999999999999999999999999999")).is_err());
}
