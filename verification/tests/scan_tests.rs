use convex_hull::angle_eq;
use convex_hull::angle_lt;
use convex_hull::ccw;
use convex_hull::graham_scan;
use convex_hull::l2_norm_squared;
use convex_hull::polar_angle;
use convex_hull::Angle;
use convex_hull::HullError;
use convex_hull::Point;

fn pts(coords: &[(i64, i64)]) -> Vec<Point> {
    coords.iter().map(|&(x, y)| Point::new(x, y)).collect()
}

#[test]
fn graham_scan_works() {
    let points = pts(&[(0, 0), (0, 2), (2, 0), (2, 2), (1, 1)]);
    assert_eq!(graham_scan(&points), Ok(vec![0, 2, 3, 1]));
}

#[test]
fn ccw_works() {
    let points = pts(&[(0, 0), (0, 2), (2, 0), (2, 2), (1, 1)]);
    let result = ccw(&points[0], &points[2], &points[3]);
    assert_eq!(result > 0, true);
}

#[test]
fn empty_input_yields_error() {
    let points: Vec<Point> = vec![];
    assert_eq!(graham_scan(&points), Err(HullError::EmptyInput));
}

#[test]
fn single_point_hull() {
    let points = pts(&[(5, 5)]);
    assert_eq!(graham_scan(&points), Ok(vec![0]));
}

#[test]
fn two_distinct_points_hull() {
    let points = pts(&[(0, 0), (1, 1)]);
    assert_eq!(graham_scan(&points), Ok(vec![0, 1]));
}

#[test]
fn collinear_points_keep_extremes() {
    // All three points share one ray from the pivot; the selection keeps
    // only the farthest, so the hull is the two extreme points.
    let points = pts(&[(0, 0), (1, 1), (2, 2)]);
    assert_eq!(graham_scan(&points), Ok(vec![0, 2]));
}

#[test]
fn square_with_interior_point() {
    let points = pts(&[(0, 0), (4, 0), (4, 4), (0, 4), (2, 1), (1, 2)]);
    assert_eq!(graham_scan(&points), Ok(vec![0, 1, 2, 3]));
}

#[test]
fn permuted_square_same_cyclic_hull() {
    let base = pts(&[(0, 0), (2, 0), (2, 2), (0, 2)]);
    let hull_base = graham_scan(&base).unwrap();
    assert_eq!(hull_base, vec![0, 1, 2, 3]);

    let shuffled = pts(&[(2, 2), (0, 0), (2, 0), (0, 2)]);
    let hull_shuffled = graham_scan(&shuffled).unwrap();
    assert_eq!(hull_shuffled, vec![1, 2, 0, 3]);

    // Both runs walk the same points in the same cyclic order, starting
    // from the same pivot point.
    let walk_base: Vec<Point> = hull_base.iter().map(|&i| base[i]).collect();
    let walk_shuffled: Vec<Point> = hull_shuffled.iter().map(|&i| shuffled[i]).collect();
    assert_eq!(walk_base, walk_shuffled);
}

#[test]
fn pivot_is_lowest_then_leftmost() {
    let points = pts(&[(3, 2), (1, 1), (-2, 1), (0, 5)]);
    let hull = graham_scan(&points).unwrap();
    // (-2, 1) and (1, 1) are both lowest; the leftmost of them wins.
    assert_eq!(hull[0], 2);
}

#[test]
fn vertical_ray_keeps_farthest() {
    let points = pts(&[(0, 0), (0, 1), (0, 3)]);
    assert_eq!(graham_scan(&points), Ok(vec![0, 2]));
}

#[test]
fn duplicate_points_collapse() {
    // Every copy of the pivot's point is excluded, so only the pivot is
    // left.
    let points = pts(&[(3, 3), (3, 3), (3, 3)]);
    assert_eq!(graham_scan(&points), Ok(vec![0]));
}

#[test]
fn duplicate_pivot_excluded() {
    let points = pts(&[(0, 0), (0, 0), (1, 0), (1, 1)]);
    assert_eq!(graham_scan(&points), Ok(vec![0, 2, 3]));
}

#[test]
fn farthest_on_ray_spans_nearer_ones() {
    // (2, 1) sits on the pivot's ray towards (4, 2); keeping the farthest
    // point leaves (2, 1) on the hull edge rather than outside it.
    let points = pts(&[(0, 0), (2, 1), (4, 2), (0, 3)]);
    assert_eq!(graham_scan(&points), Ok(vec![0, 2, 3]));
}

#[test]
fn negative_coordinates_hull() {
    let points = pts(&[(0, 0), (-1, 1), (1, 1)]);
    assert_eq!(graham_scan(&points), Ok(vec![0, 2, 1]));
}

#[test]
fn vertical_between_right_and_left() {
    // The point straight above the pivot sorts at a quarter turn, before
    // the candidates to the pivot's upper left, so the whole fan stays on
    // the hull.
    let points = pts(&[(0, 0), (0, 2), (-1, 2), (-2, 1)]);
    assert_eq!(graham_scan(&points), Ok(vec![0, 1, 2, 3]));
}

#[test]
fn ccw_exact_values() {
    let a = Point::new(0, 0);
    assert_eq!(ccw(&a, &Point::new(1, 0), &Point::new(1, 1)), 1);
    assert_eq!(ccw(&a, &Point::new(0, 1), &Point::new(1, 1)), -1);
    assert_eq!(ccw(&a, &Point::new(1, 1), &Point::new(2, 2)), 0);
    assert_eq!(ccw(&Point::new(1, 1), &Point::new(3, 2), &Point::new(2, 5)), 7);
}

#[test]
fn l2_norm_squared_exact_value() {
    assert_eq!(l2_norm_squared(&Point::new(1, 2), &Point::new(4, 6)), 25);
    assert_eq!(l2_norm_squared(&Point::new(0, 0), &Point::new(0, 0)), 0);
}

#[test]
fn polar_angle_keeps_differences() {
    let a = polar_angle(&Point::new(1, 1), &Point::new(4, 3));
    assert_eq!(a, Angle { dx: 3, dy: 2 });
}

#[test]
fn angle_order_counter_clockwise() {
    let origin = Point::new(0, 0);
    let right = polar_angle(&origin, &Point::new(1, 0));
    let diagonal = polar_angle(&origin, &Point::new(1, 1));
    let vertical = polar_angle(&origin, &Point::new(0, 1));
    let left = polar_angle(&origin, &Point::new(-1, 1));

    assert!(angle_lt(&right, &diagonal));
    assert!(angle_lt(&diagonal, &vertical));
    assert!(angle_lt(&vertical, &left));
    assert!(angle_lt(&diagonal, &left));
    assert!(!angle_lt(&left, &vertical));
    assert!(!angle_lt(&vertical, &vertical));

    let far_diagonal = polar_angle(&origin, &Point::new(3, 3));
    assert!(angle_eq(&diagonal, &far_diagonal));
    assert!(!angle_eq(&diagonal, &vertical));
    assert!(angle_eq(&vertical, &vertical));
    assert!(!angle_eq(&right, &diagonal));
}
