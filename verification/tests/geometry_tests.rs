use turnpath::geometry::{distance_sq, Point, Vector2};
use turnpath::matrix::distance_matrix;

fn points_from(coords: &[(i64, i64)]) -> Vec<Point> {
    let mut pts: Vec<Point> = Vec::new();
    for (i, &(x, y)) in coords.iter().enumerate() {
        pts.push(Point::new(i, x, y));
    }
    pts
}

#[test]
fn distance_sq_exact_value() {
    let a = Point::new(0, 0, 0);
    let b = Point::new(1, 3, 4);
    assert_eq!(distance_sq(&a, &b), 25);
    assert_eq!(distance_sq(&b, &a), 25);
    assert_eq!(distance_sq(&a, &a), 0);
}

#[test]
fn vector_from_and_dot() {
    let a = Point::new(0, 2, 5);
    let b = Point::new(1, -1, 3);
    let v = Vector2::from(&a, &b);
    assert_eq!(v.x, 3);
    assert_eq!(v.y, 2);
    let w = Vector2::from(&b, &a);
    assert_eq!(w.x, -3);
    assert_eq!(w.y, -2);
    assert_eq!(v.dot(&w), -13);
    assert_eq!(v.dot(&v), 13);
}

#[test]
fn matrix_cells_are_squared_distances() {
    let pts = points_from(&[(0, 0), (3, 4), (6, 0)]);
    let m = distance_matrix(&pts);
    assert_eq!(m.len(), 3);
    for row in &m {
        assert_eq!(row.len(), 3);
    }
    assert_eq!(m[0][1], 25);
    assert_eq!(m[1][2], 25);
    assert_eq!(m[0][2], 36);
}

#[test]
fn matrix_symmetric_with_zero_diagonal() {
    let pts = points_from(&[(0, 0), (1, 0), (1, 1), (0, 1), (-3, 7)]);
    let m = distance_matrix(&pts);
    for i in 0..pts.len() {
        assert_eq!(m[i][i], 0);
        for j in 0..pts.len() {
            assert_eq!(m[i][j], m[j][i]);
        }
    }
}
