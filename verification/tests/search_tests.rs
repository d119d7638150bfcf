use turnpath::candidates::priority_queue;
use turnpath::geometry::Point;
use turnpath::matrix::distance_matrix;
use turnpath::search::{find_route, find_route_rek, SearchError};

fn points_from(coords: &[(i64, i64)]) -> Vec<Point> {
    let mut pts: Vec<Point> = Vec::new();
    for (i, &(x, y)) in coords.iter().enumerate() {
        pts.push(Point::new(i, x, y));
    }
    pts
}

/// Dot product of the displacements a -> b and b -> c.
fn turn_dot(a: Point, b: Point, c: Point) -> i64 {
    (b.x - a.x) * (c.x - b.x) + (b.y - a.y) * (c.y - b.y)
}

/// Euclidean length of the route, from the squared-distance matrix.
fn total_length(m: &Vec<Vec<i64>>, route: &Vec<usize>) -> f64 {
    let mut total: f64 = 0.0;
    for i in 1..route.len() {
        total += (m[route[i]][route[i - 1]] as f64).sqrt();
    }
    total
}

/// The route visits every point exactly once and every turn is admissible.
fn assert_valid_route(pts: &Vec<Point>, route: &Vec<usize>) {
    assert_eq!(route.len(), pts.len());
    let mut seen = vec![false; pts.len()];
    for &p in route {
        assert!(p < pts.len());
        assert!(!seen[p]);
        seen[p] = true;
    }
    assert!(seen.iter().all(|&s| s));
    for i in 2..route.len() {
        assert!(turn_dot(pts[route[i - 2]], pts[route[i - 1]], pts[route[i]]) >= 0);
    }
}

#[test]
fn candidates_sorted_with_stable_ties() {
    // path arrived at p1 from p0, heading +x; p5 would need a reversal
    let pts = points_from(&[(-1, 0), (0, 0), (1, 0), (0, 1), (2, 0), (-2, 0)]);
    let m = distance_matrix(&pts);
    let visited = vec![true, true, false, false, false, false];
    let q = priority_queue(0, 1, &pts, &visited, &m);
    // p2 and p3 tie at distance 1: store order decides; p4 is farther
    assert_eq!(q, vec![2, 3, 4]);
}

#[test]
fn candidates_omit_visited_points() {
    let pts = points_from(&[(-1, 0), (0, 0), (1, 0), (0, 1), (2, 0), (-2, 0)]);
    let m = distance_matrix(&pts);
    let visited = vec![true, true, true, false, false, false];
    let q = priority_queue(0, 1, &pts, &visited, &m);
    assert_eq!(q, vec![3, 4]);
}

#[test]
fn candidates_empty_when_nothing_admissible() {
    // the only unvisited point lies straight behind the heading
    let pts = points_from(&[(0, 0), (1, 0), (-5, 0)]);
    let m = distance_matrix(&pts);
    let visited = vec![true, true, false];
    let q = priority_queue(0, 1, &pts, &visited, &m);
    assert!(q.is_empty());
}

#[test]
fn square_route_found() {
    let pts = points_from(&[(0, 0), (1, 0), (1, 1), (0, 1)]);
    let m = distance_matrix(&pts);
    let route = find_route(&pts, &m).unwrap();
    assert_eq!(route, vec![0, 1, 2, 3]);
    assert_valid_route(&pts, &route);
    assert_eq!(total_length(&m, &route), 3.0);
    // every turn of the square is exactly 90 degrees
    for i in 2..route.len() {
        assert_eq!(turn_dot(pts[route[i - 2]], pts[route[i - 1]], pts[route[i]]), 0);
    }
}

#[test]
fn collinear_route_found() {
    let pts = points_from(&[(0, 0), (1, 0), (2, 0)]);
    let m = distance_matrix(&pts);
    let route = find_route(&pts, &m).unwrap();
    assert_eq!(route, vec![0, 1, 2]);
    assert_valid_route(&pts, &route);
    assert_eq!(total_length(&m, &route), 2.0);
    // straight continuation: strictly positive dot product
    assert!(turn_dot(pts[route[0]], pts[route[1]], pts[route[2]]) > 0);
}

#[test]
fn snake_route_over_grid() {
    let pts = points_from(&[(0, 0), (1, 0), (2, 0), (2, 1), (1, 1), (0, 1)]);
    let m = distance_matrix(&pts);
    let route = find_route(&pts, &m).unwrap();
    assert_eq!(route, vec![0, 1, 2, 3, 4, 5]);
    assert_valid_route(&pts, &route);
    assert_eq!(total_length(&m, &route), 5.0);
}

#[test]
fn two_points_trivial_route() {
    let pts = points_from(&[(5, 5), (7, 5)]);
    let m = distance_matrix(&pts);
    let route = find_route(&pts, &m).unwrap();
    assert_eq!(route, vec![0, 1]);
    assert_eq!(total_length(&m, &route), 2.0);
}

#[test]
fn acute_triangle_exhausts_search() {
    // all interior angles are acute, so every middle turn bends by more
    // than 90 degrees and no seed pair can be completed
    let pts = points_from(&[(0, 0), (4, 0), (2, 3)]);
    let m = distance_matrix(&pts);
    assert_eq!(find_route(&pts, &m), Err(SearchError::Exhausted));
}

#[test]
fn exhausted_despite_unreached_seed() {
    // the pair (2, 0) would admit the route 2, 0, 1, but the modulo
    // advancement never reaches it: the driver reports exhaustion
    let pts = points_from(&[(0, 0), (1, 0), (0, 1)]);
    let m = distance_matrix(&pts);
    assert_eq!(find_route(&pts, &m), Err(SearchError::Exhausted));
}

#[test]
fn no_points_is_degenerate() {
    let pts: Vec<Point> = Vec::new();
    let m = distance_matrix(&pts);
    assert_eq!(find_route(&pts, &m), Err(SearchError::Degenerate));
}

#[test]
fn single_point_is_degenerate() {
    let pts = points_from(&[(3, 3)]);
    let m = distance_matrix(&pts);
    assert_eq!(find_route(&pts, &m), Err(SearchError::Degenerate));
}

#[test]
fn failed_branch_restores_state() {
    // the recursive search fails from this seed and must hand back the
    // route and the visitation state exactly as they were
    let pts = points_from(&[(0, 0), (4, 0), (2, 3)]);
    let m = distance_matrix(&pts);
    let mut route = vec![0usize, 1usize];
    let mut visited = vec![true, true, false];
    let found = find_route_rek(&mut route, &mut visited, &pts, &m);
    assert!(!found);
    assert_eq!(route, vec![0, 1]);
    assert_eq!(visited, vec![true, true, false]);
}

#[test]
fn deep_backtrack_restores_state() {
    // from the seed 0, 1 the search reaches 0, 1, 2 before every branch
    // dies: the undo must run through the deeper frames as well
    let pts = points_from(&[(0, 0), (1, 0), (2, 0), (0, -1)]);
    let m = distance_matrix(&pts);
    let mut route = vec![0usize, 1usize];
    let mut visited = vec![true, true, false, false];
    let found = find_route_rek(&mut route, &mut visited, &pts, &m);
    assert!(!found);
    assert_eq!(route, vec![0, 1]);
    assert_eq!(visited, vec![true, true, false, false]);
}

#[test]
fn long_snake_route_over_grid() {
    let pts = points_from(&[
        (0, 0),
        (1, 0),
        (2, 0),
        (3, 0),
        (3, 1),
        (2, 1),
        (1, 1),
        (0, 1),
    ]);
    let m = distance_matrix(&pts);
    let route = find_route(&pts, &m).unwrap();
    assert_valid_route(&pts, &route);
    assert_eq!(route, vec![0, 1, 2, 3, 4, 5, 6, 7]);
    assert_eq!(total_length(&m, &route), 7.0);
}

#[test]
fn successful_branch_extends_route() {
    let pts = points_from(&[(0, 0), (1, 0), (2, 0)]);
    let m = distance_matrix(&pts);
    let mut route = vec![0usize, 1usize];
    let mut visited = vec![true, true, false];
    let found = find_route_rek(&mut route, &mut visited, &pts, &m);
    assert!(found);
    assert_eq!(route, vec![0, 1, 2]);
    assert_eq!(visited, vec![true, true, true]);
}
