//! The distance matrix: precomputed pairwise squared distances.

use vstd::prelude::*;

use crate::geometry::{distance_sq, points_ok, sq_dist, Point};

verus! {

/// The matrix `m` is the full table of pairwise squared distances over
/// `pts`: square, with cell `(i, j)` equal to the squared distance between
/// the points at positions `i` and `j`.
pub open spec fn matrix_wf(m: Seq<Vec<i64>>, pts: Seq<Point>) -> bool {
    &&& m.len() == pts.len()
    &&& forall|i: int| 0 <= i < m.len() ==> (#[trigger] m[i])@.len() == pts.len()
    &&& forall|i: int, j: int|
        0 <= i < m.len() && 0 <= j < m.len() ==> #[trigger] m[i]@[j] == sq_dist(pts[i], pts[j])
}

/// Builds the distance matrix for a point store.
pub fn distance_matrix(pts: &Vec<Point>) -> (m: Vec<Vec<i64>>)
    requires
        points_ok(pts@),
    ensures
        matrix_wf(m@, pts@),
{
    let n = pts.len();
    let mut m: Vec<Vec<i64>> = Vec::new();
    for i in 0..n
        invariant
            n == pts@.len(),
            points_ok(pts@),
            m@.len() == i,
            forall|a: int| 0 <= a < i ==> (#[trigger] m@[a])@.len() == n,
            forall|a: int, b: int|
                0 <= a < i && 0 <= b < n ==> #[trigger] m@[a]@[b] == sq_dist(pts@[a], pts@[b]),
    {
        let mut row: Vec<i64> = Vec::new();
        for j in 0..n
            invariant
                n == pts@.len(),
                points_ok(pts@),
                i < n,
                row@.len() == j,
                forall|b: int| 0 <= b < j ==> #[trigger] row@[b] == sq_dist(pts@[i as int], pts@[b]),
                m@.len() == i,
                forall|a: int| 0 <= a < i ==> (#[trigger] m@[a])@.len() == n,
                forall|a: int, b: int|
                    0 <= a < i && 0 <= b < n ==> #[trigger] m@[a]@[b] == sq_dist(pts@[a], pts@[b]),
        {
            let pi = pts[i];
            let pj = pts[j];
            row.push(distance_sq(&pi, &pj));
        }
        m.push(row);
    }
    m
}

/// Law: the distance matrix is symmetric and its diagonal is zero.
pub proof fn lemma_matrix_symmetric(m: Seq<Vec<i64>>, pts: Seq<Point>)
    requires
        matrix_wf(m, pts),
    ensures
        forall|i: int, j: int|
            0 <= i < pts.len() && 0 <= j < pts.len() ==> #[trigger] m[i]@[j] == m[j]@[i],
        forall|i: int| 0 <= i < pts.len() ==> #[trigger] m[i]@[i] == 0,
{
    assert forall|i: int, j: int|
        0 <= i < pts.len() && 0 <= j < pts.len() implies #[trigger] m[i]@[j] == m[j]@[i] by {
        let a = pts[i];
        let b = pts[j];
        assert(sq_dist(a, b) == sq_dist(b, a)) by (nonlinear_arith);
    }
}

} // verus!
