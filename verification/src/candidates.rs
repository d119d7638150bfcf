//! The candidate selector: the ordered set of admissible next points.
//!
//! Given the last two points of the path and the visitation state, the
//! selector returns every unvisited point that passes the turn test,
//! nearest to the current point first; among points at the same distance,
//! the one with the smaller index comes first, which is the order a stable
//! insertion in store order produces.

use vstd::prelude::*;

use crate::geometry::{points_ok, sq_dist, turn_ok, Point, Vector2};
use crate::matrix::matrix_wf;

verus! {

/// The strict priority order between two candidate point positions:
/// closer to the point at `curr` first, ties broken by position.
pub open spec fn cand_before(pts: Seq<Point>, curr: int, a: int, b: int) -> bool {
    ||| sq_dist(pts[a], pts[curr]) < sq_dist(pts[b], pts[curr])
    ||| (sq_dist(pts[a], pts[curr]) == sq_dist(pts[b], pts[curr]) && a < b)
}

/// The sequence `q` is exactly the admissible candidate list for a path
/// ending in `prev`, `curr` under the visitation state `visited`: it holds
/// precisely the unvisited points that pass the turn test, in strictly
/// ascending priority order.
pub open spec fn candidates_ok(
    q: Seq<usize>,
    pts: Seq<Point>,
    visited: Seq<bool>,
    prev: int,
    curr: int,
) -> bool {
    &&& forall|i: int|
        0 <= i < q.len() ==> (#[trigger] q[i]) < pts.len() && !visited[q[i] as int] && turn_ok(
            pts[prev],
            pts[curr],
            pts[q[i] as int],
        )
    &&& forall|k: int|
        0 <= k < pts.len() && !(#[trigger] visited[k]) && turn_ok(pts[prev], pts[curr], pts[k])
            ==> q.contains(k as usize)
    &&& forall|i: int, j: int|
        0 <= i < j < q.len() ==> cand_before(pts, curr, #[trigger] q[i] as int, #[trigger] q[j] as int)
}

/// A candidate list never repeats an entry: the priority order between
/// two positions of the list is strict.
proof fn lemma_candidates_distinct(
    q: Seq<usize>,
    pts: Seq<Point>,
    visited: Seq<bool>,
    prev: int,
    curr: int,
)
    requires
        candidates_ok(q, pts, visited, prev, curr),
    ensures
        q.no_duplicates(),
{
    assert forall|i: int, j: int|
        0 <= i < q.len() && 0 <= j < q.len() && i != j implies q[i] != q[j] by {
        if i < j {
            assert(cand_before(pts, curr, q[i] as int, q[j] as int));
        } else {
            assert(cand_before(pts, curr, q[j] as int, q[i] as int));
        }
    }
}

/// The entries of `q1` up to position `i` equal those of `q2`: two lists
/// in strictly ascending priority order over the same member set agree
/// position by position.
proof fn lemma_candidates_agree_upto(
    q1: Seq<usize>,
    q2: Seq<usize>,
    pts: Seq<Point>,
    visited: Seq<bool>,
    prev: int,
    curr: int,
    i: int,
)
    requires
        candidates_ok(q1, pts, visited, prev, curr),
        candidates_ok(q2, pts, visited, prev, curr),
        q1.len() == q2.len(),
        0 <= i <= q1.len(),
    ensures
        forall|j: int| 0 <= j < i ==> q1[j] == q2[j],
    decreases i,
{
    if i > 0 {
        lemma_candidates_agree_upto(q1, q2, pts, visited, prev, curr, i - 1);
        let a = q1[i - 1];
        let b = q2[i - 1];
        if a != b {
            // each list holds the other's entry, and only at a later
            // position: the strict order then runs both ways
            assert(q2.contains(a));
            let ja = choose|j: int| 0 <= j < q2.len() && q2[j] == a;
            assert(ja != i - 1);
            if ja < i - 1 {
                assert(q1[ja] == q2[ja]);
                lemma_candidates_distinct(q1, pts, visited, prev, curr);
            }
            assert(ja > i - 1);
            assert(cand_before(pts, curr, b as int, a as int));
            assert(q1.contains(b));
            let jb = choose|j: int| 0 <= j < q1.len() && q1[j] == b;
            assert(jb != i - 1);
            if jb < i - 1 {
                assert(q2[jb] == q1[jb]);
                lemma_candidates_distinct(q2, pts, visited, prev, curr);
            }
            assert(jb > i - 1);
            assert(cand_before(pts, curr, a as int, b as int));
            assert(false);
        }
    }
}

/// Law: the candidate-list specification determines the list completely —
/// it is the one stable ascending sort, by distance to the current point,
/// of the admissible unvisited points. Any two lists that meet it for the
/// same inputs are equal.
pub proof fn lemma_candidates_unique(
    q1: Seq<usize>,
    q2: Seq<usize>,
    pts: Seq<Point>,
    visited: Seq<bool>,
    prev: int,
    curr: int,
)
    requires
        candidates_ok(q1, pts, visited, prev, curr),
        candidates_ok(q2, pts, visited, prev, curr),
    ensures
        q1 == q2,
{
    // same members: an entry of one list is admissible and unvisited, so
    // the other list holds it too
    assert forall|k: usize| q1.contains(k) implies q2.contains(k) by {
        let i = choose|i: int| 0 <= i < q1.len() && q1[i] == k;
        assert(!visited[k as int] && turn_ok(pts[prev], pts[curr], pts[k as int]));
    }
    assert forall|k: usize| q2.contains(k) implies q1.contains(k) by {
        let i = choose|i: int| 0 <= i < q2.len() && q2[i] == k;
        assert(!visited[k as int] && turn_ok(pts[prev], pts[curr], pts[k as int]));
    }
    // hence equal length
    lemma_candidates_distinct(q1, pts, visited, prev, curr);
    lemma_candidates_distinct(q2, pts, visited, prev, curr);
    q1.unique_seq_to_set();
    q2.unique_seq_to_set();
    assert(q1.to_set() =~= q2.to_set());
    // and equal position by position
    lemma_candidates_agree_upto(q1, q2, pts, visited, prev, curr, q1.len() as int);
    assert(q1 =~= q2);
}

/// Inserting a new candidate `p` in front of the first strictly farther
/// entry keeps the list in strictly ascending priority order, provided
/// every entry already present has a smaller index than `p`.
proof fn lemma_insert_keeps_order(q0: Seq<usize>, pts: Seq<Point>, curr: int, pos: int, p: usize)
    requires
        0 <= curr < pts.len(),
        (p as int) < pts.len(),
        0 <= pos <= q0.len(),
        forall|i: int| 0 <= i < q0.len() ==> (#[trigger] q0[i]) < p,
        forall|i: int, j: int|
            0 <= i < j < q0.len() ==> cand_before(
                pts,
                curr,
                #[trigger] q0[i] as int,
                #[trigger] q0[j] as int,
            ),
        forall|i: int|
            0 <= i < pos ==> sq_dist(pts[#[trigger] q0[i] as int], pts[curr]) <= sq_dist(
                pts[p as int],
                pts[curr],
            ),
        pos < q0.len() ==> sq_dist(pts[q0[pos] as int], pts[curr]) > sq_dist(
            pts[p as int],
            pts[curr],
        ),
    ensures
        forall|i: int, j: int|
            0 <= i < j < q0.insert(pos, p).len() ==> cand_before(
                pts,
                curr,
                #[trigger] q0.insert(pos, p)[i] as int,
                #[trigger] q0.insert(pos, p)[j] as int,
            ),
{
    let q = q0.insert(pos, p);
    q0.insert_ensures(pos, p);
    assert forall|i: int, j: int| 0 <= i < j < q.len() implies cand_before(
        pts,
        curr,
        #[trigger] q[i] as int,
        #[trigger] q[j] as int,
    ) by {
        if j < pos {
            assert(q[i] == q0[i] && q[j] == q0[j]);
        } else if j == pos {
            assert(q[i] == q0[i]);
            assert(sq_dist(pts[q0[i] as int], pts[curr]) <= sq_dist(pts[p as int], pts[curr]));
        } else {
            // j > pos, so q[j] == q0[j - 1] and j - 1 >= pos
            assert(q[j] == q0[j - 1]);
            if i < pos {
                assert(q[i] == q0[i]);
                assert(cand_before(pts, curr, q0[i] as int, q0[j - 1] as int));
            } else if i == pos {
                // q[i] == p, and every entry from pos on is strictly farther
                if j - 1 > pos {
                    assert(cand_before(pts, curr, q0[pos] as int, q0[j - 1] as int));
                }
                assert(sq_dist(pts[q0[j - 1] as int], pts[curr]) > sq_dist(
                    pts[p as int],
                    pts[curr],
                ));
            } else {
                assert(q[i] == q0[i - 1]);
                assert(cand_before(pts, curr, q0[i - 1] as int, q0[j - 1] as int));
            }
        }
    }
}

/// Collects the unvisited points admissible after the step `prev -> curr`,
/// ordered nearest-to-`curr` first, ties in store order.
#[verifier::rlimit(30)]
pub fn priority_queue(
    prev: usize,
    curr: usize,
    pts: &Vec<Point>,
    visited: &Vec<bool>,
    dist: &Vec<Vec<i64>>,
) -> (q: Vec<usize>)
    requires
        points_ok(pts@),
        matrix_wf(dist@, pts@),
        visited@.len() == pts@.len(),
        prev < pts@.len(),
        curr < pts@.len(),
    ensures
        candidates_ok(q@, pts@, visited@, prev as int, curr as int),
{
    let n = pts.len();
    let p_curr = pts[curr];
    let p_prev = pts[prev];
    // displacement from prev to curr: the heading the path arrives on
    let prev_vec = Vector2::from(&p_curr, &p_prev);
    let mut q: Vec<usize> = Vec::new();
    for p in 0..n
        invariant
            n == pts@.len(),
            points_ok(pts@),
            matrix_wf(dist@, pts@),
            visited@.len() == n,
            prev < n,
            curr < n,
            p_curr == pts@[curr as int],
            p_prev == pts@[prev as int],
            prev_vec.x == p_curr.x - p_prev.x,
            prev_vec.y == p_curr.y - p_prev.y,
            forall|i: int|
                0 <= i < q@.len() ==> (#[trigger] q@[i]) < p && !visited@[q@[i] as int] && turn_ok(
                    pts@[prev as int],
                    pts@[curr as int],
                    pts@[q@[i] as int],
                ),
            forall|k: int|
                0 <= k < p && !(#[trigger] visited@[k]) && turn_ok(
                    pts@[prev as int],
                    pts@[curr as int],
                    pts@[k],
                ) ==> q@.contains(k as usize),
            forall|i: int, j: int|
                0 <= i < j < q@.len() ==> cand_before(
                    pts@,
                    curr as int,
                    #[trigger] q@[i] as int,
                    #[trigger] q@[j] as int,
                ),
    {
        let p_next = pts[p];
        // displacement from curr to the candidate: the heading leaving curr
        let curr_vec = Vector2::from(&p_next, &p_curr);
        if !visited[p] && prev_vec.dot(&curr_vec) >= 0 {
            let d = dist[p][curr];
            let ghost q0 = q@;
            let mut pos: usize = 0;
            while pos < q.len() && dist[q[pos]][curr] <= d
                invariant
                    q@ == q0,
                    n == pts@.len(),
                    matrix_wf(dist@, pts@),
                    curr < n,
                    d == sq_dist(pts@[p as int], pts@[curr as int]),
                    p < n,
                    pos <= q@.len(),
                    forall|i: int| 0 <= i < q@.len() ==> (#[trigger] q@[i]) < p,
                    forall|i: int|
                        0 <= i < pos ==> sq_dist(pts@[#[trigger] q@[i] as int], pts@[curr as int])
                            <= sq_dist(pts@[p as int], pts@[curr as int]),
                decreases q@.len() - pos,
            {
                pos += 1;
            }
            proof {
                if pos < q@.len() {
                    assert(sq_dist(pts@[q@[pos as int] as int], pts@[curr as int]) > sq_dist(
                        pts@[p as int],
                        pts@[curr as int],
                    ));
                }
            }
            q.insert(pos, p);
            proof {
                q0.insert_ensures(pos as int, p);
                lemma_insert_keeps_order(q0, pts@, curr as int, pos as int, p);
                // every entry is either p itself or carried over from q0
                assert forall|i: int|
                    0 <= i < q@.len() implies (#[trigger] q@[i]) < p + 1 && !visited@[q@[i] as int]
                    && turn_ok(pts@[prev as int], pts@[curr as int], pts@[q@[i] as int]) by {
                    if i < pos as int {
                        assert(q@[i] == q0[i]);
                    } else if i > pos as int {
                        assert(q@[i] == q0[i - 1]);
                    }
                }
                // membership: everything in q0 is still present, and p entered at pos
                assert forall|k: int|
                    0 <= k < p + 1 && !(#[trigger] visited@[k]) && turn_ok(
                        pts@[prev as int],
                        pts@[curr as int],
                        pts@[k],
                    ) implies q@.contains(k as usize) by {
                    if k == p as int {
                        assert(q@[pos as int] == p);
                    } else {
                        let i = choose|i: int| 0 <= i < q0.len() && q0[i] == k as usize;
                        if i < pos as int {
                            assert(q@[i] == k as usize);
                        } else {
                            assert(q@[i + 1] == k as usize);
                        }
                    }
                }
            }
        }
    }
    q
}

} // verus!
