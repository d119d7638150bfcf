//! Route search: recursive backtracking with restore-on-failure, and the
//! driver that retries the search from successive seed pairs.

use vstd::arithmetic::div_mod::{lemma_mod_multiples_vanish, lemma_mod_self_0, lemma_small_mod};
use vstd::prelude::*;

use crate::candidates::{candidates_ok, priority_queue};
use crate::geometry::{points_ok, turn_ok, Point};
use crate::matrix::matrix_wf;

verus! {

/// A partial route over the point store `pts`: positions are in range,
/// no point appears twice, and every turn after the first two points
/// bends by no more than 90 degrees.
pub open spec fn route_ok(r: Seq<usize>, pts: Seq<Point>) -> bool {
    &&& forall|i: int| 0 <= i < r.len() ==> (#[trigger] r[i]) < pts.len()
    &&& forall|i: int, j: int| #![trigger r[i], r[j]] 0 <= i < j < r.len() ==> r[i] != r[j]
    &&& forall|i: int|
        2 <= i < r.len() ==> turn_ok(
            pts[r[i - 2] as int],
            pts[r[i - 1] as int],
            pts[(#[trigger] r[i]) as int],
        )
}

/// A successful route: admissible, and visiting every point of the store.
pub open spec fn full_route(r: Seq<usize>, pts: Seq<Point>) -> bool {
    route_ok(r, pts) && r.len() == pts.len()
}

/// The visitation state `visited` marks exactly the points that the
/// partial route `r` holds.
pub open spec fn state_wf(r: Seq<usize>, visited: Seq<bool>) -> bool {
    forall|k: int| 0 <= k < visited.len() ==> ((#[trigger] visited[k]) <==> r.contains(k as usize))
}

/// Some admissible full route extends the partial route `r`.
pub open spec fn completion_exists(r: Seq<usize>, pts: Seq<Point>) -> bool {
    exists|s: Seq<usize>| #[trigger] full_route(s, pts) && r.is_prefix_of(s)
}

/// Law: a successful route is a permutation of all point positions — no
/// duplicates (already part of `full_route`) and no omissions.
pub proof fn lemma_route_permutation(r: Seq<usize>, pts: Seq<Point>)
    requires
        full_route(r, pts),
    ensures
        forall|k: usize| (k as int) < pts.len() ==> r.contains(k),
{
    let ri = r.map_values(|v: usize| v as int);
    assert(r.no_duplicates());
    r.lemma_no_duplicates_injective(|v: usize| v as int);
    ri.unique_seq_to_set();
    let range = vstd::set_lib::set_int_range(0, pts.len() as int);
    vstd::set_lib::lemma_int_range(0, pts.len() as int);
    assert(ri.to_set().subset_of(range)) by {
        assert forall|x: int| ri.to_set().contains(x) implies range.contains(x) by {
            let i = choose|i: int| 0 <= i < ri.len() && ri[i] == x;
            assert(r[i] < pts.len());
        }
    }
    vstd::set_lib::lemma_subset_equality(ri.to_set(), range);
    assert forall|k: usize| (k as int) < pts.len() implies r.contains(k) by {
        assert(range.contains(k as int));
        assert(ri.to_set().contains(k as int));
        let i = choose|i: int| 0 <= i < ri.len() && ri[i] == k as int;
        assert(r[i] == k);
    }
}

/// Appending an unvisited admissible candidate keeps the route partial
/// and the visitation state in step with it.
proof fn lemma_push_candidate(
    r0: Seq<usize>,
    v0: Seq<bool>,
    pts: Seq<Point>,
    c: usize,
    prev: usize,
    curr: usize,
)
    requires
        pts.len() <= usize::MAX,
        2 <= r0.len() < pts.len(),
        route_ok(r0, pts),
        v0.len() == pts.len(),
        state_wf(r0, v0),
        (c as int) < pts.len(),
        !v0[c as int],
        prev == r0[r0.len() - 2],
        curr == r0[r0.len() - 1],
        turn_ok(pts[prev as int], pts[curr as int], pts[c as int]),
    ensures
        route_ok(r0.push(c), pts),
        state_wf(r0.push(c), v0.update(c as int, true)),
{
    let r1 = r0.push(c);
    let v1 = v0.update(c as int, true);
    assert(!r0.contains(c));
    assert forall|i: int, j: int| #![trigger r1[i], r1[j]]
        0 <= i < j < r1.len() implies r1[i] != r1[j] by {
        if j < r0.len() {
        } else {
            assert(r1[j] == c);
            assert(r1[i] == r0[i]);
            assert(r0.contains(r0[i]));
        }
    }
    assert forall|i: int| #![trigger r1[i]]
        2 <= i < r1.len() implies turn_ok(pts[r1[i - 2] as int], pts[r1[i - 1] as int], pts[r1[i] as int]) by {
        if i < r0.len() {
            assert(r1[i] == r0[i]);
            assert(r1[i - 1] == r0[i - 1]);
            assert(r1[i - 2] == r0[i - 2]);
        } else {
            assert(r1[i] == c);
            assert(r1[i - 1] == r0[r0.len() - 1] && r1[i - 2] == r0[r0.len() - 2]);
        }
    }
    assert forall|k: int|
        0 <= k < v1.len() implies ((#[trigger] v1[k]) <==> r1.contains(k as usize)) by {
        if k == c as int {
            assert(r1[r0.len() as int] == c);
        } else {
            if v0[k] {
                let i = choose|i: int| 0 <= i < r0.len() && r0[i] == k as usize;
                assert(r1[i] == k as usize);
            } else {
                if r1.contains(k as usize) {
                    let i = choose|i: int| 0 <= i < r1.len() && r1[i] == k as usize;
                    assert((k as usize) as int == k);
                    assert(i < r0.len());
                    assert(r0[i] == k as usize);
                }
            }
        }
    }
}

/// When every candidate branch under a partial route has been refuted,
/// the route itself admits no completion: any full route extending it
/// must continue with one of the candidates.
proof fn lemma_all_branches_refuted(
    r0: Seq<usize>,
    v0: Seq<bool>,
    pq: Seq<usize>,
    pts: Seq<Point>,
    prev: usize,
    curr: usize,
)
    requires
        pts.len() <= usize::MAX,
        2 <= r0.len() < pts.len(),
        route_ok(r0, pts),
        v0.len() == pts.len(),
        state_wf(r0, v0),
        candidates_ok(pq, pts, v0, prev as int, curr as int),
        prev == r0[r0.len() - 2],
        curr == r0[r0.len() - 1],
        forall|j: int| 0 <= j < pq.len() ==> !completion_exists(r0.push(#[trigger] pq[j]), pts),
    ensures
        !completion_exists(r0, pts),
{
    if completion_exists(r0, pts) {
        let s = choose|s: Seq<usize>| #[trigger] full_route(s, pts) && r0.is_prefix_of(s);
        let l = r0.len() as int;
        assert(s.len() == pts.len() > l);
        let c = s[l];
        assert(forall|i: int| 0 <= i < l ==> r0[i] == s.subrange(0, l)[i]);
        assert(forall|i: int| 0 <= i < l ==> r0[i] == s[i]);
        // c is unvisited: it cannot occur in the prefix twice
        assert(!v0[c as int]) by {
            if v0[c as int] {
                assert(r0.contains(c));
                let i = choose|i: int| 0 <= i < r0.len() && r0[i] == c;
                assert(s[i] == c && s[l] == c && i < l);
            }
        }
        // the step onto c is admissible: it is a turn of the full route
        assert(turn_ok(pts[s[l - 2] as int], pts[s[l - 1] as int], pts[c as int]));
        assert(s[l - 2] == r0[l - 2] && s[l - 1] == r0[l - 1]);
        // so c is one of the candidates, whose branch was refuted
        assert(pq.contains(c));
        let j = choose|j: int| 0 <= j < pq.len() && pq[j] == c;
        assert(r0.push(c).is_prefix_of(s)) by {
            assert forall|i: int| 0 <= i < l + 1 implies r0.push(c)[i] == s.subrange(0, l + 1)[i] by {
                if i < l {
                    assert(r0.push(c)[i] == r0[i]);
                } else {
                    assert(r0.push(c)[i] == c);
                }
            }
            assert(r0.push(c) =~= s.subrange(0, l + 1));
        }
        assert(completion_exists(r0.push(c), pts));
        assert(!completion_exists(r0.push(pq[j]), pts));
        assert(false);
    }
}

/// A prefix of a prefix: dropping the last pushed element keeps the
/// remaining route a prefix of the full one.
proof fn lemma_prefix_step(r0: Seq<usize>, c: usize, s: Seq<usize>)
    requires
        r0.push(c).is_prefix_of(s),
    ensures
        r0.is_prefix_of(s),
{
    assert forall|i: int| 0 <= i < r0.len() implies r0[i] == s.subrange(0, r0.len() as int)[i] by {
        assert(r0.push(c)[i] == s.subrange(0, r0.len() as int + 1)[i]);
    }
    assert(r0 =~= s.subrange(0, r0.len() as int));
}

/// Extends the route by trying each admissible candidate in priority
/// order, recursing, and undoing the choice when a branch fails.
///
/// On success the route has grown into a full admissible route; on
/// failure route and visitation state are exactly as they were on entry,
/// and no admissible full route extends the entry route at all.
#[verifier::loop_isolation(false)]
#[verifier::rlimit(100)]
pub fn find_route_rek(
    route: &mut Vec<usize>,
    visited: &mut Vec<bool>,
    pts: &Vec<Point>,
    dist: &Vec<Vec<i64>>,
) -> (found: bool)
    requires
        points_ok(pts@),
        matrix_wf(dist@, pts@),
        old(visited)@.len() == pts@.len(),
        2 <= old(route)@.len() <= pts@.len(),
        route_ok(old(route)@, pts@),
        state_wf(old(route)@, old(visited)@),
    ensures
        final(visited)@.len() == pts@.len(),
        found ==> full_route(final(route)@, pts@) && old(route)@.is_prefix_of(final(route)@)
            && state_wf(final(route)@, final(visited)@),
        !found ==> final(route)@ == old(route)@ && final(visited)@ == old(visited)@
            && !completion_exists(old(route)@, pts@),
    decreases pts@.len() - route@.len(),
{
    let n = pts.len();
    if route.len() == n {
        proof {
            assert(route@.is_prefix_of(route@));
        }
        return true;
    }
    let r_len = route.len();
    let prev = route[r_len - 2];
    let curr = route[r_len - 1];
    let pq = priority_queue(prev, curr, pts, visited, dist);
    let ghost r0 = route@;
    let ghost v0 = visited@;
    let mut idx: usize = 0;
    while idx < pq.len()
        invariant
            idx <= pq@.len(),
            route@ == r0,
            visited@ == v0,
            forall|j: int| 0 <= j < idx ==> !completion_exists(r0.push(#[trigger] pq@[j]), pts@),
        decreases pq@.len() - idx,
    {
        let c = pq[idx];
        route.push(c);
        visited.set(c, true);
        proof {
            // the pushed route is still a partial route, and the updated
            // visitation state matches it
            assert(!v0[c as int] && (c as int) < pts@.len() && turn_ok(
                pts@[prev as int],
                pts@[curr as int],
                pts@[c as int],
            ));
            lemma_push_candidate(r0, v0, pts@, c, prev, curr);
            assert(route@ == r0.push(c) && visited@ == v0.update(c as int, true));
        }
        let ghost r1 = route@;
        if find_route_rek(route, visited, pts, dist) {
            proof {
                // entry route -> pushed route -> final route
                lemma_prefix_step(r0, c, route@);
            }
            return true;
        }
        let _ = route.pop();
        visited.set(c, false);
        proof {
            assert(route@ =~= r0);
            assert(visited@ =~= v0);
            assert(!completion_exists(r1, pts@));
            assert(r1 == r0.push(pq@[idx as int]));
        }
        idx += 1;
    }
    proof {
        // every candidate branch failed, and every admissible continuation
        // begins with some candidate: the entry route has no completion
        lemma_all_branches_refuted(r0, v0, pq@, pts@, prev, curr);
    }
    false
}

/// Why the search produced no route.
#[derive(Clone, Copy, Debug, PartialEq, Eq, Structural)]
pub enum SearchError {
    /// Fewer than two points: no seed pair can be formed.
    Degenerate,
    /// Every seed pair the driver enumerates was tried and none admits a
    /// full route.
    Exhausted,
}

/// The wrap-around the seed advancement performs: reduction modulo
/// `n - 1`, written for arguments below `2 * (n - 1)`.
pub open spec fn seed_wrap(x: int, n: int) -> int {
    if x >= n - 1 {
        x - (n - 1)
    } else {
        x
    }
}

/// The seed pairs `(s, t)` that the driver tries. For each first point
/// `s` it starts at `t == s + 1` and then cycles `t` through the values
/// below `n - 1`, skipping `s` itself, until the cycle would close; the
/// residue of `s + 1` is taken by the literal `s + 1`, so its wrapped
/// twin is never revisited. In particular `t == n - 1` is reached only
/// as `s + 1` when `s == n - 2`, a consequence of advancing `t` modulo
/// `n - 1` rather than `n`.
pub open spec fn seed_tried(s: int, t: int, n: int) -> bool {
    &&& n >= 2
    &&& 0 <= s <= n - 2
    &&& (t == s + 1 || (0 <= t <= n - 2 && t != s && t != seed_wrap(s + 1, n)))
}

/// Position of the seed `(s, t)` in the order the driver tries seconds
/// for a fixed first point `s`.
pub open spec fn seed_ord(s: int, t: int, n: int) -> int {
    if t == s + 1 {
        0
    } else if t > s {
        t - s - 1
    } else {
        t + n - 2 - s
    }
}

/// No seed pair the driver enumerates admits a full route.
pub open spec fn all_tried_seeds_fail(pts: Seq<Point>) -> bool {
    forall|s: int, t: int|
        #[trigger] seed_tried(s, t, pts.len() as int) ==> !completion_exists(
            seq![s as usize, t as usize],
            pts,
        )
}

/// A tried seed's position lies between 0 and n - 3.
proof fn lemma_seed_ord_range(s: int, t: int, n: int)
    requires
        n >= 3,
        seed_tried(s, t, n),
    ensures
        0 <= seed_ord(s, t, n) <= n - 3,
{
}

/// Distinct tried seconds sit at distinct positions.
proof fn lemma_seed_ord_injective(s: int, t1: int, t2: int, n: int)
    requires
        n >= 3,
        seed_tried(s, t1, n),
        seed_tried(s, t2, n),
        seed_ord(s, t1, n) == seed_ord(s, t2, n),
    ensures
        t1 == t2,
{
}

/// Advancing a tried second `t` by the wrap-around either reaches the
/// next tried second, one position later, or closes the cycle at `s`,
/// in which case `t` was the last tried second.
proof fn lemma_seed_step(s: int, t: int, n: int)
    requires
        n >= 3,
        seed_tried(s, t, n),
    ensures
        0 <= seed_wrap(t + 1, n) <= n - 2,
        seed_wrap(t + 1, n) == s ==> seed_ord(s, t, n) == n - 3,
        seed_wrap(t + 1, n) != s ==> seed_tried(s, seed_wrap(t + 1, n), n) && seed_ord(
            s,
            seed_wrap(t + 1, n),
            n,
        ) == seed_ord(s, t, n) + 1,
{
}

/// Finds a full route by seeding the path with successive pairs of
/// starting points and extending each seed by backtracking search.
///
/// Seeds advance by a fixed formula: `t` moves to `(t + 1) mod (n - 1)`,
/// and when the cycle closes on `s`, `s` moves up by one with `t` right
/// behind it. The modulus `n - 1` makes the enumeration skip some pairs
/// (see `seed_tried`); it is kept as the contract rather than silently
/// widened to all pairs. The search stops at the first seed whose
/// extension succeeds; when every enumerated seed has been refuted the
/// result is `SearchError::Exhausted`, and when fewer than two points
/// were supplied it is `SearchError::Degenerate`.
#[verifier::loop_isolation(false)]
#[verifier::rlimit(100)]
pub fn find_route(pts: &Vec<Point>, dist: &Vec<Vec<i64>>) -> (result: Result<
    Vec<usize>,
    SearchError,
>)
    requires
        points_ok(pts@),
        matrix_wf(dist@, pts@),
    ensures
        match result {
            Ok(route) => pts@.len() >= 2 && full_route(route@, pts@) && seed_tried(
                route@[0] as int,
                route@[1] as int,
                pts@.len() as int,
            ),
            Err(SearchError::Degenerate) => pts@.len() < 2,
            Err(SearchError::Exhausted) => pts@.len() >= 2 && all_tried_seeds_fail(pts@),
        },
{
    let n = pts.len();
    if n < 2 {
        return Err(SearchError::Degenerate);
    }
    let mut start: usize = 0;
    let mut next: usize = 1;
    while start < n - 1
        invariant
            start < n - 1 ==> next <= n - 1 && seed_tried(start as int, next as int, n as int),
            forall|s: int, t: int|
                #[trigger] seed_tried(s, t, n as int) && s < start as int ==> !completion_exists(
                    seq![s as usize, t as usize],
                    pts@,
                ),
            forall|t: int|
                #[trigger] seed_tried(start as int, t, n as int) && seed_ord(start as int, t, n as int)
                    < seed_ord(start as int, next as int, n as int) ==> !completion_exists(
                    seq![start, t as usize],
                    pts@,
                ),
        decreases n - 1 - start, n - seed_ord(start as int, next as int, n as int),
    {
        // seed the route with the pair and mark both points visited
        let mut visited: Vec<bool> = Vec::new();
        let mut k: usize = 0;
        while k < n
            invariant
                k <= n,
                visited@.len() == k,
                forall|i: int| 0 <= i < k ==> !(#[trigger] visited@[i]),
            decreases n - k,
        {
            visited.push(false);
            k += 1;
        }
        let mut route: Vec<usize> = Vec::new();
        route.push(start);
        route.push(next);
        visited.set(start, true);
        visited.set(next, true);
        proof {
            assert(next as int != start as int);
            assert(route@ =~= seq![start, next]);
            assert(route_ok(route@, pts@));
            assert forall|j: int|
                0 <= j < visited@.len() implies ((#[trigger] visited@[j]) <==> route@.contains(
                j as usize,
            )) by {
                if j == start as int {
                    assert(route@[0] == start);
                } else if j == next as int {
                    assert(route@[1] == next);
                } else {
                    if route@.contains(j as usize) {
                        let i = choose|i: int| 0 <= i < route@.len() && route@[i] == j as usize;
                    }
                }
            }
            assert(state_wf(route@, visited@));
        }
        let ghost r_seed = route@;
        if find_route_rek(&mut route, &mut visited, pts, dist) {
            proof {
                assert(r_seed =~= route@.subrange(0, 2));
                assert(route@[0] == start && route@[1] == next);
            }
            return Ok(route);
        }
        proof {
            assert(!completion_exists(r_seed, pts@));
            if n == 2 {
                // with two points the seed itself is already a full route,
                // so the recursive search cannot have failed
                let w = seq![start, next];
                assert(w =~= r_seed);
                assert(full_route(w, pts@));
                assert(w.is_prefix_of(w));
                assert(completion_exists(w, pts@));
                assert(false);
            }
        }
        let ghost t_old = next as int;
        let ghost ord_old = seed_ord(start as int, t_old, n as int);
        // advance to the next seed pair
        next = (next + 1) % (n - 1);
        proof {
            let m = n as int - 1;
            if t_old + 1 < m {
                lemma_small_mod((t_old + 1) as nat, m as nat);
            } else if t_old + 1 == m {
                lemma_mod_self_0(m);
            } else {
                assert(t_old + 1 == m + 1);
                lemma_mod_multiples_vanish(1, 1, m);
                lemma_small_mod(1nat, m as nat);
            }
            assert(next as int == seed_wrap(t_old + 1, n as int));
            lemma_seed_step(start as int, t_old, n as int);
        }
        if start == next {
            proof {
                assert(ord_old == n as int - 3);
                assert forall|s: int, t: int|
                    #[trigger] seed_tried(s, t, n as int) && s < start as int + 1
                        implies !completion_exists(seq![s as usize, t as usize], pts@) by {
                    if s == start as int {
                        lemma_seed_ord_range(s, t, n as int);
                        if seed_ord(s, t, n as int) == ord_old {
                            lemma_seed_ord_injective(s, t, t_old, n as int);
                            assert(seq![s as usize, t as usize] =~= r_seed);
                        } else {
                            assert(seed_ord(s, t, n as int) < ord_old);
                            assert(seq![s as usize, t as usize] =~= seq![start, t as usize]);
                        }
                    }
                }
            }
            start += 1;
            next = start + 1;
            proof {
                assert forall|t: int|
                    #[trigger] seed_tried(start as int, t, n as int) && seed_ord(
                        start as int,
                        t,
                        n as int,
                    ) < seed_ord(start as int, next as int, n as int)
                        implies !completion_exists(seq![start, t as usize], pts@) by {
                    lemma_seed_ord_range(start as int, t, n as int);
                }
            }
        } else {
            proof {
                assert(seed_tried(start as int, next as int, n as int));
                assert(seed_ord(start as int, next as int, n as int) == ord_old + 1);
                assert forall|t: int|
                    #[trigger] seed_tried(start as int, t, n as int) && seed_ord(
                        start as int,
                        t,
                        n as int,
                    ) < seed_ord(start as int, next as int, n as int)
                        implies !completion_exists(seq![start, t as usize], pts@) by {
                    if seed_ord(start as int, t, n as int) == ord_old {
                        lemma_seed_ord_injective(start as int, t, t_old, n as int);
                        assert(seq![start, t as usize] =~= r_seed);
                    }
                }
            }
        }
    }
    proof {
        assert forall|s: int, t: int|
            #[trigger] seed_tried(s, t, pts@.len() as int) implies !completion_exists(
            seq![s as usize, t as usize],
            pts@,
        ) by {
            assert(s < start as int);
        }
    }
    Err(SearchError::Exhausted)
}

} // verus!
