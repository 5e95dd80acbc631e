//! All-pairs shortest paths over a square weight matrix.
//!
//! `fw(w, k, i, j)` is the layered Floyd-Warshall value: the least saturated
//! weight of a walk from `i` to `j` whose inner vertices all lie below `k`.
//! The lemmas here pin that reading down: `fw(w, n, i, j)` is a lower bound
//! on the weight of every walk (`lemma_fw_le_path`), every finite value is
//! realized by an actual walk (`lemma_fw_realizable`), the full matrix obeys
//! the triangle inequality (`lemma_fw_triangle`), and a finite value implies
//! a walk whose every edge weight is finite (`lemma_fw_finite_has_path`).

use vstd::prelude::*;

use crate::geometry::{dist_add, dist_min, INF_DIST};

verus! {

/// `w` is an `n` by `n` matrix.
pub open spec fn square_matrix(w: Seq<Seq<u64>>, n: int) -> bool {
    &&& w.len() == n
    &&& forall|i: int| 0 <= i < n ==> (#[trigger] w[i]).len() == n
}

/// Least saturated weight of a walk from `i` to `j` with inner vertices below `k`.
pub open spec fn fw(w: Seq<Seq<u64>>, k: int, i: int, j: int) -> u64
    decreases k,
{
    if k <= 0 {
        w[i][j]
    } else {
        dist_min(
            fw(w, k - 1, i, j),
            dist_add(fw(w, k - 1, i, k - 1), fw(w, k - 1, k - 1, j)),
        )
    }
}

/// Every vertex of `p` is an index below `n`.
pub open spec fn vertices_in(p: Seq<int>, n: int) -> bool {
    forall|m: int| 0 <= m < p.len() ==> 0 <= #[trigger] p[m] < n
}

/// `p` is a walk from `i` to `j` through vertices below `n`.
pub open spec fn is_path(p: Seq<int>, n: int, i: int, j: int) -> bool {
    &&& p.len() >= 2
    &&& p[0] == i
    &&& p[p.len() - 1] == j
    &&& vertices_in(p, n)
}

/// Every inner vertex of `p` lies below `k`.
pub open spec fn inner_below(p: Seq<int>, k: int) -> bool {
    forall|m: int| 1 <= m < p.len() - 1 ==> #[trigger] p[m] < k
}

/// Saturated sum of the edge weights along `p`.
pub open spec fn path_weight(w: Seq<Seq<u64>>, p: Seq<int>) -> u64
    decreases p.len(),
{
    if p.len() < 2 {
        0
    } else if p.len() == 2 {
        w[p[0]][p[1]]
    } else {
        dist_add(w[p[0]][p[1]], path_weight(w, p.skip(1)))
    }
}

/// Each layer of `fw` only lowers the value.
pub proof fn lemma_fw_monotone(w: Seq<Seq<u64>>, k: int, i: int, j: int)
    requires
        k >= 1,
    ensures
        fw(w, k, i, j) <= fw(w, k - 1, i, j),
{
}

/// `fw` never exceeds the direct edge weight.
pub proof fn lemma_fw_le_edge(w: Seq<Seq<u64>>, k: int, i: int, j: int)
    requires
        k >= 0,
    ensures
        fw(w, k, i, j) <= w[i][j],
    decreases k,
{
    if k > 0 {
        lemma_fw_le_edge(w, k - 1, i, j);
    }
}

/// Relaxing through the pivot leaves distances to and from the pivot unchanged.
pub proof fn lemma_fw_pivot_stable(w: Seq<Seq<u64>>, k: int, i: int, j: int)
    requires
        k >= 1,
    ensures
        fw(w, k, i, k - 1) == fw(w, k - 1, i, k - 1),
        fw(w, k, k - 1, j) == fw(w, k - 1, k - 1, j),
{
}

/// Joining two walks at a shared endpoint adds their weights (saturating).
pub proof fn lemma_path_weight_join(w: Seq<Seq<u64>>, p1: Seq<int>, p2: Seq<int>)
    requires
        p1.len() >= 2,
        p2.len() >= 2,
        p1[p1.len() - 1] == p2[0],
    ensures
        path_weight(w, p1 + p2.skip(1)) == dist_add(path_weight(w, p1), path_weight(w, p2)),
    decreases p1.len(),
{
    let p = p1 + p2.skip(1);
    if p1.len() == 2 {
        assert(p.skip(1) =~= p2);
        assert(p.len() >= 3);
    } else {
        assert(p.skip(1) =~= p1.skip(1) + p2.skip(1));
        lemma_path_weight_join(w, p1.skip(1), p2);
    }
}

/// A finite walk weight means every edge along the walk is finite.
pub proof fn lemma_path_weight_edges_finite(w: Seq<Seq<u64>>, p: Seq<int>)
    requires
        p.len() >= 2,
        path_weight(w, p) < INF_DIST,
    ensures
        forall|m: int| 0 <= m < p.len() - 1 ==> w[#[trigger] p[m]][p[m + 1]] < INF_DIST,
    decreases p.len(),
{
    if p.len() > 2 {
        lemma_path_weight_edges_finite(w, p.skip(1));
        assert forall|m: int| 0 <= m < p.len() - 1 implies w[#[trigger] p[m]][p[m + 1]] < INF_DIST by {
            if m > 0 {
                assert(w[p.skip(1)[m - 1]][p.skip(1)[m]] < INF_DIST);
            }
        }
    }
}

/// Index of the first inner vertex at or after `lo` that equals `v`.
proof fn find_first_inner(p: Seq<int>, v: int, lo: int) -> (m: int)
    requires
        1 <= lo,
        exists|t: int| lo <= t < p.len() - 1 && #[trigger] p[t] == v,
        forall|t: int| 1 <= t < lo ==> #[trigger] p[t] != v,
    ensures
        1 <= m < p.len() - 1,
        p[m] == v,
        forall|t: int| 1 <= t < m ==> #[trigger] p[t] != v,
    decreases p.len() - lo,
{
    if p[lo] == v {
        lo
    } else {
        find_first_inner(p, v, lo + 1)
    }
}

/// Minimality: `fw` is a lower bound on the weight of every admissible walk.
pub proof fn lemma_fw_le_path(w: Seq<Seq<u64>>, n: int, k: int, p: Seq<int>)
    requires
        square_matrix(w, n),
        0 <= k <= n,
        p.len() >= 2,
        vertices_in(p, n),
        inner_below(p, k),
    ensures
        fw(w, k, p[0], p[p.len() - 1]) <= path_weight(w, p),
    decreases k, p.len(),
{
    let i = p[0];
    let j = p[p.len() - 1];
    if k == 0 {
        if p.len() > 2 {
            assert(p[1] < 0);  // contradicts vertices_in
        }
    } else if forall|m: int| 1 <= m < p.len() - 1 ==> #[trigger] p[m] != k - 1 {
        assert(inner_below(p, k - 1));
        lemma_fw_le_path(w, n, k - 1, p);
    } else {
        let t = choose|t: int| 1 <= t < p.len() - 1 && #[trigger] p[t] == k - 1;
        let m = find_first_inner(p, k - 1, 1);
        let p1 = p.take(m + 1);
        let p2 = p.skip(m);
        assert(p1.len() == m + 1 && p2.len() == p.len() - m);
        assert(p1[0] == i && p1[p1.len() - 1] == k - 1);
        assert(p2[0] == k - 1 && p2[p2.len() - 1] == j);
        assert(inner_below(p1, k - 1)) by {
            assert forall|t2: int| 1 <= t2 < p1.len() - 1 implies #[trigger] p1[t2] < k - 1 by {
                assert(p1[t2] == p[t2]);
                assert(p[t2] != k - 1 && p[t2] < k);
            }
        }
        assert(vertices_in(p1, n) && vertices_in(p2, n)) by {
            assert(forall|t2: int| 0 <= t2 < p1.len() ==> #[trigger] p1[t2] == p[t2]);
            assert(forall|t2: int| 0 <= t2 < p2.len() ==> #[trigger] p2[t2] == p[m + t2]);
        }
        assert(inner_below(p2, k)) by {
            assert forall|t2: int| 1 <= t2 < p2.len() - 1 implies #[trigger] p2[t2] < k by {
                assert(p2[t2] == p[m + t2]);
            }
        }
        lemma_fw_le_path(w, n, k - 1, p1);
        lemma_fw_le_path(w, n, k, p2);
        lemma_fw_pivot_stable(w, k, i, j);
        assert(fw(w, k, k - 1, j) == fw(w, k - 1, k - 1, j));
        assert(p =~= p1 + p2.skip(1));
        lemma_path_weight_join(w, p1, p2);
        assert(fw(w, k, i, j) <= dist_add(fw(w, k - 1, i, k - 1), fw(w, k - 1, k - 1, j)));
    }
}

/// Realizability: every finite `fw` value is the weight of an actual walk.
pub proof fn lemma_fw_realizable(w: Seq<Seq<u64>>, n: int, k: int, i: int, j: int) -> (p: Seq<
    int,
>)
    requires
        square_matrix(w, n),
        0 <= k <= n,
        0 <= i < n,
        0 <= j < n,
        fw(w, k, i, j) < INF_DIST,
    ensures
        is_path(p, n, i, j),
        inner_below(p, k),
        path_weight(w, p) == fw(w, k, i, j),
    decreases k,
{
    if k == 0 {
        let p = seq![i, j];
        assert(path_weight(w, p) == w[i][j]);
        p
    } else {
        let a = fw(w, k - 1, i, j);
        let b = fw(w, k - 1, i, k - 1);
        let c = fw(w, k - 1, k - 1, j);
        if a <= dist_add(b, c) {
            let p = lemma_fw_realizable(w, n, k - 1, i, j);
            assert(inner_below(p, k));
            p
        } else {
            let p1 = lemma_fw_realizable(w, n, k - 1, i, k - 1);
            let p2 = lemma_fw_realizable(w, n, k - 1, k - 1, j);
            let p = p1 + p2.skip(1);
            lemma_path_weight_join(w, p1, p2);
            assert(p.len() == p1.len() + p2.len() - 1);
            assert(p[0] == i && p[p.len() - 1] == j);
            assert(vertices_in(p, n)) by {
                assert forall|m: int| 0 <= m < p.len() implies 0 <= #[trigger] p[m] < n by {
                    if m < p1.len() {
                        assert(p[m] == p1[m]);
                    } else {
                        assert(p[m] == p2.skip(1)[m - p1.len()]);
                        assert(p2.skip(1)[m - p1.len()] == p2[m - p1.len() + 1]);
                    }
                }
            }
            assert(inner_below(p, k)) by {
                assert forall|m: int| 1 <= m < p.len() - 1 implies #[trigger] p[m] < k by {
                    if m < p1.len() - 1 {
                        assert(p[m] == p1[m]);
                    } else if m == p1.len() - 1 {
                        assert(p[m] == p1[p1.len() - 1]);
                    } else {
                        assert(p[m] == p2[m - p1.len() + 1]);
                        assert(1 <= m - p1.len() + 1 < p2.len() - 1);
                    }
                }
            }
            p
        }
    }
}

/// Over an edgeless weight matrix every entry stays "+infinity".
pub proof fn lemma_fw_all_inf(w: Seq<Seq<u64>>, n: int, k: int, i: int, j: int)
    requires
        square_matrix(w, n),
        0 <= k <= n,
        0 <= i < n,
        0 <= j < n,
        forall|i2: int, j2: int| 0 <= i2 < n && 0 <= j2 < n ==> #[trigger] w[i2][j2] == INF_DIST,
    ensures
        fw(w, k, i, j) == INF_DIST,
    decreases k,
{
    if k > 0 {
        lemma_fw_all_inf(w, n, k - 1, i, j);
        lemma_fw_all_inf(w, n, k - 1, i, k - 1);
        lemma_fw_all_inf(w, n, k - 1, k - 1, j);
    }
}

/// Triangle inequality of the completed matrix.
pub proof fn lemma_fw_triangle(w: Seq<Seq<u64>>, n: int, a: int, b: int, c: int)
    requires
        square_matrix(w, n),
        0 <= a < n,
        0 <= b < n,
        0 <= c < n,
    ensures
        fw(w, n, a, c) <= dist_add(fw(w, n, a, b), fw(w, n, b, c)),
{
    let d1 = fw(w, n, a, b);
    let d2 = fw(w, n, b, c);
    if d1 < INF_DIST && d2 < INF_DIST {
        let p1 = lemma_fw_realizable(w, n, n, a, b);
        let p2 = lemma_fw_realizable(w, n, n, b, c);
        let p = p1 + p2.skip(1);
        lemma_path_weight_join(w, p1, p2);
        assert(p.len() == p1.len() + p2.len() - 1);
        assert(vertices_in(p, n) && inner_below(p, n)) by {
            assert forall|m: int| 0 <= m < p.len() implies 0 <= #[trigger] p[m] < n by {
                if m < p1.len() {
                    assert(p[m] == p1[m]);
                } else {
                    assert(p[m] == p2.skip(1)[m - p1.len()]);
                    assert(p2.skip(1)[m - p1.len()] == p2[m - p1.len() + 1]);
                }
            }
        }
        lemma_fw_le_path(w, n, n, p);
    }
}

/// A finite distance is witnessed by a walk whose every edge is finite.
pub proof fn lemma_fw_finite_has_path(w: Seq<Seq<u64>>, n: int, i: int, j: int) -> (p: Seq<int>)
    requires
        square_matrix(w, n),
        0 <= i < n,
        0 <= j < n,
        n >= 0,
        fw(w, n, i, j) < INF_DIST,
    ensures
        is_path(p, n, i, j),
        path_weight(w, p) == fw(w, n, i, j),
        forall|m: int| 0 <= m < p.len() - 1 ==> w[#[trigger] p[m]][p[m + 1]] < INF_DIST,
{
    let p = lemma_fw_realizable(w, n, n, i, j);
    lemma_path_weight_edges_finite(w, p);
    p
}

} // verus!
