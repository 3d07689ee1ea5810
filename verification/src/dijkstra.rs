//! Dijkstra's algorithm on a small dense graph.
//!
//! Nodes are `0..n`; `w[u][v]` is the weight of the edge `u -> v` when
//! present. Weights are I16F16 bits; path lengths are exact integer sums of
//! them. Weights must not be negative (distances never are).
use vstd::prelude::*;

verus! {

/// Weight of an edge, 0 when absent.
pub open spec fn wt(o: Option<i32>) -> int {
    match o {
        Some(x) => x as int,
        None => 0,
    }
}

/// `w` is an n x n matrix.
pub open spec fn square(w: Seq<Seq<Option<i32>>>) -> bool {
    forall|i: int| 0 <= i < w.len() ==> #[trigger] w[i].len() == w.len()
}

/// No edge has a negative weight.
pub open spec fn nonneg_weights(w: Seq<Seq<Option<i32>>>) -> bool {
    forall|i: int, j: int| 0 <= i < w.len() && 0 <= j < w.len() ==> wt(#[trigger] w[i][j]) >= 0
}

/// The edge from `p[k]` to `p[k + 1]` exists.
pub open spec fn step_ok(w: Seq<Seq<Option<i32>>>, p: Seq<int>, k: int) -> bool {
    w[p[k]][p[k + 1]] is Some
}

/// `p` is a path from `s` to `t`.
pub open spec fn is_path(w: Seq<Seq<Option<i32>>>, p: Seq<int>, s: int, t: int) -> bool {
    &&& p.len() >= 1
    &&& p[0] == s
    &&& p[p.len() - 1] == t
    &&& forall|k: int| 0 <= k < p.len() ==> 0 <= #[trigger] p[k] < w.len()
    &&& forall|k: int| 0 <= k < p.len() - 1 ==> #[trigger] step_ok(w, p, k)
}

/// Total weight of the edges along `p`.
pub open spec fn path_cost(w: Seq<Seq<Option<i32>>>, p: Seq<int>) -> int
    decreases p.len(),
{
    if p.len() <= 1 {
        0
    } else {
        path_cost(w, p.drop_last()) + wt(w[p[p.len() - 2]][p[p.len() - 1]])
    }
}

/// No path from `s` to `v` is shorter than `x`.
pub open spec fn optimal(w: Seq<Seq<Option<i32>>>, s: int, v: int, x: int) -> bool {
    forall|q: Seq<int>| #[trigger] is_path(w, q, s, v) ==> x <= path_cost(w, q)
}

/// There is a path from `s` to `v` of length `x`.
pub open spec fn achievable(w: Seq<Seq<Option<i32>>>, s: int, v: int, x: int) -> bool {
    exists|p: Seq<int>| #[trigger] is_path(w, p, s, v) && path_cost(w, p) == x
}

/// There is no path from `s` to `v`.
pub open spec fn no_path(w: Seq<Seq<Option<i32>>>, s: int, v: int) -> bool {
    forall|q: Seq<int>| !#[trigger] is_path(w, q, s, v)
}

/// `x` is the length of a shortest path from `s` to `v`.
pub open spec fn shortest(w: Seq<Seq<Option<i32>>>, s: int, v: int, x: int) -> bool {
    achievable(w, s, v, x) && optimal(w, s, v, x)
}

/// Distance values as integers.
pub open spec fn dv(d: Seq<Option<i64>>, v: int) -> int {
    match d[v] {
        Some(x) => x as int,
        None => 0,
    }
}

/// The predecessor tree left by the search: every reached node other than
/// the source has a predecessor that was settled earlier, joined by an edge
/// that accounts exactly for the difference in distance.
pub open spec fn prev_tree(
    w: Seq<Seq<Option<i32>>>,
    s: int,
    d: Seq<Option<i64>>,
    prev: Seq<Option<usize>>,
    rank: Seq<int>,
) -> bool {
    let n = w.len();
    &&& d.len() == n
    &&& prev.len() == n
    &&& rank.len() == n
    &&& 0 <= s < n
    &&& d[s] == Some(0i64)
    &&& prev[s] is None
    &&& forall|v: int| 0 <= v < n ==> 0 <= #[trigger] rank[v] <= n
    &&& forall|v: int| 0 <= v < n ==> (#[trigger] d[v] matches Some(x) ==> x >= 0)
    &&& forall|v: int|
        0 <= v < n ==> (#[trigger] prev[v] matches Some(u) ==> {
            &&& u < n
            &&& d[u as int] is Some
            &&& d[v] is Some
            &&& w[u as int][v] is Some
            &&& dv(d, v) == dv(d, u as int) + wt(w[u as int][v])
            &&& rank[u as int] < rank[v]
        })
    &&& forall|v: int| 0 <= v < n && v != s && (#[trigger] d[v]) is Some ==> prev[v] is Some
}

/// Prefixes of paths are paths.
pub proof fn lemma_prefix_path(w: Seq<Seq<Option<i32>>>, p: Seq<int>, s: int, t: int, k: int)
    requires
        is_path(w, p, s, t),
        1 <= k <= p.len(),
    ensures
        is_path(w, p.take(k), s, p[k - 1]),
{
    let q = p.take(k);
    assert forall|j: int| 0 <= j < q.len() - 1 implies #[trigger] step_ok(w, q, j) by {
        assert(step_ok(w, p, j));
    }
    assert forall|j: int| 0 <= j < q.len() implies 0 <= #[trigger] q[j] < w.len() by {
        assert(0 <= p[j] < w.len());
    }
}

/// Extending a path by one edge.
pub proof fn lemma_extend_path(w: Seq<Seq<Option<i32>>>, p: Seq<int>, s: int, u: int, v: int)
    requires
        is_path(w, p, s, u),
        0 <= v < w.len(),
        w[u][v] is Some,
    ensures
        is_path(w, p.push(v), s, v),
        path_cost(w, p.push(v)) == path_cost(w, p) + wt(w[u][v]),
{
    let q = p.push(v);
    assert(q.drop_last() =~= p);
    assert forall|j: int| 0 <= j < q.len() - 1 implies #[trigger] step_ok(w, q, j) by {
        if j < p.len() - 1 {
            assert(step_ok(w, p, j));
        }
    }
    assert forall|j: int| 0 <= j < q.len() implies 0 <= #[trigger] q[j] < w.len() by {
        if j < p.len() {
            assert(0 <= p[j] < w.len());
        }
    }
}

/// Path lengths are not negative.
pub proof fn lemma_cost_nonneg(w: Seq<Seq<Option<i32>>>, p: Seq<int>, s: int, t: int)
    requires
        square(w),
        nonneg_weights(w),
        is_path(w, p, s, t),
    ensures
        path_cost(w, p) >= 0,
    decreases p.len(),
{
    if p.len() > 1 {
        lemma_prefix_path(w, p, s, t, p.len() - 1);
        assert(p.take(p.len() - 1) =~= p.drop_last());
        lemma_cost_nonneg(w, p.drop_last(), s, p[p.len() - 2]);
        assert(0 <= p[p.len() - 2] < w.len());
        assert(0 <= p[p.len() - 1] < w.len());
    }
}

/// A prefix is no longer than the whole path.
pub proof fn lemma_cost_prefix(w: Seq<Seq<Option<i32>>>, p: Seq<int>, s: int, t: int, k: int)
    requires
        square(w),
        nonneg_weights(w),
        is_path(w, p, s, t),
        1 <= k <= p.len(),
    ensures
        path_cost(w, p.take(k)) <= path_cost(w, p),
    decreases p.len() - k,
{
    if k < p.len() {
        lemma_cost_prefix(w, p, s, t, k + 1);
        assert(p.take(k + 1).drop_last() =~= p.take(k));
        assert(0 <= p[k - 1] < w.len());
        assert(0 <= p[k] < w.len());
    } else {
        assert(p.take(k) =~= p);
    }
}

/// Prepending an edge to a path.
pub proof fn lemma_cost_prepend(w: Seq<Seq<Option<i32>>>, u: int, p: Seq<int>)
    requires
        p.len() >= 1,
    ensures
        path_cost(w, seq![u] + p) == wt(w[u][p[0]]) + path_cost(w, p),
    decreases p.len(),
{
    let q = seq![u] + p;
    if p.len() > 1 {
        assert(q.drop_last() =~= seq![u] + p.drop_last());
        lemma_cost_prepend(w, u, p.drop_last());
        assert(q[q.len() - 2] == p[p.len() - 2]);
        assert(q[q.len() - 1] == p[p.len() - 1]);
        assert(p.drop_last()[0] == p[0]);
        assert(path_cost(w, q) == path_cost(w, q.drop_last()) + wt(w[q[q.len() - 2]][q[q.len() - 1]]));
        assert(path_cost(w, p) == path_cost(w, p.drop_last()) + wt(w[p[p.len() - 2]][p[p.len() - 1]]));
    } else {
        assert(q.drop_last() =~= seq![u]);
        assert(q[0] == u);
        assert(q[1] == p[0]);
        assert(path_cost(w, seq![u]) == 0);
        assert(path_cost(w, q) == path_cost(w, q.drop_last()) + wt(w[q[0]][q[1]]));
    }
}

/// The first node of a path that is not settled, when its end is not.
pub proof fn lemma_first_unsettled(visited: Seq<bool>, q: Seq<int>) -> (k: int)
    requires
        q.len() >= 1,
        forall|j: int| 0 <= j < q.len() ==> 0 <= #[trigger] q[j] < visited.len(),
        !visited[q[q.len() - 1]],
    ensures
        0 <= k < q.len(),
        !visited[q[k]],
        forall|j: int| 0 <= j < k ==> visited[#[trigger] q[j]],
    decreases q.len(),
{
    if q.len() == 1 || !visited[q[0]] {
        0
    } else {
        let r = q.drop_first();
        assert forall|j: int| 0 <= j < r.len() implies 0 <= #[trigger] r[j] < visited.len() by {
            assert(r[j] == q[j + 1]);
        }
        let k1 = lemma_first_unsettled(visited, r);
        assert forall|j: int| 0 <= j < k1 + 1 implies visited[#[trigger] q[j]] by {
            if j > 0 {
                assert(q[j] == r[j - 1]);
            }
        }
        k1 + 1
    }
}

/// Number of `true` entries.
pub open spec fn count_true(s: Seq<bool>) -> int
    decreases s.len(),
{
    if s.len() == 0 {
        0
    } else {
        count_true(s.drop_last()) + if s.last() {
            1int
        } else {
            0
        }
    }
}

proof fn lemma_count_true_bounds(s: Seq<bool>)
    ensures
        0 <= count_true(s) <= s.len(),
    decreases s.len(),
{
    if s.len() > 0 {
        lemma_count_true_bounds(s.drop_last());
    }
}

proof fn lemma_count_true_set(s: Seq<bool>, i: int)
    requires
        0 <= i < s.len(),
        !s[i],
    ensures
        count_true(s.update(i, true)) == count_true(s) + 1,
    decreases s.len(),
{
    if i == s.len() - 1 {
        assert(s.update(i, true).drop_last() =~= s.drop_last());
    } else {
        lemma_count_true_set(s.drop_last(), i);
        assert(s.update(i, true).drop_last() =~= s.drop_last().update(i, true));
    }
}

/// Every node reached by the predecessor tree has a path of exactly its
/// distance.
pub proof fn lemma_tree_path(
    w: Seq<Seq<Option<i32>>>,
    s: int,
    d: Seq<Option<i64>>,
    prev: Seq<Option<usize>>,
    rank: Seq<int>,
    v: int,
)
    requires
        prev_tree(w, s, d, prev, rank),
        0 <= v < w.len(),
        d[v] is Some,
    ensures
        achievable(w, s, v, dv(d, v)),
    decreases rank[v],
{
    if v == s {
        let p = seq![s];
        assert(is_path(w, p, s, v));
    } else {
        assert(prev[v] is Some);
        let u = prev[v]->0 as int;
        lemma_tree_path(w, s, d, prev, rank, u);
        let p = choose|p: Seq<int>| #[trigger] is_path(w, p, s, u) && path_cost(w, p) == dv(d, u);
        lemma_extend_path(w, p, s, u, v);
        assert(is_path(w, p.push(v), s, v));
    }
}

/// Every edge from a settled node `u` to an unsettled node `v` has been
/// relaxed, except those from `cur` to nodes at or after `j`.
pub open spec fn relaxed_except(
    w: Seq<Seq<Option<i32>>>,
    d: Seq<Option<i64>>,
    visited: Seq<bool>,
    cur: int,
    j: int,
) -> bool {
    forall|u: int, v: int|
        0 <= u < w.len() && 0 <= v < w.len() && visited[u] && !visited[v] && (#[trigger] w[u][v])
            is Some && (u != cur || v < j) ==> d[v] is Some && dv(d, v) <= dv(d, u) + wt(w[u][v])
}

/// The bookkeeping part of the search invariant.
pub open spec fn search_core(
    w: Seq<Seq<Option<i32>>>,
    s: int,
    stop: Option<usize>,
    d: Seq<Option<i64>>,
    prev: Seq<Option<usize>>,
    visited: Seq<bool>,
    rank: Seq<int>,
    c: int,
) -> bool {
    let n = w.len();
    &&& prev_tree(w, s, d, prev, rank)
    &&& visited.len() == n
    &&& 0 <= c <= n
    &&& c == count_true(visited)
    &&& forall|v: int| 0 <= v < n ==> (#[trigger] d[v] matches Some(x) ==> x <= c * 0x7fff_ffff)
    &&& forall|v: int| 0 <= v < n && #[trigger] visited[v] ==> d[v] is Some && rank[v] < c
    &&& forall|v: int| 0 <= v < n && !(#[trigger] visited[v]) ==> rank[v] == n
    &&& forall|v: int| 0 <= v < n ==> (#[trigger] prev[v] matches Some(u) ==> visited[u as int])
    &&& forall|v: int| 0 <= v < n && #[trigger] visited[v] ==> optimal(w, s, v, dv(d, v))
    &&& (stop matches Some(t) ==> t < n && !visited[t as int])
}

/// The invariant of the search loop.
pub open spec fn search_inv(
    w: Seq<Seq<Option<i32>>>,
    s: int,
    stop: Option<usize>,
    d: Seq<Option<i64>>,
    prev: Seq<Option<usize>>,
    visited: Seq<bool>,
    rank: Seq<int>,
    c: int,
) -> bool {
    &&& search_core(w, s, stop, d, prev, visited, rank, c)
    &&& relaxed_except(w, d, visited, -1, 0)
}

/// The node picked next (unsettled, reached, and no farther than any other
/// unsettled reached node) is at its shortest distance.
proof fn lemma_cut(
    w: Seq<Seq<Option<i32>>>,
    s: int,
    stop: Option<usize>,
    d: Seq<Option<i64>>,
    prev: Seq<Option<usize>>,
    visited: Seq<bool>,
    rank: Seq<int>,
    c: int,
    x: int,
)
    requires
        square(w),
        nonneg_weights(w),
        search_inv(w, s, stop, d, prev, visited, rank, c),
        0 <= x < w.len(),
        !visited[x],
        d[x] is Some,
        forall|v: int| 0 <= v < w.len() && !visited[v] && (#[trigger] d[v]) is Some ==> dv(d, x) <= dv(d, v),
    ensures
        optimal(w, s, x, dv(d, x)),
{
    assert forall|q: Seq<int>| #[trigger] is_path(w, q, s, x) implies dv(d, x) <= path_cost(w, q) by {
        let k = lemma_first_unsettled(visited, q);
        lemma_cost_nonneg(w, q, s, x);
        if k == 0 {
            assert(d[s] is Some);
        } else {
            let z = q[k - 1];
            let y = q[k];
            assert(step_ok(w, q, k - 1));
            assert(visited[z]);
            assert(0 <= z < w.len());
            assert(0 <= y < w.len());
            lemma_prefix_path(w, q, s, x, k);
            assert(is_path(w, q.take(k), s, z));
            assert(dv(d, z) <= path_cost(w, q.take(k)));
            lemma_cost_prefix(w, q, s, x, k + 1);
            assert(q.take(k + 1).drop_last() =~= q.take(k));
            assert(d[y] is Some);
        }
    }
}

/// With nothing left to settle, unsettled nodes cannot be reached.
proof fn lemma_exhausted(
    w: Seq<Seq<Option<i32>>>,
    s: int,
    stop: Option<usize>,
    d: Seq<Option<i64>>,
    prev: Seq<Option<usize>>,
    visited: Seq<bool>,
    rank: Seq<int>,
    c: int,
    x: int,
)
    requires
        search_inv(w, s, stop, d, prev, visited, rank, c),
        forall|v: int| 0 <= v < w.len() && !visited[v] ==> (#[trigger] d[v]) is None,
        0 <= x < w.len(),
        !visited[x],
    ensures
        no_path(w, s, x),
{
    assert forall|q: Seq<int>| !#[trigger] is_path(w, q, s, x) by {
        if is_path(w, q, s, x) {
            let k = lemma_first_unsettled(visited, q);
            if k > 0 {
                assert(step_ok(w, q, k - 1));
                assert(0 <= q[k - 1] < w.len());
                assert(0 <= q[k] < w.len());
            }
        }
    }
}

/// Runs the search from `s`. With `stop == Some(t)` it stops as soon as `t`
/// is the next node to settle; otherwise it settles every reachable node.
/// The search's choice of the next node to settle among indices below `i`:
/// the first unsettled reached node of least distance.
pub open spec fn pick_best(d: Seq<Option<i64>>, visited: Seq<bool>, i: int) -> Option<usize>
    decreases i,
{
    if i <= 0 {
        None
    } else {
        let b = pick_best(d, visited, i - 1);
        let v = i - 1;
        if !visited[v] && d[v] is Some {
            match b {
                None => Some(v as usize),
                Some(bb) => if dv(d, v) < dv(d, bb as int) {
                    Some(v as usize)
                } else {
                    b
                },
            }
        } else {
            b
        }
    }
}

/// Distances and predecessors after relaxing the edges from `cur` (at
/// distance `dcur`) to the unsettled nodes below `j`.
pub open spec fn relax_spec(
    w: Seq<Seq<Option<i32>>>,
    d: Seq<Option<i64>>,
    prev: Seq<Option<usize>>,
    visited: Seq<bool>,
    cur: usize,
    dcur: i64,
    j: int,
) -> (Seq<Option<i64>>, Seq<Option<usize>>)
    decreases j,
{
    if j <= 0 {
        (d, prev)
    } else {
        let st = relax_spec(w, d, prev, visited, cur, dcur, j - 1);
        let v = j - 1;
        if !visited[v] && w[cur as int][v] is Some {
            let nd = dcur + w[cur as int][v]->0;
            if st.0[v] is None || nd < dv(st.0, v) {
                (st.0.update(v, Some(nd as i64)), st.1.update(v, Some(cur)))
            } else {
                st
            }
        } else {
            st
        }
    }
}

/// One round of the search: settle the best node and relax its edges;
/// `None` when the search stops (nothing left to settle, or the best node
/// is the target).
pub open spec fn search_step(
    w: Seq<Seq<Option<i32>>>,
    stop: Option<usize>,
    st: (Seq<Option<i64>>, Seq<Option<usize>>, Seq<bool>),
) -> Option<(Seq<Option<i64>>, Seq<Option<usize>>, Seq<bool>)> {
    match pick_best(st.0, st.2, w.len() as int) {
        None => None,
        Some(cur) => if stop == Some(cur) {
            None
        } else {
            let vis = st.2.update(cur as int, true);
            let r = relax_spec(w, st.0, st.1, vis, cur, dv(st.0, cur as int) as i64, w.len() as int);
            Some((r.0, r.1, vis))
        },
    }
}

/// The search state after at most `fuel` rounds.
pub open spec fn search_run(
    w: Seq<Seq<Option<i32>>>,
    stop: Option<usize>,
    st: (Seq<Option<i64>>, Seq<Option<usize>>, Seq<bool>),
    fuel: nat,
) -> (Seq<Option<i64>>, Seq<Option<usize>>, Seq<bool>)
    decreases fuel,
{
    if fuel == 0 {
        st
    } else {
        match search_step(w, stop, st) {
            None => st,
            Some(st2) => search_run(w, stop, st2, (fuel - 1) as nat),
        }
    }
}

/// Where the search starts: only the source reached, nothing settled.
pub open spec fn search_init(n: int, s: int) -> (Seq<Option<i64>>, Seq<Option<usize>>, Seq<bool>) {
    (
        Seq::new(n as nat, |j: int| if j == s { Some(0i64) } else { None }),
        Seq::new(n as nat, |j: int| None::<usize>),
        Seq::new(n as nat, |j: int| false),
    )
}

/// The search's final state: it settles at most one node per round, so
/// `n + 1` rounds always reach the end.
pub open spec fn search_result(w: Seq<Seq<Option<i32>>>, s: int, stop: Option<usize>) -> (
    Seq<Option<i64>>,
    Seq<Option<usize>>,
    Seq<bool>,
) {
    search_run(w, stop, search_init(w.len() as int, s), (w.len() + 1) as nat)
}

fn search(w: &Vec<Vec<Option<i32>>>, s: usize, stop: Option<usize>) -> (r: (
    Vec<Option<i64>>,
    Vec<Option<usize>>,
    Ghost<Seq<int>>,
))
    requires
        w.len() <= 10,
        square(w.deep_view()),
        nonneg_weights(w.deep_view()),
        s < w.len(),
        stop matches Some(t) ==> t < w.len(),
    ensures
        prev_tree(w.deep_view(), s as int, r.0@, r.1@, r.2@),
        r.0@ == search_result(w.deep_view(), s as int, stop).0,
        r.1@ == search_result(w.deep_view(), s as int, stop).1,
        forall|v: int| 0 <= v < w.len() ==> (#[trigger] r.0@[v] matches Some(x) ==> x <= 10 * 0x7fff_ffff),
        stop is None ==> forall|v: int|
            0 <= v < w.len() ==> {
                &&& (#[trigger] r.0@[v] is Some ==> shortest(w.deep_view(), s as int, v, dv(r.0@, v)))
                &&& (r.0@[v] is None ==> no_path(w.deep_view(), s as int, v))
            },
        stop matches Some(t) ==> {
            &&& (r.0@[t as int] is Some ==> shortest(
                w.deep_view(),
                s as int,
                t as int,
                dv(r.0@, t as int),
            ))
            &&& (r.0@[t as int] is None ==> no_path(w.deep_view(), s as int, t as int))
        },
{
    let n = w.len();
    let ghost g = w.deep_view();
    let mut d: Vec<Option<i64>> = Vec::new();
    let mut prev: Vec<Option<usize>> = Vec::new();
    let mut visited: Vec<bool> = Vec::new();
    for i in 0..n
        invariant
            d.len() == i,
            prev.len() == i,
            visited.len() == i,
            forall|j: int| 0 <= j < i ==> #[trigger] d@[j] == (if j == s { Some(0i64) } else { None }),
            forall|j: int| 0 <= j < i ==> #[trigger] prev@[j] is None,
            forall|j: int| 0 <= j < i ==> !#[trigger] visited@[j],
            count_true(visited@) == 0,
    {
        if i == s {
            d.push(Some(0));
        } else {
            d.push(None);
        }
        prev.push(None);
        assert(visited@.push(false).drop_last() =~= visited@);
        visited.push(false);
    }
    let ghost mut rank: Seq<int> = Seq::new(n as nat, |v: int| n as int);
    let ghost mut c: int = 0;
    assert(g.len() == n);
    assert(d@ =~= search_init(n as int, s as int).0);
    assert(prev@ =~= search_init(n as int, s as int).1);
    assert(visited@ =~= search_init(n as int, s as int).2);
    loop
        invariant
            n == w.len(),
            n <= 10,
            g == w.deep_view(),
            square(g),
            nonneg_weights(g),
            s < n,
            search_inv(g, s as int, stop, d@, prev@, visited@, rank, c),
            search_run(g, stop, (d@, prev@, visited@), (n + 1 - c) as nat) == search_result(
                g,
                s as int,
                stop,
            ),
        ensures
            search_inv(g, s as int, stop, d@, prev@, visited@, rank, c),
            (d@, prev@, visited@) == search_result(g, s as int, stop),
            stop is None ==> forall|v: int|
                0 <= v < n && !visited@[v] ==> (#[trigger] d@[v]) is None,
            stop matches Some(t) ==> (d@[t as int] is Some ==> optimal(
                g,
                s as int,
                t as int,
                dv(d@, t as int),
            )) && (d@[t as int] is None ==> forall|v: int|
                0 <= v < n && !visited@[v] ==> (#[trigger] d@[v]) is None),
        decreases n - c,
    {
        // The first unsettled node of least distance.
        let ghost st0 = (d@, prev@, visited@);
        let mut best: Option<usize> = None;
        for i in 0..n
            invariant
                n == w.len(),
                d.len() == n,
                visited.len() == n,
                best == pick_best(d@, visited@, i as int),
                best matches Some(b) ==> b < i && !visited@[b as int] && d@[b as int] is Some,
                best matches Some(b) ==> forall|v: int|
                    0 <= v < i && !visited@[v] && (#[trigger] d@[v]) is Some ==> dv(d@, b as int)
                        <= dv(d@, v),
                best is None ==> forall|v: int|
                    0 <= v < i && !visited@[v] ==> (#[trigger] d@[v]) is None,
        {
            if !visited[i] {
                match d[i] {
                    Some(di) => {
                        match best {
                            None => {
                                best = Some(i);
                            },
                            Some(b) => {
                                let db = d[b].unwrap();
                                if di < db {
                                    best = Some(i);
                                }
                            },
                        }
                    },
                    None => {},
                }
            }
        }
        proof {
            assert(c <= n);
        }
        let cur = match best {
            Some(b) => b,
            None => {
                break ;
            },
        };
        proof {
            lemma_cut(g, s as int, stop, d@, prev@, visited@, rank, c, cur as int);
        }
        if stop == Some(cur) {
            break ;
        }
        let dcur = d[cur].unwrap();
        proof {
            lemma_count_true_set(visited@, cur as int);
            lemma_count_true_bounds(visited@.update(cur as int, true));
            assert(dcur <= c * 0x7fff_ffff);
        }
        let ghost old_visited = visited@;
        let ghost old_rank = rank;
        visited.set(cur, true);
        proof {
            rank = rank.update(cur as int, c);
            c = c + 1;
            assert forall|v: int| 0 <= v < n && #[trigger] visited@[v] implies optimal(
                g,
                s as int,
                v,
                dv(d@, v),
            ) by {
                if v != cur {
                    assert(old_visited[v]);
                }
            }
            assert forall|v: int| 0 <= v < n implies (#[trigger] prev@[v] matches Some(u) ==> {
                &&& u < n
                &&& d@[u as int] is Some
                &&& d@[v] is Some
                &&& g[u as int][v] is Some
                &&& dv(d@, v) == dv(d@, u as int) + wt(g[u as int][v])
                &&& rank[u as int] < rank[v]
            }) by {
                if prev@[v] is Some {
                    let u = prev@[v]->0 as int;
                    assert(old_visited[u]);
                    assert(old_rank[u] < c - 1);
                    assert(u != cur);
                }
            }
            assert(relaxed_except(g, d@, visited@, cur as int, 0)) by {
                assert forall|u: int, v: int|
                    0 <= u < g.len() && 0 <= v < g.len() && visited@[u] && !visited@[v] && (
                    #[trigger] g[u][v]) is Some && (u != cur || v < 0) implies d@[v] is Some && dv(
                    d@,
                    v,
                ) <= dv(d@, u) + wt(g[u][v]) by {
                    assert(old_visited[u]);
                    assert(!old_visited[v]);
                }
            }
        }
        let ghost d0 = d@;
        let ghost p0 = prev@;
        for j in 0..n
            invariant
                n == w.len(),
                n <= 10,
                (d@, prev@) == relax_spec(g, d0, p0, visited@, cur, dcur, j as int),
                g == w.deep_view(),
                square(g),
                nonneg_weights(g),
                s < n,
                cur < n,
                visited@[cur as int],
                d@[cur as int] == Some(dcur),
                0 <= dcur <= (c - 1) * 0x7fff_ffff,
                rank[cur as int] == c - 1,
                search_core(g, s as int, stop, d@, prev@, visited@, rank, c),
                relaxed_except(g, d@, visited@, cur as int, j as int),
        {
            if !visited[j] {
                assert(g[cur as int].len() == n);
                match w[cur][j] {
                    Some(x) => {
                        assert(g[cur as int][j as int] == Some(x));
                        let nd: i64 = dcur + x as i64;
                        let better = match d[j] {
                            None => true,
                            Some(dj) => nd < dj,
                        };
                        if better {
                            d.set(j, Some(nd));
                            prev.set(j, Some(cur));
                        }
                    },
                    None => {},
                }
            }
        }
        assert(relaxed_except(g, d@, visited@, -1, 0)) by {
            assert forall|u: int, v: int|
                0 <= u < g.len() && 0 <= v < g.len() && visited@[u] && !visited@[v] && (
                #[trigger] g[u][v]) is Some && (u != -1 || v < 0) implies d@[v] is Some && dv(
                d@,
                v,
            ) <= dv(d@, u) + wt(g[u][v]) by {
                assert(relaxed_except(g, d@, visited@, cur as int, n as int));
            }
        }
        proof {
            assert(search_step(g, stop, st0) == Some((d@, prev@, visited@)));
            assert(search_run(g, stop, st0, (n + 1 - (c - 1)) as nat) == search_run(
                g,
                stop,
                (d@, prev@, visited@),
                (n + 1 - c) as nat,
            ));
        }
    }
    proof {
        assert forall|v: int| 0 <= v < n implies (#[trigger] d@[v] matches Some(x) ==> x <= 10 * 0x7fff_ffff) by {
            if d@[v] is Some {
                assert(c * 0x7fff_ffff <= 10 * 0x7fff_ffff) by (nonlinear_arith)
                    requires
                        c <= 10,
                ;
            }
        }
        if stop is None {
            assert forall|v: int| 0 <= v < n implies {
                &&& (#[trigger] d@[v] is Some ==> shortest(g, s as int, v, dv(d@, v)))
                &&& (d@[v] is None ==> no_path(g, s as int, v))
            } by {
                if d@[v] is Some {
                    assert(visited@[v]);
                    lemma_tree_path(g, s as int, d@, prev@, rank, v);
                } else {
                    lemma_exhausted(g, s as int, stop, d@, prev@, visited@, rank, c, v);
                }
            }
        } else {
            let t = stop->0 as int;
            if d@[t] is Some {
                lemma_tree_path(g, s as int, d@, prev@, rank, t);
            } else {
                lemma_exhausted(g, s as int, stop, d@, prev@, visited@, rank, c, t);
            }
        }
    }
    (d, prev, Ghost(rank))
}

/// A sequence of node indices as integers.
pub open spec fn as_ints(p: Seq<usize>) -> Seq<int> {
    p.map_values(|x: usize| x as int)
}

/// The path to `v` read off the predecessor links, following at most `fuel`
/// links back.
pub open spec fn walk_back(prev: Seq<Option<usize>>, v: usize, fuel: nat) -> Seq<usize>
    decreases fuel,
{
    if fuel == 0 {
        seq![v]
    } else {
        match prev[v as int] {
            None => seq![v],
            Some(u) => walk_back(prev, u, (fuel - 1) as nat).push(v),
        }
    }
}

/// The path `shortest_path` returns: the search stopped at `t`, then the
/// predecessor links followed back from `t`; `None` when `t` was not
/// reached.
pub open spec fn shortest_path_spec(w: Seq<Seq<Option<i32>>>, s: int, t: usize) -> Option<Seq<usize>> {
    let st = search_result(w, s, Some(t));
    if st.0[t as int] is None {
        None
    } else {
        Some(walk_back(st.1, t, (w.len() + 1) as nat))
    }
}

/// Follows the predecessor tree back from `t` to the source and returns the
/// path from the source to `t`.
fn reconstruct(
    prev: &Vec<Option<usize>>,
    t: usize,
    Ghost(w): Ghost<Seq<Seq<Option<i32>>>>,
    Ghost(s): Ghost<int>,
    Ghost(d): Ghost<Seq<Option<i64>>>,
    Ghost(rank): Ghost<Seq<int>>,
) -> (p: Vec<usize>)
    requires
        prev_tree(w, s, d, prev@, rank),
        t < w.len(),
        d[t as int] is Some,
    ensures
        is_path(w, as_ints(p@), s, t as int),
        path_cost(w, as_ints(p@)) == dv(d, t as int),
        p@.no_duplicates(),
        p@ == walk_back(prev@, t, (w.len() + 1) as nat),
{
    let mut path: Vec<usize> = Vec::new();
    path.push(t);
    let mut cur = t;
    assert(is_path(w, as_ints(path@), t as int, t as int));
    loop
        invariant
            prev_tree(w, s, d, prev@, rank),
            t < w.len(),
            cur < w.len(),
            d[cur as int] is Some,
            path@.len() >= 1,
            path@[0] == cur,
            is_path(w, as_ints(path@), cur as int, t as int),
            path_cost(w, as_ints(path@)) == dv(d, t as int) - dv(d, cur as int),
            forall|i: int, j: int|
                0 <= i < j < path@.len() ==> rank[#[trigger] path@[i] as int] < rank[#[trigger] path@[j] as int],
            rank[cur as int] + path@.len() - 1 <= rank[t as int],
            walk_back(prev@, t, (w.len() + 1) as nat) == walk_back(
                prev@,
                cur,
                (w.len() + 2 - path@.len()) as nat,
            ) + path@.drop_first(),
        ensures
            cur as int == s,
            walk_back(prev@, t, (w.len() + 1) as nat) == path@,
            is_path(w, as_ints(path@), s, t as int),
            path_cost(w, as_ints(path@)) == dv(d, t as int),
            forall|i: int, j: int|
                0 <= i < j < path@.len() ==> rank[#[trigger] path@[i] as int] < rank[#[trigger] path@[j] as int],
        decreases rank[cur as int],
    {
        match prev[cur] {
            None => {
                assert(cur as int == s);
                proof {
                    let f = (w.len() + 2 - path@.len()) as nat;
                    assert(walk_back(prev@, cur, f) == seq![cur]);
                    assert(seq![cur] + path@.drop_first() =~= path@);
                }
                break ;
            },
            Some(u) => {
                let ghost old_path = as_ints(path@);
                let ghost old_raw = path@;
                proof {
                    let f = (w.len() + 2 - old_raw.len()) as nat;
                    assert(rank[u as int] < rank[cur as int]);
                    assert(rank[t as int] <= w.len());
                    assert(f >= 1);
                    assert(walk_back(prev@, cur, f) == walk_back(prev@, u, (f - 1) as nat).push(cur));
                    assert(walk_back(prev@, u, (f - 1) as nat).push(cur) + old_raw.drop_first()
                        =~= walk_back(prev@, u, (f - 1) as nat) + (seq![u] + old_raw).drop_first());
                }
                path.insert(0, u);
                proof {
                    assert(path@ =~= seq![u] + old_raw);
                    assert forall|i: int, j: int| 0 <= i < j < path@.len() implies rank[#[trigger] path@[i] as int]
                        < rank[#[trigger] path@[j] as int] by {
                        if i == 0 {
                            assert(path@[j] == old_raw[j - 1]);
                            if j > 1 {
                                assert(rank[old_raw[0] as int] < rank[old_raw[j - 1] as int]);
                            }
                        } else {
                            assert(path@[i] == old_raw[i - 1]);
                            assert(path@[j] == old_raw[j - 1]);
                        }
                    }
                    let np = as_ints(path@);
                    assert(np =~= seq![u as int] + old_path);
                    lemma_cost_prepend(w, u as int, old_path);
                    assert forall|k: int| 0 <= k < np.len() - 1 implies #[trigger] step_ok(
                        w,
                        np,
                        k,
                    ) by {
                        if k > 0 {
                            assert(step_ok(w, old_path, k - 1));
                        }
                    }
                    assert forall|k: int| 0 <= k < np.len() implies 0 <= #[trigger] np[k] < w.len() by {
                        if k > 0 {
                            assert(0 <= old_path[k - 1] < w.len());
                        }
                    }
                }
                cur = u;
            },
        }
    }
    assert(path@.no_duplicates()) by {
        assert forall|i: int, j: int| 0 <= i < path@.len() && 0 <= j < path@.len() && i != j implies path@[i]
            != path@[j] by {
            if i < j {
                assert(rank[path@[i] as int] < rank[path@[j] as int]);
            } else {
                assert(rank[path@[j] as int] < rank[path@[i] as int]);
            }
        }
    }
    path
}

/// Shortest path from `s` to `t`, when `t` can be reached.
pub fn shortest_path(w: &Vec<Vec<Option<i32>>>, s: usize, t: usize) -> (r: Option<Vec<usize>>)
    requires
        w.len() <= 10,
        square(w.deep_view()),
        nonneg_weights(w.deep_view()),
        s < w.len(),
        t < w.len(),
    ensures
        r is None <==> no_path(w.deep_view(), s as int, t as int),
        r matches Some(p) ==> is_path(w.deep_view(), as_ints(p@), s as int, t as int) && optimal(
            w.deep_view(),
            s as int,
            t as int,
            path_cost(w.deep_view(), as_ints(p@)),
        ),
        r matches Some(p) ==> p@.no_duplicates(),
        match r {
            Some(p) => shortest_path_spec(w.deep_view(), s as int, t) == Some(p@),
            None => shortest_path_spec(w.deep_view(), s as int, t) is None,
        },
{
    let (d, prev, Ghost(rank)) = search(w, s, Some(t));
    match d[t] {
        None => None,
        Some(_) => {
            let p = reconstruct(&prev, t, Ghost(w.deep_view()), Ghost(s as int), Ghost(d@), Ghost(rank));
            proof {
                if no_path(w.deep_view(), s as int, t as int) {
                    assert(!is_path(w.deep_view(), as_ints(p@), s as int, t as int));
                }
            }
            Some(p)
        },
    }
}

/// Shortest distances from `s` to every node (`None` when unreachable).
pub fn shortest_distances(w: &Vec<Vec<Option<i32>>>, s: usize) -> (d: Vec<Option<i64>>)
    requires
        w.len() <= 10,
        square(w.deep_view()),
        nonneg_weights(w.deep_view()),
        s < w.len(),
    ensures
        d.len() == w.len(),
        forall|v: int| 0 <= v < w.len() ==> (#[trigger] d@[v] matches Some(x) ==> 0 <= x <= 10 * 0x7fff_ffff),
        forall|v: int|
            0 <= v < w.len() ==> {
                &&& (#[trigger] d@[v] is Some ==> shortest(w.deep_view(), s as int, v, dv(d@, v)))
                &&& (d@[v] is None ==> no_path(w.deep_view(), s as int, v))
            },
{
    let (d, _prev, Ghost(rank)) = search(w, s, None);
    assert(prev_tree(w.deep_view(), s as int, d@, _prev@, rank));
    d
}

} // verus!
